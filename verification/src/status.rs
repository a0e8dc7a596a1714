//! The aggregated deployment status of all configured servers: one snapshot
//! per poll, built from what each server answered.

use vstd::prelude::*;
use vstd::string::StringExecFns;

use crate::api::{api_error_text, or_empty, status_name, ApiError, Application, Deployment, DeploymentStatus};
use crate::config::{config_error_text, Config, ConfigError, Server};
use crate::order::{is_stable_order, key_views, law_stable_order_is_unique, sort_by_keys};
use crate::text::{
    chars_of, find, find_chars, join, join_strings, law_trim_is_idempotent, lowercase, opt_view, seq_le,
    string_from_chars, to_lowercase, trim, trim_string, views,
};

verus! {

#[derive(Debug, Clone, Copy, PartialEq, Eq, Structural)]
pub enum State {
    /// Serialized as `ok`.
    Okay,
    Error,
}

#[derive(Debug, Clone, PartialEq)]
pub struct Status {
    pub state: State,
    pub error: Option<String>,
    pub servers: Option<Vec<ServerStatus>>,
}

#[derive(Debug, Clone, PartialEq)]
pub struct ServerStatus {
    pub name: String,
    pub url: String,
    pub online: bool,
    pub running: u32,
    pub queued: u32,
    pub failed: u32,
    pub error: Option<String>,
    pub apps: Vec<AppStatus>,
}

#[derive(Debug, Clone, PartialEq)]
pub struct AppStatus {
    pub uuid: String,
    pub name: String,
    pub fqdn: Option<String>,
    /// Why the app's deployments could not be fetched, if they could not.
    pub error: Option<String>,
    pub deployments: Vec<DeploymentItem>,
}

#[derive(Debug, Clone, PartialEq)]
pub struct DeploymentItem {
    pub id: Option<u64>,
    pub status: String,
    pub commit: Option<String>,
    pub commit_message: Option<String>,
    pub created_at: Option<String>,
    pub deployment_url: Option<String>,
}

impl Status {
    pub fn error(message: String) -> (r: Status)
        ensures
            r.state == State::Error,
            r.error == Some(message),
            r.servers is None,
    {
        Status { state: State::Error, error: Some(message), servers: None }
    }

    pub fn ok(servers: Vec<ServerStatus>) -> (r: Status)
        ensures
            r.state == State::Okay,
            r.error is None,
            r.servers == Some(servers),
    {
        Status { state: State::Okay, error: None, servers: Some(servers) }
    }
}

/// A text that counts only when something remains after trimming; Coolify
/// often stores empty strings where it means "nothing".
pub open spec fn cleaned(o: Option<Seq<char>>) -> Option<Seq<char>> {
    match o {
        Some(v) => if trim(v).len() > 0 {
            Some(trim(v))
        } else {
            None
        },
        None => None,
    }
}

/// The optional text trimmed, and dropped when nothing remains.
pub fn clean(value: Option<String>) -> (r: Option<String>)
    ensures
        opt_view(r) == cleaned(opt_view(value)),
{
    match value {
        Some(v) => {
            let t = trim_string(v.as_str());
            if t.as_str().is_empty() {
                None
            } else {
                Some(t)
            }
        },
        None => None,
    }
}

/// `scheme://host[:port]` of a URL: everything before the first `/` that
/// follows `://`; a URL without `://`, or without a path, is its own origin.
pub open spec fn origin_of(url: Seq<char>) -> Seq<char> {
    match find(url, seq![':', '/', '/']) {
        Some(p) => match find(url.skip(p + 3), seq!['/']) {
            Some(q) => url.take(p + 3 + q),
            None => url,
        },
        None => url,
    }
}

fn copy_range(s: &Vec<char>, from: usize, to: usize) -> (r: Vec<char>)
    requires
        from <= to <= s@.len(),
    ensures
        r@ == s@.subrange(from as int, to as int),
{
    let mut r: Vec<char> = Vec::new();
    let mut k: usize = from;
    while k < to
        invariant
            from <= k <= to <= s@.len(),
            r@ =~= s@.subrange(from as int, k as int),
        decreases to - k,
    {
        r.push(s[k]);
        k = k + 1;
    }
    r
}

/// `https://host[:port]/anything` becomes `https://host[:port]`.
pub fn origin(url: &str) -> (r: String)
    ensures
        r@ == origin_of(url@),
{
    let cs = chars_of(url);
    match find_chars(&cs, &[':', '/', '/']) {
        Some(p) => {
            proof {
                crate::text::lemma_find_from(cs@, seq![':', '/', '/'], 0);
                assert(seq![':', '/', '/'] =~= [':', '/', '/']@);
            }
            let rest = copy_range(&cs, p + 3, cs.len());
            match find_chars(&rest, &['/']) {
                Some(q) => {
                    proof {
                        crate::text::lemma_find_from(rest@, seq!['/'], 0);
                        assert(seq!['/'] =~= ['/']@);
                        assert(rest@ =~= cs@.skip(p + 3));
                    }
                    let prefix = copy_range(&cs, 0, p + 3 + q);
                    assert(prefix@ =~= cs@.take(p + 3 + q));
                    string_from_chars(&prefix)
                },
                None => {
                    proof {
                        assert(seq!['/'] =~= ['/']@);
                        assert(rest@ =~= cs@.skip(p + 3));
                    }
                    String::from_str(url)
                },
            }
        },
        None => {
            assert(seq![':', '/', '/'] =~= [':', '/', '/']@);
            String::from_str(url)
        },
    }
}

/// The status text of a deployment; an absent status reads `other`.
pub open spec fn status_text(s: Option<DeploymentStatus>) -> Seq<char> {
    match s {
        Some(st) => status_name(st),
        None => "other"@,
    }
}

/// A UI-relative deployment URL (`/project/...`) made absolute on the
/// server's origin; any other URL as it is.
pub open spec fn absolute_url(u: Option<Seq<char>>, server_url: Seq<char>) -> Option<Seq<char>> {
    match u {
        Some(v) => if v.len() > 0 && v[0] == '/' {
            Some(origin_of(server_url) + v)
        } else {
            Some(v)
        },
        None => None,
    }
}

/// `item` is how `d`, fetched from the server at `server_url`, is shown.
pub open spec fn item_matches(item: DeploymentItem, d: Deployment, server_url: Seq<char>) -> bool {
    &&& item.id == d.id
    &&& item.status@ == status_text(d.status)
    &&& opt_view(item.commit) == cleaned(opt_view(d.commit))
    &&& opt_view(item.commit_message) == cleaned(opt_view(d.commit_message))
    &&& opt_view(item.created_at) == cleaned(opt_view(d.created_at))
    &&& opt_view(item.deployment_url) == absolute_url(
        cleaned(opt_view(d.deployment_url)),
        server_url,
    )
}

/// One deployment as the snapshot shows it: texts trimmed and empty ones
/// dropped, the status as text, and a relative deployment URL made absolute.
pub fn deployment_item(deployment: Deployment, server_url: &str) -> (r: DeploymentItem)
    ensures
        item_matches(r, deployment, server_url@),
{
    let status = match deployment.status {
        Some(s) => String::from_str(s.as_str()),
        None => String::from_str("other"),
    };
    let url = clean(deployment.deployment_url);
    let deployment_url = match url {
        Some(u) => {
            let cs = chars_of(u.as_str());
            if cs.len() > 0 && cs[0] == '/' {
                let o = origin(server_url);
                let mut abs = String::from_str(o.as_str());
                abs.append(u.as_str());
                Some(abs)
            } else {
                Some(u)
            }
        },
        None => None,
    };
    DeploymentItem {
        id: deployment.id,
        status,
        commit: clean(deployment.commit),
        commit_message: clean(deployment.commit_message),
        created_at: clean(deployment.created_at),
        deployment_url,
    }
}


/// What a server answered about one application: the application row, and
/// the outcome of fetching its recent deployments.
#[derive(Debug)]
pub struct AppFetch {
    pub app: Application,
    pub deployments: Result<Vec<Deployment>, ApiError>,
}

/// What one server answered: its applications with their deployments, or
/// why the application list could not be fetched.
#[derive(Debug)]
pub struct ServerFetch {
    pub apps: Result<Vec<AppFetch>, ApiError>,
}

/// How many of `ds` have status `st`.
pub open spec fn count_status(ds: Seq<Deployment>, st: DeploymentStatus) -> nat
    decreases ds.len(),
{
    if ds.len() == 0 {
        0
    } else {
        count_status(ds.drop_last(), st) + if ds.last().status == Some(st) {
            1nat
        } else {
            0nat
        }
    }
}

/// How many fetched deployments of the applications `fs` have status `st`.
pub open spec fn fetched_count(fs: Seq<AppFetch>, st: DeploymentStatus) -> nat
    decreases fs.len(),
{
    if fs.len() == 0 {
        0
    } else {
        fetched_count(fs.drop_last(), st) + match fs.last().deployments {
            Ok(ds) => count_status(ds@, st),
            Err(_) => 0nat,
        }
    }
}

/// How many deployments were fetched for the applications `fs`.
pub open spec fn fetched_total(fs: Seq<AppFetch>) -> nat
    decreases fs.len(),
{
    if fs.len() == 0 {
        0
    } else {
        fetched_total(fs.drop_last()) + match fs.last().deployments {
            Ok(ds) => ds@.len(),
            Err(_) => 0nat,
        }
    }
}

/// How many deployments one server's answer lists.
pub open spec fn server_fetch_total(f: ServerFetch) -> nat {
    match f.apps {
        Ok(fs) => fetched_total(fs@),
        Err(_) => 0,
    }
}

proof fn lemma_count_le_len(ds: Seq<Deployment>, st: DeploymentStatus)
    ensures
        count_status(ds, st) <= ds.len(),
    decreases ds.len(),
{
    if ds.len() > 0 {
        lemma_count_le_len(ds.drop_last(), st);
    }
}

proof fn lemma_fetched_count_le_total(fs: Seq<AppFetch>, st: DeploymentStatus)
    ensures
        fetched_count(fs, st) <= fetched_total(fs),
    decreases fs.len(),
{
    if fs.len() > 0 {
        lemma_fetched_count_le_total(fs.drop_last(), st);
        if let Ok(ds) = fs.last().deployments {
            lemma_count_le_len(ds@, st);
        }
    }
}

proof fn lemma_fetched_total_prefix(fs: Seq<AppFetch>, i: int)
    requires
        0 <= i <= fs.len(),
    ensures
        fetched_total(fs.take(i)) <= fetched_total(fs),
    decreases fs.len() - i,
{
    if i == fs.len() {
        assert(fs.take(i) =~= fs);
    } else {
        lemma_fetched_total_prefix(fs.drop_last(), i);
        assert(fs.drop_last().take(i) =~= fs.take(i));
    }
}

/// The snapshot row of one application, fetched from the server at
/// `server_url`: its uuid and name (empty when absent), its fqdn, and either
/// its deployments as shown or the reason they could not be fetched.
pub open spec fn app_row_matches(a: AppStatus, f: AppFetch, server_url: Seq<char>) -> bool {
    &&& a.uuid@ == or_empty(f.app.uuid)
    &&& a.name@ == or_empty(f.app.name)
    &&& a.fqdn == f.app.fqdn
    &&& match f.deployments {
        Ok(ds) => {
            &&& a.error is None
            &&& a.deployments@.len() == ds@.len()
            &&& forall|k: int|
                0 <= k < ds@.len() ==> item_matches(
                    #[trigger] a.deployments@[k],
                    ds@[k],
                    server_url,
                )
        },
        Err(e) => opt_view(a.error) == Some(api_error_text(e)) && a.deployments@.len() == 0,
    }
}

/// The sort keys of the application rows: lower-cased names.
pub open spec fn name_keys(fs: Seq<AppFetch>) -> Seq<Seq<char>> {
    fs.map_values(|f: AppFetch| lowercase(or_empty(f.app.name)))
}

/// `st` is the status row of `server` after it answered `fetch`: offline
/// with the error when the application list failed; otherwise online, with
/// the running, queued and failed deployments counted and one row per
/// application, sorted by lower-cased name (stable).
pub open spec fn server_matches(st: ServerStatus, server: Server, fetch: ServerFetch) -> bool {
    &&& st.name@ == server.name@
    &&& st.url@ == server.url@
    &&& match fetch.apps {
        Err(e) => {
            &&& !st.online
            &&& st.running == 0 && st.queued == 0 && st.failed == 0
            &&& opt_view(st.error) == Some(api_error_text(e))
            &&& st.apps@.len() == 0
        },
        Ok(fs) => {
            &&& st.online
            &&& st.error is None
            &&& st.running == fetched_count(fs@, DeploymentStatus::InProgress)
            &&& st.queued == fetched_count(fs@, DeploymentStatus::Queued)
            &&& st.failed == fetched_count(fs@, DeploymentStatus::Failed)
            &&& exists|p: Seq<int>|
                #![trigger is_stable_order(name_keys(fs@), p)]
                is_stable_order(name_keys(fs@), p) && st.apps@.len() == p.len() && forall|k: int|
                    0 <= k < p.len() ==> app_row_matches(
                        #[trigger] st.apps@[k],
                        fs@[p[k]],
                        server.url@,
                    )
        },
    }
}

fn count_in(ds: &Vec<Deployment>, st: DeploymentStatus) -> (c: usize)
    ensures
        c == count_status(ds@, st),
{
    let mut c: usize = 0;
    let mut i: usize = 0;
    while i < ds.len()
        invariant
            0 <= i <= ds@.len(),
            c == count_status(ds@.take(i as int), st),
        decreases ds.len() - i,
    {
        proof {
            assert(ds@.take(i + 1).drop_last() =~= ds@.take(i as int));
            lemma_count_le_len(ds@.take(i as int), st);
        }
        if ds[i].status == Some(st) {
            c = c + 1;
        }
        i = i + 1;
    }
    assert(ds@.take(ds@.len() as int) =~= ds@);
    c
}

fn deployment_items(ds: Vec<Deployment>, server_url: &str) -> (r: Vec<DeploymentItem>)
    ensures
        r@.len() == ds@.len(),
        forall|k: int| 0 <= k < ds@.len() ==> item_matches(#[trigger] r@[k], ds@[k], server_url@),
{
    let ghost all = ds@;
    let n = ds.len();
    let mut rest = ds;
    let mut out: Vec<DeploymentItem> = Vec::new();
    let mut i: usize = 0;
    while i < n
        invariant
            n == all.len(),
            0 <= i <= n,
            rest@ == all.skip(i as int),
            out@.len() == i,
            forall|k: int| 0 <= k < i ==> item_matches(#[trigger] out@[k], all[k], server_url@),
        decreases n - i,
    {
        let d = rest.remove(0);
        proof {
            assert(all[i as int] == d);
            assert(rest@ =~= all.skip(i + 1));
        }
        out.push(deployment_item(d, server_url));
        i = i + 1;
    }
    out
}

/// The status row of one server from what it answered.
pub fn server_status(server: &Server, fetch: ServerFetch) -> (r: ServerStatus)
    requires
        server_fetch_total(fetch) <= u32::MAX,
    ensures
        server_matches(r, *server, fetch),
{
    let ghost fetch0 = fetch;
    match fetch.apps {
        Err(e) => ServerStatus {
            name: String::from_str(server.name.as_str()),
            url: String::from_str(server.url.as_str()),
            online: false,
            running: 0,
            queued: 0,
            failed: 0,
            error: Some(e.to_string()),
            apps: Vec::new(),
        },
        Ok(fs) => {
            let ghost all = fs@;
            proof {
                lemma_fetched_count_le_total(all, DeploymentStatus::InProgress);
                lemma_fetched_count_le_total(all, DeploymentStatus::Queued);
                lemma_fetched_count_le_total(all, DeploymentStatus::Failed);
            }
            let n = fs.len();
            let mut rest = fs;
            let mut rows: Vec<AppStatus> = Vec::new();
            let mut keys: Vec<Vec<char>> = Vec::new();
            let mut running: u32 = 0;
            let mut queued: u32 = 0;
            let mut failed: u32 = 0;
            let mut i: usize = 0;
            while i < n
                invariant
                    n == all.len(),
                    fetched_total(all) <= u32::MAX,
                    0 <= i <= n,
                    rest@ == all.skip(i as int),
                    rows@.len() == i,
                    keys@.len() == i,
                    forall|k: int|
                        0 <= k < i ==> app_row_matches(#[trigger] rows@[k], all[k], server.url@),
                    forall|k: int|
                        0 <= k < i ==> #[trigger] keys@[k]@ == lowercase(or_empty(all[k].app.name)),
                    running == fetched_count(all.take(i as int), DeploymentStatus::InProgress),
                    queued == fetched_count(all.take(i as int), DeploymentStatus::Queued),
                    failed == fetched_count(all.take(i as int), DeploymentStatus::Failed),
                decreases n - i,
            {
                let f = rest.remove(0);
                proof {
                    assert(all[i as int] == f);
                    assert(rest@ =~= all.skip(i + 1));
                    assert(all.take(i + 1).drop_last() =~= all.take(i as int));
                    assert(all.take(i + 1).last() == f);
                    lemma_fetched_total_prefix(all, i + 1);
                    lemma_fetched_count_le_total(all.take(i + 1), DeploymentStatus::InProgress);
                    lemma_fetched_count_le_total(all.take(i + 1), DeploymentStatus::Queued);
                    lemma_fetched_count_le_total(all.take(i + 1), DeploymentStatus::Failed);
                }
                let AppFetch { app, deployments } = f;
                let uuid = String::from_str(app.uuid());
                let name = String::from_str(app.name());
                let key = chars_of(to_lowercase(name.as_str()).as_str());
                let row = match deployments {
                    Ok(ds) => {
                        let r_n = count_in(&ds, DeploymentStatus::InProgress);
                        let q_n = count_in(&ds, DeploymentStatus::Queued);
                        let f_n = count_in(&ds, DeploymentStatus::Failed);
                        running = running + r_n as u32;
                        queued = queued + q_n as u32;
                        failed = failed + f_n as u32;
                        let items = deployment_items(ds, server.url.as_str());
                        AppStatus { uuid, name, fqdn: app.fqdn, error: None, deployments: items }
                    },
                    Err(e) => AppStatus {
                        uuid,
                        name,
                        fqdn: app.fqdn,
                        error: Some(e.to_string()),
                        deployments: Vec::new(),
                    },
                };
                rows.push(row);
                keys.push(key);
                i = i + 1;
            }
            proof {
                assert(all.take(n as int) =~= all);
                assert(key_views(keys@) =~= name_keys(all));
            }
            let apps = sort_by_keys(rows, keys);
            let r = ServerStatus {
                name: String::from_str(server.name.as_str()),
                url: String::from_str(server.url.as_str()),
                online: true,
                running,
                queued,
                failed,
                error: None,
                apps,
            };
            proof {
                let p = choose|p: Seq<int>|
                    #![trigger is_stable_order(key_views(keys@), p)]
                    is_stable_order(key_views(keys@), p) && apps@.len() == p.len() && forall|k: int|
                        0 <= k < p.len() ==> apps@[k] == rows@[#[trigger] p[k]];
                assert(is_stable_order(name_keys(all), p));
                assert forall|k: int| 0 <= k < p.len() implies app_row_matches(
                    #[trigger] r.apps@[k],
                    all[p[k]],
                    server.url@,
                ) by {
                    assert(r.apps@[k] == rows@[p[k]]);
                }
            }
            r
        },
    }
}


/// At least one server answered its application list.
pub open spec fn any_online(fetched: Seq<ServerFetch>) -> bool {
    exists|i: int| 0 <= i < fetched.len() && (#[trigger] fetched[i]).apps is Ok
}

/// The errors of the servers that could not be reached, in config order.
pub open spec fn fetch_errors(fetched: Seq<ServerFetch>) -> Seq<Seq<char>>
    decreases fetched.len(),
{
    if fetched.len() == 0 {
        Seq::empty()
    } else {
        fetch_errors(fetched.drop_last()) + match fetched.last().apps {
            Err(e) => seq![api_error_text(e)],
            Ok(_) => Seq::empty(),
        }
    }
}

/// The message of a snapshot in which no server answered: their errors
/// joined by `; `, or `no servers configured` when there are none.
pub open spec fn offline_message(fetched: Seq<ServerFetch>) -> Seq<char> {
    if fetch_errors(fetched).len() == 0 {
        "no servers configured"@
    } else {
        join(fetch_errors(fetched), "; "@)
    }
}

/// `r` is the snapshot of what every configured server answered
/// (`fetched[i]` is the answer of `config.servers[i]`).
///
/// Each server counts on its own: a server that failed is reported offline
/// with its error while the others still contribute. Only when no server
/// answered (or none is configured) is the whole snapshot an error.
pub open spec fn snapshot_matches(r: Status, config: Config, fetched: Seq<ServerFetch>) -> bool {
    &&& !any_online(fetched) ==> {
        &&& r.state == State::Error
        &&& r.servers is None
        &&& opt_view(r.error) == Some(offline_message(fetched))
    }
    &&& any_online(fetched) ==> {
        &&& r.state == State::Okay
        &&& r.error is None
        &&& r.servers matches Some(list) && list@.len() == fetched.len() && forall|i: int|
            0 <= i < list@.len() ==> server_matches(
                #[trigger] list@[i],
                config.servers@[i],
                fetched[i],
            )
    }
}

/// Every answer lists few enough deployments for the `u32` counters.
pub open spec fn totals_fit(fetched: Seq<ServerFetch>) -> bool {
    forall|i: int| 0 <= i < fetched.len() ==> server_fetch_total(#[trigger] fetched[i]) <= u32::MAX
}

/// Aggregates what every configured server answered (`fetched[i]` is the
/// answer of `config.servers[i]`) into one snapshot.
pub fn snapshot(config: &Config, fetched: Vec<ServerFetch>) -> (r: Status)
    requires
        fetched@.len() == config.servers@.len(),
        totals_fit(fetched@),
    ensures
        snapshot_matches(r, *config, fetched@),
{
    let ghost all = fetched@;
    let n = fetched.len();
    let mut rest = fetched;
    let mut servers: Vec<ServerStatus> = Vec::new();
    let mut errors: Vec<String> = Vec::new();
    let mut online = false;
    let mut i: usize = 0;
    while i < n
        invariant
            n == all.len(),
            n == config.servers@.len(),
            totals_fit(all),
            0 <= i <= n,
            rest@ == all.skip(i as int),
            servers@.len() == i,
            forall|k: int|
                0 <= k < i ==> server_matches(#[trigger] servers@[k], config.servers@[k], all[k]),
            views(errors@) == fetch_errors(all.take(i as int)),
            online == any_online(all.take(i as int)),
        decreases n - i,
    {
        let f = rest.remove(0);
        proof {
            assert(all[i as int] == f);
            assert(rest@ =~= all.skip(i + 1));
            assert(all.take(i + 1).drop_last() =~= all.take(i as int));
            assert(all.take(i + 1).last() == f);
        }
        let st = server_status(&config.servers[i], f);
        proof {
            let t = all.take(i + 1);
            assert(t[i as int] == all[i as int]);
            assert(server_matches(st, config.servers@[i as int], all[i as int]));
            assert forall|k: int| 0 <= k < i implies t[k] == all.take(i as int)[k] by {}
            if st.online {
                assert(t[i as int].apps is Ok);
            } else if online {
                let k = choose|k: int| 0 <= k < i && (#[trigger] all.take(i as int)[k]).apps is Ok;
                assert(t[k].apps is Ok);
            } else {
                assert forall|k: int| 0 <= k < i + 1 implies (#[trigger] t[k]).apps !is Ok by {
                    if k < i {
                        assert(t[k] == all.take(i as int)[k]);
                    }
                }
            }
        }
        if st.online {
            online = true;
        }
        match &st.error {
            Some(e) => {
                errors.push(e.clone());
            },
            None => {},
        }
        proof {
            assert(views(errors@) =~= fetch_errors(all.take(i + 1)));
        }
        servers.push(st);
        i = i + 1;
    }
    proof {
        assert(all.take(n as int) =~= all);
    }
    if !online {
        if errors.len() == 0 {
            return Status::error(String::from_str("no servers configured"));
        }
        return Status::error(join_strings(&errors, "; "));
    }
    Status::ok(servers)
}


/// The snapshot of one poll cycle: when the config could not be loaded, an
/// error carrying the config error's text; otherwise the aggregate of what
/// the configured servers answered (`fetched[i]` from `config.servers[i]`).
pub fn current_snapshot(loaded: &Result<Config, ConfigError>, fetched: Vec<ServerFetch>) -> (r: Status)
    requires
        *loaded matches Ok(config) ==> fetched@.len() == config.servers@.len() && totals_fit(fetched@),
    ensures
        *loaded matches Err(e) ==> {
            &&& r.state == State::Error
            &&& r.servers is None
            &&& opt_view(r.error) == Some(config_error_text(e))
        },
        *loaded matches Ok(config) ==> snapshot_matches(r, config, fetched@),
{
    match loaded {
        Ok(config) => snapshot(config, fetched),
        Err(e) => Status::error(e.to_string()),
    }
}

/// The texts a deployment row shows are never blank: each present text is
/// non-empty and trimmed, and a present deployment URL is non-empty.
pub proof fn law_item_texts_are_clean(item: DeploymentItem, d: Deployment, server_url: Seq<char>)
    requires
        item_matches(item, d, server_url),
    ensures
        opt_view(item.commit) matches Some(c) ==> c.len() > 0 && trim(c) == c,
        opt_view(item.commit_message) matches Some(c) ==> c.len() > 0 && trim(c) == c,
        opt_view(item.created_at) matches Some(c) ==> c.len() > 0 && trim(c) == c,
        opt_view(item.deployment_url) matches Some(u) ==> u.len() > 0,
{
    if let Some(c) = d.commit {
        law_trim_is_idempotent(c@);
    }
    if let Some(c) = d.commit_message {
        law_trim_is_idempotent(c@);
    }
    if let Some(c) = d.created_at {
        law_trim_is_idempotent(c@);
    }
}

proof fn lemma_status_counts_within_len(ds: Seq<Deployment>)
    ensures
        count_status(ds, DeploymentStatus::InProgress) + count_status(ds, DeploymentStatus::Queued)
            + count_status(ds, DeploymentStatus::Failed) <= ds.len(),
    decreases ds.len(),
{
    if ds.len() > 0 {
        lemma_status_counts_within_len(ds.drop_last());
    }
}

/// A server's running, queued and failed counts together never exceed the
/// number of deployments fetched from it.
pub proof fn law_counts_within_total(fs: Seq<AppFetch>)
    ensures
        fetched_count(fs, DeploymentStatus::InProgress) + fetched_count(fs, DeploymentStatus::Queued)
            + fetched_count(fs, DeploymentStatus::Failed) <= fetched_total(fs),
    decreases fs.len(),
{
    if fs.len() > 0 {
        law_counts_within_total(fs.drop_last());
        if let Ok(ds) = fs.last().deployments {
            lemma_status_counts_within_len(ds@);
        }
    }
}

/// A deployment row as it reads: id, status, commit, commit message,
/// creation time, deployment URL.
pub open spec fn item_view(d: DeploymentItem) -> (
    Option<u64>,
    Seq<char>,
    Option<Seq<char>>,
    Option<Seq<char>>,
    Option<Seq<char>>,
    Option<Seq<char>>,
) {
    (
        d.id,
        d.status@,
        opt_view(d.commit),
        opt_view(d.commit_message),
        opt_view(d.created_at),
        opt_view(d.deployment_url),
    )
}

/// An application row as it reads: uuid, name, fqdn, error, deployments.
pub open spec fn app_status_view(a: AppStatus) -> (
    Seq<char>,
    Seq<char>,
    Option<Seq<char>>,
    Option<Seq<char>>,
    Seq<(Option<u64>, Seq<char>, Option<Seq<char>>, Option<Seq<char>>, Option<Seq<char>>, Option<Seq<char>>)>,
) {
    (
        a.uuid@,
        a.name@,
        opt_view(a.fqdn),
        opt_view(a.error),
        a.deployments@.map_values(|d: DeploymentItem| item_view(d)),
    )
}

/// A server row as it reads: name, url, online, the three counts, error,
/// and its application rows.
pub open spec fn server_status_view(st: ServerStatus) -> (
    Seq<char>,
    Seq<char>,
    bool,
    u32,
    u32,
    u32,
    Option<Seq<char>>,
    Seq<(Seq<char>, Seq<char>, Option<Seq<char>>, Option<Seq<char>>, Seq<(Option<u64>, Seq<char>, Option<Seq<char>>, Option<Seq<char>>, Option<Seq<char>>, Option<Seq<char>>)>)>,
) {
    (
        st.name@,
        st.url@,
        st.online,
        st.running,
        st.queued,
        st.failed,
        opt_view(st.error),
        st.apps@.map_values(|a: AppStatus| app_status_view(a)),
    )
}

/// A snapshot as it reads: everything the JSON line written from it holds.
pub open spec fn status_view(s: Status) -> (
    State,
    Option<Seq<char>>,
    Option<Seq<(Seq<char>, Seq<char>, bool, u32, u32, u32, Option<Seq<char>>, Seq<(Seq<char>, Seq<char>, Option<Seq<char>>, Option<Seq<char>>, Seq<(Option<u64>, Seq<char>, Option<Seq<char>>, Option<Seq<char>>, Option<Seq<char>>, Option<Seq<char>>)>)>)>>,
) {
    (
        s.state,
        opt_view(s.error),
        match s.servers {
            Some(list) => Some(list@.map_values(|st: ServerStatus| server_status_view(st))),
            None => None,
        },
    )
}

proof fn lemma_app_row_determined(a1: AppStatus, a2: AppStatus, f: AppFetch, url: Seq<char>)
    requires
        app_row_matches(a1, f, url),
        app_row_matches(a2, f, url),
    ensures
        app_status_view(a1) == app_status_view(a2),
{
    let v1 = a1.deployments@.map_values(|d: DeploymentItem| item_view(d));
    let v2 = a2.deployments@.map_values(|d: DeploymentItem| item_view(d));
    assert forall|k: int| 0 <= k < v1.len() implies v1[k] == v2[k] by {
        if let Ok(ds) = f.deployments {
            assert(item_matches(a1.deployments@[k], ds@[k], url));
            assert(item_matches(a2.deployments@[k], ds@[k], url));
        }
    }
    assert(v1 =~= v2);
}

proof fn lemma_server_row_determined(
    st1: ServerStatus,
    st2: ServerStatus,
    s1: Server,
    s2: Server,
    f: ServerFetch,
)
    requires
        server_matches(st1, s1, f),
        server_matches(st2, s2, f),
        s1.name@ == s2.name@,
        s1.url@ == s2.url@,
    ensures
        server_status_view(st1) == server_status_view(st2),
{
    let v1 = st1.apps@.map_values(|a: AppStatus| app_status_view(a));
    let v2 = st2.apps@.map_values(|a: AppStatus| app_status_view(a));
    if let Ok(fs) = f.apps {
        let p1 = choose|p: Seq<int>|
            #![trigger is_stable_order(name_keys(fs@), p)]
            is_stable_order(name_keys(fs@), p) && st1.apps@.len() == p.len() && forall|k: int|
                0 <= k < p.len() ==> app_row_matches(#[trigger] st1.apps@[k], fs@[p[k]], s1.url@);
        let p2 = choose|p: Seq<int>|
            #![trigger is_stable_order(name_keys(fs@), p)]
            is_stable_order(name_keys(fs@), p) && st2.apps@.len() == p.len() && forall|k: int|
                0 <= k < p.len() ==> app_row_matches(#[trigger] st2.apps@[k], fs@[p[k]], s2.url@);
        law_stable_order_is_unique(name_keys(fs@), p1, p2);
        assert forall|k: int| 0 <= k < v1.len() implies v1[k] == v2[k] by {
            assert(app_row_matches(st1.apps@[k], fs@[p1[k]], s1.url@));
            assert(app_row_matches(st2.apps@[k], fs@[p1[k]], s1.url@));
            lemma_app_row_determined(st1.apps@[k], st2.apps@[k], fs@[p1[k]], s1.url@);
        }
    }
    assert(v1 =~= v2);
}

/// No token reaches the snapshot, and the snapshot is determined by the
/// servers' names, URLs and answers: two configs whose servers differ at most
/// in their tokens, given the same answers, yield snapshots that read the
/// same (and so the same JSON line). With equal configs, this says that
/// `snapshot` and `current_snapshot` have one possible outcome.
pub proof fn law_snapshot_ignores_tokens(
    r1: Status,
    r2: Status,
    c1: Config,
    c2: Config,
    fetched: Seq<ServerFetch>,
)
    requires
        c1.servers@.len() == fetched.len(),
        c2.servers@.len() == fetched.len(),
        forall|i: int|
            0 <= i < fetched.len() ==> (#[trigger] c1.servers@[i]).name@ == c2.servers@[i].name@
                && c1.servers@[i].url@ == c2.servers@[i].url@,
        snapshot_matches(r1, c1, fetched),
        snapshot_matches(r2, c2, fetched),
    ensures
        status_view(r1) == status_view(r2),
{
    if any_online(fetched) {
        let l1 = r1.servers->Some_0@;
        let l2 = r2.servers->Some_0@;
        let v1 = l1.map_values(|st: ServerStatus| server_status_view(st));
        let v2 = l2.map_values(|st: ServerStatus| server_status_view(st));
        assert forall|i: int| 0 <= i < v1.len() implies v1[i] == v2[i] by {
            assert(server_matches(l1[i], c1.servers@[i], fetched[i]));
            assert(server_matches(l2[i], c2.servers@[i], fetched[i]));
            lemma_server_row_determined(l1[i], l2[i], c1.servers@[i], c2.servers@[i], fetched[i]);
        }
        assert(v1 =~= v2);
    }
}

/// Counting deployments by status counts exactly the deployments with that
/// status: no other status (a cancelled one, say) is counted as failed.
pub proof fn law_count_is_status_filter(ds: Seq<Deployment>, st: DeploymentStatus)
    ensures
        count_status(ds, st) == ds.filter(|d: Deployment| d.status == Some(st)).len(),
    decreases ds.len(),
{
    reveal_with_fuel(Seq::filter, 1);
    if ds.len() > 0 {
        law_count_is_status_filter(ds.drop_last(), st);
    }
}

/// Some fetched deployment of the applications `fs` has status `st`.
pub open spec fn some_fetched_with(fs: Seq<AppFetch>, st: DeploymentStatus) -> bool {
    exists|a: int, k: int|
        0 <= a < fs.len() && fs[a].deployments is Ok && 0 <= k
            < fs[a].deployments->Ok_0@.len() && (#[trigger] fs[a].deployments->Ok_0@[k]).status == Some(st)
}

proof fn lemma_count_zero_iff(ds: Seq<Deployment>, st: DeploymentStatus)
    ensures
        count_status(ds, st) == 0 <==> forall|k: int|
            0 <= k < ds.len() ==> (#[trigger] ds[k]).status != Some(st),
    decreases ds.len(),
{
    if ds.len() > 0 {
        let p = ds.drop_last();
        lemma_count_zero_iff(p, st);
        if forall|k: int| 0 <= k < ds.len() ==> (#[trigger] ds[k]).status != Some(st) {
            assert forall|k: int| 0 <= k < p.len() implies (#[trigger] p[k]).status != Some(st) by {
                assert(p[k] == ds[k]);
            }
            assert(ds[ds.len() - 1] == ds.last());
        } else if count_status(ds, st) == 0 {
            let k = choose|k: int| 0 <= k < ds.len() && (#[trigger] ds[k]).status == Some(st);
            if k < ds.len() - 1 {
                assert(p[k] == ds[k]);
            }
        }
    }
}

proof fn lemma_fetched_zero_iff(fs: Seq<AppFetch>, st: DeploymentStatus)
    ensures
        fetched_count(fs, st) == 0 <==> !some_fetched_with(fs, st),
    decreases fs.len(),
{
    if fs.len() > 0 {
        let p = fs.drop_last();
        lemma_fetched_zero_iff(p, st);
        let last = fs.last();
        if let Ok(ds) = last.deployments {
            lemma_count_zero_iff(ds@, st);
        }
        if some_fetched_with(fs, st) {
            let (a, k) = choose|a: int, k: int|
                0 <= a < fs.len() && fs[a].deployments is Ok && 0 <= k
                    < fs[a].deployments->Ok_0@.len() && (#[trigger] fs[a].deployments->Ok_0@[k]).status == Some(st);
            if a < fs.len() - 1 {
                assert(p[a] == fs[a]);
                assert(some_fetched_with(p, st));
            } else {
                assert(fs[a] == last);
            }
        }
        if some_fetched_with(p, st) {
            let (a, k) = choose|a: int, k: int|
                0 <= a < p.len() && p[a].deployments is Ok && 0 <= k
                    < p[a].deployments->Ok_0@.len() && (#[trigger] p[a].deployments->Ok_0@[k]).status == Some(st);
            assert(fs[a] == p[a]);
        }
        if let Ok(ds) = last.deployments {
            if !(forall|k: int| 0 <= k < ds@.len() ==> (#[trigger] ds@[k]).status != Some(st)) {
                let k = choose|k: int| 0 <= k < ds@.len() && (#[trigger] ds@[k]).status == Some(st);
                assert(fs[fs.len() - 1] == last);
                assert(some_fetched_with(fs, st));
            }
        }
    }
}

/// A server's running, queued and failed counts are zero exactly when no
/// fetched deployment has that status (in progress, queued, failed): a list
/// of only finished and cancelled deployments counts no failure.
pub proof fn law_server_counts_follow_statuses(st: ServerStatus, server: Server, fetch: ServerFetch)
    requires
        server_matches(st, server, fetch),
        fetch.apps is Ok,
    ensures
        st.running == 0 <==> !some_fetched_with(fetch.apps->Ok_0@, DeploymentStatus::InProgress),
        st.queued == 0 <==> !some_fetched_with(fetch.apps->Ok_0@, DeploymentStatus::Queued),
        st.failed == 0 <==> !some_fetched_with(fetch.apps->Ok_0@, DeploymentStatus::Failed),
{
    let fs = fetch.apps->Ok_0@;
    lemma_fetched_zero_iff(fs, DeploymentStatus::InProgress);
    lemma_fetched_zero_iff(fs, DeploymentStatus::Queued);
    lemma_fetched_zero_iff(fs, DeploymentStatus::Failed);
}

/// A deployment row keeps the deployment's id and texts: each of commit,
/// commit message and creation time is the deployment's text trimmed when
/// anything remains of it after trimming, and absent otherwise; the status
/// reads as its wire name (`other` when absent).
pub proof fn law_item_keeps_deployment_texts(item: DeploymentItem, d: Deployment, server_url: Seq<char>)
    requires
        item_matches(item, d, server_url),
    ensures
        item.id == d.id,
        d.status matches Some(x) ==> item.status@ == status_name(x),
        d.status is None ==> item.status@ == "other"@,
        d.commit matches Some(t) ==> (trim(t@).len() > 0 ==> opt_view(item.commit) == Some(trim(t@))),
        d.commit matches Some(t) ==> (trim(t@).len() == 0 ==> item.commit is None),
        d.commit is None ==> item.commit is None,
        d.commit_message matches Some(t) ==> (trim(t@).len() > 0 ==> opt_view(item.commit_message) == Some(trim(t@))),
        d.commit_message matches Some(t) ==> (trim(t@).len() == 0 ==> item.commit_message is None),
        d.commit_message is None ==> item.commit_message is None,
        d.created_at matches Some(t) ==> (trim(t@).len() > 0 ==> opt_view(item.created_at) == Some(trim(t@))),
        d.created_at matches Some(t) ==> (trim(t@).len() == 0 ==> item.created_at is None),
        d.created_at is None ==> item.created_at is None,
{
}

/// The application rows of a server that answered are all its applications,
/// sorted by their whole lower-cased names: each row's lower-cased name
/// comes no later than the next row's.
pub proof fn law_app_rows_sorted_by_name(st: ServerStatus, server: Server, fetch: ServerFetch)
    requires
        server_matches(st, server, fetch),
        fetch.apps is Ok,
    ensures
        st.apps@.len() == fetch.apps->Ok_0@.len(),
        forall|k: int|
            0 <= k < st.apps@.len() - 1 ==> seq_le(
                lowercase((#[trigger] st.apps@[k]).name@),
                lowercase(st.apps@[k + 1].name@),
            ),
{
    let fs = fetch.apps->Ok_0@;
    let p = choose|p: Seq<int>|
        #![trigger is_stable_order(name_keys(fs), p)]
        is_stable_order(name_keys(fs), p) && st.apps@.len() == p.len() && forall|k: int|
            0 <= k < p.len() ==> app_row_matches(#[trigger] st.apps@[k], fs[p[k]], server.url@);
    assert forall|k: int| 0 <= k < st.apps@.len() - 1 implies seq_le(
        lowercase((#[trigger] st.apps@[k]).name@),
        lowercase(st.apps@[k + 1].name@),
    ) by {
        assert(app_row_matches(st.apps@[k], fs[p[k]], server.url@));
        assert(app_row_matches(st.apps@[k + 1], fs[p[k + 1]], server.url@));
        assert(seq_le(name_keys(fs)[p[k]], name_keys(fs)[p[k + 1]]));
    }
}

} // verus!
