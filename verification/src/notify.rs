//! Desktop notifications for deployment outcomes.
//!
//! Notifications fire on transitions: a deployment that was running or
//! queued and has now finished or failed. The first snapshot after startup
//! only seeds the state map, so historical rows never notify.

use vstd::prelude::*;
use vstd::string::StringExecFns;

use crate::api::or_empty;
use crate::status::{AppStatus, DeploymentItem, ServerStatus, Status};
use crate::text::{
    chars_of, collapse_chars, decimal, decimal_string, escape_markup_chars, string_from_chars,
};

verus! {

/// A deployment's identity across polls: (server url, app uuid, deployment id).
pub type SeenKey = (Seq<char>, Seq<char>, u64);

struct SeenEntry {
    url: String,
    uuid: String,
    id: u64,
    status: String,
}

spec fn seen_key(e: SeenEntry) -> SeenKey {
    (e.url@, e.uuid@, e.id)
}

spec fn table_wf(es: Seq<SeenEntry>) -> bool {
    forall|i: int, j: int| 0 <= i < j < es.len() ==> seen_key(es[i]) != seen_key(es[j])
}

spec fn table_has(es: Seq<SeenEntry>, k: SeenKey) -> bool {
    exists|i: int| 0 <= i < es.len() && seen_key(es[i]) == k
}

spec fn table_index(es: Seq<SeenEntry>, k: SeenKey) -> int {
    choose|i: int| 0 <= i < es.len() && seen_key(es[i]) == k
}

spec fn table_map(es: Seq<SeenEntry>) -> Map<SeenKey, Seq<char>> {
    Map::new(|k: SeenKey| table_has(es, k), |k: SeenKey| es[table_index(es, k)].status@)
}

proof fn lemma_table_entry(es: Seq<SeenEntry>, i: int)
    requires
        table_wf(es),
        0 <= i < es.len(),
    ensures
        table_map(es).contains_key(seen_key(es[i])),
        table_map(es)[seen_key(es[i])] == es[i].status@,
{
    assert(table_has(es, seen_key(es[i])));
    let j = table_index(es, seen_key(es[i]));
    assert(i == j);
}

proof fn lemma_table_push(es: Seq<SeenEntry>, e: SeenEntry)
    requires
        table_wf(es.push(e)),
    ensures
        table_map(es.push(e)) == table_map(es).insert(seen_key(e), e.status@),
        table_wf(es),
{
    let t = es.push(e);
    let n = es.len() as int;
    assert forall|i: int, j: int| 0 <= i < j < es.len() implies seen_key(es[i]) != seen_key(es[j]) by {
        assert(t[i] == es[i] && t[j] == es[j]);
    }
    assert forall|q: SeenKey| #[trigger] table_map(t).contains_key(q) == table_map(es).insert(
        seen_key(e),
        e.status@,
    ).contains_key(q) by {
        if table_has(es, q) {
            let j = table_index(es, q);
            assert(t[j] == es[j]);
        }
        if table_has(t, q) {
            let j = table_index(t, q);
            if j < n {
                assert(t[j] == es[j]);
            }
        }
        if q == seen_key(e) {
            assert(t[n] == e);
        }
    }
    assert forall|q: SeenKey| #[trigger] table_map(t).contains_key(q) implies table_map(t)[q]
        == table_map(es).insert(seen_key(e), e.status@)[q] by {
        let j = table_index(t, q);
        lemma_table_entry(t, j);
        if j < n {
            assert(t[j] == es[j]);
            lemma_table_entry(es, j);
        } else {
            assert(t[j] == e);
        }
    }
    assert(table_map(t) =~= table_map(es).insert(seen_key(e), e.status@));
}

/// Deployment states by identity; no identity occurs twice.
struct SeenTable {
    entries: Vec<SeenEntry>,
}

impl SeenTable {
    spec fn wf(self) -> bool {
        table_wf(self.entries@)
    }

    spec fn has_key(self, k: SeenKey) -> bool {
        table_has(self.entries@, k)
    }

    spec fn index_of(self, k: SeenKey) -> int {
        table_index(self.entries@, k)
    }

    spec fn map(self) -> Map<SeenKey, Seq<char>> {
        table_map(self.entries@)
    }

    proof fn lemma_entry(self, i: int)
        requires
            self.wf(),
            0 <= i < self.entries@.len(),
        ensures
            self.map().contains_key(seen_key(self.entries@[i])),
            self.map()[seen_key(self.entries@[i])] == self.entries@[i].status@,
    {
        lemma_table_entry(self.entries@, i);
    }

    fn new() -> (r: SeenTable)
        ensures
            r.wf(),
            r.map() == Map::<SeenKey, Seq<char>>::empty(),
    {
        let r = SeenTable { entries: Vec::new() };
        assert(r.map() =~= Map::empty());
        r
    }

    fn find(&self, url: &String, uuid: &String, id: u64) -> (r: Option<usize>)
        ensures
            match r {
                Some(i) => i < self.entries@.len() && seen_key(self.entries@[i as int]) == (
                    url@,
                    uuid@,
                    id,
                ),
                None => !self.has_key((url@, uuid@, id)),
            },
    {
        let mut i: usize = 0;
        while i < self.entries.len()
            invariant
                0 <= i <= self.entries@.len(),
                forall|j: int| 0 <= j < i ==> seen_key(self.entries@[j]) != (url@, uuid@, id),
            decreases self.entries.len() - i,
        {
            let e = &self.entries[i];
            if e.id == id && e.url == *url && e.uuid == *uuid {
                return Some(i);
            }
            i = i + 1;
        }
        None
    }

    /// The state recorded for a deployment.
    fn get(&self, url: &String, uuid: &String, id: u64) -> (r: Option<&String>)
        requires
            self.wf(),
        ensures
            match r {
                Some(s) => self.map().contains_key((url@, uuid@, id)) && self.map()[(
                    url@,
                    uuid@,
                    id,
                )] == s@,
                None => !self.map().contains_key((url@, uuid@, id)),
            },
    {
        match self.find(url, uuid, id) {
            Some(i) => {
                proof {
                    self.lemma_entry(i as int);
                }
                Some(&self.entries[i].status)
            },
            None => None,
        }
    }

    /// Records the state of a deployment, replacing an earlier one.
    fn insert(&mut self, url: &String, uuid: &String, id: u64, status: String)
        requires
            old(self).wf(),
        ensures
            final(self).wf(),
            final(self).map() == old(self).map().insert((url@, uuid@, id), status@),
    {
        let ghost old_self = *self;
        let ghost k = (url@, uuid@, id);
        let entry = SeenEntry { url: url.clone(), uuid: uuid.clone(), id, status };
        let ghost e = entry;
        match self.find(url, uuid, id) {
            Some(i) => {
                self.entries.set(i, entry);
                proof {
                    assert forall|a: int, b: int| 0 <= a < b < self.entries@.len() implies seen_key(
                        self.entries@[a],
                    ) != seen_key(self.entries@[b]) by {
                        assert(seen_key(self.entries@[a]) == seen_key(old_self.entries@[a]));
                        assert(seen_key(self.entries@[b]) == seen_key(old_self.entries@[b]));
                    }
                }
            },
            None => {
                self.entries.push(entry);
                proof {
                    let n = old_self.entries@.len() as int;
                    assert forall|a: int, b: int| 0 <= a < b < self.entries@.len() implies seen_key(
                        self.entries@[a],
                    ) != seen_key(self.entries@[b]) by {
                        assert(self.entries@[a] == old_self.entries@[a]);
                        if b < n {
                            assert(self.entries@[b] == old_self.entries@[b]);
                        }
                    }
                }
            },
        }
        proof {
            let n = old_self.entries@.len() as int;
            assert forall|q: SeenKey| #[trigger]
                self.map().contains_key(q) == old_self.map().insert(k, e.status@).contains_key(q) by {
                if old_self.has_key(q) {
                    let j = old_self.index_of(q);
                    assert(seen_key(self.entries@[j]) == q);
                }
                if self.has_key(q) {
                    let j = self.index_of(q);
                    if j < n && seen_key(self.entries@[j]) != k {
                        assert(self.entries@[j] == old_self.entries@[j]);
                    }
                }
                if q == k {
                    let j = if self.entries@.len() > n { n } else { choose|j: int| 0 <= j < n && self.entries@[j] == e };
                    assert(self.entries@[j] == e);
                    assert(seen_key(self.entries@[j]) == q);
                }
            }
            assert forall|q: SeenKey| #[trigger]
                self.map().contains_key(q) implies self.map()[q] == old_self.map().insert(
                k,
                e.status@,
            )[q] by {
                let j = self.index_of(q);
                self.lemma_entry(j);
                if q != k {
                    assert(self.entries@[j] == old_self.entries@[j]);
                    old_self.lemma_entry(j);
                }
            }
            assert(self.map() =~= old_self.map().insert(k, e.status@));
        }
    }
}


#[derive(Debug, Clone, PartialEq, Eq)]
pub struct Notice {
    pub status: String,
    pub server: String,
    pub app: String,
    pub message: String,
}

/// A notice as (status, server, app, message).
pub type NoticeView = (Seq<char>, Seq<char>, Seq<char>, Seq<char>);

pub open spec fn notice_view(n: Notice) -> NoticeView {
    (n.status@, n.server@, n.app@, n.message@)
}

pub open spec fn notice_views(ns: Seq<Notice>) -> Seq<NoticeView> {
    ns.map_values(|n: Notice| notice_view(n))
}

/// Running or queued: the states a deployment can leave when it settles.
pub open spec fn is_active(status: Seq<char>) -> bool {
    status == "in_progress"@ || status == "queued"@
}

/// Finished or failed: the settled states that notify.
pub open spec fn is_settled(status: Seq<char>) -> bool {
    status == "finished"@ || status == "failed"@
}

/// The notice for one row of a snapshot, given the states of the previous
/// poll: only a deployment with an id, that was running or queued and has
/// now finished or failed, notifies.
pub open spec fn transition_notice(
    seen: Map<SeenKey, Seq<char>>,
    s: ServerStatus,
    a: AppStatus,
    d: DeploymentItem,
) -> Seq<NoticeView> {
    match d.id {
        None => Seq::empty(),
        Some(id) => {
            let k = (s.url@, a.uuid@, id);
            if seen.contains_key(k) && is_active(seen[k]) && is_settled(d.status@) {
                seq![(d.status@, s.name@, a.name@, crate::text::collapse(or_empty(d.commit_message)))]
            } else {
                Seq::empty()
            }
        },
    }
}

pub open spec fn deployment_notices(
    seen: Map<SeenKey, Seq<char>>,
    s: ServerStatus,
    a: AppStatus,
    ds: Seq<DeploymentItem>,
) -> Seq<NoticeView>
    decreases ds.len(),
{
    if ds.len() == 0 {
        Seq::empty()
    } else {
        deployment_notices(seen, s, a, ds.drop_last()) + transition_notice(seen, s, a, ds.last())
    }
}

pub open spec fn app_notices(
    seen: Map<SeenKey, Seq<char>>,
    s: ServerStatus,
    apps: Seq<AppStatus>,
) -> Seq<NoticeView>
    decreases apps.len(),
{
    if apps.len() == 0 {
        Seq::empty()
    } else {
        app_notices(seen, s, apps.drop_last()) + deployment_notices(
            seen,
            s,
            apps.last(),
            apps.last().deployments@,
        )
    }
}

pub open spec fn server_notices(seen: Map<SeenKey, Seq<char>>, servers: Seq<ServerStatus>) -> Seq<
    NoticeView,
>
    decreases servers.len(),
{
    if servers.len() == 0 {
        Seq::empty()
    } else {
        server_notices(seen, servers.drop_last()) + app_notices(
            seen,
            servers.last(),
            servers.last().apps@,
        )
    }
}

/// The notices a snapshot produces against the previous poll's states, in
/// snapshot order; an error snapshot produces none.
pub open spec fn snapshot_notices(seen: Map<SeenKey, Seq<char>>, snapshot: Status) -> Seq<
    NoticeView,
> {
    match snapshot.servers {
        Some(list) => server_notices(seen, list@),
        None => Seq::empty(),
    }
}

/// `m` with the state of every deployment of `ds` that has an id; a later
/// row of the same deployment wins.
pub open spec fn record_deployments(
    m: Map<SeenKey, Seq<char>>,
    s: ServerStatus,
    a: AppStatus,
    ds: Seq<DeploymentItem>,
) -> Map<SeenKey, Seq<char>>
    decreases ds.len(),
{
    if ds.len() == 0 {
        m
    } else {
        let prev = record_deployments(m, s, a, ds.drop_last());
        match ds.last().id {
            Some(id) => prev.insert((s.url@, a.uuid@, id), ds.last().status@),
            None => prev,
        }
    }
}

pub open spec fn record_apps(
    m: Map<SeenKey, Seq<char>>,
    s: ServerStatus,
    apps: Seq<AppStatus>,
) -> Map<SeenKey, Seq<char>>
    decreases apps.len(),
{
    if apps.len() == 0 {
        m
    } else {
        record_deployments(
            record_apps(m, s, apps.drop_last()),
            s,
            apps.last(),
            apps.last().deployments@,
        )
    }
}

pub open spec fn record_servers(m: Map<SeenKey, Seq<char>>, servers: Seq<ServerStatus>) -> Map<
    SeenKey,
    Seq<char>,
>
    decreases servers.len(),
{
    if servers.len() == 0 {
        m
    } else {
        record_apps(record_servers(m, servers.drop_last()), servers.last(), servers.last().apps@)
    }
}

/// The snapshot shows the app `uuid` of the server at `url` with a failed
/// deployment fetch.
pub open spec fn fetch_failed(servers: Seq<ServerStatus>, url: Seq<char>, uuid: Seq<char>) -> bool {
    exists|i: int, j: int|
        0 <= i < servers.len() && 0 <= j < servers[i].apps@.len() && servers[i].url@ == url
            && (#[trigger] servers[i].apps@[j]).uuid@ == uuid && servers[i].apps@[j].error is Some
}

/// The states recorded in a snapshot, plus the earlier states of the apps
/// whose deployment fetch failed in it (their rows carry no deployments, and
/// forgetting them would lose a deployment that settles meanwhile).
pub open spec fn retained(
    current: Map<SeenKey, Seq<char>>,
    seen: Map<SeenKey, Seq<char>>,
    servers: Seq<ServerStatus>,
) -> Map<SeenKey, Seq<char>> {
    Map::new(
        |k: SeenKey|
            current.contains_key(k) || (seen.contains_key(k) && fetch_failed(servers, k.0, k.1)),
        |k: SeenKey|
            if current.contains_key(k) {
                current[k]
            } else {
                seen[k]
            },
    )
}

/// The states kept after a snapshot: an error snapshot keeps the previous
/// states; otherwise the snapshot's own rows, and the retained states of
/// apps whose fetch failed. Rows that left the snapshot are forgotten.
pub open spec fn next_seen(seen: Map<SeenKey, Seq<char>>, snapshot: Status) -> Map<
    SeenKey,
    Seq<char>,
> {
    match snapshot.servers {
        None => seen,
        Some(list) => retained(record_servers(Map::empty(), list@), seen, list@),
    }
}

/// `"finished"` or `"failed"`.
fn settled_exec(status: &String) -> (r: bool)
    ensures
        r == is_settled(status@),
{
    *status == String::from_str("finished") || *status == String::from_str("failed")
}

/// `"in_progress"` or `"queued"`.
fn active_exec(status: &String) -> (r: bool)
    ensures
        r == is_active(status@),
{
    *status == String::from_str("in_progress") || *status == String::from_str("queued")
}

/// The commit message with whitespace runs collapsed; empty when absent.
pub fn collapse(value: &Option<String>) -> (r: String)
    ensures
        r@ == crate::text::collapse(or_empty(*value)),
{
    match value {
        Some(v) => {
            let cs = chars_of(v.as_str());
            string_from_chars(&collapse_chars(&cs))
        },
        None => {
            let r = String::from_str("");
            proof {
                reveal_strlit("");
                assert(crate::text::collapse(Seq::<char>::empty()) =~= Seq::<char>::empty());
            }
            r
        },
    }
}

fn collect_app(
    seen: &SeenTable,
    s: &ServerStatus,
    a: &AppStatus,
    current: &mut SeenTable,
    notices: &mut Vec<Notice>,
)
    requires
        seen.wf(),
        old(current).wf(),
    ensures
        final(current).wf(),
        final(current).map() == record_deployments(old(current).map(), *s, *a, a.deployments@),
        notice_views(final(notices)@) == notice_views(old(notices)@) + deployment_notices(
            seen.map(),
            *s,
            *a,
            a.deployments@,
        ),
{
    let ghost m0 = current.map();
    let ghost n0 = notice_views(notices@);
    let mut k: usize = 0;
    while k < a.deployments.len()
        invariant
            seen.wf(),
            current.wf(),
            0 <= k <= a.deployments@.len(),
            current.map() == record_deployments(m0, *s, *a, a.deployments@.take(k as int)),
            notice_views(notices@) == n0 + deployment_notices(
                seen.map(),
                *s,
                *a,
                a.deployments@.take(k as int),
            ),
        decreases a.deployments.len() - k,
    {
        let d = &a.deployments[k];
        let ghost before = notices@;
        proof {
            assert(a.deployments@.take(k + 1).drop_last() =~= a.deployments@.take(k as int));
            assert(a.deployments@.take(k + 1).last() == *d);
        }
        match d.id {
            Some(id) => {
                match seen.get(&s.url, &a.uuid, id) {
                    Some(previous) => {
                        if active_exec(previous) && settled_exec(&d.status) {
                            let notice = Notice {
                                status: d.status.clone(),
                                server: s.name.clone(),
                                app: a.name.clone(),
                                message: collapse(&d.commit_message),
                            };
                            notices.push(notice);
                            proof {
                                assert(notice_views(notices@) =~= notice_views(before).push(
                                    notice_view(notice),
                                ));
                            }
                        }
                    },
                    None => {},
                }
                current.insert(&s.url, &a.uuid, id, d.status.clone());
            },
            None => {},
        }
        proof {
            assert(notice_views(notices@) =~= n0 + deployment_notices(
                seen.map(),
                *s,
                *a,
                a.deployments@.take(k + 1),
            ));
        }
        k = k + 1;
    }
    assert(a.deployments@.take(a.deployments@.len() as int) =~= a.deployments@);
}

fn collect_server(
    seen: &SeenTable,
    s: &ServerStatus,
    current: &mut SeenTable,
    notices: &mut Vec<Notice>,
)
    requires
        seen.wf(),
        old(current).wf(),
    ensures
        final(current).wf(),
        final(current).map() == record_apps(old(current).map(), *s, s.apps@),
        notice_views(final(notices)@) == notice_views(old(notices)@) + app_notices(
            seen.map(),
            *s,
            s.apps@,
        ),
{
    let ghost m0 = current.map();
    let ghost n0 = notice_views(notices@);
    let mut j: usize = 0;
    while j < s.apps.len()
        invariant
            seen.wf(),
            current.wf(),
            0 <= j <= s.apps@.len(),
            current.map() == record_apps(m0, *s, s.apps@.take(j as int)),
            notice_views(notices@) == n0 + app_notices(seen.map(), *s, s.apps@.take(j as int)),
        decreases s.apps.len() - j,
    {
        proof {
            assert(s.apps@.take(j + 1).drop_last() =~= s.apps@.take(j as int));
            assert(s.apps@.take(j + 1).last() == s.apps@[j as int]);
        }
        collect_app(seen, s, &s.apps[j], current, notices);
        proof {
            assert(notice_views(notices@) =~= n0 + app_notices(
                seen.map(),
                *s,
                s.apps@.take(j + 1),
            ));
        }
        j = j + 1;
    }
    assert(s.apps@.take(s.apps@.len() as int) =~= s.apps@);
}


fn fetch_failed_exec(servers: &Vec<ServerStatus>, url: &String, uuid: &String) -> (r: bool)
    ensures
        r == fetch_failed(servers@, url@, uuid@),
{
    let mut i: usize = 0;
    while i < servers.len()
        invariant
            0 <= i <= servers@.len(),
            forall|a: int, b: int|
                0 <= a < i && 0 <= b < servers@[a].apps@.len() ==> !(servers@[a].url@ == url@
                    && (#[trigger] servers@[a].apps@[b]).uuid@ == uuid@
                    && servers@[a].apps@[b].error is Some),
        decreases servers.len() - i,
    {
        let s = &servers[i];
        if s.url == *url {
            let mut j: usize = 0;
            while j < s.apps.len()
                invariant
                    0 <= i < servers@.len(),
                    *s == servers@[i as int],
                    s.url@ == url@,
                    0 <= j <= s.apps@.len(),
                    forall|b: int|
                        0 <= b < j ==> !((#[trigger] s.apps@[b]).uuid@ == uuid@
                            && s.apps@[b].error is Some),
                decreases s.apps.len() - j,
            {
                let a = &s.apps[j];
                if a.uuid == *uuid && a.error.is_some() {
                    assert(servers@[i as int].apps@[j as int].uuid@ == uuid@);
                    return true;
                }
                j = j + 1;
            }
        }
        i = i + 1;
    }
    false
}

/// Adds to `current` the earlier states of the apps whose fetch failed.
fn retain_failed(
    seen: &SeenTable,
    servers: &Vec<ServerStatus>,
    current: &mut SeenTable,
)
    requires
        seen.wf(),
        old(current).wf(),
    ensures
        final(current).wf(),
        final(current).map() == retained(old(current).map(), seen.map(), servers@),
{
    let ghost cur0 = current.map();
    let ghost es = seen.entries@;
    proof {
        assert forall|k: SeenKey| !#[trigger] table_map(es.take(0)).contains_key(k) by {}
        assert(retained(cur0, table_map(es.take(0)), servers@) =~= cur0);
    }
    let mut m: usize = 0;
    while m < seen.entries.len()
        invariant
            seen.wf(),
            es == seen.entries@,
            current.wf(),
            0 <= m <= es.len(),
            current.map() == retained(cur0, table_map(es.take(m as int)), servers@),
        decreases seen.entries.len() - m,
    {
        let e = &seen.entries[m];
        let ghost t = es.take(m as int);
        let ghost k = seen_key(*e);
        proof {
            assert(es.take(m + 1) =~= t.push(*e));
            assert(table_wf(es.take(m + 1))) by {
                assert forall|a: int, b: int| 0 <= a < b < m + 1 implies seen_key(
                    #[trigger] es.take(m + 1)[a],
                ) != seen_key(#[trigger] es.take(m + 1)[b]) by {
                    assert(es.take(m + 1)[a] == es[a]);
                    assert(es.take(m + 1)[b] == es[b]);
                }
            }
            lemma_table_push(t, *e);
            assert(!table_has(t, k)) by {
                if table_has(t, k) {
                    let j = table_index(t, k);
                    assert(t[j] == es[j]);
                    assert(seen_key(es[j]) != seen_key(es[m as int]));
                }
            }
        }
        let known = current.get(&e.url, &e.uuid, e.id).is_some();
        if !known && fetch_failed_exec(servers, &e.url, &e.uuid) {
            current.insert(&e.url, &e.uuid, e.id, e.status.clone());
        }
        proof {
            assert(current.map() =~= retained(cur0, table_map(es.take(m + 1)), servers@));
        }
        m = m + 1;
    }
    proof {
        assert(es.take(es.len() as int) =~= es);
    }
}

/// Tracks deployment states between polls and tells which deployments
/// settled since the previous snapshot.
pub struct Notifier {
    /// Deployment state from the previous poll, by (server url, app uuid,
    /// deployment id).
    seen: SeenTable,
}

impl Default for Notifier {
    fn default() -> (r: Notifier)
        ensures
            r.seen() == Map::<SeenKey, Seq<char>>::empty(),
    {
        Notifier::new()
    }
}

impl Notifier {
    #[verifier::type_invariant]
    spec fn inv(self) -> bool {
        self.seen.wf()
    }

    /// The states of the previous poll.
    pub closed spec fn seen(self) -> Map<SeenKey, Seq<char>> {
        self.seen.map()
    }

    pub fn new() -> (r: Notifier)
        ensures
            r.seen() == Map::<SeenKey, Seq<char>>::empty(),
    {
        Notifier { seen: SeenTable::new() }
    }

    /// Transition detection: the notices for the deployments of `snapshot`
    /// that settled since the previous poll, and the new states.
    pub fn collect(&mut self, snapshot: &Status) -> (r: Vec<Notice>)
        ensures
            final(self).seen() == next_seen(old(self).seen(), *snapshot),
            notice_views(r@) == snapshot_notices(old(self).seen(), *snapshot),
    {
        proof {
            use_type_invariant(&*self);
        }
        match &snapshot.servers {
            None => {
                let r: Vec<Notice> = Vec::new();
                assert(notice_views(r@) =~= Seq::empty());
                r
            },
            Some(servers) => {
                let mut current = SeenTable::new();
                let mut notices: Vec<Notice> = Vec::new();
                proof {
                    assert(notice_views(notices@) =~= Seq::empty());
                }
                let mut i: usize = 0;
                while i < servers.len()
                    invariant
                        self.seen.wf(),
                        current.wf(),
                        0 <= i <= servers@.len(),
                        current.map() == record_servers(Map::empty(), servers@.take(i as int)),
                        notice_views(notices@) == server_notices(
                            self.seen.map(),
                            servers@.take(i as int),
                        ),
                    decreases servers.len() - i,
                {
                    proof {
                        assert(servers@.take(i + 1).drop_last() =~= servers@.take(i as int));
                        assert(servers@.take(i + 1).last() == servers@[i as int]);
                    }
                    collect_server(&self.seen, &servers[i], &mut current, &mut notices);
                    i = i + 1;
                }
                proof {
                    assert(servers@.take(servers@.len() as int) =~= servers@);
                }
                retain_failed(&self.seen, servers, &mut current);
                self.seen = current;
                notices
            },
        }
    }
}


/// How many individual toasts one poll may produce; the rest collapse into
/// a single "+N more" notification.
pub const MAX_INDIVIDUAL_NOTICES: usize = 3;

/// The notices one poll sends: all of them when at most three, otherwise
/// the first three and a summary `+N more` for the rest.
pub open spec fn planned(ns: Seq<NoticeView>) -> Seq<NoticeView> {
    if ns.len() > MAX_INDIVIDUAL_NOTICES {
        ns.take(MAX_INDIVIDUAL_NOTICES as int).push(
            (
                "summary"@,
                Seq::empty(),
                "+"@ + decimal((ns.len() - MAX_INDIVIDUAL_NOTICES) as nat) + " more"@,
                Seq::empty(),
            ),
        )
    } else {
        ns
    }
}

/// Caps a poll's notices at three individual ones plus a summary.
pub fn plan_notices(notices: Vec<Notice>) -> (r: Vec<Notice>)
    ensures
        notice_views(r@) == planned(notice_views(notices@)),
{
    let n = notices.len();
    if n <= MAX_INDIVIDUAL_NOTICES {
        return notices;
    }
    let overflow = n - MAX_INDIVIDUAL_NOTICES;
    let mut kept = notices;
    kept.truncate(MAX_INDIVIDUAL_NOTICES);
    let count = decimal_string(overflow as u64);
    let mut app = String::from_str("+");
    app.append(count.as_str());
    app.append(" more");
    let summary = Notice {
        status: String::from_str("summary"),
        server: String::from_str(""),
        app,
        message: String::from_str(""),
    };
    proof {
        reveal_strlit("");
    }
    let ghost before = kept@;
    kept.push(summary);
    proof {
        let nv = notice_views(notices@);
        assert(before =~= notices@.take(3));
        assert(notice_view(summary) == (
            "summary"@,
            Seq::<char>::empty(),
            "+"@ + decimal((nv.len() - MAX_INDIVIDUAL_NOTICES) as nat) + " more"@,
            Seq::<char>::empty(),
        ));
        assert forall|k: int| 0 <= k < 3 implies notice_views(kept@)[k] == planned(nv)[k] by {
            assert(kept@[k] == notices@[k]);
        }
        assert(notice_views(kept@) =~= planned(nv));
    }
    kept
}

/// A desktop notification ready to send: summary, body, and urgency
/// (1 normal, 2 critical).
#[derive(Debug, Clone, PartialEq, Eq)]
pub struct Toast {
    pub summary: String,
    pub body: String,
    pub urgency: u8,
}

/// The body of a notice's toast: server and commit message, escaped.
pub open spec fn body_text(n: NoticeView) -> Seq<char> {
    if n.1.len() == 0 {
        crate::text::escape_markup(n.3)
    } else if n.3.len() == 0 {
        crate::text::escape_markup(n.1)
    } else {
        crate::text::escape_markup(n.1) + " \u{00B7} "@ + crate::text::escape_markup(n.3)
    }
}

/// The toast of a notice: `✓ app deployed` (normal) or `✗ app deployment
/// failed` (critical) with the body, or a plain `🚀 Coolify: app` summary.
pub open spec fn toast_of(n: NoticeView) -> (Seq<char>, Seq<char>, u8) {
    if n.0 == "finished"@ {
        ("\u{2713} "@ + crate::text::escape_markup(n.2) + " deployed"@, body_text(n), 1u8)
    } else if n.0 == "failed"@ {
        ("\u{2717} "@ + crate::text::escape_markup(n.2) + " deployment failed"@, body_text(n), 2u8)
    } else {
        ("\u{1F680} Coolify: "@ + crate::text::escape_markup(n.2), Seq::empty(), 1u8)
    }
}

pub open spec fn toast_view(t: Toast) -> (Seq<char>, Seq<char>, u8) {
    (t.summary@, t.body@, t.urgency)
}

/// Escapes markup-significant characters so that Coolify-controlled strings
/// show literally in a renderer that treats the text as markup.
pub fn escape_markup(value: &str) -> (r: String)
    ensures
        r@ == crate::text::escape_markup(value@),
{
    let cs = chars_of(value);
    string_from_chars(&escape_markup_chars(&cs))
}

/// The toast body of a notice.
pub fn body_of(notice: &Notice) -> (r: String)
    ensures
        r@ == body_text(notice_view(*notice)),
{
    if notice.server.as_str().is_empty() {
        return escape_markup(notice.message.as_str());
    }
    if notice.message.as_str().is_empty() {
        return escape_markup(notice.server.as_str());
    }
    let mut r = escape_markup(notice.server.as_str());
    r.append(" \u{00B7} ");
    let m = escape_markup(notice.message.as_str());
    r.append(m.as_str());
    r
}

/// The toast that announces a notice.
pub fn toast_for(notice: &Notice) -> (r: Toast)
    ensures
        toast_view(r) == toast_of(notice_view(*notice)),
{
    let app = escape_markup(notice.app.as_str());
    if notice.status == String::from_str("finished") {
        let mut summary = String::from_str("\u{2713} ");
        summary.append(app.as_str());
        summary.append(" deployed");
        Toast { summary, body: body_of(notice), urgency: 1 }
    } else if notice.status == String::from_str("failed") {
        let mut summary = String::from_str("\u{2717} ");
        summary.append(app.as_str());
        summary.append(" deployment failed");
        Toast { summary, body: body_of(notice), urgency: 2 }
    } else {
        let mut summary = String::from_str("\u{1F680} Coolify: ");
        summary.append(app.as_str());
        let body = String::from_str("");
        proof {
            reveal_strlit("");
        }
        Toast { summary, body, urgency: 1 }
    }
}

pub open spec fn toast_views(ts: Seq<Toast>) -> Seq<(Seq<char>, Seq<char>, u8)> {
    ts.map_values(|t: Toast| toast_view(t))
}

/// The toasts for some notices, in order.
pub fn toasts_for(notices: &Vec<Notice>) -> (r: Vec<Toast>)
    ensures
        toast_views(r@) == notice_views(notices@).map_values(
            |n: NoticeView| toast_of(n),
        ),
{
    let mut out: Vec<Toast> = Vec::new();
    let mut i: usize = 0;
    while i < notices.len()
        invariant
            0 <= i <= notices@.len(),
            out@.len() == i,
            toast_views(out@) == notice_views(notices@.take(i as int)).map_values(
                |n: NoticeView| toast_of(n),
            ),
        decreases notices.len() - i,
    {
        let t = toast_for(&notices[i]);
        let ghost before = out@;
        out.push(t);
        proof {
            assert forall|k: int| 0 <= k < i + 1 implies #[trigger] toast_views(out@)[k]
                == notice_views(notices@.take(i + 1)).map_values(|n: NoticeView| toast_of(n))[k] by {
                if k < i {
                    assert(out@[k] == before[k]);
                    assert(notices@.take(i + 1)[k] == notices@.take(i as int)[k]);
                    assert(toast_views(before)[k] == notice_views(notices@.take(i as int)).map_values(
                        |n: NoticeView| toast_of(n),
                    )[k]);
                } else {
                    assert(notices@.take(i + 1)[k] == notices@[i as int]);
                    assert(out@[k] == t);
                }
            }
            assert(toast_views(out@) =~= notice_views(notices@.take(i + 1)).map_values(
                |n: NoticeView| toast_of(n),
            ));
        }
        i = i + 1;
    }
    assert(notices@.take(notices@.len() as int) =~= notices@);
    out
}

impl Notifier {
    /// Updates the states from a snapshot and, when `notify` is set, returns
    /// the toasts to send for the deployments that just finished or failed.
    /// The states are tracked whatever `notify` says, so turning
    /// notifications off and back on never replays settled history.
    pub fn process(&mut self, snapshot: &Status, notify: bool) -> (r: Vec<Toast>)
        ensures
            final(self).seen() == next_seen(old(self).seen(), *snapshot),
            notify ==> toast_views(r@) == planned(snapshot_notices(old(self).seen(), *snapshot)).map_values(
                |n: NoticeView| toast_of(n),
            ),
            !notify ==> r@.len() == 0,
    {
        let notices = self.collect(snapshot);
        if notify {
            let planned_notices = plan_notices(notices);
            toasts_for(&planned_notices)
        } else {
            Vec::new()
        }
    }
}


/// The rows `ds` of app `a` on server `s` report the deployment `k`.
pub open spec fn deployments_report(s: ServerStatus, a: AppStatus, ds: Seq<DeploymentItem>, k: SeenKey) -> bool {
    s.url@ == k.0 && a.uuid@ == k.1 && exists|l: int| 0 <= l < ds.len() && (#[trigger] ds[l]).id == Some(k.2)
}

/// The apps of server `s` report the deployment `k`.
pub open spec fn apps_report(s: ServerStatus, apps: Seq<AppStatus>, k: SeenKey) -> bool {
    exists|j: int| 0 <= j < apps.len() && deployments_report(s, #[trigger] apps[j], apps[j].deployments@, k)
}

/// The snapshot rows report the deployment `k`.
pub open spec fn servers_report(servers: Seq<ServerStatus>, k: SeenKey) -> bool {
    exists|i: int| 0 <= i < servers.len() && apps_report(#[trigger] servers[i], servers[i].apps@, k)
}

proof fn lemma_record_deployments_domain(
    m: Map<SeenKey, Seq<char>>,
    s: ServerStatus,
    a: AppStatus,
    ds: Seq<DeploymentItem>,
    k: SeenKey,
)
    ensures
        record_deployments(m, s, a, ds).contains_key(k) <==> m.contains_key(k)
            || deployments_report(s, a, ds, k),
        !deployments_report(s, a, ds, k) && m.contains_key(k) ==> record_deployments(m, s, a, ds)[k]
            == m[k],
    decreases ds.len(),
{
    if ds.len() > 0 {
        let p = ds.drop_last();
        lemma_record_deployments_domain(m, s, a, p, k);
        if deployments_report(s, a, p, k) {
            let l = choose|l: int| 0 <= l < p.len() && (#[trigger] p[l]).id == Some(k.2);
            assert(ds[l] == p[l]);
        }
        if deployments_report(s, a, ds, k) && !deployments_report(s, a, p, k) {
            let l = choose|l: int| 0 <= l < ds.len() && (#[trigger] ds[l]).id == Some(k.2);
            if l < p.len() {
                assert(ds[l] == p[l]);
            }
        }
        if !deployments_report(s, a, ds, k) {
            if deployments_report(s, a, p, k) {
                let l = choose|l: int| 0 <= l < p.len() && (#[trigger] p[l]).id == Some(k.2);
                assert(ds[l] == p[l]);
            }
            if ds.last().id == Some(k.2) && s.url@ == k.0 && a.uuid@ == k.1 {
                assert(ds[ds.len() - 1] == ds.last());
            }
        }
    }
}

proof fn lemma_record_apps_domain(
    m: Map<SeenKey, Seq<char>>,
    s: ServerStatus,
    apps: Seq<AppStatus>,
    k: SeenKey,
)
    ensures
        record_apps(m, s, apps).contains_key(k) <==> m.contains_key(k) || apps_report(s, apps, k),
        !apps_report(s, apps, k) && m.contains_key(k) ==> record_apps(m, s, apps)[k] == m[k],
    decreases apps.len(),
{
    if apps.len() > 0 {
        let p = apps.drop_last();
        lemma_record_apps_domain(m, s, p, k);
        lemma_record_deployments_domain(record_apps(m, s, p), s, apps.last(), apps.last().deployments@, k);
        if apps_report(s, p, k) {
            let j = choose|j: int| 0 <= j < p.len() && deployments_report(s, #[trigger] p[j], p[j].deployments@, k);
            assert(apps[j] == p[j]);
        }
        if apps_report(s, apps, k) {
            let j = choose|j: int| 0 <= j < apps.len() && deployments_report(s, #[trigger] apps[j], apps[j].deployments@, k);
            if j < p.len() {
                assert(apps[j] == p[j]);
            } else {
                assert(apps[j] == apps.last());
            }
        }
        if deployments_report(s, apps.last(), apps.last().deployments@, k) {
            assert(apps[apps.len() - 1] == apps.last());
        }
    }
}

proof fn lemma_record_servers_domain(m: Map<SeenKey, Seq<char>>, servers: Seq<ServerStatus>, k: SeenKey)
    ensures
        record_servers(m, servers).contains_key(k) <==> m.contains_key(k) || servers_report(servers, k),
        !servers_report(servers, k) && m.contains_key(k) ==> record_servers(m, servers)[k] == m[k],
    decreases servers.len(),
{
    if servers.len() > 0 {
        let p = servers.drop_last();
        lemma_record_servers_domain(m, p, k);
        lemma_record_apps_domain(record_servers(m, p), servers.last(), servers.last().apps@, k);
        if servers_report(p, k) {
            let i = choose|i: int| 0 <= i < p.len() && apps_report(#[trigger] p[i], p[i].apps@, k);
            assert(servers[i] == p[i]);
        }
        if servers_report(servers, k) {
            let i = choose|i: int| 0 <= i < servers.len() && apps_report(#[trigger] servers[i], servers[i].apps@, k);
            if i < p.len() {
                assert(servers[i] == p[i]);
            } else {
                assert(servers[i] == servers.last());
            }
        }
        if apps_report(servers.last(), servers.last().apps@, k) {
            assert(servers[servers.len() - 1] == servers.last());
        }
    }
}

/// After a snapshot with servers, the notifier knows exactly the
/// deployments the snapshot reports, plus the earlier ones of apps whose
/// deployment fetch failed; every other deployment is forgotten, so a
/// redeploy of an old app starts from a clean slate.
pub proof fn law_next_states_cover_reported_rows(
    seen: Map<SeenKey, Seq<char>>,
    snapshot: Status,
    k: SeenKey,
)
    requires
        snapshot.servers is Some,
    ensures
        ({
            let list = snapshot.servers->Some_0@;
            next_seen(seen, snapshot).contains_key(k) <==> servers_report(list, k) || (
            seen.contains_key(k) && fetch_failed(list, k.0, k.1))
        }),
{
    let list = snapshot.servers->Some_0@;
    lemma_record_servers_domain(Map::empty(), list, k);
}

/// A deployment of an app whose deployment fetch failed keeps its earlier
/// state while the snapshot does not report it, so a deployment that
/// settles meanwhile still notifies once the app's fetch recovers.
pub proof fn law_failed_fetch_keeps_state(seen: Map<SeenKey, Seq<char>>, snapshot: Status, k: SeenKey)
    requires
        snapshot.servers is Some,
        seen.contains_key(k),
        fetch_failed(snapshot.servers->Some_0@, k.0, k.1),
        !servers_report(snapshot.servers->Some_0@, k),
    ensures
        next_seen(seen, snapshot).contains_key(k),
        next_seen(seen, snapshot)[k] == seen[k],
{
    let list = snapshot.servers->Some_0@;
    lemma_record_servers_domain(Map::empty(), list, k);
}

/// An error snapshot (no servers) notifies nothing and keeps every state, so
/// a transient config or API failure does not forget running deployments.
pub proof fn law_error_snapshot_keeps_states(seen: Map<SeenKey, Seq<char>>, snapshot: Status)
    requires
        snapshot.servers is None,
    ensures
        next_seen(seen, snapshot) == seen,
        snapshot_notices(seen, snapshot) == Seq::<NoticeView>::empty(),
{
}

proof fn lemma_empty_deployment_notices(s: ServerStatus, a: AppStatus, ds: Seq<DeploymentItem>)
    ensures
        deployment_notices(Map::empty(), s, a, ds) == Seq::<NoticeView>::empty(),
    decreases ds.len(),
{
    if ds.len() > 0 {
        lemma_empty_deployment_notices(s, a, ds.drop_last());
        assert(deployment_notices(Map::empty(), s, a, ds) =~= Seq::<NoticeView>::empty());
    }
}

proof fn lemma_empty_app_notices(s: ServerStatus, apps: Seq<AppStatus>)
    ensures
        app_notices(Map::empty(), s, apps) == Seq::<NoticeView>::empty(),
    decreases apps.len(),
{
    if apps.len() > 0 {
        lemma_empty_app_notices(s, apps.drop_last());
        lemma_empty_deployment_notices(s, apps.last(), apps.last().deployments@);
        assert(app_notices(Map::empty(), s, apps) =~= Seq::<NoticeView>::empty());
    }
}

proof fn lemma_empty_server_notices(servers: Seq<ServerStatus>)
    ensures
        server_notices(Map::empty(), servers) == Seq::<NoticeView>::empty(),
    decreases servers.len(),
{
    if servers.len() > 0 {
        lemma_empty_server_notices(servers.drop_last());
        lemma_empty_app_notices(servers.last(), servers.last().apps@);
        assert(server_notices(Map::empty(), servers) =~= Seq::<NoticeView>::empty());
    }
}

/// The first snapshot after startup only seeds the states: whatever it
/// shows, historical rows never notify.
pub proof fn law_first_snapshot_only_seeds(snapshot: Status)
    ensures
        snapshot_notices(Map::empty(), snapshot) == Seq::<NoticeView>::empty(),
{
    if let Some(list) = snapshot.servers {
        lemma_empty_server_notices(list@);
    }
}

proof fn lemma_deployment_notices_settled(
    seen: Map<SeenKey, Seq<char>>,
    s: ServerStatus,
    a: AppStatus,
    ds: Seq<DeploymentItem>,
)
    ensures
        forall|i: int| 0 <= i < deployment_notices(seen, s, a, ds).len() ==> is_settled(
            (#[trigger] deployment_notices(seen, s, a, ds)[i]).0,
        ),
    decreases ds.len(),
{
    if ds.len() > 0 {
        lemma_deployment_notices_settled(seen, s, a, ds.drop_last());
        let x = deployment_notices(seen, s, a, ds.drop_last());
        let y = transition_notice(seen, s, a, ds.last());
        assert forall|i: int| 0 <= i < (x + y).len() implies is_settled((#[trigger] (x + y)[i]).0) by {
            if i < x.len() {
                assert((x + y)[i] == x[i]);
            } else {
                assert((x + y)[i] == y[i - x.len()]);
            }
        }
    }
}

proof fn lemma_app_notices_settled(seen: Map<SeenKey, Seq<char>>, s: ServerStatus, apps: Seq<AppStatus>)
    ensures
        forall|i: int| 0 <= i < app_notices(seen, s, apps).len() ==> is_settled(
            (#[trigger] app_notices(seen, s, apps)[i]).0,
        ),
    decreases apps.len(),
{
    if apps.len() > 0 {
        lemma_app_notices_settled(seen, s, apps.drop_last());
        lemma_deployment_notices_settled(seen, s, apps.last(), apps.last().deployments@);
        let x = app_notices(seen, s, apps.drop_last());
        let y = deployment_notices(seen, s, apps.last(), apps.last().deployments@);
        assert forall|i: int| 0 <= i < (x + y).len() implies is_settled((#[trigger] (x + y)[i]).0) by {
            if i < x.len() {
                assert((x + y)[i] == x[i]);
            } else {
                assert((x + y)[i] == y[i - x.len()]);
            }
        }
    }
}

proof fn lemma_server_notices_settled(seen: Map<SeenKey, Seq<char>>, servers: Seq<ServerStatus>)
    ensures
        forall|i: int| 0 <= i < server_notices(seen, servers).len() ==> is_settled(
            (#[trigger] server_notices(seen, servers)[i]).0,
        ),
    decreases servers.len(),
{
    if servers.len() > 0 {
        lemma_server_notices_settled(seen, servers.drop_last());
        lemma_app_notices_settled(seen, servers.last(), servers.last().apps@);
        let x = server_notices(seen, servers.drop_last());
        let y = app_notices(seen, servers.last(), servers.last().apps@);
        assert forall|i: int| 0 <= i < (x + y).len() implies is_settled((#[trigger] (x + y)[i]).0) by {
            if i < x.len() {
                assert((x + y)[i] == x[i]);
            } else {
                assert((x + y)[i] == y[i - x.len()]);
            }
        }
    }
}

/// Every notice announces a settlement: its status is finished or failed.
pub proof fn law_notices_announce_settlements(seen: Map<SeenKey, Seq<char>>, snapshot: Status)
    ensures
        forall|i: int| 0 <= i < snapshot_notices(seen, snapshot).len() ==> is_settled(
            (#[trigger] snapshot_notices(seen, snapshot)[i]).0,
        ),
{
    if let Some(list) = snapshot.servers {
        lemma_server_notices_settled(seen, list@);
    }
}


proof fn lemma_active_not_settled(status: Seq<char>)
    ensures
        !(is_active(status) && is_settled(status)),
{
    reveal_strlit("in_progress");
    reveal_strlit("queued");
    reveal_strlit("finished");
    reveal_strlit("failed");
    if is_active(status) && is_settled(status) {
        assert(status.len() == 11 || status.len() == 6);
        assert(status.len() == 8 || status.len() == 6);
        assert(status[0] == 'q' || status[0] == 'i');
    }
}

/// The identity of the deployment row at (server `i`, app `j`, row `l`).
pub open spec fn row_key(servers: Seq<ServerStatus>, i: int, j: int, l: int) -> SeenKey {
    (
        servers[i].url@,
        servers[i].apps@[j].uuid@,
        servers[i].apps@[j].deployments@[l].id->Some_0,
    )
}

/// (server `i`, app `j`, row `l`) is a deployment row with an id.
pub open spec fn is_row(servers: Seq<ServerStatus>, i: int, j: int, l: int) -> bool {
    &&& 0 <= i < servers.len()
    &&& 0 <= j < servers[i].apps@.len()
    &&& 0 <= l < servers[i].apps@[j].deployments@.len()
    &&& servers[i].apps@[j].deployments@[l].id is Some
}

/// No deployment appears in two rows of the snapshot.
pub open spec fn rows_distinct(servers: Seq<ServerStatus>) -> bool {
    forall|i: int, j: int, l: int, i2: int, j2: int, l2: int|
        #![trigger row_key(servers, i, j, l), row_key(servers, i2, j2, l2)]
        is_row(servers, i, j, l) && is_row(servers, i2, j2, l2) && row_key(servers, i, j, l)
            == row_key(servers, i2, j2, l2) ==> i == i2 && j == j2 && l == l2
}

proof fn lemma_record_deployments_value(
    m: Map<SeenKey, Seq<char>>,
    s: ServerStatus,
    a: AppStatus,
    ds: Seq<DeploymentItem>,
    l: int,
)
    requires
        0 <= l < ds.len(),
        ds[l].id is Some,
        forall|l2: int| 0 <= l2 < ds.len() && l2 != l ==> (#[trigger] ds[l2]).id != ds[l].id,
    ensures
        record_deployments(m, s, a, ds).contains_key((s.url@, a.uuid@, ds[l].id->Some_0)),
        record_deployments(m, s, a, ds)[(s.url@, a.uuid@, ds[l].id->Some_0)] == ds[l].status@,
    decreases ds.len(),
{
    let p = ds.drop_last();
    if l < ds.len() - 1 {
        assert(p[l] == ds[l]);
        assert forall|l2: int| 0 <= l2 < p.len() && l2 != l implies (#[trigger] p[l2]).id
            != p[l].id by {
            assert(p[l2] == ds[l2]);
        }
        lemma_record_deployments_value(m, s, a, p, l);
        assert(ds[ds.len() - 1] == ds.last());
    }
}

proof fn lemma_record_apps_value(
    m: Map<SeenKey, Seq<char>>,
    s: ServerStatus,
    apps: Seq<AppStatus>,
    j: int,
    l: int,
)
    requires
        0 <= j < apps.len(),
        0 <= l < apps[j].deployments@.len(),
        apps[j].deployments@[l].id is Some,
        forall|l2: int|
            0 <= l2 < apps[j].deployments@.len() && l2 != l ==> (
            #[trigger] apps[j].deployments@[l2]).id != apps[j].deployments@[l].id,
        forall|j2: int|
            0 <= j2 < apps.len() && j2 != j ==> !deployments_report(
                s,
                #[trigger] apps[j2],
                apps[j2].deployments@,
                (s.url@, apps[j].uuid@, apps[j].deployments@[l].id->Some_0),
            ),
    ensures
        ({
            let k = (s.url@, apps[j].uuid@, apps[j].deployments@[l].id->Some_0);
            record_apps(m, s, apps).contains_key(k) && record_apps(m, s, apps)[k]
                == apps[j].deployments@[l].status@
        }),
    decreases apps.len(),
{
    let k = (s.url@, apps[j].uuid@, apps[j].deployments@[l].id->Some_0);
    let p = apps.drop_last();
    if j == apps.len() - 1 {
        assert(apps.last() == apps[j]);
        lemma_record_deployments_value(record_apps(m, s, p), s, apps[j], apps[j].deployments@, l);
    } else {
        assert(p[j] == apps[j]);
        assert forall|j2: int| 0 <= j2 < p.len() && j2 != j implies !deployments_report(
            s,
            #[trigger] p[j2],
            p[j2].deployments@,
            k,
        ) by {
            assert(p[j2] == apps[j2]);
        }
        lemma_record_apps_value(m, s, p, j, l);
        assert(apps[apps.len() - 1] == apps.last());
        lemma_record_deployments_domain(record_apps(m, s, p), s, apps.last(), apps.last().deployments@, k);
    }
}

proof fn lemma_record_servers_value(
    m: Map<SeenKey, Seq<char>>,
    servers: Seq<ServerStatus>,
    i: int,
    j: int,
    l: int,
)
    requires
        is_row(servers, i, j, l),
        rows_distinct(servers),
    ensures
        record_servers(m, servers).contains_key(row_key(servers, i, j, l)),
        record_servers(m, servers)[row_key(servers, i, j, l)]
            == servers[i].apps@[j].deployments@[l].status@,
    decreases servers.len(),
{
    let k = row_key(servers, i, j, l);
    let s = servers[i];
    let apps = s.apps@;
    let p = servers.drop_last();
    assert forall|l2: int| 0 <= l2 < apps[j].deployments@.len() && l2 != l implies (
    #[trigger] apps[j].deployments@[l2]).id != apps[j].deployments@[l].id by {
        if apps[j].deployments@[l2].id == apps[j].deployments@[l].id {
            assert(is_row(servers, i, j, l2));
            assert(row_key(servers, i, j, l2) == k);
        }
    }
    assert forall|j2: int| 0 <= j2 < apps.len() && j2 != j implies !deployments_report(
        s,
        #[trigger] apps[j2],
        apps[j2].deployments@,
        k,
    ) by {
        if deployments_report(s, apps[j2], apps[j2].deployments@, k) {
            let l2 = choose|l2: int|
                0 <= l2 < apps[j2].deployments@.len() && (#[trigger] apps[j2].deployments@[l2]).id
                    == Some(k.2);
            assert(is_row(servers, i, j2, l2));
            assert(row_key(servers, i, j2, l2) == k);
        }
    }
    if i == servers.len() - 1 {
        assert(servers.last() == s);
        lemma_record_apps_value(record_servers(m, p), s, apps, j, l);
    } else {
        assert(p[i] == s);
        assert(is_row(p, i, j, l));
        assert(row_key(p, i, j, l) == k);
        assert forall|a: int, b: int, c: int, a2: int, b2: int, c2: int|
            #![trigger row_key(p, a, b, c), row_key(p, a2, b2, c2)]
            is_row(p, a, b, c) && is_row(p, a2, b2, c2) && row_key(p, a, b, c) == row_key(
                p,
                a2,
                b2,
                c2,
            ) implies a == a2 && b == b2 && c == c2 by {
            assert(p[a] == servers[a] && p[a2] == servers[a2]);
            assert(is_row(servers, a, b, c) && is_row(servers, a2, b2, c2));
            assert(row_key(servers, a, b, c) == row_key(servers, a2, b2, c2));
        }
        lemma_record_servers_value(m, p, i, j, l);
        let last = servers.last();
        assert(servers[servers.len() - 1] == last);
        assert(!apps_report(last, last.apps@, k)) by {
            if apps_report(last, last.apps@, k) {
                let j2 = choose|j2: int|
                    0 <= j2 < last.apps@.len() && deployments_report(
                        last,
                        #[trigger] last.apps@[j2],
                        last.apps@[j2].deployments@,
                        k,
                    );
                let l2 = choose|l2: int|
                    0 <= l2 < last.apps@[j2].deployments@.len() && (
                    #[trigger] last.apps@[j2].deployments@[l2]).id == Some(k.2);
                let n = servers.len() - 1;
                assert(is_row(servers, n, j2, l2));
                assert(row_key(servers, n, j2, l2) == k);
            }
        }
        lemma_record_apps_domain(record_servers(m, p), last, last.apps@, k);
    }
}

proof fn lemma_own_rows_silent(seen: Map<SeenKey, Seq<char>>, servers: Seq<ServerStatus>, i: int, j: int)
    requires
        0 <= i < servers.len(),
        0 <= j <= servers[i].apps@.len(),
        rows_distinct(servers),
        forall|k: SeenKey| servers_report(servers, k) ==> #[trigger] seen.contains_key(k) && seen[k]
            == record_servers(Map::empty(), servers)[k],
    ensures
        app_notices(seen, servers[i], servers[i].apps@.take(j)) == Seq::<NoticeView>::empty(),
    decreases j,
{
    let s = servers[i];
    if j > 0 {
        lemma_own_rows_silent(seen, servers, i, j - 1);
        assert(s.apps@.take(j).drop_last() =~= s.apps@.take(j - 1));
        let a = s.apps@[j - 1];
        assert(s.apps@.take(j).last() == a);
        lemma_own_deployments_silent(seen, servers, i, j - 1, a.deployments@.len() as int);
        assert(a.deployments@.take(a.deployments@.len() as int) =~= a.deployments@);
        assert(app_notices(seen, s, s.apps@.take(j)) =~= Seq::<NoticeView>::empty());
    } else {
        assert(s.apps@.take(0) =~= Seq::<AppStatus>::empty());
    }
}

proof fn lemma_own_deployments_silent(
    seen: Map<SeenKey, Seq<char>>,
    servers: Seq<ServerStatus>,
    i: int,
    j: int,
    l: int,
)
    requires
        0 <= i < servers.len(),
        0 <= j < servers[i].apps@.len(),
        0 <= l <= servers[i].apps@[j].deployments@.len(),
        rows_distinct(servers),
        forall|k: SeenKey| servers_report(servers, k) ==> #[trigger] seen.contains_key(k) && seen[k]
            == record_servers(Map::empty(), servers)[k],
    ensures
        deployment_notices(
            seen,
            servers[i],
            servers[i].apps@[j],
            servers[i].apps@[j].deployments@.take(l),
        ) == Seq::<NoticeView>::empty(),
    decreases l,
{
    let s = servers[i];
    let a = s.apps@[j];
    let ds = a.deployments@;
    if l > 0 {
        lemma_own_deployments_silent(seen, servers, i, j, l - 1);
        assert(ds.take(l).drop_last() =~= ds.take(l - 1));
        let d = ds[l - 1];
        assert(ds.take(l).last() == d);
        if let Some(id) = d.id {
            let k = (s.url@, a.uuid@, id);
            assert(is_row(servers, i, j, l - 1));
            assert(row_key(servers, i, j, l - 1) == k);
            assert(apps_report(s, s.apps@, k)) by {
                assert(deployments_report(s, s.apps@[j], s.apps@[j].deployments@, k));
            }
            assert(servers_report(servers, k));
            lemma_record_servers_value(Map::empty(), servers, i, j, l - 1);
            assert(seen.contains_key(k));
            assert(seen[k] == d.status@);
            lemma_active_not_settled(d.status@);
            assert(transition_notice(seen, s, a, d) =~= Seq::<NoticeView>::empty());
        }
        assert(deployment_notices(seen, s, a, ds.take(l)) =~= Seq::<NoticeView>::empty());
    } else {
        assert(ds.take(0) =~= Seq::<DeploymentItem>::empty());
    }
}

proof fn lemma_own_servers_silent(seen: Map<SeenKey, Seq<char>>, servers: Seq<ServerStatus>, n: int)
    requires
        0 <= n <= servers.len(),
        rows_distinct(servers),
        forall|k: SeenKey| servers_report(servers, k) ==> #[trigger] seen.contains_key(k) && seen[k]
            == record_servers(Map::empty(), servers)[k],
    ensures
        server_notices(seen, servers.take(n)) == Seq::<NoticeView>::empty(),
    decreases n,
{
    if n > 0 {
        lemma_own_servers_silent(seen, servers, n - 1);
        assert(servers.take(n).drop_last() =~= servers.take(n - 1));
        let s = servers[n - 1];
        assert(servers.take(n).last() == s);
        lemma_own_rows_silent(seen, servers, n - 1, s.apps@.len() as int);
        assert(s.apps@.take(s.apps@.len() as int) =~= s.apps@);
        assert(server_notices(seen, servers.take(n)) =~= Seq::<NoticeView>::empty());
    } else {
        assert(servers.take(0) =~= Seq::<ServerStatus>::empty());
    }
}

/// Showing the same snapshot twice in a row notifies nothing the second
/// time (provided no deployment appears in two of its rows): a deployment
/// that keeps finishing, or keeps running, is no transition.
pub proof fn law_repeated_snapshot_is_silent(seen: Map<SeenKey, Seq<char>>, snapshot: Status)
    requires
        snapshot.servers matches Some(list) && rows_distinct(list@),
    ensures
        snapshot_notices(next_seen(seen, snapshot), snapshot) == Seq::<NoticeView>::empty(),
{
    let list = snapshot.servers->Some_0@;
    let next = next_seen(seen, snapshot);
    let cur = record_servers(Map::empty(), list);
    assert forall|k: SeenKey| servers_report(list, k) implies #[trigger] next.contains_key(k)
        && next[k] == cur[k] by {
        lemma_record_servers_domain(Map::empty(), list, k);
    }
    lemma_own_servers_silent(next, list, list.len() as int);
    assert(list.take(list.len() as int) =~= list);
}


proof fn lemma_deployment_notices_contains(
    seen: Map<SeenKey, Seq<char>>,
    s: ServerStatus,
    a: AppStatus,
    ds: Seq<DeploymentItem>,
    l: int,
)
    requires
        0 <= l < ds.len(),
        transition_notice(seen, s, a, ds[l]).len() > 0,
    ensures
        deployment_notices(seen, s, a, ds).contains(transition_notice(seen, s, a, ds[l])[0]),
    decreases ds.len(),
{
    let p = ds.drop_last();
    let x = deployment_notices(seen, s, a, p);
    let y = transition_notice(seen, s, a, ds.last());
    if l == ds.len() - 1 {
        assert(ds.last() == ds[l]);
        assert((x + y)[x.len() as int] == y[0]);
    } else {
        assert(p[l] == ds[l]);
        lemma_deployment_notices_contains(seen, s, a, p, l);
        let m = choose|m: int| 0 <= m < x.len() && x[m] == transition_notice(seen, s, a, ds[l])[0];
        assert((x + y)[m] == x[m]);
    }
}

proof fn lemma_app_notices_contains(
    seen: Map<SeenKey, Seq<char>>,
    s: ServerStatus,
    apps: Seq<AppStatus>,
    j: int,
    l: int,
)
    requires
        0 <= j < apps.len(),
        0 <= l < apps[j].deployments@.len(),
        transition_notice(seen, s, apps[j], apps[j].deployments@[l]).len() > 0,
    ensures
        app_notices(seen, s, apps).contains(
            transition_notice(seen, s, apps[j], apps[j].deployments@[l])[0],
        ),
    decreases apps.len(),
{
    let p = apps.drop_last();
    let x = app_notices(seen, s, p);
    let y = deployment_notices(seen, s, apps.last(), apps.last().deployments@);
    let t = transition_notice(seen, s, apps[j], apps[j].deployments@[l])[0];
    if j == apps.len() - 1 {
        assert(apps.last() == apps[j]);
        lemma_deployment_notices_contains(seen, s, apps[j], apps[j].deployments@, l);
        let m = choose|m: int| 0 <= m < y.len() && y[m] == t;
        assert((x + y)[x.len() + m] == y[m]);
    } else {
        assert(p[j] == apps[j]);
        lemma_app_notices_contains(seen, s, p, j, l);
        let m = choose|m: int| 0 <= m < x.len() && x[m] == t;
        assert((x + y)[m] == x[m]);
    }
}

proof fn lemma_server_notices_contains(
    seen: Map<SeenKey, Seq<char>>,
    servers: Seq<ServerStatus>,
    i: int,
    j: int,
    l: int,
)
    requires
        0 <= i < servers.len(),
        0 <= j < servers[i].apps@.len(),
        0 <= l < servers[i].apps@[j].deployments@.len(),
        transition_notice(
            seen,
            servers[i],
            servers[i].apps@[j],
            servers[i].apps@[j].deployments@[l],
        ).len() > 0,
    ensures
        server_notices(seen, servers).contains(
            transition_notice(
                seen,
                servers[i],
                servers[i].apps@[j],
                servers[i].apps@[j].deployments@[l],
            )[0],
        ),
    decreases servers.len(),
{
    let p = servers.drop_last();
    let x = server_notices(seen, p);
    let y = app_notices(seen, servers.last(), servers.last().apps@);
    let t = transition_notice(
        seen,
        servers[i],
        servers[i].apps@[j],
        servers[i].apps@[j].deployments@[l],
    )[0];
    if i == servers.len() - 1 {
        assert(servers.last() == servers[i]);
        lemma_app_notices_contains(seen, servers[i], servers[i].apps@, j, l);
        let m = choose|m: int| 0 <= m < y.len() && y[m] == t;
        assert((x + y)[x.len() + m] == y[m]);
    } else {
        assert(p[i] == servers[i]);
        lemma_server_notices_contains(seen, p, i, j, l);
        let m = choose|m: int| 0 <= m < x.len() && x[m] == t;
        assert((x + y)[m] == x[m]);
    }
}

/// A deployment that was running or queued at the previous poll and is now
/// finished or failed is announced: the snapshot's notices hold its status,
/// server, app, and collapsed commit message.
pub proof fn law_settled_deployment_is_announced(
    seen: Map<SeenKey, Seq<char>>,
    snapshot: Status,
    i: int,
    j: int,
    l: int,
)
    requires
        snapshot.servers matches Some(list) && is_row(list@, i, j, l),
        seen.contains_key(row_key(snapshot.servers->Some_0@, i, j, l)),
        is_active(seen[row_key(snapshot.servers->Some_0@, i, j, l)]),
        is_settled(snapshot.servers->Some_0@[i].apps@[j].deployments@[l].status@),
    ensures
        ({
            let list = snapshot.servers->Some_0@;
            let s = list[i];
            let a = s.apps@[j];
            let d = a.deployments@[l];
            snapshot_notices(seen, snapshot).contains(
                (d.status@, s.name@, a.name@, crate::text::collapse(or_empty(d.commit_message))),
            )
        }),
{
    let list = snapshot.servers->Some_0@;
    lemma_server_notices_contains(seen, list, i, j, l);
}

/// `n` announces the row `d` of app `a` on server `s`: the deployment has an
/// id, was running or queued (`in_progress` or `queued`) at the previous
/// poll, is finished or failed now, and `n` carries its status, the server's
/// and the app's names, and its commit message with whitespace collapsed.
pub open spec fn announces(
    seen: Map<SeenKey, Seq<char>>,
    s: ServerStatus,
    a: AppStatus,
    d: DeploymentItem,
    n: NoticeView,
) -> bool {
    &&& d.id is Some
    &&& seen.contains_key((s.url@, a.uuid@, d.id->Some_0))
    &&& (seen[(s.url@, a.uuid@, d.id->Some_0)] == "in_progress"@ || seen[(
        s.url@,
        a.uuid@,
        d.id->Some_0,
    )] == "queued"@)
    &&& (d.status@ == "finished"@ || d.status@ == "failed"@)
    &&& n == (d.status@, s.name@, a.name@, crate::text::collapse(or_empty(d.commit_message)))
}

/// `n` announces one of the rows `ds` of app `a` on server `s`.
pub open spec fn announced_by_rows(
    seen: Map<SeenKey, Seq<char>>,
    s: ServerStatus,
    a: AppStatus,
    ds: Seq<DeploymentItem>,
    n: NoticeView,
) -> bool {
    exists|l: int| 0 <= l < ds.len() && #[trigger] announces(seen, s, a, ds[l], n)
}

/// `n` announces a deployment row of one of the apps `apps` of server `s`.
pub open spec fn announced_by_apps(
    seen: Map<SeenKey, Seq<char>>,
    s: ServerStatus,
    apps: Seq<AppStatus>,
    n: NoticeView,
) -> bool {
    exists|j: int, l: int|
        0 <= j < apps.len() && 0 <= l < apps[j].deployments@.len() && #[trigger] announces(
            seen,
            s,
            apps[j],
            apps[j].deployments@[l],
            n,
        )
}

/// `n` announces a deployment row of the snapshot rows `servers`.
pub open spec fn announced_by_servers(
    seen: Map<SeenKey, Seq<char>>,
    servers: Seq<ServerStatus>,
    n: NoticeView,
) -> bool {
    exists|i: int, j: int, l: int|
        is_row(servers, i, j, l) && #[trigger] announces(
            seen,
            servers[i],
            servers[i].apps@[j],
            servers[i].apps@[j].deployments@[l],
            n,
        )
}

proof fn lemma_deployment_notices_sound(
    seen: Map<SeenKey, Seq<char>>,
    s: ServerStatus,
    a: AppStatus,
    ds: Seq<DeploymentItem>,
)
    ensures
        forall|m: int|
            0 <= m < deployment_notices(seen, s, a, ds).len() ==> announced_by_rows(
                seen,
                s,
                a,
                ds,
                #[trigger] deployment_notices(seen, s, a, ds)[m],
            ),
    decreases ds.len(),
{
    if ds.len() > 0 {
        let p = ds.drop_last();
        lemma_deployment_notices_sound(seen, s, a, p);
        let x = deployment_notices(seen, s, a, p);
        let y = transition_notice(seen, s, a, ds.last());
        assert(deployment_notices(seen, s, a, ds) == x + y);
        assert forall|m: int| 0 <= m < deployment_notices(seen, s, a, ds).len() implies announced_by_rows(
            seen,
            s,
            a,
            ds,
            #[trigger] deployment_notices(seen, s, a, ds)[m],
        ) by {
            if m < x.len() {
                assert((x + y)[m] == x[m]);
                assert(announced_by_rows(seen, s, a, p, x[m]));
                let l = choose|l: int| 0 <= l < p.len() && #[trigger] announces(seen, s, a, p[l], x[m]);
                assert(ds[l] == p[l]);
                assert(announces(seen, s, a, ds[l], deployment_notices(seen, s, a, ds)[m]));
            } else {
                assert((x + y)[m] == y[m - x.len()]);
                assert(ds[ds.len() - 1] == ds.last());
                assert(announces(seen, s, a, ds[ds.len() - 1], deployment_notices(seen, s, a, ds)[m]));
            }
        }
    } else {
        assert(deployment_notices(seen, s, a, ds).len() == 0);
    }
}

proof fn lemma_app_notices_sound(seen: Map<SeenKey, Seq<char>>, s: ServerStatus, apps: Seq<AppStatus>)
    ensures
        forall|m: int|
            0 <= m < app_notices(seen, s, apps).len() ==> announced_by_apps(
                seen,
                s,
                apps,
                #[trigger] app_notices(seen, s, apps)[m],
            ),
    decreases apps.len(),
{
    if apps.len() > 0 {
        let p = apps.drop_last();
        let last = apps.last();
        lemma_app_notices_sound(seen, s, p);
        lemma_deployment_notices_sound(seen, s, last, last.deployments@);
        let x = app_notices(seen, s, p);
        let y = deployment_notices(seen, s, last, last.deployments@);
        assert(app_notices(seen, s, apps) == x + y);
        assert forall|m: int| 0 <= m < app_notices(seen, s, apps).len() implies announced_by_apps(
            seen,
            s,
            apps,
            #[trigger] app_notices(seen, s, apps)[m],
        ) by {
            if m < x.len() {
                assert((x + y)[m] == x[m]);
                assert(announced_by_apps(seen, s, p, x[m]));
                let (j, l) = choose|j: int, l: int|
                    0 <= j < p.len() && 0 <= l < p[j].deployments@.len() && #[trigger] announces(
                        seen,
                        s,
                        p[j],
                        p[j].deployments@[l],
                        x[m],
                    );
                assert(apps[j] == p[j]);
                assert(announces(seen, s, apps[j], apps[j].deployments@[l], app_notices(seen, s, apps)[m]));
            } else {
                let m2 = m - x.len();
                assert((x + y)[m] == y[m2]);
                assert(announced_by_rows(seen, s, last, last.deployments@, y[m2]));
                let l = choose|l: int|
                    0 <= l < last.deployments@.len() && #[trigger] announces(
                        seen,
                        s,
                        last,
                        last.deployments@[l],
                        y[m2],
                    );
                let j = apps.len() - 1;
                assert(apps[j] == last);
                assert(announces(seen, s, apps[j], apps[j].deployments@[l], app_notices(seen, s, apps)[m]));
            }
        }
    }
}

proof fn lemma_server_notices_sound(seen: Map<SeenKey, Seq<char>>, servers: Seq<ServerStatus>)
    ensures
        forall|m: int|
            0 <= m < server_notices(seen, servers).len() ==> announced_by_servers(
                seen,
                servers,
                #[trigger] server_notices(seen, servers)[m],
            ),
    decreases servers.len(),
{
    if servers.len() > 0 {
        let p = servers.drop_last();
        let last = servers.last();
        lemma_server_notices_sound(seen, p);
        lemma_app_notices_sound(seen, last, last.apps@);
        let x = server_notices(seen, p);
        let y = app_notices(seen, last, last.apps@);
        assert(server_notices(seen, servers) == x + y);
        assert forall|m: int| 0 <= m < server_notices(seen, servers).len() implies announced_by_servers(
            seen,
            servers,
            #[trigger] server_notices(seen, servers)[m],
        ) by {
            if m < x.len() {
                assert((x + y)[m] == x[m]);
                assert(announced_by_servers(seen, p, x[m]));
                let (i, j, l) = choose|i: int, j: int, l: int|
                    is_row(p, i, j, l) && #[trigger] announces(
                        seen,
                        p[i],
                        p[i].apps@[j],
                        p[i].apps@[j].deployments@[l],
                        x[m],
                    );
                assert(servers[i] == p[i]);
                assert(is_row(servers, i, j, l));
                assert(announces(
                    seen,
                    servers[i],
                    servers[i].apps@[j],
                    servers[i].apps@[j].deployments@[l],
                    server_notices(seen, servers)[m],
                ));
            } else {
                let m2 = m - x.len();
                assert((x + y)[m] == y[m2]);
                assert(announced_by_apps(seen, last, last.apps@, y[m2]));
                let (j, l) = choose|j: int, l: int|
                    0 <= j < last.apps@.len() && 0 <= l < last.apps@[j].deployments@.len()
                        && #[trigger] announces(
                        seen,
                        last,
                        last.apps@[j],
                        last.apps@[j].deployments@[l],
                        y[m2],
                    );
                let i = servers.len() - 1;
                assert(servers[i] == last);
                assert(is_row(servers, i, j, l));
                assert(announces(
                    seen,
                    servers[i],
                    servers[i].apps@[j],
                    servers[i].apps@[j].deployments@[l],
                    server_notices(seen, servers)[m],
                ));
            }
        }
    }
}

/// Only transitions notify: every notice of a snapshot announces one of its
/// deployment rows that was running or queued at the previous poll and is
/// finished or failed now. A deployment seen for the first time (or seen
/// before already settled) never notifies, so settled history is never
/// replayed.
pub proof fn law_only_transitions_notify(seen: Map<SeenKey, Seq<char>>, snapshot: Status)
    ensures
        forall|m: int|
            0 <= m < snapshot_notices(seen, snapshot).len() ==> announced_by_servers(
                seen,
                snapshot.servers->Some_0@,
                #[trigger] snapshot_notices(seen, snapshot)[m],
            ),
{
    if let Some(list) = snapshot.servers {
        lemma_server_notices_sound(seen, list@);
        assert(snapshot_notices(seen, snapshot) == server_notices(seen, list@));
    } else {
        assert(snapshot_notices(seen, snapshot).len() == 0);
    }
}

/// A finished and a failed deployment get the same toast body: the escaped
/// server name and the escaped commit message, joined by ` · ` when both are
/// present. So the message shows (escaped) at the end of the body whenever
/// it is non-empty, and the server's name at its start whenever that is.
pub proof fn law_settled_toast_bodies(server: Seq<char>, app: Seq<char>, message: Seq<char>)
    ensures
        toast_of(("finished"@, server, app, message)).1 == toast_of(
            ("failed"@, server, app, message),
        ).1,
        message.len() > 0 ==> toast_of(("finished"@, server, app, message)).1.len()
            >= crate::text::escape_markup(message).len() && toast_of(
            ("finished"@, server, app, message),
        ).1.subrange(
            toast_of(("finished"@, server, app, message)).1.len()
                - crate::text::escape_markup(message).len(),
            toast_of(("finished"@, server, app, message)).1.len() as int,
        ) == crate::text::escape_markup(message),
        server.len() > 0 ==> toast_of(("finished"@, server, app, message)).1.len()
            >= crate::text::escape_markup(server).len() && toast_of(
            ("finished"@, server, app, message),
        ).1.subrange(0, crate::text::escape_markup(server).len() as int)
            == crate::text::escape_markup(server),
        server.len() > 0 && message.len() > 0 ==> toast_of(("finished"@, server, app, message)).1
            == crate::text::escape_markup(server) + " \u{00B7} "@ + crate::text::escape_markup(
            message,
        ),
        toast_of(("finished"@, server, app, message)).0 == "\u{2713} "@
            + crate::text::escape_markup(app) + " deployed"@,
        toast_of(("failed"@, server, app, message)).0 == "\u{2717} "@ + crate::text::escape_markup(
            app,
        ) + " deployment failed"@,
        toast_of(("finished"@, server, app, message)).2 == 1,
        toast_of(("failed"@, server, app, message)).2 == 2,
{
    reveal_strlit("finished");
    reveal_strlit("failed");
    assert("finished"@ != "failed"@) by {
        assert("finished"@[1] != "failed"@[1]);
    }
    let b = toast_of(("finished"@, server, app, message)).1;
    let es = crate::text::escape_markup(server);
    let em = crate::text::escape_markup(message);
    if server.len() == 0 {
        assert(es =~= Seq::<char>::empty());
        if message.len() > 0 {
            assert(b.subrange(b.len() - em.len(), b.len() as int) =~= em);
        }
    } else if message.len() == 0 {
        assert(b.subrange(0, es.len() as int) =~= es);
    } else {
        let mid = es + " \u{00B7} "@;
        assert(b == mid + em);
        assert(b.subrange(b.len() - em.len(), b.len() as int) =~= em);
        assert(b.subrange(0, es.len() as int) =~= es);
    }
}

} // verus!
