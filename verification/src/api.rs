//! The Coolify v1 API as the library sees it: the records it returns, the
//! request paths, how a response body becomes a result, and a cache of one
//! HTTP client per (url, token) pair.
//!
//! Two endpoints are used:
//! - `GET /api/v1/applications`: all applications of the team.
//! - `GET /api/v1/deployments/applications/{uuid}`: recent deployments of one
//!   application. The real server answers with an envelope
//!   `{"count": n, "deployments": [...]}` although the reference docs declare
//!   a bare array, so both shapes are accepted.

use std::sync::Arc;

use vstd::prelude::*;
use vstd::string::StringExecFns;

use vstd::utf8::{decode_utf8, valid_utf8};

use crate::text::{decimal, decimal_string, join2, join3, opt_view, text_eq};

verus! {

/// Hard cap on API response bodies.
pub const MAX_RESPONSE_BYTES: u64 = 5242880;

/// Connect timeout of the HTTP client, in seconds.
pub const CONNECT_TIMEOUT_SECS: u64 = 10;

/// Whole-request timeout of the HTTP client, in seconds.
pub const REQUEST_TIMEOUT_SECS: u64 = 20;

#[derive(Debug, Clone, PartialEq, Eq)]
pub enum ApiError {
    Network(String),
    Http { status: u16, message: String },
    Decode(String),
}

/// How an API error reads.
pub open spec fn api_error_text(e: ApiError) -> Seq<char> {
    match e {
        ApiError::Network(msg) => "network error: "@ + msg@,
        ApiError::Http { status, message } => "HTTP "@ + decimal(status as nat) + ": "@ + message@,
        ApiError::Decode(msg) => "unexpected response: "@ + msg@,
    }
}

impl ApiError {
    /// The error as text.
    pub fn to_string(&self) -> (r: String)
        ensures
            r@ == api_error_text(*self),
    {
        match self {
            ApiError::Network(msg) => join2("network error: ", msg.as_str()),
            ApiError::Http { status, message } => {
                let code = decimal_string(*status as u64);
                let mut s = join3("HTTP ", code.as_str(), ": ");
                s.append(message.as_str());
                s
            },
            ApiError::Decode(msg) => join2("unexpected response: ", msg.as_str()),
        }
    }
}

#[derive(Debug, Clone)]
pub struct Application {
    pub uuid: Option<String>,
    pub name: Option<String>,
    pub fqdn: Option<String>,
}

/// An optional text, read as empty when absent.
pub open spec fn or_empty(o: Option<String>) -> Seq<char> {
    match o {
        Some(s) => s@,
        None => Seq::empty(),
    }
}

impl Application {
    pub fn uuid(&self) -> (r: &str)
        ensures
            r@ == or_empty(self.uuid),
    {
        match &self.uuid {
            Some(s) => s.as_str(),
            None => {
                proof {
                    reveal_strlit("");
                }
                ""
            },
        }
    }

    pub fn name(&self) -> (r: &str)
        ensures
            r@ == or_empty(self.name),
    {
        match &self.name {
            Some(s) => s.as_str(),
            None => {
                proof {
                    reveal_strlit("");
                }
                ""
            },
        }
    }
}

#[derive(Debug, Clone)]
pub struct Deployment {
    pub id: Option<u64>,
    pub status: Option<DeploymentStatus>,
    pub commit: Option<String>,
    pub commit_message: Option<String>,
    pub created_at: Option<String>,
    pub deployment_url: Option<String>,
}

#[derive(Debug, Clone, Copy, PartialEq, Eq, Structural)]
pub enum DeploymentStatus {
    Queued,
    InProgress,
    Finished,
    Failed,
    Cancelled,
    /// Coolify's own spelling of a user-cancelled deployment.
    CancelledByUser,
    Other,
}

/// The wire name of a status; both cancelled spellings read `cancelled`.
pub open spec fn status_name(s: DeploymentStatus) -> Seq<char> {
    match s {
        DeploymentStatus::Queued => "queued"@,
        DeploymentStatus::InProgress => "in_progress"@,
        DeploymentStatus::Finished => "finished"@,
        DeploymentStatus::Failed => "failed"@,
        DeploymentStatus::Cancelled => "cancelled"@,
        DeploymentStatus::CancelledByUser => "cancelled"@,
        DeploymentStatus::Other => "other"@,
    }
}

/// The status a wire value denotes: the snake_case names, the
/// `cancelled-by-user` spelling, and `Other` for anything unknown.
pub open spec fn status_of_wire(s: Seq<char>) -> DeploymentStatus {
    if s == "queued"@ {
        DeploymentStatus::Queued
    } else if s == "in_progress"@ {
        DeploymentStatus::InProgress
    } else if s == "finished"@ {
        DeploymentStatus::Finished
    } else if s == "failed"@ {
        DeploymentStatus::Failed
    } else if s == "cancelled"@ {
        DeploymentStatus::Cancelled
    } else if s == "cancelled_by_user"@ || s == "cancelled-by-user"@ {
        DeploymentStatus::CancelledByUser
    } else {
        DeploymentStatus::Other
    }
}

impl DeploymentStatus {
    pub fn as_str(self) -> (r: &'static str)
        ensures
            r@ == status_name(self),
    {
        match self {
            DeploymentStatus::Queued => "queued",
            DeploymentStatus::InProgress => "in_progress",
            DeploymentStatus::Finished => "finished",
            DeploymentStatus::Failed => "failed",
            DeploymentStatus::Cancelled => "cancelled",
            DeploymentStatus::CancelledByUser => "cancelled",
            DeploymentStatus::Other => "other",
        }
    }

    /// The status named by a wire value.
    pub fn from_wire(s: &str) -> (r: DeploymentStatus)
        ensures
            r == status_of_wire(s@),
    {
        if text_eq(s, "queued") {
            DeploymentStatus::Queued
        } else if text_eq(s, "in_progress") {
            DeploymentStatus::InProgress
        } else if text_eq(s, "finished") {
            DeploymentStatus::Finished
        } else if text_eq(s, "failed") {
            DeploymentStatus::Failed
        } else if text_eq(s, "cancelled") {
            DeploymentStatus::Cancelled
        } else if text_eq(s, "cancelled_by_user") || text_eq(s, "cancelled-by-user") {
            DeploymentStatus::CancelledByUser
        } else {
            DeploymentStatus::Other
        }
    }
}


/// The deployments payload as the server shaped it: a list at the top level
/// (the shape the reference docs declare), or an object whose `deployments`
/// member holds the list (the shape the real server sends). The list, where
/// there is one, is already decoded into deployments, or holds the decoder's
/// complaint.
#[derive(Debug)]
pub enum DeploymentsPayload {
    Direct(Result<Vec<Deployment>, String>),
    Envelope(Option<Result<Vec<Deployment>, String>>),
}

/// The result of listing deployments from a payload.
pub open spec fn deployments_result(p: DeploymentsPayload) -> Result<Seq<Deployment>, Seq<char>> {
    match p {
        DeploymentsPayload::Direct(Ok(list)) => Ok(list@),
        DeploymentsPayload::Direct(Err(e)) => Err("list deployments: "@ + e@),
        DeploymentsPayload::Envelope(None) => Err(
            "list deployments: response is missing the deployments array"@,
        ),
        DeploymentsPayload::Envelope(Some(Ok(list))) => Ok(list@),
        DeploymentsPayload::Envelope(Some(Err(e))) => Err("list deployments: "@ + e@),
    }
}

/// The deployments a payload lists; a payload without a list, or whose list
/// did not decode, is a decode error.
pub fn parse_deployments(payload: DeploymentsPayload) -> (r: Result<Vec<Deployment>, ApiError>)
    ensures
        match (r, deployments_result(payload)) {
            (Ok(list), Ok(expected)) => list@ == expected,
            (Err(ApiError::Decode(msg)), Err(expected)) => msg@ == expected,
            _ => false,
        },
{
    match payload {
        DeploymentsPayload::Direct(Ok(list)) => Ok(list),
        DeploymentsPayload::Envelope(Some(Ok(list))) => Ok(list),
        DeploymentsPayload::Direct(Err(e)) => Err(
            ApiError::Decode(join2("list deployments: ", e.as_str())),
        ),
        DeploymentsPayload::Envelope(Some(Err(e))) => Err(
            ApiError::Decode(join2("list deployments: ", e.as_str())),
        ),
        DeploymentsPayload::Envelope(None) => Err(
            ApiError::Decode(
                String::from_str("list deployments: response is missing the deployments array"),
            ),
        ),
    }
}

/// The application list without the rows that carry no UUID.
pub open spec fn listed(apps: Seq<Application>) -> Seq<Application> {
    apps.filter(|a: Application| or_empty(a.uuid).len() > 0)
}

/// The applications worth polling: those with a UUID, in the order listed.
pub fn listed_applications(apps: Vec<Application>) -> (r: Vec<Application>)
    ensures
        r@ == listed(apps@),
{
    let ghost all = apps@;
    let n = apps.len();
    let mut rest = apps;
    let mut out: Vec<Application> = Vec::new();
    let mut i: usize = 0;
    while rest.len() > 0
        invariant
            0 <= i <= all.len(),
            n == all.len(),
            rest@ == all.skip(i as int),
            out@ == listed(all.take(i as int)),
        decreases rest.len(),
    {
        let app = rest.remove(0);
        proof {
            reveal_with_fuel(Seq::filter, 1);
            assert(all.take(i + 1).drop_last() =~= all.take(i as int));
            assert(all.take(i + 1).last() == app);
            assert(rest@ =~= all.skip(i + 1));
        }
        if !app.uuid().is_empty() {
            out.push(app);
        }
        i = i + 1;
    }
    assert(all.take(i as int) =~= all);
    out
}


/// The address of an API path on a server: `{base}/api/v1{path}`.
pub fn request_url(base: &str, path: &str) -> (r: String)
    ensures
        r@ == base@ + "/api/v1"@ + path@,
{
    join3(base, "/api/v1", path)
}

/// Path of the application list.
pub fn applications_path() -> (r: String)
    ensures
        r@ == "/applications"@,
{
    String::from_str("/applications")
}

/// Path of the `take` most recent deployments of one application.
pub fn deployments_path(app_uuid: &str, take: u32) -> (r: String)
    ensures
        r@ == "/deployments/applications/"@ + app_uuid@ + "?skip=0&take="@ + decimal(take as nat),
{
    let mut s = join3("/deployments/applications/", app_uuid, "?skip=0&take=");
    let n = decimal_string(take as u64);
    s.append(n.as_str());
    s
}

/// What `String::from_utf8_lossy` makes of some bytes.
pub uninterp spec fn utf8_lossy(bytes: Seq<u8>) -> Seq<char>;

/// `String::from_utf8_lossy`, owned. Its contract: the result is the named
/// function of the bytes, and on valid UTF-8 it is their decoding; what it
/// makes of invalid sequences (replacement characters) is left unsaid.
#[verifier::external_body]
fn lossy_utf8(bytes: &[u8]) -> (s: String)
    ensures
        s@ == utf8_lossy(bytes@),
        valid_utf8(bytes@) ==> s@ == decode_utf8(bytes@),
{
    String::from_utf8_lossy(bytes).into_owned()
}

/// The member `key` of a JSON object body, when the body parses as JSON and
/// the member is a string.
pub uninterp spec fn json_string_member(body: Seq<char>, key: Seq<char>) -> Option<Seq<char>>;

/// `serde_json::from_str` of a body into a `serde_json::Value`, read at the
/// member `key` as a string (`Value::get`, `Value::as_str`). The contract
/// names the result only; what serde_json accepts as JSON is left unsaid.
#[verifier::external_body]
fn json_member(body: &str, key: &str) -> (r: Option<String>)
    ensures
        opt_view(r) == json_string_member(body@, key@),
{
    let value: serde_json::Value = serde_json::from_str(body).ok()?;
    value.get(key)?.as_str().map(|m| m.to_string())
}

/// The canonical reason phrase of an HTTP status code, if it has one.
pub uninterp spec fn canonical_reason(code: u16) -> Option<Seq<char>>;

/// `http::StatusCode::canonical_reason` (through reqwest) of a valid status
/// code. The contract names the phrase only.
#[verifier::external_body]
fn reason_phrase(code: u16) -> (r: Option<String>)
    requires
        100 <= code <= 999,
    ensures
        opt_view(r) == canonical_reason(code),
{
    match reqwest::StatusCode::from_u16(code) {
        Ok(status) => status.canonical_reason().map(|m| m.to_string()),
        Err(_) => None,
    }
}

/// The error text of a body too large to accept.
pub open spec fn oversize_text(url: Seq<char>) -> Seq<char> {
    url + ": response body exceeds "@ + decimal(MAX_RESPONSE_BYTES as nat) + " bytes"@
}

/// A response body read with a cap of `MAX_RESPONSE_BYTES + 1` bytes: more
/// than the cap is an error, otherwise the bytes as (lossy) UTF-8 text.
pub fn decode_body(url: &str, bytes: &[u8]) -> (r: Result<String, ApiError>)
    ensures
        match r {
            Ok(body) => bytes@.len() <= MAX_RESPONSE_BYTES && body@ == utf8_lossy(bytes@) && (
            valid_utf8(bytes@) ==> body@ == decode_utf8(bytes@)),
            Err(ApiError::Decode(msg)) => bytes@.len() > MAX_RESPONSE_BYTES && msg@ == oversize_text(
                url@,
            ),
            _ => false,
        },
{
    if bytes.len() as u64 > MAX_RESPONSE_BYTES {
        let cap = decimal_string(MAX_RESPONSE_BYTES);
        let mut msg = join3(url, ": response body exceeds ", cap.as_str());
        msg.append(" bytes");
        return Err(ApiError::Decode(msg));
    }
    Ok(lossy_utf8(bytes))
}

/// `200..=299`.
pub open spec fn is_success(status: u16) -> bool {
    200 <= status < 300
}

/// The message of a failed request whose body says nothing: the status as
/// `http::StatusCode` prints it, `HTTP {code} {reason}`.
pub open spec fn status_fallback(status: u16) -> Seq<char> {
    "HTTP "@ + decimal(status as nat) + " "@ + match canonical_reason(status) {
        Some(reason) => reason,
        None => "<unknown status code>"@,
    }
}

/// What a failed request reports: the body's `message` (Coolify error bodies
/// are `{"message": "..."}`), or the status.
pub open spec fn failure_message(status: u16, body: Seq<char>) -> Seq<char> {
    match json_string_member(body, "message"@) {
        Some(m) => m,
        None => status_fallback(status),
    }
}

/// The outcome of one API request from its status code and body bytes: an
/// oversized body is a decode error; a non-2xx status is an HTTP error that
/// carries the body's `message`; otherwise the body text.
pub fn response_body(url: &str, status: u16, bytes: &[u8]) -> (r: Result<String, ApiError>)
    requires
        100 <= status <= 999,
    ensures
        bytes@.len() > MAX_RESPONSE_BYTES ==> (r matches Err(ApiError::Decode(msg)) && msg@
            == oversize_text(url@)),
        bytes@.len() <= MAX_RESPONSE_BYTES && is_success(status) ==> (r matches Ok(body)
            && body@ == utf8_lossy(bytes@)),
        bytes@.len() <= MAX_RESPONSE_BYTES && !is_success(status) ==> (r matches Err(
            ApiError::Http { status: code, message },
        ) && code == status && message@ == failure_message(status, utf8_lossy(bytes@))),
{
    let body = match decode_body(url, bytes) {
        Ok(body) => body,
        Err(e) => {
            return Err(e);
        },
    };
    if 200 <= status && status < 300 {
        return Ok(body);
    }
    let message = match json_member(body.as_str(), "message") {
        Some(m) => m,
        None => {
            let code = decimal_string(status as u64);
            let mut m = join3("HTTP ", code.as_str(), " ");
            match reason_phrase(status) {
                Some(reason) => m.append(reason.as_str()),
                None => m.append("<unknown status code>"),
            }
            m
        },
    };
    Err(ApiError::Http { status, message })
}


/// `Arc::clone`: another handle to the same allocation.
#[verifier::external_body]
fn share<C>(a: &Arc<C>) -> (r: Arc<C>)
    ensures
        r == *a,
{
    Arc::clone(a)
}

struct CacheEntry<C> {
    url: String,
    token: String,
    client: Arc<C>,
    serial: Ghost<nat>,
}

/// One HTTP client per (url, token) pair, reused across poll cycles so that
/// a client's TLS configuration and connection pool survive between polls.
/// Clients are dropped only when the reloaded config no longer holds their
/// credentials. Each client the cache builds gets a fresh serial number, so
/// the model tells a reused client from a rebuilt one.
pub struct ClientCache<C> {
    entries: Vec<CacheEntry<C>>,
    issued: Ghost<nat>,
}

spec fn entry_key<C>(e: CacheEntry<C>) -> (Seq<char>, Seq<char>) {
    (e.url@, e.token@)
}

spec fn keys_distinct<C>(s: Seq<CacheEntry<C>>) -> bool {
    forall|i: int, j: int| 0 <= i < j < s.len() ==> entry_key(s[i]) != entry_key(s[j])
}

spec fn serials_below<C>(s: Seq<CacheEntry<C>>, bound: nat) -> bool {
    forall|i: int| 0 <= i < s.len() ==> #[trigger] s[i].serial@ < bound
}

impl<C> ClientCache<C> {
    closed spec fn key_at(self, i: int) -> (Seq<char>, Seq<char>) {
        (self.entries@[i].url@, self.entries@[i].token@)
    }

    closed spec fn has_key(self, k: (Seq<char>, Seq<char>)) -> bool {
        exists|i: int| 0 <= i < self.entries@.len() && self.key_at(i) == k
    }

    closed spec fn index_of(self, k: (Seq<char>, Seq<char>)) -> int {
        choose|i: int| 0 <= i < self.entries@.len() && self.key_at(i) == k
    }

    /// The cached clients, by (url, token): the client's serial number and
    /// the client.
    pub closed spec fn clients(self) -> Map<(Seq<char>, Seq<char>), (nat, Arc<C>)> {
        Map::new(
            |k: (Seq<char>, Seq<char>)| self.has_key(k),
            |k: (Seq<char>, Seq<char>)|
                (self.entries@[self.index_of(k)].serial@, self.entries@[self.index_of(k)].client),
        )
    }

    /// How many clients the cache has built so far; every serial is below it.
    pub closed spec fn issued(self) -> nat {
        self.issued@
    }

    #[verifier::type_invariant]
    closed spec fn inv(self) -> bool {
        &&& keys_distinct(self.entries@)
        &&& serials_below(self.entries@, self.issued@)
    }

    proof fn lemma_entry(self, i: int)
        requires
            self.inv(),
            0 <= i < self.entries@.len(),
        ensures
            self.clients().contains_key(self.key_at(i)),
            self.clients()[self.key_at(i)] == (self.entries@[i].serial@, self.entries@[i].client),
    {
        assert(self.has_key(self.key_at(i)));
        let j = self.index_of(self.key_at(i));
        assert(i == j);
    }

    /// Every cached client's serial number is below `issued`.
    pub open spec fn serials_fresh(self) -> bool {
        forall|k: (Seq<char>, Seq<char>)| #[trigger]
            self.clients().contains_key(k) ==> self.clients()[k].0 < self.issued()
    }

    proof fn lemma_serials_fresh(self)
        requires
            self.inv(),
        ensures
            self.serials_fresh(),
    {
        assert forall|k: (Seq<char>, Seq<char>)| #[trigger]
            self.clients().contains_key(k) implies self.clients()[k].0 < self.issued() by {
            let i = self.index_of(k);
            assert(self.entries@[i].serial@ < self.issued@);
        }
    }

    pub fn new() -> (r: Self)
        ensures
            r.clients() == Map::<(Seq<char>, Seq<char>), (nat, Arc<C>)>::empty(),
            r.issued() == 0,
            r.serials_fresh(),
    {
        let r = ClientCache { entries: Vec::new(), issued: Ghost(0) };
        assert(r.clients() =~= Map::empty());
        r
    }

    fn find(&self, url: &str, token: &str) -> (r: Option<usize>)
        ensures
            match r {
                Some(i) => i < self.entries@.len() && self.key_at(i as int) == (url@, token@),
                None => !self.has_key((url@, token@)),
            },
    {
        let url_owned = String::from_str(url);
        let token_owned = String::from_str(token);
        let mut i: usize = 0;
        while i < self.entries.len()
            invariant
                0 <= i <= self.entries@.len(),
                url_owned@ == url@,
                token_owned@ == token@,
                forall|j: int| 0 <= j < i ==> self.key_at(j) != (url@, token@),
            decreases self.entries.len() - i,
        {
            let e = &self.entries[i];
            if e.url == url_owned && e.token == token_owned {
                return Some(i);
            }
            i = i + 1;
        }
        None
    }

    /// The client for (url, token): the cached one when the pair is known,
    /// otherwise a newly built one (from `build`), which the cache keeps.
    pub fn get<F: FnOnce() -> C>(&mut self, url: &str, token: &str, build: F) -> (r: Arc<C>)
        requires
            build.requires(()),
        ensures
            old(self).clients().contains_key((url@, token@)) ==> final(self).clients() == old(
                self,
            ).clients() && final(self).issued() == old(self).issued() && r == old(
                self,
            ).clients()[(url@, token@)].1,
            !old(self).clients().contains_key((url@, token@)) ==> final(self).clients() == old(
                self,
            ).clients().insert((url@, token@), (old(self).issued(), r)) && final(self).issued()
                == old(self).issued() + 1 && build.ensures((), *r),
            old(self).serials_fresh(),
            final(self).serials_fresh(),
    {
        proof {
            use_type_invariant(&*self);
            self.lemma_serials_fresh();
        }
        match self.find(url, token) {
            Some(i) => {
                proof {
                    self.lemma_entry(i as int);
                }
                share(&self.entries[i].client)
            },
            None => {
                let client = Arc::new(build());
                let ghost old_self = *self;
                let ghost serial = self.issued@;
                let entry = CacheEntry {
                    url: String::from_str(url),
                    token: String::from_str(token),
                    client: share(&client),
                    serial: Ghost(serial),
                };
                let mut entries: Vec<CacheEntry<C>> = Vec::new();
                std::mem::swap(&mut entries, &mut self.entries);
                entries.push(entry);
                proof {
                    self.issued = Ghost(serial + 1);
                    let n = old_self.entries@.len() as int;
                    assert(entries@ == old_self.entries@.push(entry));
                    assert forall|i: int, j: int| 0 <= i < j < entries@.len() implies entry_key(
                        entries@[i],
                    ) != entry_key(entries@[j]) by {
                        if j == n {
                            assert(old_self.key_at(i) == entry_key(entries@[i]));
                        } else {
                            assert(old_self.key_at(i) != old_self.key_at(j));
                        }
                    }
                    assert forall|i: int| 0 <= i < entries@.len() implies #[trigger] entries@[i].serial@
                        < serial + 1 by {
                        if i < n {
                            assert(entries@[i] == old_self.entries@[i]);
                        }
                    }
                }
                self.entries = entries;
                proof {
                    assert(self.entries@.len() == old_self.entries@.len() + 1);
                    assert forall|j: int| 0 <= j < old_self.entries@.len() implies self.key_at(j)
                        == old_self.key_at(j) && self.entries@[j] == old_self.entries@[j] by {}
                    let n = old_self.entries@.len() as int;
                    assert forall|k: (Seq<char>, Seq<char>)| #[trigger]
                        self.clients().contains_key(k) == old_self.clients().insert(
                            (url@, token@),
                            (serial, client),
                        ).contains_key(k) by {
                        if old_self.has_key(k) {
                            let j = old_self.index_of(k);
                            assert(self.key_at(j) == k);
                        }
                        if self.has_key(k) {
                            let j = self.index_of(k);
                            if j < n {
                                assert(old_self.key_at(j) == k);
                            }
                        }
                        if k == (url@, token@) {
                            assert(self.key_at(n) == k);
                        }
                    }
                    assert forall|k: (Seq<char>, Seq<char>)| #[trigger]
                        self.clients().contains_key(k) implies self.clients()[k]
                        == old_self.clients().insert((url@, token@), (serial, client))[k] by {
                        let j = self.index_of(k);
                        self.lemma_entry(j);
                        if j < n {
                            old_self.lemma_entry(j);
                        }
                    }
                    assert(self.clients() =~= old_self.clients().insert(
                        (url@, token@),
                        (serial, client),
                    ));
                    use_type_invariant(&*self);
                    self.lemma_serials_fresh();
                }
                client
            },
        }
    }

    /// Forgets the clients whose (url, token) pair is not among `keys`.
    pub fn retain(&mut self, keys: &[(&str, &str)])
        ensures
            final(self).clients() == old(self).clients().restrict(
                Set::new(
                    |k: (Seq<char>, Seq<char>)|
                        exists|i: int| 0 <= i < keys@.len() && (keys@[i].0@, keys@[i].1@) == k,
                ),
            ),
            final(self).issued() == old(self).issued(),
            final(self).serials_fresh(),
    {
        proof {
            use_type_invariant(&*self);
        }
        let ghost keep = Set::new(
            |k: (Seq<char>, Seq<char>)|
                exists|i: int| 0 <= i < keys@.len() && (keys@[i].0@, keys@[i].1@) == k,
        );
        let ghost old_self = *self;
        let mut kept: Vec<CacheEntry<C>> = Vec::new();
        let mut old_entries: Vec<CacheEntry<C>> = Vec::new();
        std::mem::swap(&mut old_entries, &mut self.entries);
        let ghost all = old_entries@;
        let ghost mut src: Seq<int> = Seq::empty();
        let total = old_entries.len();
        let mut n: usize = 0;
        while old_entries.len() > 0
            invariant
                keep == Set::new(
                    |k: (Seq<char>, Seq<char>)|
                        exists|i: int| 0 <= i < keys@.len() && (keys@[i].0@, keys@[i].1@) == k,
                ),
                all == old_self.entries@,
                total == all.len(),
                n <= all.len(),
                old_entries@ == all.skip(n as int),
                src.len() == kept@.len(),
                forall|j: int| 0 <= j < src.len() ==> 0 <= #[trigger] src[j] < n,
                forall|j: int| 0 <= j < src.len() ==> kept@[j] == all[#[trigger] src[j]],
                forall|i: int, j: int| 0 <= i < j < src.len() ==> src[i] < src[j],
                forall|j: int| 0 <= j < kept@.len() ==> keep.contains(entry_key(#[trigger] kept@[j])),
                forall|m: int|
                    0 <= m < n && keep.contains(entry_key(all[m])) ==> exists|j: int|
                        0 <= j < src.len() && src[j] == m,
            decreases old_entries.len(),
        {
            let e = old_entries.remove(0);
            proof {
                assert(all[n as int] == e);
                assert(old_entries@ =~= all.skip(n + 1));
            }
            let ghost old_src = src;
            let ghost ek = entry_key(e);
            let wanted = contains_key(keys, e.url.as_str(), e.token.as_str());
            proof {
                assert(ek == (e.url@, e.token@));
                if wanted {
                    let i = choose|i: int|
                        0 <= i < keys@.len() && (keys@[i].0@, keys@[i].1@) == (e.url@, e.token@);
                    assert(keep.contains(ek));
                }
            }
            if wanted {
                kept.push(e);
                proof {
                    src = src.push(n as int);
                    assert(src[src.len() - 1] == n);
                }
            }
            proof {
                assert forall|m: int|
                    0 <= m < n + 1 && keep.contains(entry_key(all[m])) implies exists|j: int|
                    0 <= j < src.len() && src[j] == m by {
                    if m < n {
                        let j = choose|j: int| 0 <= j < old_src.len() && old_src[j] == m;
                        assert(src[j] == m);
                    } else {
                        assert(src[src.len() - 1] == m);
                    }
                }
            }
            n = n + 1;
        }
        proof {
            assert forall|i: int, j: int| 0 <= i < j < kept@.len() implies entry_key(kept@[i])
                != entry_key(kept@[j]) by {
                assert(old_self.key_at(src[i]) != old_self.key_at(src[j]));
            }
            assert forall|i: int| 0 <= i < kept@.len() implies #[trigger] kept@[i].serial@
                < old_self.issued@ by {
                assert(kept@[i] == all[src[i]]);
            }
        }
        self.entries = kept;
        proof {
            assert forall|k: (Seq<char>, Seq<char>)| #[trigger]
                self.clients().contains_key(k) == old_self.clients().restrict(keep).contains_key(
                    k,
                ) by {
                if self.has_key(k) {
                    let j = self.index_of(k);
                    assert(old_self.key_at(src[j]) == k);
                    assert(keep.contains(entry_key(self.entries@[j])));
                }
                if old_self.has_key(k) && keep.contains(k) {
                    let m = old_self.index_of(k);
                    let j = choose|j: int| 0 <= j < src.len() && src[j] == m;
                    assert(self.key_at(j) == k);
                }
            }
            assert forall|k: (Seq<char>, Seq<char>)| #[trigger]
                self.clients().contains_key(k) implies self.clients()[k]
                == old_self.clients()[k] by {
                let j = self.index_of(k);
                self.lemma_entry(j);
                assert(old_self.key_at(src[j]) == k);
                old_self.lemma_entry(src[j]);
            }
            assert(self.clients() =~= old_self.clients().restrict(keep));
            use_type_invariant(&*self);
            self.lemma_serials_fresh();
        }
    }
}

impl<C> Default for ClientCache<C> {
    fn default() -> (r: Self)
        ensures
            r.clients() == Map::<(Seq<char>, Seq<char>), (nat, Arc<C>)>::empty(),
            r.issued() == 0,
    {
        Self::new()
    }
}

fn contains_key(keys: &[(&str, &str)], url: &str, token: &str) -> (r: bool)
    ensures
        r == exists|i: int| 0 <= i < keys@.len() && (keys@[i].0@, keys@[i].1@) == (url@, token@),
{
    let mut i: usize = 0;
    while i < keys.len()
        invariant
            0 <= i <= keys@.len(),
            forall|j: int| 0 <= j < i ==> (keys@[j].0@, keys@[j].1@) != (url@, token@),
        decreases keys.len() - i,
    {
        let (u, t) = keys[i];
        if text_eq(u, url) && text_eq(t, token) {
            return true;
        }
        i = i + 1;
    }
    false
}

} // verus!
