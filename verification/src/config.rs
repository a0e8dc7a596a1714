//! The Coolify server configuration: validation of what the config file
//! holds, its defaults and ranges, and the checks made on the file itself.

use vstd::prelude::*;
use vstd::string::{StringExecFns, StringSliceAdditionalSpecFns};

use crate::address::{is_web_scheme, parse_url, url_parse, UrlParts};
use crate::text::{
    chars_of, decimal, decimal_string, join2, join3, law_strip_trailing_leaves_no_trailing,
    law_trim_is_idempotent, opt_view, strip_trailing, strip_trailing_chars, string_from_chars, trim,
    trim_string,
};

verus! {

/// Environment variable overriding the config file location.
pub const CONFIG_ENV: &'static str = "COOLIFY_QS_CONFIG";

/// Hard cap on the config file size.
pub const MAX_CONFIG_BYTES: u64 = 1048576;

/// Lowest allowed poll interval in seconds.
pub const MIN_POLL_SECS: u64 = 5;

/// Highest allowed poll interval in seconds.
pub const MAX_POLL_SECS: u64 = 3600;

/// Poll interval when the config names none.
pub const DEFAULT_POLL_SECS: u64 = 15;

/// Lowest number of past deployments to fetch per application.
pub const MIN_PAST_PER_APP: u32 = 1;

/// Highest number of past deployments to fetch per application.
pub const MAX_PAST_PER_APP: u32 = 100;

/// Past deployments per application when the config names none.
pub const DEFAULT_PAST_PER_APP: u32 = 5;

#[derive(Debug, Clone, PartialEq, Eq)]
pub struct Config {
    pub poll_interval_secs: u64,
    pub past_per_app: u32,
    pub notifications: bool,
    pub servers: Vec<Server>,
}

#[derive(Debug, Clone, PartialEq, Eq)]
pub struct Server {
    pub name: String,
    pub url: String,
    pub token: String,
}

/// The config file's contents as written, before validation.
#[derive(Debug, Clone)]
pub struct RawConfig {
    pub poll_interval_seconds: Option<u64>,
    pub past_per_app: Option<u32>,
    /// Send desktop notifications when deployments finish or fail.
    pub notifications: bool,
    pub servers: Vec<RawServer>,
}

/// One `servers` entry as written.
#[derive(Debug, Clone)]
pub struct RawServer {
    pub name: Option<String>,
    pub url: Option<String>,
    pub token: Option<String>,
}

#[derive(Debug, Clone, PartialEq, Eq)]
pub enum ConfigError {
    MissingFile(String),
    Io(String),
    Parse(String),
    Invalid(String),
}

/// How a config error reads.
pub open spec fn config_error_text(e: ConfigError) -> Seq<char> {
    match e {
        ConfigError::MissingFile(path) => "config file not found: "@ + path@,
        ConfigError::Io(msg) => msg@,
        ConfigError::Parse(msg) => msg@,
        ConfigError::Invalid(msg) => "invalid config: "@ + msg@,
    }
}

impl ConfigError {
    /// The error as text.
    pub fn to_string(&self) -> (r: String)
        ensures
            r@ == config_error_text(*self),
    {
        match self {
            ConfigError::MissingFile(path) => join2("config file not found: ", path.as_str()),
            ConfigError::Io(msg) => String::from_str(msg.as_str()),
            ConfigError::Parse(msg) => String::from_str(msg.as_str()),
            ConfigError::Invalid(msg) => join2("invalid config: ", msg.as_str()),
        }
    }

    /// The file could not be read.
    pub fn read_failed(path: &str, detail: &str) -> (r: ConfigError)
        ensures
            r matches ConfigError::Io(msg) && msg@ == "failed to read "@ + path@ + ": "@ + detail@,
    {
        let mut msg = join3("failed to read ", path, ": ");
        msg.append(detail);
        ConfigError::Io(msg)
    }

    /// The file is not a JSON config.
    pub fn parse_failed(path: &str, detail: &str) -> (r: ConfigError)
        ensures
            r matches ConfigError::Parse(msg) && msg@ == "failed to parse "@ + path@ + ": "@
                + detail@,
    {
        let mut msg = join3("failed to parse ", path, ": ");
        msg.append(detail);
        ConfigError::Parse(msg)
    }
}

/// Notifications are on unless the config turns them off.
pub fn default_notifications() -> (r: bool)
    ensures
        r,
{
    true
}

/// The config file may hold at most `MAX_CONFIG_BYTES` bytes.
pub fn check_config_size(path: &str, len: u64) -> (r: Result<(), ConfigError>)
    ensures
        len <= MAX_CONFIG_BYTES ==> r is Ok,
        len > MAX_CONFIG_BYTES ==> (r matches Err(ConfigError::Io(msg)) && msg@ == "config file "@
            + path@ + " is larger than "@ + decimal(MAX_CONFIG_BYTES as nat) + " bytes"@),
{
    if len > MAX_CONFIG_BYTES {
        let cap = decimal_string(MAX_CONFIG_BYTES);
        let mut msg = join3("config file ", path, " is larger than ");
        msg.append(cap.as_str());
        msg.append(" bytes");
        return Err(ConfigError::Io(msg));
    }
    Ok(())
}

/// The file's permission bits (`mode & 0o777`) when group or other users may
/// read it (`0o044`); the config holds API tokens in plain text.
pub fn loose_permission_bits(mode: u32) -> (r: Option<u32>)
    ensures
        ((mode & 0o777) & 0o044) != 0 ==> r == Some(mode & 0o777),
        ((mode & 0o777) & 0o044) == 0 ==> r is None,
{
    let bits: u32 = mode & 0o777;
    if bits & 0o044 != 0 {
        Some(bits)
    } else {
        None
    }
}

/// The bytes of an optional environment value.
pub open spec fn opt_bytes(o: Option<Vec<u8>>) -> Option<Seq<u8>> {
    match o {
        Some(v) => Some(v@),
        None => None,
    }
}

/// The views of some byte vectors.
pub open spec fn byte_views(parts: Seq<Vec<u8>>) -> Seq<Seq<u8>> {
    parts.map_values(|b: Vec<u8>| b@)
}

/// Where the config file lives, as path components to join in order: the
/// `COOLIFY_QS_CONFIG` value alone when it is set; otherwise
/// `$XDG_CONFIG_HOME`, else `$HOME` and `.config`, else `.`, followed by
/// `coolify-qs` and `config.json`. Values are the environment's raw bytes.
pub open spec fn config_path(
    override_path: Option<Seq<u8>>,
    xdg_config_home: Option<Seq<u8>>,
    home: Option<Seq<u8>>,
) -> Seq<Seq<u8>> {
    match override_path {
        Some(p) => seq![p],
        None => config_base(xdg_config_home, home) + seq![
            "coolify-qs".spec_bytes(),
            "config.json".spec_bytes(),
        ],
    }
}

/// The directory the config directory lives in: `$XDG_CONFIG_HOME`, else
/// `$HOME` and `.config`, else `.`.
pub open spec fn config_base(xdg_config_home: Option<Seq<u8>>, home: Option<Seq<u8>>) -> Seq<Seq<u8>> {
    match xdg_config_home {
        Some(x) => seq![x],
        None => match home {
            Some(h) => seq![h, ".config".spec_bytes()],
            None => seq![".".spec_bytes()],
        },
    }
}

/// The components of the config file's path, from the values of
/// `COOLIFY_QS_CONFIG`, `XDG_CONFIG_HOME` and `HOME`; see `config_path`.
pub fn config_path_parts(
    override_path: Option<Vec<u8>>,
    xdg_config_home: Option<Vec<u8>>,
    home: Option<Vec<u8>>,
) -> (r: Vec<Vec<u8>>)
    ensures
        byte_views(r@) == config_path(
            opt_bytes(override_path),
            opt_bytes(xdg_config_home),
            opt_bytes(home),
        ),
{
    let mut parts: Vec<Vec<u8>> = Vec::new();
    match override_path {
        Some(p) => {
            parts.push(p);
            assert(byte_views(parts@) =~= config_path(opt_bytes(Some(p)), opt_bytes(xdg_config_home), opt_bytes(home)));
            return parts;
        },
        None => {},
    }
    match xdg_config_home {
        Some(x) => {
            parts.push(x);
        },
        None => match home {
            Some(h) => {
                parts.push(h);
                parts.push(vstd::slice::slice_to_vec(".config".as_bytes()));
            },
            None => {
                parts.push(vstd::slice::slice_to_vec(".".as_bytes()));
            },
        },
    }
    parts.push(vstd::slice::slice_to_vec("coolify-qs".as_bytes()));
    parts.push(vstd::slice::slice_to_vec("config.json".as_bytes()));
    assert(byte_views(parts@) =~= config_path(
        opt_bytes(override_path),
        opt_bytes(xdg_config_home),
        opt_bytes(home),
    ));
    parts
}

/// An optional text that counts only when something remains after trimming.
pub open spec fn present(o: Option<String>) -> Option<Seq<char>> {
    match o {
        Some(s) => if trim(s@).len() > 0 {
            Some(trim(s@))
        } else {
            None
        },
        None => None,
    }
}

fn present_exec(o: &Option<String>) -> (r: Option<String>)
    ensures
        match r {
            Some(s) => present(*o) == Some(s@),
            None => present(*o) is None,
        },
{
    match o {
        Some(s) => {
            let t = trim_string(s.as_str());
            if t.as_str().is_empty() {
                None
            } else {
                Some(t)
            }
        },
        None => None,
    }
}

/// `servers[{index}]`.
pub open spec fn server_label(index: nat) -> Seq<char> {
    "servers["@ + decimal(index) + "]"@
}

/// A validated server: (name, url, token).
pub open spec fn server_view(s: Server) -> (Seq<char>, Seq<char>, Seq<char>) {
    (s.name@, s.url@, s.token@)
}

/// The display name when the config names none: the URL's host, trimmed,
/// or `server`.
pub open spec fn fallback_name(host: Option<Seq<char>>) -> Seq<char> {
    match host {
        Some(h) => if trim(h).len() > 0 {
            trim(h)
        } else {
            "server"@
        },
        None => "server"@,
    }
}

/// The server entry at `index`, validated against `parsed`, the outcome of
/// parsing its trimmed url (scheme and host, or the parser's message): url
/// and token are required (trimmed, non-empty), the url must parse and use
/// http or https, the name defaults to the URL host, and the url loses any
/// trailing `/`.
pub open spec fn server_result_from(
    index: nat,
    raw: RawServer,
    parsed: Result<(Seq<char>, Option<Seq<char>>), Seq<char>>,
) -> Result<(Seq<char>, Seq<char>, Seq<char>), Seq<char>> {
    let label = server_label(index);
    match present(raw.url) {
        None => Err(label + ": url is required"@),
        Some(url) => match present(raw.token) {
            None => Err(label + ": token is required"@),
            Some(token) => match parsed {
                Err(e) => Err(label + ": invalid url: "@ + e),
                Ok((scheme, host)) => if !is_web_scheme(scheme) {
                    Err(label + ": url must use http or https"@)
                } else {
                    let name = match present(raw.name) {
                        Some(n) => n,
                        None => fallback_name(host),
                    };
                    Ok((name, strip_trailing(url, '/'), token))
                },
            },
        },
    }
}

/// The URL parse of a raw server's trimmed url (irrelevant when it has none).
pub open spec fn raw_url_parse(raw: RawServer) -> Result<(Seq<char>, Option<Seq<char>>), Seq<char>> {
    match present(raw.url) {
        Some(url) => url_parse(url),
        None => Err(Seq::empty()),
    }
}

/// The server entry at `index`, validated, its url parsed by `url_parse`.
pub open spec fn parse_server_result(index: nat, raw: RawServer) -> Result<
    (Seq<char>, Seq<char>, Seq<char>),
    Seq<char>,
> {
    server_result_from(index, raw, raw_url_parse(raw))
}

/// The parse outcome as plain values.
pub open spec fn parts_view(p: Result<UrlParts, String>) -> Result<(Seq<char>, Option<Seq<char>>), Seq<char>> {
    match p {
        Ok(parts) => Ok((parts.scheme@, opt_view(parts.host))),
        Err(msg) => Err(msg@),
    }
}

/// The server entries, validated in order; the first invalid one decides.
pub open spec fn servers_result(raws: Seq<RawServer>) -> Result<
    Seq<(Seq<char>, Seq<char>, Seq<char>)>,
    Seq<char>,
>
    decreases raws.len(),
{
    if raws.len() == 0 {
        Ok(Seq::empty())
    } else {
        match servers_result(raws.drop_last()) {
            Err(e) => Err(e),
            Ok(list) => match parse_server_result((raws.len() - 1) as nat, raws.last()) {
                Err(e) => Err(e),
                Ok(s) => Ok(list.push(s)),
            },
        }
    }
}

/// `v` limited to `lo..=hi`.
pub open spec fn clamp(v: int, lo: int, hi: int) -> int {
    if v < lo {
        lo
    } else if v > hi {
        hi
    } else {
        v
    }
}

/// The poll interval a raw config asks for: 15 s by default, within 5..=3600.
pub open spec fn poll_interval_of(raw: Option<u64>) -> int {
    clamp(
        match raw {
            Some(v) => v as int,
            None => DEFAULT_POLL_SECS as int,
        },
        MIN_POLL_SECS as int,
        MAX_POLL_SECS as int,
    )
}

/// Past deployments per application a raw config asks for: 5 by default,
/// within 1..=100.
pub open spec fn past_per_app_of(raw: Option<u32>) -> int {
    clamp(
        match raw {
            Some(v) => v as int,
            None => DEFAULT_PAST_PER_APP as int,
        },
        MIN_PAST_PER_APP as int,
        MAX_PAST_PER_APP as int,
    )
}

/// The server entry at `index` once its trimmed url was parsed (`parsed`:
/// the scheme and host, or the parser's message); see `server_result_from`.
pub fn server_from_parts(index: usize, raw: &RawServer, parsed: Result<UrlParts, String>) -> (r:
    Result<Server, ConfigError>)
    ensures
        match (r, server_result_from(index as nat, *raw, parts_view(parsed))) {
            (Ok(s), Ok(expected)) => server_view(s) == expected,
            (Err(ConfigError::Invalid(msg)), Err(expected)) => msg@ == expected,
            _ => false,
        },
{
    let index_text = decimal_string(index as u64);
    let label = join3("servers[", index_text.as_str(), "]");
    let url = match present_exec(&raw.url) {
        Some(u) => u,
        None => {
            return Err(ConfigError::Invalid(join2(label.as_str(), ": url is required")));
        },
    };
    let token = match present_exec(&raw.token) {
        Some(t) => t,
        None => {
            return Err(ConfigError::Invalid(join2(label.as_str(), ": token is required")));
        },
    };
    let parsed = match parsed {
        Ok(p) => p,
        Err(e) => {
            let mut msg = join2(label.as_str(), ": invalid url: ");
            msg.append(e.as_str());
            return Err(ConfigError::Invalid(msg));
        },
    };
    let https = String::from_str("https");
    let http = String::from_str("http");
    if !(parsed.scheme == https) && !(parsed.scheme == http) {
        return Err(ConfigError::Invalid(join2(label.as_str(), ": url must use http or https")));
    }
    let name = match present_exec(&raw.name) {
        Some(n) => n,
        None => match present_exec(&parsed.host) {
            Some(h) => h,
            None => String::from_str("server"),
        },
    };
    let url_chars = chars_of(url.as_str());
    let stripped = strip_trailing_chars(&url_chars, '/');
    Ok(Server { name, url: string_from_chars(&stripped), token })
}

fn parse_server(index: usize, raw: &RawServer) -> (r: Result<Server, ConfigError>)
    ensures
        match (r, parse_server_result(index as nat, *raw)) {
            (Ok(s), Ok(expected)) => server_view(s) == expected,
            (Err(ConfigError::Invalid(msg)), Err(expected)) => msg@ == expected,
            _ => false,
        },
{
    let parsed = match present_exec(&raw.url) {
        Some(u) => parse_url(u.as_str()),
        None => Err(String::new()),
    };
    server_from_parts(index, raw, parsed)
}

impl Config {
    /// Validates a raw config: at least one server, every server valid (the
    /// first invalid entry is reported), and the poll interval and per-app
    /// history clamped into their ranges with their defaults filled in.
    pub fn from_raw(raw: RawConfig) -> (r: Result<Config, ConfigError>)
        ensures
            raw.servers@.len() == 0 ==> (r matches Err(ConfigError::Invalid(msg)) && msg@
                == "no servers configured (the servers array is empty)"@),
            raw.servers@.len() > 0 ==> match (r, servers_result(raw.servers@)) {
                (Ok(cfg), Ok(list)) => {
                    &&& cfg.servers@.map_values(|s: Server| server_view(s)) == list
                    &&& cfg.poll_interval_secs == poll_interval_of(raw.poll_interval_seconds)
                    &&& cfg.past_per_app == past_per_app_of(raw.past_per_app)
                    &&& cfg.notifications == raw.notifications
                },
                (Err(ConfigError::Invalid(msg)), Err(expected)) => msg@ == expected,
                _ => false,
            },
    {
        if raw.servers.len() == 0 {
            return Err(
                ConfigError::Invalid(
                    String::from_str("no servers configured (the servers array is empty)"),
                ),
            );
        }
        let mut servers: Vec<Server> = Vec::new();
        let mut i: usize = 0;
        while i < raw.servers.len()
            invariant
                0 <= i <= raw.servers@.len(),
                servers_result(raw.servers@.take(i as int)) matches Ok(list) && servers@.map_values(
                    |s: Server| server_view(s),
                ) == list,
            decreases raw.servers.len() - i,
        {
            proof {
                assert(raw.servers@.take(i + 1).drop_last() =~= raw.servers@.take(i as int));
                assert(raw.servers@.take(i + 1).last() == raw.servers@[i as int]);
            }
            match parse_server(i, &raw.servers[i]) {
                Ok(s) => {
                    let ghost before = servers@;
                    servers.push(s);
                    proof {
                        assert(servers@.map_values(|s: Server| server_view(s)) =~= before.map_values(
                            |s: Server| server_view(s),
                        ).push(server_view(s)));
                    }
                },
                Err(e) => {
                    proof {
                        lemma_servers_result_stops(raw.servers@, i as int);
                    }
                    return Err(e);
                },
            }
            i = i + 1;
        }
        proof {
            assert(raw.servers@.take(i as int) =~= raw.servers@);
        }
        let requested_poll = match raw.poll_interval_seconds {
            Some(v) => v,
            None => DEFAULT_POLL_SECS,
        };
        let poll_interval_secs = if requested_poll < MIN_POLL_SECS {
            MIN_POLL_SECS
        } else if requested_poll > MAX_POLL_SECS {
            MAX_POLL_SECS
        } else {
            requested_poll
        };
        let requested_past = match raw.past_per_app {
            Some(v) => v,
            None => DEFAULT_PAST_PER_APP,
        };
        let past_per_app = if requested_past < MIN_PAST_PER_APP {
            MIN_PAST_PER_APP
        } else if requested_past > MAX_PAST_PER_APP {
            MAX_PAST_PER_APP
        } else {
            requested_past
        };
        Ok(Config { poll_interval_secs, past_per_app, notifications: raw.notifications, servers })
    }
}

/// Once an entry fails, the whole list fails with that entry's error.
proof fn lemma_servers_result_stops(raws: Seq<RawServer>, i: int)
    requires
        0 <= i < raws.len(),
        servers_result(raws.take(i)) is Ok,
        parse_server_result(i as nat, raws[i]) is Err,
    ensures
        servers_result(raws) == Err::<Seq<(Seq<char>, Seq<char>, Seq<char>)>, Seq<char>>(
            parse_server_result(i as nat, raws[i])->Err_0,
        ),
    decreases raws.len() - i,
{
    assert(raws.take(i + 1).drop_last() =~= raws.take(i));
    lemma_servers_result_error_persists(raws, i + 1);
}

/// An error in a prefix is the error of every longer prefix.
proof fn lemma_servers_result_error_persists(raws: Seq<RawServer>, k: int)
    requires
        0 <= k <= raws.len(),
        servers_result(raws.take(k)) is Err,
    ensures
        servers_result(raws) == servers_result(raws.take(k)),
    decreases raws.len() - k,
{
    if k == raws.len() {
        assert(raws.take(k) =~= raws);
    } else {
        assert(raws.take(k + 1).drop_last() =~= raws.take(k));
        lemma_servers_result_error_persists(raws, k + 1);
    }
}


/// The poll interval always lies within 5..=3600 seconds and the per-app
/// history within 1..=100 deployments, whatever the file says.
pub proof fn law_settings_within_bounds(poll: Option<u64>, past: Option<u32>)
    ensures
        MIN_POLL_SECS <= poll_interval_of(poll) <= MAX_POLL_SECS,
        MIN_PAST_PER_APP <= past_per_app_of(past) <= MAX_PAST_PER_APP,
{
}

/// A server that passed validation has a non-empty, trimmed name and token,
/// and a url that does not end with `/`.
pub proof fn law_validated_server_is_well_formed(index: nat, raw: RawServer)
    requires
        parse_server_result(index, raw) is Ok,
    ensures
        ({
            let (name, url, token) = parse_server_result(index, raw)->Ok_0;
            &&& name.len() > 0 && trim(name) == name
            &&& token.len() > 0 && trim(token) == token
            &&& url.len() == 0 || url.last() != '/'
        }),
{
    let (name, url, token) = parse_server_result(index, raw)->Ok_0;
    let raw_token = raw.token->Some_0@;
    law_trim_is_idempotent(raw_token);
    let raw_url = raw.url->Some_0@;
    law_strip_trailing_leaves_no_trailing(trim(raw_url), '/');
    match present(raw.name) {
        Some(n) => {
            law_trim_is_idempotent(raw.name->Some_0@);
        },
        None => {
            let host = url_parse(trim(raw_url))->Ok_0.1;
            match host {
                Some(h) => {
                    law_trim_is_idempotent(h);
                },
                None => {},
            }
            reveal_strlit("server");
            assert(!crate::text::is_space("server"@[0]));
            assert(!crate::text::is_space("server"@.last()));
            assert(trim("server"@) == "server"@);
        },
    }
}


proof fn lemma_servers_result_entries(raws: Seq<RawServer>)
    requires
        servers_result(raws) is Ok,
    ensures
        servers_result(raws)->Ok_0.len() == raws.len(),
        forall|k: int|
            0 <= k < raws.len() ==> parse_server_result(k as nat, #[trigger] raws[k]) == Ok::<
                (Seq<char>, Seq<char>, Seq<char>),
                Seq<char>,
            >(servers_result(raws)->Ok_0[k]),
    decreases raws.len(),
{
    if raws.len() > 0 {
        let p = raws.drop_last();
        lemma_servers_result_entries(p);
        assert forall|k: int| 0 <= k < raws.len() implies parse_server_result(
            k as nat,
            #[trigger] raws[k],
        ) == Ok::<(Seq<char>, Seq<char>, Seq<char>), Seq<char>>(servers_result(raws)->Ok_0[k]) by {
            if k < p.len() {
                assert(raws[k] == p[k]);
            }
        }
    }
}

/// Every server of a validated config list is well formed, one per entry
/// of the file, in file order.
pub proof fn law_validated_servers_are_well_formed(raws: Seq<RawServer>)
    requires
        servers_result(raws) is Ok,
    ensures
        servers_result(raws)->Ok_0.len() == raws.len(),
        forall|k: int|
            0 <= k < raws.len() ==> {
                let (name, url, token) = #[trigger] servers_result(raws)->Ok_0[k];
                &&& name.len() > 0 && trim(name) == name
                &&& token.len() > 0 && trim(token) == token
                &&& url.len() == 0 || url.last() != '/'
            },
{
    lemma_servers_result_entries(raws);
    assert forall|k: int| 0 <= k < raws.len() implies {
        let (name, url, token) = #[trigger] servers_result(raws)->Ok_0[k];
        &&& name.len() > 0 && trim(name) == name
        &&& token.len() > 0 && trim(token) == token
        &&& url.len() == 0 || url.last() != '/'
    } by {
        assert(parse_server_result(k as nat, raws[k]) is Ok);
        law_validated_server_is_well_formed(k as nat, raws[k]);
    }
}

} // verus!
