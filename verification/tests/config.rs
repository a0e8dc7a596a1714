use coolify_qs::address::UrlParts;
use coolify_qs::config::{
    check_config_size, config_path_parts, default_notifications, server_from_parts, loose_permission_bits, Config, ConfigError,
    RawConfig, RawServer, MAX_CONFIG_BYTES, MAX_PAST_PER_APP, MAX_POLL_SECS, MIN_PAST_PER_APP,
    MIN_POLL_SECS,
};

fn server(name: Option<&str>, url: Option<&str>, token: Option<&str>) -> RawServer {
    RawServer {
        name: name.map(String::from),
        url: url.map(String::from),
        token: token.map(String::from),
    }
}

fn raw(poll: Option<u64>, past: Option<u32>, servers: Vec<RawServer>) -> RawConfig {
    RawConfig {
        poll_interval_seconds: poll,
        past_per_app: past,
        notifications: default_notifications(),
        servers,
    }
}

#[test]
fn parses_multiple_servers() {
    let cfg = Config::from_raw(raw(
        Some(30),
        Some(10),
        vec![
            server(Some("home"), Some("https://coolify.example.com/"), Some("abc")),
            server(None, Some("http://10.0.0.5:8000"), Some("def")),
        ],
    ))
    .unwrap();
    assert_eq!(cfg.poll_interval_secs, 30);
    assert_eq!(cfg.past_per_app, 10);
    assert!(cfg.notifications);
    assert_eq!(cfg.servers.len(), 2);
    assert_eq!(cfg.servers[0].name, "home");
    assert_eq!(cfg.servers[0].url, "https://coolify.example.com");
    assert_eq!(cfg.servers[1].name, "10.0.0.5");
    assert_eq!(cfg.servers[1].url, "http://10.0.0.5:8000");
}

#[test]
fn applies_defaults() {
    let cfg = Config::from_raw(raw(
        None,
        None,
        vec![server(None, Some("https://coolify.example.com"), Some("abc"))],
    ))
    .unwrap();
    assert_eq!(cfg.poll_interval_secs, 15);
    assert_eq!(cfg.past_per_app, 5);
    assert!(cfg.notifications);
}

#[test]
fn notifications_can_be_disabled() {
    let mut r = raw(None, None, vec![server(None, Some("https://coolify.example.com"), Some("abc"))]);
    r.notifications = false;
    let cfg = Config::from_raw(r).unwrap();
    assert!(!cfg.notifications);
}

#[test]
fn clamps_out_of_range_values() {
    let cfg = Config::from_raw(raw(
        Some(1),
        Some(500),
        vec![server(None, Some("https://coolify.example.com"), Some("abc"))],
    ))
    .unwrap();
    assert_eq!(cfg.poll_interval_secs, MIN_POLL_SECS);
    assert_eq!(cfg.past_per_app, MAX_PAST_PER_APP);
}

#[test]
fn clamps_the_other_ends() {
    let cfg = Config::from_raw(raw(
        Some(99999),
        Some(0),
        vec![server(None, Some("https://coolify.example.com"), Some("abc"))],
    ))
    .unwrap();
    assert_eq!(cfg.poll_interval_secs, MAX_POLL_SECS);
    assert_eq!(cfg.past_per_app, MIN_PAST_PER_APP);
}

#[test]
fn rejects_oversized_config() {
    let err = check_config_size("/tmp/config.json", MAX_CONFIG_BYTES + 1).unwrap_err();
    assert!(matches!(err, ConfigError::Io(_)));
    assert!(err.to_string().contains("larger than"));
    assert_eq!(
        err.to_string(),
        "config file /tmp/config.json is larger than 1048576 bytes"
    );
    assert!(check_config_size("/tmp/config.json", MAX_CONFIG_BYTES).is_ok());
}

#[test]
fn rejects_empty_servers() {
    let err = Config::from_raw(raw(None, None, vec![])).unwrap_err();
    assert!(matches!(err, ConfigError::Invalid(_)));
    assert!(err.to_string().contains("no servers configured"));
}

#[test]
fn rejects_missing_url_or_token() {
    let err = Config::from_raw(raw(
        None,
        None,
        vec![server(None, Some("https://coolify.example.com"), None)],
    ))
    .unwrap_err();
    assert!(err.to_string().contains("token is required"));

    let err = Config::from_raw(raw(None, None, vec![server(None, None, Some("abc"))])).unwrap_err();
    assert!(err.to_string().contains("url is required"));
}

#[test]
fn config_rejects_non_http_urls() {
    let err = Config::from_raw(raw(
        None,
        None,
        vec![server(None, Some("ftp://coolify.example.com"), Some("abc"))],
    ))
    .unwrap_err();
    assert!(err.to_string().contains("must use http or https"));
}

#[test]
fn rejects_url_without_host() {
    let err = Config::from_raw(raw(None, None, vec![server(None, Some("https://"), Some("abc"))]))
        .unwrap_err();
    assert!(err.to_string().contains("invalid url"));
}

#[test]
fn reports_first_invalid_entry_with_its_index() {
    let err = Config::from_raw(raw(
        None,
        None,
        vec![
            server(None, Some("https://a.example.com"), Some("t")),
            server(None, Some("   "), Some("t")),
            server(None, None, None),
        ],
    ))
    .unwrap_err();
    assert_eq!(err, ConfigError::Invalid("servers[1]: url is required".into()));
    assert_eq!(err.to_string(), "invalid config: servers[1]: url is required");
}

#[test]
fn trims_names_urls_and_tokens() {
    let cfg = Config::from_raw(raw(
        None,
        None,
        vec![server(Some("  box  "), Some("  https://c.example.com///  "), Some(" tok\n"))],
    ))
    .unwrap();
    assert_eq!(cfg.servers[0].name, "box");
    assert_eq!(cfg.servers[0].url, "https://c.example.com");
    assert_eq!(cfg.servers[0].token, "tok");
}

#[test]
fn blank_name_falls_back_to_host() {
    let cfg = Config::from_raw(raw(
        None,
        None,
        vec![server(Some("   "), Some("https://Coolify.Example.com:8443/x"), Some("t"))],
    ))
    .unwrap();
    assert_eq!(cfg.servers[0].name, "coolify.example.com");
    assert_eq!(cfg.servers[0].url, "https://Coolify.Example.com:8443/x");
}

#[test]
fn loose_permission_bits_flags_group_and_world_read() {
    assert_eq!(loose_permission_bits(0o644), Some(0o644));
    assert_eq!(loose_permission_bits(0o640), Some(0o640));
    assert_eq!(loose_permission_bits(0o604), Some(0o604));
    assert_eq!(loose_permission_bits(0o622), None);
    assert_eq!(loose_permission_bits(0o600), None);
    assert_eq!(loose_permission_bits(0o400), None);
    assert_eq!(loose_permission_bits(0o100644), Some(0o644));
}

#[test]
fn config_error_texts() {
    assert_eq!(
        ConfigError::MissingFile("/x/config.json".into()).to_string(),
        "config file not found: /x/config.json"
    );
    assert_eq!(ConfigError::Io("boom".into()).to_string(), "boom");
    assert_eq!(ConfigError::Parse("bad".into()).to_string(), "bad");
    assert_eq!(
        ConfigError::read_failed("/c", "denied").to_string(),
        "failed to read /c: denied"
    );
    assert!(matches!(
        ConfigError::parse_failed("/c", "eof"),
        ConfigError::Parse(msg) if msg == "failed to parse /c: eof"
    ));
}

fn parts(scheme: &str, host: Option<&str>) -> Result<UrlParts, String> {
    Ok(UrlParts { scheme: scheme.into(), host: host.map(String::from) })
}

#[test]
fn server_from_parsed_url() {
    let raw = server(None, Some(" https://coolify.example.com/ "), Some(" tok "));
    let s = server_from_parts(0, &raw, parts("https", Some("coolify.example.com"))).unwrap();
    assert_eq!(s.name, "coolify.example.com");
    assert_eq!(s.url, "https://coolify.example.com");
    assert_eq!(s.token, "tok");
    let s = server_from_parts(1, &raw, parts("http", None)).unwrap();
    assert_eq!(s.name, "server");
    assert_eq!(
        server_from_parts(2, &raw, parts("ftp", Some("h"))),
        Err(ConfigError::Invalid("servers[2]: url must use http or https".into()))
    );
    assert_eq!(
        server_from_parts(3, &raw, Err("relative URL without a base".into())),
        Err(ConfigError::Invalid("servers[3]: invalid url: relative URL without a base".into()))
    );
    let no_token = server(None, Some("https://x"), None);
    assert_eq!(
        server_from_parts(4, &no_token, parts("https", Some("x"))),
        Err(ConfigError::Invalid("servers[4]: token is required".into()))
    );
}

#[test]
fn config_path_precedence() {
    let b = |s: &str| Some(s.as_bytes().to_vec());
    let owned = |v: Vec<&str>| v.into_iter().map(|s| s.as_bytes().to_vec()).collect::<Vec<_>>();
    assert_eq!(config_path_parts(b("/etc/c.json"), b("/x"), b("/home/u")), owned(vec!["/etc/c.json"]));
    assert_eq!(
        config_path_parts(None, b("/x"), b("/home/u")),
        owned(vec!["/x", "coolify-qs", "config.json"])
    );
    assert_eq!(
        config_path_parts(None, None, b("/home/u")),
        owned(vec!["/home/u", ".config", "coolify-qs", "config.json"])
    );
    assert_eq!(config_path_parts(None, None, None), owned(vec![".", "coolify-qs", "config.json"]));
}
