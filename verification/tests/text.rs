use coolify_qs::open::{exit_outcome, vet_open_url, OpenOutcome};
use coolify_qs::text::{
    collapse_chars, decimal_string, escape_markup_chars, join_strings, trim_string,
};
use coolify_qs::notify::Notifier;
use coolify_qs::status::Status;
use coolify_qs::watch::{after_write, cycle_settings, remaining_delay_ms, WatchState, CONFIG_RETRY_SECS};
use coolify_qs::config::{Config, ConfigError};

fn chars(s: &str) -> Vec<char> {
    s.chars().collect()
}

#[test]
fn open_rejects_non_http_urls() {
    assert!(matches!(vet_open_url("file:///etc/passwd"), Err(OpenOutcome::RejectedUrl)));
    assert!(matches!(vet_open_url("not a url"), Err(OpenOutcome::RejectedUrl)));
}

#[test]
fn open_accepts_trimmed_web_urls() {
    assert_eq!(vet_open_url("  https://example.com/x \n"), Ok("https://example.com/x".to_string()));
    assert_eq!(vet_open_url("HTTP://example.com"), Ok("HTTP://example.com".to_string()));
    assert_eq!(exit_outcome(true, "exit status: 0"), OpenOutcome::Opened);
    assert_eq!(
        exit_outcome(false, "exit status: 3"),
        OpenOutcome::Failed("xdg-open exited with exit status: 3".into())
    );
}

#[test]
fn decimal_notation() {
    assert_eq!(decimal_string(0), "0");
    assert_eq!(decimal_string(7), "7");
    assert_eq!(decimal_string(10), "10");
    assert_eq!(decimal_string(5242880), "5242880");
    assert_eq!(decimal_string(u64::MAX), "18446744073709551615");
}

#[test]
fn trimming_uses_unicode_whitespace() {
    assert_eq!(trim_string(" \t\u{a0}x y\u{2003}\n"), "x y");
    assert_eq!(trim_string("   "), "");
    let once = trim_string("  a ");
    assert_eq!(trim_string(&once), once);
}

#[test]
fn collapsed_text_is_single_spaced() {
    let out: String = collapse_chars(&chars("  a\t\tb \n c  ")).into_iter().collect();
    assert_eq!(out, "a b c");
    let out: String = collapse_chars(&chars(" \u{2028} ")).into_iter().collect();
    assert_eq!(out, "");
}

#[test]
fn escaped_text_has_no_markup() {
    let out: String = escape_markup_chars(&chars("<a href=\"x\">'&'</a>")).into_iter().collect();
    assert_eq!(out, "&lt;a href=&quot;x&quot;&gt;&#39;&amp;&#39;&lt;/a&gt;");
    assert!(!out.contains('<') && !out.contains('>') && !out.contains('"') && !out.contains('\''));
}

#[test]
fn joins_texts() {
    let parts = vec!["a".to_string(), "b".to_string(), "c".to_string()];
    assert_eq!(join_strings(&parts, "; "), "a; b; c");
    assert_eq!(join_strings(&vec![], "; "), "");
}

#[test]
fn watch_emits_only_changes() {
    let mut state = WatchState::new();
    assert!(state.is_new("{\"state\":\"ok\"}"));
    state.remember("{\"state\":\"ok\"}".to_string());
    assert!(!state.is_new("{\"state\":\"ok\"}"));
    assert!(state.is_new("{\"state\":\"error\"}"));
    assert!(WatchState::default().is_new(""));
}

#[test]
fn watch_cycle_settings_and_delay() {
    let ok: Result<Config, ConfigError> = Ok(Config {
        poll_interval_secs: 30,
        past_per_app: 5,
        notifications: false,
        servers: vec![],
    });
    assert_eq!(cycle_settings(&ok), (30, false));
    let err: Result<Config, ConfigError> = Err(ConfigError::MissingFile("/x".into()));
    assert_eq!(cycle_settings(&err), (CONFIG_RETRY_SECS, false));
    assert_eq!(remaining_delay_ms(15, 2500), 12500);
    assert_eq!(remaining_delay_ms(15, 20000), 0);
    assert_eq!(remaining_delay_ms(u64::MAX, 1), u64::MAX - 1);
}

#[test]
fn escaping_works_piecewise() {
    let whole: String = escape_markup_chars(&chars("a<b&c'")).into_iter().collect();
    let left: String = escape_markup_chars(&chars("a<")).into_iter().collect();
    let right: String = escape_markup_chars(&chars("b&c'")).into_iter().collect();
    assert_eq!(whole, left + &right);
}

#[test]
fn escaping_round_trips_and_changes_only_markup() {
    let value = "a < b && \"c\" > 'd' &amp;";
    let escaped: String = escape_markup_chars(&chars(value)).into_iter().collect();
    let back = escaped
        .replace("&lt;", "<")
        .replace("&gt;", ">")
        .replace("&quot;", "\"")
        .replace("&#39;", "'")
        .replace("&amp;", "&");
    assert_eq!(back, value);
    let plain: String = escape_markup_chars(&chars("plain text")).into_iter().collect();
    assert_eq!(plain, "plain text");
    let one: String = escape_markup_chars(&chars("a&b")).into_iter().collect();
    assert_ne!(one, "a&b");
}

#[test]
fn after_write_remembers_the_line_and_tracks_states() {
    let mut state = WatchState::new();
    let mut notifier = Notifier::new();
    let snapshot = Status::error("config file not found: /x".to_string());
    let toasts = after_write(&mut state, &mut notifier, "line".to_string(), &snapshot, true, true);
    assert_eq!(toasts.map(|t| t.len()), Some(0));
    assert!(!state.is_new("line"));
    assert!(state.is_new("other"));
}

#[test]
fn failed_write_stops_and_changes_nothing() {
    let mut state = WatchState::new();
    let mut notifier = Notifier::new();
    let snapshot = Status::error("x".to_string());
    let r = after_write(&mut state, &mut notifier, "line".to_string(), &snapshot, true, false);
    assert!(r.is_none());
    assert!(state.is_new("line"));
    assert_eq!(remaining_delay_ms(5, 0), 5000);
    assert_eq!(remaining_delay_ms(5, 1200) + 1200, 5000);
}
