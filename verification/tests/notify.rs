use coolify_qs::notify::{
    body_of, collapse, escape_markup, plan_notices, toast_for, Notice, Notifier,
    MAX_INDIVIDUAL_NOTICES,
};
use coolify_qs::status::{AppStatus, DeploymentItem, ServerStatus, State, Status};

fn app(uuid: &str, error: Option<&str>, deployments: Vec<DeploymentItem>) -> AppStatus {
    AppStatus {
        uuid: uuid.into(),
        name: "website".into(),
        fqdn: None,
        error: error.map(String::from),
        deployments,
    }
}

fn with_apps(apps: Vec<AppStatus>) -> Status {
    Status {
        state: State::Okay,
        error: None,
        servers: Some(vec![ServerStatus {
            name: "home".into(),
            url: "https://coolify.example.com".into(),
            online: true,
            running: 0,
            queued: 0,
            failed: 0,
            error: None,
            apps,
        }]),
    }
}

fn snapshot(deployments: Vec<DeploymentItem>) -> Status {
    with_apps(vec![app("u1", None, deployments)])
}

fn item(id: u64, status: &str) -> DeploymentItem {
    DeploymentItem {
        id: Some(id),
        status: status.into(),
        commit: None,
        commit_message: Some("ship it".into()),
        created_at: None,
        deployment_url: None,
    }
}

#[test]
fn first_snapshot_seeds_without_notifying() {
    let mut notifier = Notifier::new();
    let notices = notifier.collect(&snapshot(vec![item(1, "finished"), item(2, "failed")]));
    assert!(notices.is_empty());
}

#[test]
fn notifies_on_finish_and_failure_transitions() {
    let mut notifier = Notifier::new();
    notifier.collect(&snapshot(vec![item(1, "in_progress"), item(2, "queued")]));

    let notices = notifier.collect(&snapshot(vec![item(1, "finished"), item(2, "failed")]));
    assert_eq!(notices.len(), 2);
    assert_eq!(notices[0].status, "finished");
    assert_eq!(notices[0].app, "website");
    assert_eq!(notices[0].server, "home");
    assert_eq!(notices[1].status, "failed");
}

#[test]
fn no_notification_for_cancelled_or_unchanged() {
    let mut notifier = Notifier::new();
    notifier.collect(&snapshot(vec![item(1, "in_progress"), item(2, "in_progress")]));

    let notices = notifier.collect(&snapshot(vec![item(1, "cancelled"), item(2, "in_progress")]));
    assert!(notices.is_empty());
}

#[test]
fn disabled_notifications_still_track_transitions() {
    let mut notifier = Notifier::new();
    // While notifications are off, the map must keep up to date...
    notifier.process(&snapshot(vec![item(1, "in_progress")]), false);
    // ...so re-enabling later does not replay long-settled history.
    notifier.process(&snapshot(vec![item(1, "finished")]), true);
    let notices = notifier.collect(&snapshot(vec![item(1, "finished")]));
    assert!(notices.is_empty());
}

#[test]
fn error_snapshots_leave_the_seen_map_alone() {
    let mut notifier = Notifier::new();
    notifier.collect(&snapshot(vec![item(1, "in_progress")]));

    assert!(notifier
        .collect(&Status::error("config file not found: /x".to_string()))
        .is_empty());
    let notices = notifier.collect(&snapshot(vec![item(1, "finished")]));
    assert_eq!(notices.len(), 1);
    assert_eq!(notices[0].status, "finished");
}

#[test]
fn no_notification_when_finished_deployment_keeps_finishing() {
    let mut notifier = Notifier::new();
    notifier.collect(&snapshot(vec![item(1, "finished")]));
    let notices = notifier.collect(&snapshot(vec![item(1, "finished")]));
    assert!(notices.is_empty());
}

#[test]
fn deployment_that_left_the_window_is_forgotten() {
    let mut notifier = Notifier::new();
    notifier.collect(&snapshot(vec![item(1, "in_progress")]));
    notifier.collect(&snapshot(vec![]));
    let notices = notifier.collect(&snapshot(vec![item(1, "finished")]));
    assert!(notices.is_empty());
}

#[test]
fn failed_app_fetch_keeps_its_deployment_states() {
    let mut notifier = Notifier::new();
    notifier.collect(&snapshot(vec![item(1, "in_progress")]));
    // The app's deployment fetch fails while the deployment settles...
    let notices = notifier.collect(&with_apps(vec![app("u1", Some("HTTP 500: boom"), vec![])]));
    assert!(notices.is_empty());
    // ...and the settlement still notifies once the fetch recovers.
    let notices = notifier.collect(&snapshot(vec![item(1, "finished")]));
    assert_eq!(notices.len(), 1);
    assert_eq!(notices[0].message, "ship it");
}

#[test]
fn collapses_commit_message_whitespace() {
    assert_eq!(
        collapse(&Some("fix: a\n\nmulti-line\n  message".into())),
        "fix: a multi-line message"
    );
    assert_eq!(collapse(&None), "");
}

#[test]
fn notices_above_cap_collapse_into_summary() {
    let mut notifier = Notifier::new();
    let mut seeds = vec![];
    let mut done = vec![];
    for id in 1u64..=5u64 {
        seeds.push(item(id, "in_progress"));
        done.push(item(id, "finished"));
    }
    notifier.collect(&snapshot(seeds));

    let notices = notifier.collect(&snapshot(done));
    assert_eq!(notices.len(), 5);
    assert_eq!(5usize.saturating_sub(MAX_INDIVIDUAL_NOTICES), 2);
    let planned = plan_notices(notices);
    assert_eq!(planned.len(), 4);
    assert_eq!(planned[3].status, "summary");
    assert_eq!(planned[3].app, "+2 more");
    assert_eq!(planned[3].server, "");
}

#[test]
fn escapes_markup_in_summary_and_body() {
    let notice = Notice {
        status: "finished".into(),
        server: "home".into(),
        app: "<script>".into(),
        message: "a < b & c".into(),
    };
    assert_eq!(escape_markup(&notice.app), "&lt;script&gt;");
    assert_eq!(body_of(&notice), "home \u{00B7} a &lt; b &amp; c");
    assert_eq!(escape_markup("plain"), "plain");
}

#[test]
fn toasts_word_each_outcome() {
    let finished = Notice {
        status: "finished".into(),
        server: "home".into(),
        app: "web".into(),
        message: "".into(),
    };
    let t = toast_for(&finished);
    assert_eq!(t.summary, "\u{2713} web deployed");
    assert_eq!(t.body, "home");
    assert_eq!(t.urgency, 1);
    let failed = Notice { status: "failed".into(), server: "".into(), app: "a\"b'".into(), message: "m".into() };
    let t = toast_for(&failed);
    assert_eq!(t.summary, "\u{2717} a&quot;b&#39; deployment failed");
    assert_eq!(t.body, "m");
    assert_eq!(t.urgency, 2);
    let summary = Notice { status: "summary".into(), server: "".into(), app: "+2 more".into(), message: "".into() };
    let t = toast_for(&summary);
    assert_eq!(t.summary, "\u{1F680} Coolify: +2 more");
    assert_eq!(t.body, "");
}

#[test]
fn process_returns_toasts_only_when_notifying() {
    let mut notifier = Notifier::default();
    assert!(notifier.process(&snapshot(vec![item(1, "queued")]), true).is_empty());
    let toasts = notifier.process(&snapshot(vec![item(1, "failed")]), true);
    assert_eq!(toasts.len(), 1);
    assert_eq!(toasts[0].summary, "\u{2717} website deployment failed");
    assert_eq!(toasts[0].body, "home \u{00B7} ship it");
    let mut quiet = Notifier::new();
    quiet.process(&snapshot(vec![item(1, "queued")]), false);
    assert!(quiet.process(&snapshot(vec![item(1, "failed")]), false).is_empty());
}
