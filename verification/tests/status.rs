use coolify_qs::api::{ApiError, Application, Deployment, DeploymentStatus};
use coolify_qs::config::{Config, ConfigError, Server};
use coolify_qs::status::{
    clean, current_snapshot, deployment_item, origin, server_status, snapshot, AppFetch,
    ServerFetch, State, Status,
};

fn dep(id: u64, status: DeploymentStatus) -> Deployment {
    Deployment {
        id: Some(id),
        status: Some(status),
        commit: None,
        commit_message: None,
        created_at: None,
        deployment_url: None,
    }
}

fn app(uuid: &str, name: &str, deployments: Result<Vec<Deployment>, ApiError>) -> AppFetch {
    AppFetch {
        app: Application { uuid: Some(uuid.into()), name: Some(name.into()), fqdn: None },
        deployments,
    }
}

fn config(servers: Vec<Server>) -> Config {
    Config { poll_interval_secs: 15, past_per_app: 5, notifications: true, servers }
}

fn home() -> Server {
    Server {
        name: "home".into(),
        url: "https://coolify.example.com".into(),
        token: "abc".into(),
    }
}

#[test]
fn normalizes_empty_strings_away() {
    let item = deployment_item(
        Deployment {
            id: Some(7),
            status: Some(DeploymentStatus::Finished),
            commit: Some("".into()),
            commit_message: Some("   ".into()),
            created_at: None,
            deployment_url: Some("".into()),
        },
        "https://coolify.example.com",
    );
    assert_eq!(item.id, Some(7));
    assert_eq!(item.status, "finished");
    assert!(item.commit.is_none());
    assert!(item.commit_message.is_none());
    assert!(item.created_at.is_none());
    assert!(item.deployment_url.is_none());
}

#[test]
fn absolutizes_relative_deployment_urls() {
    let item = deployment_item(
        Deployment {
            id: Some(1),
            status: Some(DeploymentStatus::Finished),
            commit: None,
            commit_message: None,
            created_at: None,
            deployment_url: Some("/project/abc/deployment/xyz".into()),
        },
        "https://coolify.example.com",
    );
    assert_eq!(
        item.deployment_url.as_deref(),
        Some("https://coolify.example.com/project/abc/deployment/xyz")
    );

    let item = deployment_item(
        Deployment {
            id: Some(2),
            status: Some(DeploymentStatus::Finished),
            commit: None,
            commit_message: None,
            created_at: None,
            deployment_url: Some("https://elsewhere.example.com/x".into()),
        },
        "https://coolify.example.com",
    );
    assert_eq!(item.deployment_url.as_deref(), Some("https://elsewhere.example.com/x"));
}

#[test]
fn missing_status_reads_other_and_texts_are_trimmed() {
    let item = deployment_item(
        Deployment {
            id: None,
            status: None,
            commit: Some("  abc1234 ".into()),
            commit_message: Some("\tship it\n".into()),
            created_at: Some("2026-08-21T10:00:00Z".into()),
            deployment_url: Some("  /p/1  ".into()),
        },
        "http://h:8000/base",
    );
    assert_eq!(item.status, "other");
    assert_eq!(item.commit.as_deref(), Some("abc1234"));
    assert_eq!(item.commit_message.as_deref(), Some("ship it"));
    assert_eq!(item.deployment_url.as_deref(), Some("http://h:8000/p/1"));
}

#[test]
fn origin_keeps_scheme_host_and_port() {
    assert_eq!(origin("https://coolify.example.com"), "https://coolify.example.com");
    assert_eq!(origin("https://h:8000/api/v1"), "https://h:8000");
    assert_eq!(origin("http://10.0.0.5"), "http://10.0.0.5");
    assert_eq!(origin("no-scheme/path"), "no-scheme/path");
}

#[test]
fn clean_drops_blank_text() {
    assert_eq!(clean(Some("  x ".into())), Some("x".into()));
    assert_eq!(clean(Some(" \u{3000} ".into())), None);
    assert_eq!(clean(None), None);
}

#[test]
fn error_and_ok_statuses() {
    let err = Status::error("config file not found: /x".to_string());
    assert_eq!(err.state, State::Error);
    assert_eq!(err.error.as_deref(), Some("config file not found: /x"));
    assert!(err.servers.is_none());
    let ok = Status::ok(vec![]);
    assert_eq!(ok.state, State::Okay);
    assert!(ok.error.is_none());
    assert_eq!(ok.servers, Some(vec![]));
}

#[test]
fn snapshot_with_all_servers_offline_is_error() {
    let config = Config {
        poll_interval_secs: 15,
        past_per_app: 5,
        notifications: true,
        servers: vec![Server {
            name: "down".into(),
            url: "https://coolify.example.com".into(),
            token: "abc".into(),
        }],
    };
    let fetched = vec![ServerFetch {
        apps: Err(ApiError::Network(
            "https://coolify.example.com/api/v1/applications: error sending request".into(),
        )),
    }];
    let status = snapshot(&config, fetched);
    assert_eq!(status.state, State::Error);
    let message = status.error.unwrap();
    assert!(message.contains("network error"), "message: {message}");
}

#[test]
fn offline_errors_are_joined() {
    let two = config(vec![home(), home()]);
    let fetched = vec![
        ServerFetch { apps: Err(ApiError::Network("a".into())) },
        ServerFetch { apps: Err(ApiError::Http { status: 401, message: "no".into() }) },
    ];
    let status = snapshot(&two, fetched);
    assert_eq!(status.error.as_deref(), Some("network error: a; HTTP 401: no"));
    let empty = snapshot(&config(vec![]), vec![]);
    assert_eq!(empty.error.as_deref(), Some("no servers configured"));
}

#[test]
fn one_online_server_makes_the_snapshot_ok() {
    let config = config(vec![home(), home()]);
    let fetched = vec![
        ServerFetch { apps: Err(ApiError::Network("down".into())) },
        ServerFetch { apps: Ok(vec![app("u1", "web", Ok(vec![dep(1, DeploymentStatus::Queued)]))]) },
    ];
    let status = snapshot(&config, fetched);
    assert_eq!(status.state, State::Okay);
    let servers = status.servers.unwrap();
    assert_eq!(servers.len(), 2);
    assert!(!servers[0].online);
    assert_eq!(servers[0].error.as_deref(), Some("network error: down"));
    assert!(servers[1].online);
    assert_eq!(servers[1].queued, 1);
}

#[test]
fn server_status_counts_and_sorts_apps() {
    let fetch = ServerFetch {
        apps: Ok(vec![
            app(
                "u2",
                "beta",
                Ok(vec![
                    dep(1, DeploymentStatus::InProgress),
                    dep(2, DeploymentStatus::Failed),
                    dep(3, DeploymentStatus::Finished),
                ]),
            ),
            app("u1", "Alpha", Ok(vec![dep(4, DeploymentStatus::Queued), dep(5, DeploymentStatus::Queued)])),
            app("u3", "gone", Err(ApiError::Http { status: 404, message: "Not found.".into() })),
            app("u4", "ALPHA", Ok(vec![dep(6, DeploymentStatus::Failed)])),
        ]),
    };
    let st = server_status(&home(), fetch);
    assert!(st.online);
    assert_eq!(st.name, "home");
    assert_eq!(st.running, 1);
    assert_eq!(st.queued, 2);
    assert_eq!(st.failed, 2);
    let names: Vec<&str> = st.apps.iter().map(|a| a.name.as_str()).collect();
    assert_eq!(names, vec!["Alpha", "ALPHA", "beta", "gone"]);
    assert_eq!(st.apps[3].error.as_deref(), Some("HTTP 404: Not found."));
    assert!(st.apps[3].deployments.is_empty());
    assert_eq!(st.apps[2].deployments.len(), 3);
}

#[test]
fn refused_config_makes_an_error_snapshot() {
    let loaded: Result<Config, ConfigError> = Err(ConfigError::MissingFile("/x".into()));
    let status = current_snapshot(&loaded, vec![]);
    assert_eq!(status.state, State::Error);
    assert_eq!(status.error.as_deref(), Some("config file not found: /x"));
    assert!(status.servers.is_none());

    let loaded: Result<Config, ConfigError> = Ok(config(vec![home()]));
    let status = current_snapshot(&loaded, vec![ServerFetch { apps: Ok(vec![]) }]);
    assert_eq!(status.state, State::Okay);
    assert_eq!(status.servers.map(|s| s.len()), Some(1));
}

#[test]
fn tokens_never_reach_the_snapshot() {
    let answers = || {
        vec![ServerFetch {
            apps: Ok(vec![app("u1", "web", Ok(vec![dep(1, DeploymentStatus::InProgress)]))]),
        }]
    };
    let mut other = home();
    other.token = "another-token".into();
    let a = snapshot(&config(vec![home()]), answers());
    let b = snapshot(&config(vec![other]), answers());
    assert_eq!(a, b);
}
