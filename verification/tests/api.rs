use std::sync::Arc;

use coolify_qs::api::{
    applications_path, decode_body, deployments_path, listed_applications, parse_deployments,
    request_url, response_body, ApiError, Application, ClientCache, Deployment,
    DeploymentStatus, DeploymentsPayload, MAX_RESPONSE_BYTES,
};

const DEPLOYMENTS_ENVELOPE: &str = r#"{
    "count": 2,
    "deployments": [
        {
            "id": 123,
            "status": "in_progress",
            "commit": "abcdef1234567890",
            "commit_message": "ship the thing",
            "created_at": "2026-08-21T10:00:00.000Z",
            "deployment_url": "https://coolify.example.com/deployment/xyz"
        },
        {
            "id": 122,
            "status": "failed",
            "commit": "deadbeef",
            "commit_message": null,
            "created_at": "2026-08-21T09:00:00.000Z"
        }
    ]
}"#;

const DEPLOYMENTS_BARE_ARRAY: &str = r#"[
    {
        "id": 1,
        "status": "queued",
        "commit": "abc",
        "commit_message": "q",
        "created_at": "2026-08-21T08:00:00.000Z"
    }
]"#;

fn text_field(value: &serde_json::Value, key: &str) -> Result<Option<String>, String> {
    match value.get(key) {
        None | Some(serde_json::Value::Null) => Ok(None),
        Some(serde_json::Value::String(s)) => Ok(Some(s.clone())),
        Some(other) => Err(format!("invalid type for {key}: {other}")),
    }
}

fn deployment_of(value: &serde_json::Value) -> Result<Deployment, String> {
    let id = match value.get("id") {
        None | Some(serde_json::Value::Null) => None,
        Some(v) => Some(v.as_u64().ok_or_else(|| "invalid id".to_string())?),
    };
    Ok(Deployment {
        id,
        status: text_field(value, "status")?.map(|s| DeploymentStatus::from_wire(&s)),
        commit: text_field(value, "commit")?,
        commit_message: text_field(value, "commit_message")?,
        created_at: text_field(value, "created_at")?,
        deployment_url: text_field(value, "deployment_url")?,
    })
}

fn list_of(value: &serde_json::Value) -> Result<Vec<Deployment>, String> {
    match value {
        serde_json::Value::Array(items) => items.iter().map(deployment_of).collect(),
        other => Err(format!("invalid type: {other}, expected a sequence")),
    }
}

fn payload(text: &str) -> DeploymentsPayload {
    let value: serde_json::Value = serde_json::from_str(text).unwrap();
    match &value {
        serde_json::Value::Object(map) => {
            DeploymentsPayload::Envelope(map.get("deployments").map(list_of))
        }
        other => DeploymentsPayload::Direct(list_of(other)),
    }
}

fn deployments(text: &str) -> Vec<Deployment> {
    parse_deployments(payload(text)).unwrap()
}

#[test]
fn parses_real_envelope() {
    let list = deployments(DEPLOYMENTS_ENVELOPE);
    assert_eq!(list.len(), 2);
    assert_eq!(list[0].status, Some(DeploymentStatus::InProgress));
    assert_eq!(list[0].commit.as_deref(), Some("abcdef1234567890"));
    assert_eq!(list[0].commit_message.as_deref(), Some("ship the thing"));
    assert_eq!(
        list[0].deployment_url.as_deref(),
        Some("https://coolify.example.com/deployment/xyz")
    );
    assert_eq!(list[1].status, Some(DeploymentStatus::Failed));
    assert_eq!(list[1].commit_message, None);
}

#[test]
fn parses_docs_bare_array() {
    let list = deployments(DEPLOYMENTS_BARE_ARRAY);
    assert_eq!(list.len(), 1);
    assert_eq!(list[0].status, Some(DeploymentStatus::Queued));
}

#[test]
fn tolerates_unknown_status() {
    let list = parse_deployments(payload(r#"[{ "id": 9, "status": "weird_future_state" }]"#))
        .unwrap();
    assert_eq!(list[0].status, Some(DeploymentStatus::Other));
    assert_eq!(DeploymentStatus::Other.as_str(), "other");
}

#[test]
fn rejects_garbage() {
    assert!(matches!(
        parse_deployments(payload(r#"{"what": "is this"}"#)),
        Err(ApiError::Decode(_))
    ));
}

#[test]
fn missing_deployments_member_is_reported() {
    let err = parse_deployments(DeploymentsPayload::Envelope(None)).unwrap_err();
    assert_eq!(
        err,
        ApiError::Decode("list deployments: response is missing the deployments array".into())
    );
    let err = parse_deployments(DeploymentsPayload::Direct(Err("invalid type: null".into())))
        .unwrap_err();
    assert_eq!(err, ApiError::Decode("list deployments: invalid type: null".into()));
}

#[test]
fn decode_body_caps_response_size() {
    assert_eq!(decode_body("u", b"ok").unwrap(), "ok");
    let oversized = vec![0u8; (MAX_RESPONSE_BYTES + 1) as usize];
    let err = decode_body("u", &oversized).unwrap_err();
    assert!(matches!(err, ApiError::Decode(_)));
    assert!(err.to_string().contains("exceeds"));
    let at_limit = vec![0u8; MAX_RESPONSE_BYTES as usize];
    assert!(decode_body("u", &at_limit).is_ok());
}

#[test]
fn decode_body_message_names_url_and_cap() {
    let oversized = vec![b'x'; (MAX_RESPONSE_BYTES + 1) as usize];
    let err = decode_body("https://h/api/v1/applications", &oversized).unwrap_err();
    assert_eq!(
        err.to_string(),
        "unexpected response: https://h/api/v1/applications: response body exceeds 5242880 bytes"
    );
}

#[test]
fn decode_body_replaces_invalid_utf8() {
    let body = decode_body("u", &[b'a', 0xff, b'b']).unwrap();
    assert_eq!(body, "a\u{FFFD}b");
}

#[test]
fn status_strings_match_coolify() {
    assert_eq!(DeploymentStatus::Queued.as_str(), "queued");
    assert_eq!(DeploymentStatus::InProgress.as_str(), "in_progress");
    assert_eq!(DeploymentStatus::Finished.as_str(), "finished");
    assert_eq!(DeploymentStatus::Failed.as_str(), "failed");
    assert_eq!(DeploymentStatus::Cancelled.as_str(), "cancelled");
    assert_eq!(DeploymentStatus::CancelledByUser.as_str(), "cancelled");
}

#[test]
fn parses_cancelled_by_user_status() {
    let list =
        parse_deployments(payload(r#"[{ "id": 1, "status": "cancelled-by-user" }]"#)).unwrap();
    assert_eq!(list[0].status, Some(DeploymentStatus::CancelledByUser));
}

#[test]
fn wire_names_map_to_statuses() {
    assert_eq!(DeploymentStatus::from_wire("queued"), DeploymentStatus::Queued);
    assert_eq!(DeploymentStatus::from_wire("in_progress"), DeploymentStatus::InProgress);
    assert_eq!(DeploymentStatus::from_wire("finished"), DeploymentStatus::Finished);
    assert_eq!(DeploymentStatus::from_wire("failed"), DeploymentStatus::Failed);
    assert_eq!(DeploymentStatus::from_wire("cancelled"), DeploymentStatus::Cancelled);
    assert_eq!(
        DeploymentStatus::from_wire("cancelled_by_user"),
        DeploymentStatus::CancelledByUser
    );
    assert_eq!(DeploymentStatus::from_wire("Finished"), DeploymentStatus::Other);
    assert_eq!(DeploymentStatus::from_wire(""), DeploymentStatus::Other);
}

#[test]
fn client_cache_reuses_and_drops_clients() {
    let mut cache: ClientCache<String> = ClientCache::new();
    let first = cache.get("https://coolify.example.com", "tok", || "client".to_string());
    let second = cache.get("https://coolify.example.com", "tok", || "client".to_string());
    assert!(Arc::ptr_eq(&first, &second));

    let other = cache.get("https://coolify.example.com", "other", || "client".to_string());
    assert!(!Arc::ptr_eq(&first, &other));

    // Clients whose credentials left the config are dropped, and a
    // later re-add rebuilds them.
    cache.retain(&[("https://coolify.example.com", "other")]);
    let rebuilt = cache.get("https://coolify.example.com", "tok", || "client".to_string());
    assert!(!Arc::ptr_eq(&first, &rebuilt));
}

#[test]
fn client_cache_builds_only_for_new_pairs() {
    let mut cache: ClientCache<u32> = ClientCache::default();
    let mut built: u32 = 0;
    let a = cache.get("u", "t", || {
        built += 1;
        7
    });
    let b = cache.get("u", "t", || {
        built += 1;
        8
    });
    assert_eq!(built, 1);
    assert_eq!(*a, 7);
    assert_eq!(*b, 7);
    cache.retain(&[("u", "t")]);
    let c = cache.get("u", "t", || 9);
    assert!(Arc::ptr_eq(&a, &c));
}

#[test]
fn api_error_texts() {
    assert_eq!(ApiError::Network("down".into()).to_string(), "network error: down");
    assert_eq!(
        ApiError::Http { status: 404, message: "Not found.".into() }.to_string(),
        "HTTP 404: Not found."
    );
    assert_eq!(ApiError::Decode("x".into()).to_string(), "unexpected response: x");
}

#[test]
fn request_paths() {
    assert_eq!(request_url("https://h", "/applications"), "https://h/api/v1/applications");
    assert_eq!(applications_path(), "/applications");
    assert_eq!(
        deployments_path("abc", 5),
        "/deployments/applications/abc?skip=0&take=5"
    );
    assert_eq!(
        deployments_path("u1", 100),
        "/deployments/applications/u1?skip=0&take=100"
    );
}

#[test]
fn response_body_reports_http_errors() {
    assert_eq!(response_body("u", 200, b"[]").unwrap(), "[]");
    let err = response_body("u", 401, br#"{"message": "Unauthenticated."}"#).unwrap_err();
    assert_eq!(err, ApiError::Http { status: 401, message: "Unauthenticated.".into() });
    let err = response_body("u", 404, b"<html>nope</html>").unwrap_err();
    assert_eq!(err, ApiError::Http { status: 404, message: "HTTP 404 Not Found".into() });
    let err = response_body("u", 599, b"").unwrap_err();
    assert_eq!(
        err,
        ApiError::Http { status: 599, message: "HTTP 599 <unknown status code>".into() }
    );
    let big = vec![b' '; (MAX_RESPONSE_BYTES + 1) as usize];
    assert!(matches!(response_body("u", 500, &big), Err(ApiError::Decode(_))));
}

#[test]
fn listing_skips_apps_without_uuid() {
    let apps = vec![
        Application { uuid: Some("a".into()), name: Some("one".into()), fqdn: None },
        Application { uuid: None, name: Some("two".into()), fqdn: None },
        Application { uuid: Some("".into()), name: None, fqdn: None },
        Application { uuid: Some("c".into()), name: None, fqdn: None },
    ];
    let kept = listed_applications(apps);
    assert_eq!(kept.len(), 2);
    assert_eq!(kept[0].uuid(), "a");
    assert_eq!(kept[0].name(), "one");
    assert_eq!(kept[1].uuid(), "c");
    assert_eq!(kept[1].name(), "");
}
