use gateway_core::http::{HttpAdapter, HttpConfig, HttpRequest, TransportError as HttpError};
use gateway_core::json::JsonValue;
use gateway_core::router::{RecordingRouter, RouterError, RouterResponse};
use gateway_core::stdio::{
    SessionToken as StdioToken, StdioAdapter, StdioConfig, StdioFrame,
    TransportError as StdioError,
};
use gateway_core::uds::{
    PeerCredentials, TransportError as UdsError, UdsAdapter, UdsConfig, UdsRequest,
};

fn json_eq(a: &JsonValue, b: &JsonValue) -> bool {
    match (a, b) {
        (JsonValue::Null, JsonValue::Null) => true,
        (JsonValue::Bool(x), JsonValue::Bool(y)) => x == y,
        (JsonValue::Int(x), JsonValue::Int(y)) => x == y,
        (JsonValue::Str(x), JsonValue::Str(y)) => x == y,
        (JsonValue::Arr(xs), JsonValue::Arr(ys)) => {
            xs.len() == ys.len() && xs.iter().zip(ys.iter()).all(|(x, y)| json_eq(x, y))
        }
        (JsonValue::Obj(xs), JsonValue::Obj(ys)) => {
            xs.len() == ys.len()
                && xs
                    .iter()
                    .zip(ys.iter())
                    .all(|(x, y)| x.0 == y.0 && json_eq(&x.1, &y.1))
        }
        _ => false,
    }
}

fn obj(fields: Vec<(&str, JsonValue)>) -> JsonValue {
    JsonValue::Obj(fields.into_iter().map(|(k, v)| (k.to_string(), v)).collect())
}

fn get<'a>(v: &'a JsonValue, key: &str) -> &'a JsonValue {
    v.get_field(key).expect("field present")
}

fn http_config() -> HttpConfig {
    HttpConfig {
        host: "127.0.0.1".to_string(),
        port: 8443,
        tls_required: true,
        allowed_principals: vec!["alice".to_string()],
        token_secret: "super-SECRET-REDACTED".to_string(),
        require_csrf: true,
    }
}

fn stdio_config() -> StdioConfig {
    StdioConfig {
        max_frame_length: 2048,
        allowed_principals: vec!["alice".to_string()],
        token_secret: "stdio-SECRET-REDACTED".to_string(),
    }
}

fn uds_config() -> UdsConfig {
    UdsConfig {
        socket_path: "/tmp/runtime.sock".to_string(),
        allowed_principals: vec!["alice".to_string()],
        allowed_uids: vec![1000],
        token_secret: "uds-SECRET-REDACTED".to_string(),
    }
}

fn peer() -> PeerCredentials {
    PeerCredentials { uid: 1000, pid: 42, process_name: "editor".to_string() }
}

#[test]
fn dispatches_authorized_request() {
    let mut router = RecordingRouter::new();
    router.script_response(Ok(RouterResponse::ok(obj(vec![("ok", JsonValue::Bool(true))]))));

    let mut adapter = HttpAdapter::bind(http_config(), router).unwrap();
    let token = adapter
        .issue_session_token("alice", &vec!["ingest".to_string()])
        .expect("token issuance should work");

    let request = HttpRequest::new(
        "POST".to_string(),
        "/commands/ingest".to_string(),
        obj(vec![
            ("command", JsonValue::Str("ingest".to_string())),
            ("payload", obj(vec![("doc", JsonValue::Int(1))])),
        ]),
    )
    .with_header("Authorization".to_string(), format!("Bearer {}", token.token))
    .with_header("X-Csrf-Token".to_string(), token.csrf_nonce.clone());

    let response = adapter.dispatch(&request).expect("dispatch should succeed");
    assert_eq!(response.status, 200);
    assert!(json_eq(&response.body, &obj(vec![("ok", JsonValue::Bool(true))])));

    let calls = adapter.router.calls();
    assert_eq!(calls.len(), 1);
    assert_eq!(calls[0].context.principal, "alice");
    assert_eq!(calls[0].command.name, "ingest");
}

#[test]
fn rejects_missing_csrf() {
    let router = RecordingRouter::new();
    let mut adapter = HttpAdapter::bind(http_config(), router).unwrap();
    let token = adapter
        .issue_session_token("alice", &vec!["ingest".to_string()])
        .expect("token issuance should work");

    let request = HttpRequest::new(
        "POST".to_string(),
        "/commands/ingest".to_string(),
        obj(vec![("command", JsonValue::Str("ingest".to_string()))]),
    )
    .with_header("Authorization".to_string(), format!("Bearer {}", token.token));

    let err = adapter.dispatch(&request).expect_err("csrf required");
    assert!(matches!(err, HttpError::Csrf(_)));
    assert_eq!(adapter.router.calls().len(), 0, "no router call may be recorded");
}

#[test]
fn rejects_tampered_token() {
    let router = RecordingRouter::new();
    let mut adapter = HttpAdapter::bind(http_config(), router).unwrap();
    let token = adapter
        .issue_session_token("alice", &vec!["ingest".to_string()])
        .expect("token issuance should work");

    let request = HttpRequest::new(
        "POST".to_string(),
        "/commands/ingest".to_string(),
        obj(vec![("command", JsonValue::Str("ingest".to_string()))]),
    )
    .with_header("Authorization".to_string(), format!("Bearer {}tampered", token.token))
    .with_header("X-Csrf-Token".to_string(), token.csrf_nonce);

    let err = adapter.dispatch(&request).expect_err("tampered token must fail");
    assert!(matches!(err, HttpError::Unauthorized(_)));
}

#[test]
fn round_trips_frame() {
    let mut router = RecordingRouter::new();
    router.script_response(Ok(RouterResponse::ok(obj(vec![("ok", JsonValue::Bool(true))]))));

    let mut adapter = StdioAdapter::bind(stdio_config(), router).unwrap();
    let token = adapter
        .issue_session_token("alice")
        .expect("token issuance should succeed");
    let frame = adapter
        .codec()
        .encode(&obj(vec![("command", JsonValue::Str("status".to_string()))]), &token)
        .expect("encode should work");

    let response = adapter.dispatch_frame(&frame).expect("dispatch should succeed");
    let (body, _) = adapter.codec().decode(&response).expect("decode response");
    assert!(json_eq(get(&body, "status"), &JsonValue::Str("ok".to_string())));
}

#[test]
fn rejects_bad_checksum() {
    let router = RecordingRouter::new();
    let mut adapter = StdioAdapter::bind(stdio_config(), router).unwrap();
    let frame = StdioFrame { payload: vec![0, 1, 2, 3] };
    let err = adapter
        .dispatch_frame(&frame)
        .expect_err("checksum must be validated");
    assert!(matches!(err, StdioError::Framing(_)));
}

#[test]
fn rejects_unknown_principal() {
    let router = RecordingRouter::new();
    let mut adapter = StdioAdapter::bind(stdio_config(), router).unwrap();
    let forged = StdioToken { token: "forged".to_string() };
    let frame = adapter
        .codec()
        .encode(&obj(vec![("command", JsonValue::Str("status".to_string()))]), &forged)
        .expect_err("forged tokens should fail");
    assert!(matches!(frame, StdioError::Unauthorized(_)));
}

#[test]
fn rejects_revoked_principal_on_dispatch() {
    let router = RecordingRouter::new();
    let mut adapter = StdioAdapter::bind(stdio_config(), router).unwrap();
    let token = adapter
        .issue_session_token("alice")
        .expect("token issuance should succeed");

    adapter.config.allowed_principals.clear();

    let frame = adapter
        .codec()
        .encode(&obj(vec![("command", JsonValue::Str("status".to_string()))]), &token)
        .expect("encode should succeed");

    let err = adapter
        .dispatch_frame(&frame)
        .expect_err("revoked principal should be rejected");
    assert!(matches!(err, StdioError::Unauthorized(msg) if msg.contains("alice")));
}

#[test]
fn treats_non_200_success_status_as_ok() {
    let mut router = RecordingRouter::new();
    router.script_response(Ok(RouterResponse {
        status_code: 204,
        payload: obj(vec![("ok", JsonValue::Bool(true))]),
        diagnostics: Vec::new(),
    }));

    let mut adapter = StdioAdapter::bind(stdio_config(), router).unwrap();
    let token = adapter
        .issue_session_token("alice")
        .expect("token issuance should succeed");
    let frame = adapter
        .codec()
        .encode(&obj(vec![("command", JsonValue::Str("status".to_string()))]), &token)
        .expect("encode should work");

    let response = adapter.dispatch_frame(&frame).expect("dispatch should succeed");
    let (body, _) = adapter.codec().decode(&response).expect("decode response");
    assert!(json_eq(get(&body, "status"), &JsonValue::Str("ok".to_string())));
}

#[test]
fn dispatches_after_negotiation() {
    let mut router = RecordingRouter::new();
    router.script_response(Ok(RouterResponse::ok(obj(vec![(
        "status",
        JsonValue::Str("ok".to_string()),
    )]))));

    let mut adapter = UdsAdapter::bind(uds_config(), router).unwrap();
    adapter.negotiate_peer(&peer()).expect("peer negotiation succeeds");
    let token = adapter
        .issue_session_token("alice", &vec!["search".to_string()])
        .expect("token issuance works");
    let request = UdsRequest::new(
        peer(),
        token.token.clone(),
        obj(vec![
            ("command", JsonValue::Str("search".to_string())),
            ("payload", obj(vec![("term", JsonValue::Str("docs".to_string()))])),
        ]),
    );
    let response = adapter.dispatch(&request).expect("dispatch succeeds");
    assert!(json_eq(get(&response, "status"), &JsonValue::Str("ok".to_string())));
    let calls = adapter.router.calls();
    assert_eq!(calls.len(), 1);
    assert_eq!(calls[0].context.principal, "alice");
}

#[test]
fn rejects_unapproved_uid() {
    let router = RecordingRouter::new();
    let mut adapter = UdsAdapter::bind(uds_config(), router).unwrap();
    let mut creds = peer();
    creds.uid = 99;
    let err = adapter.negotiate_peer(&creds).expect_err("uid must be validated");
    assert!(matches!(err, UdsError::Unauthorized(_)));
}

#[test]
fn surfaces_router_errors() {
    let mut router = RecordingRouter::new();
    router.script_response(Err(RouterError::InvalidRequest { detail: "bad payload".to_string() }));

    let mut adapter = UdsAdapter::bind(uds_config(), router).unwrap();
    adapter.negotiate_peer(&peer()).expect("peer negotiation succeeds");
    let token = adapter
        .issue_session_token("alice", &vec!["search".to_string()])
        .expect("token issuance works");
    let request = UdsRequest::new(
        peer(),
        token.token.clone(),
        obj(vec![
            ("command", JsonValue::Str("search".to_string())),
            ("payload", obj(vec![])),
        ]),
    );
    let err = adapter.dispatch(&request).expect_err("router error surfaces");
    assert!(matches!(err, UdsError::Router(_)));
}

#[test]
fn negotiate_peer_concurrent_connections_same_uid() {
    let router = RecordingRouter::new();
    let mut adapter = UdsAdapter::bind(uds_config(), router).unwrap();

    let peer_one = peer();
    adapter.negotiate_peer(&peer_one).expect("first negotiation succeeds");

    let peer_two = PeerCredentials {
        uid: 1000,
        pid: 4242,
        process_name: "another-client".to_string(),
    };
    adapter
        .negotiate_peer(&peer_two)
        .expect("second negotiation for same uid succeeds");

    assert!(adapter.negotiated_uids.contains(&1000), "uid 1000 should be tracked");
}

#[test]
fn dispatch_rejects_unnegotiated_peer() {
    let mut router = RecordingRouter::new();
    router.script_response(Ok(RouterResponse::ok(obj(vec![(
        "status",
        JsonValue::Str("ok".to_string()),
    )]))));

    let mut adapter = UdsAdapter::bind(uds_config(), router).unwrap();

    let token = adapter
        .issue_session_token("alice", &vec!["search".to_string()])
        .expect("token issuance succeeds");

    let unnegotiated_peer = peer();
    let request = UdsRequest::new(
        unnegotiated_peer.duplicate(),
        token.token.clone(),
        obj(vec![
            ("command", JsonValue::Str("search".to_string())),
            ("payload", obj(vec![("term", JsonValue::Str("docs".to_string()))])),
        ]),
    );

    let err = adapter
        .dispatch(&request)
        .expect_err("unnegotiated peer must be rejected");
    match &err {
        UdsError::Unauthorized(msg) => {
            assert!(msg.contains(&unnegotiated_peer.uid.to_string()), "error should mention uid");
        }
        _ => panic!("expected unauthorized error"),
    }
}

#[test]
fn http_end_to_end_and_csrf_failure() {
    let mut router = RecordingRouter::new();
    router.script_response(Ok(RouterResponse::ok(obj(vec![("ok", JsonValue::Bool(true))]))));

    let config = HttpConfig {
        host: "127.0.0.1".to_string(),
        port: 9443,
        tls_required: true,
        allowed_principals: vec!["alice".to_string()],
        token_secret: "integration-http".to_string(),
        require_csrf: true,
    };
    let mut adapter = HttpAdapter::bind(config, router).unwrap();
    let token = adapter
        .issue_session_token("alice", &vec!["ingest".to_string()])
        .expect("token issuance works");

    let request = HttpRequest::new(
        "POST".to_string(),
        "/commands/ingest".to_string(),
        obj(vec![
            ("command", JsonValue::Str("ingest".to_string())),
            ("payload", obj(vec![("id", JsonValue::Int(1))])),
        ]),
    )
    .with_header("Authorization".to_string(), format!("Bearer {}", token.token))
    .with_header("X-Csrf-Token".to_string(), token.csrf_nonce.clone());

    let response = adapter.dispatch(&request).expect("dispatch ok");
    assert_eq!(response.status, 200);

    let calls = adapter.router.calls();
    assert_eq!(calls.len(), 1);
    assert_eq!(calls[0].command.name, "ingest");

    let bad_request = HttpRequest::new(
        "POST".to_string(),
        "/commands/ingest".to_string(),
        obj(vec![("command", JsonValue::Str("ingest".to_string()))]),
    )
    .with_header("Authorization".to_string(), format!("Bearer {}", token.token));

    let err = adapter.dispatch(&bad_request).expect_err("missing csrf");
    assert!(matches!(err, HttpError::Csrf(_)));
}

#[test]
fn stdio_and_uds_authentication_failures_surface() {
    let mut stdio_router = RecordingRouter::new();
    stdio_router.script_response(Err(RouterError::Unauthorized { detail: "denied".to_string() }));
    let mut uds_router = RecordingRouter::new();
    uds_router.script_response(Err(RouterError::Unauthorized { detail: "denied".to_string() }));

    let stdio_cfg = StdioConfig {
        max_frame_length: 4096,
        allowed_principals: vec!["alice".to_string()],
        token_secret: "integration-stdio".to_string(),
    };
    let uds_cfg = UdsConfig {
        socket_path: "/tmp/runtime-integration.sock".to_string(),
        allowed_principals: vec!["alice".to_string()],
        allowed_uids: vec![1000],
        token_secret: "integration-uds".to_string(),
    };

    let mut stdio = StdioAdapter::bind(stdio_cfg, stdio_router).unwrap();
    let mut uds = UdsAdapter::bind(uds_cfg, uds_router).unwrap();

    let stdio_token = stdio.issue_session_token("alice").expect("token issuance works");
    let frame = stdio
        .codec()
        .encode(
            &obj(vec![
                ("command", JsonValue::Str("ingest".to_string())),
                ("payload", obj(vec![])),
            ]),
            &stdio_token,
        )
        .expect("frame encode");

    let err = stdio
        .dispatch_frame(&frame)
        .expect_err("router unauthorized should bubble");
    assert!(matches!(err, StdioError::Router(_)));
    assert_eq!(err.router_status_code(), Some(401));

    let test_peer = PeerCredentials { uid: 1000, pid: 123, process_name: "integration-test".to_string() };
    uds.negotiate_peer(&test_peer).expect("peer negotiation should succeed");
    let uds_token = uds
        .issue_session_token("alice", &vec!["search".to_string()])
        .expect("uds token");
    let request = UdsRequest::new(
        test_peer.duplicate(),
        uds_token.token.clone(),
        obj(vec![
            ("command", JsonValue::Str("search".to_string())),
            ("payload", obj(vec![])),
        ]),
    );
    let err = uds.dispatch(&request).expect_err("router error surfaces");
    assert!(matches!(err, UdsError::Router(_)));
    assert_eq!(err.router_status_code(), Some(401));

    let mut bad_peer = test_peer.duplicate();
    bad_peer.uid = 77;
    let auth_err = uds.negotiate_peer(&bad_peer).expect_err("bad uid rejected");
    assert!(matches!(auth_err, UdsError::Unauthorized(_)));
}
