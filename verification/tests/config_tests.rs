use gateway_core::http::{HttpAdapter, HttpConfig, TransportError as HttpError};
use gateway_core::ledger::{OfflineReplayBuffer, ReplayEntry, ReplayError};
use gateway_core::router::RecordingRouter;
use gateway_core::stdio::{StdioAdapter, StdioConfig, TransportError as StdioError};
use gateway_core::token::{TokenError, TokenSigner};
use gateway_core::uds::{UdsAdapter, UdsConfig, TransportError as UdsError};

fn base_http() -> HttpConfig {
    HttpConfig {
        host: "127.0.0.1".to_string(),
        port: 8443,
        tls_required: true,
        allowed_principals: vec!["alice".to_string()],
        token_secret: "s".to_string(),
        require_csrf: false,
    }
}

#[test]
fn http_bind_requires_loopback_port_and_principals() {
    let mut non_loopback = base_http();
    non_loopback.host = "0.0.0.0".to_string();
    assert!(matches!(
        HttpAdapter::bind(non_loopback, RecordingRouter::new()),
        Err(HttpError::Configuration(_))
    ));

    let mut zero_port = base_http();
    zero_port.port = 0;
    assert!(matches!(
        HttpAdapter::bind(zero_port, RecordingRouter::new()),
        Err(HttpError::Configuration(_))
    ));

    let mut no_principals = base_http();
    no_principals.allowed_principals.clear();
    assert!(matches!(
        HttpAdapter::bind(no_principals, RecordingRouter::new()),
        Err(HttpError::Configuration(_))
    ));

    assert!(HttpAdapter::bind(base_http(), RecordingRouter::new()).is_ok());

    let mut localhost = base_http();
    localhost.host = "localhost".to_string();
    assert!(HttpAdapter::bind(localhost, RecordingRouter::new()).is_ok());
}

#[test]
fn stdio_bind_requires_frame_room_and_principals() {
    let short = StdioConfig {
        max_frame_length: 63,
        allowed_principals: vec!["alice".to_string()],
        token_secret: "s".to_string(),
    };
    assert!(matches!(
        StdioAdapter::bind(short, RecordingRouter::new()),
        Err(StdioError::Configuration(_))
    ));

    let empty = StdioConfig {
        max_frame_length: 1024,
        allowed_principals: vec![],
        token_secret: "s".to_string(),
    };
    assert!(matches!(
        StdioAdapter::bind(empty, RecordingRouter::new()),
        Err(StdioError::Configuration(_))
    ));
}

#[test]
fn uds_bind_requires_absolute_path_and_allow_lists() {
    let relative = UdsConfig {
        socket_path: "runtime.sock".to_string(),
        allowed_principals: vec!["alice".to_string()],
        allowed_uids: vec![1000],
        token_secret: "s".to_string(),
    };
    assert!(matches!(
        UdsAdapter::bind(relative, RecordingRouter::new()),
        Err(UdsError::Configuration(_))
    ));

    let no_uids = UdsConfig {
        socket_path: "/run/runtime.sock".to_string(),
        allowed_principals: vec!["alice".to_string()],
        allowed_uids: vec![],
        token_secret: "s".to_string(),
    };
    assert!(matches!(
        UdsAdapter::bind(no_uids, RecordingRouter::new()),
        Err(UdsError::Configuration(_))
    ));
}

#[test]
fn token_errors_name_their_cause() {
    let signer = TokenSigner::new("s".to_string(), false);
    assert_eq!(signer.verify_at("***!", 0).unwrap_err(), TokenError::Encoding);
    // valid base64 of bytes that are not an envelope
    assert_eq!(signer.verify_at("aGVsbG8", 0).unwrap_err(), TokenError::Payload);
}

#[test]
fn zero_capacity_buffer_is_misconfigured() {
    let mut buffer = OfflineReplayBuffer::new(0, 1_000);
    let entry = ReplayEntry {
        sequence: 1,
        repo_id: "repo".to_string(),
        delayed_ms: 0,
        payload_checksum_before: "b".to_string(),
        payload_checksum_after: "a".to_string(),
        status: "buffered".to_string(),
    };
    assert!(matches!(buffer.push(entry), Err(ReplayError::Misconfigured { .. })));
}
