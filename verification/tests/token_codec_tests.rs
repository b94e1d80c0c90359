use gateway_core::json::JsonValue;
use gateway_core::jsonparse::{parse_json_bytes, parse_json_chars};
use gateway_core::stdio::{FramingCodec, SessionToken, StdioFrame};
use gateway_core::token::{TokenError, TokenSigner};

fn obj(fields: Vec<(&str, JsonValue)>) -> JsonValue {
    JsonValue::Obj(fields.into_iter().map(|(k, v)| (k.to_string(), v)).collect())
}

#[test]
fn issued_token_verifies_until_expiry() {
    let signer = TokenSigner::new("top-SECRET-REDACTED".to_string(), true);
    let issued = signer.issue_at(
        &"alice".to_string(),
        &vec!["ingest".to_string(), "search".to_string()],
        1_000,
        3_600,
    );
    assert_eq!(issued.expires_at, 4_600);

    let env = signer
        .verify_at(issued.token.as_str(), 4_599)
        .expect("token should verify before expiry");
    assert_eq!(env.principal, "alice");
    assert_eq!(env.capabilities, vec!["ingest".to_string(), "search".to_string()]);
    assert_eq!(env.expires_at, 4_600);
    assert_eq!(env.csrf_nonce, issued.csrf_nonce);
    assert_eq!(env.token_id, issued.token_id);

    let err = signer
        .verify_at(issued.token.as_str(), 4_600)
        .expect_err("token must expire at its deadline");
    assert_eq!(err, TokenError::Expired);
}

#[test]
fn any_byte_mutation_rejects_the_token() {
    let signer = TokenSigner::new("top-SECRET-REDACTED".to_string(), false);
    let issued = signer.issue_at(&"bob".to_string(), &vec!["stdio".to_string()], 50, 100);

    let token = issued.token;
    for i in 0..token.len() {
        let mut bytes = token.clone().into_bytes();
        bytes[i] = if bytes[i] == b'A' { b'B' } else { b'A' };
        if let Ok(mutated) = String::from_utf8(bytes) {
            if mutated == token {
                continue;
            }
            assert!(
                signer.verify_at(mutated.as_str(), 60).is_err(),
                "mutated token at byte {i} must be rejected"
            );
        }
    }
}

#[test]
fn wrong_secret_rejects_the_token() {
    let signer = TokenSigner::new("secret-one".to_string(), false);
    let other = TokenSigner::new("secret-two".to_string(), false);
    let issued = signer.issue_at(&"carol".to_string(), &vec![], 0, 60);
    assert!(signer.verify_at(issued.token.as_str(), 30).is_ok());
    assert!(other.verify_at(issued.token.as_str(), 30).is_err());
}

#[test]
fn frame_round_trip_returns_payload_and_token() {
    let signer = TokenSigner::new("frame-SECRET-REDACTED".to_string(), false);
    let issued = signer.issue_at(&"alice".to_string(), &vec!["stdio".to_string()], 10, 600);
    let codec = FramingCodec::new(4096, signer);

    let payload = obj(vec![
        ("command", JsonValue::Str("status".to_string())),
        ("payload", obj(vec![("depth", JsonValue::Int(3))])),
    ]);
    let token = SessionToken { token: issued.token.clone() };
    let frame = codec.encode_at(&payload, &token, 20).expect("encode should work");

    let (decoded, raw_token) = codec.decode_at(&frame, 30).expect("decode should work");
    assert_eq!(raw_token, issued.token);
    match decoded.get_field("command") {
        Some(JsonValue::Str(name)) => assert_eq!(name, "status"),
        _ => panic!("command field lost in the round trip"),
    }
}

#[test]
fn flipping_any_body_byte_fails_framing() {
    let signer = TokenSigner::new("frame-SECRET-REDACTED".to_string(), false);
    let issued = signer.issue_at(&"alice".to_string(), &vec!["stdio".to_string()], 10, 600);
    let codec = FramingCodec::new(4096, signer);
    let payload = obj(vec![("command", JsonValue::Str("status".to_string()))]);
    let token = SessionToken { token: issued.token };
    let frame = codec.encode_at(&payload, &token, 20).expect("encode should work");

    for i in 6..frame.payload.len() {
        let mut bytes = frame.payload.clone();
        bytes[i] ^= 0x01;
        let tampered = StdioFrame { payload: bytes };
        assert!(
            codec.decode_at(&tampered, 30).is_err(),
            "flipped byte {i} must not decode"
        );
    }
}

#[test]
fn canonical_json_round_trips() {
    let value = obj(vec![
        ("name", JsonValue::Str("latency \"probe\"\n".to_string())),
        ("count", JsonValue::Int(-42)),
        ("enabled", JsonValue::Bool(true)),
        ("missing", JsonValue::Null),
        (
            "tags",
            JsonValue::Arr(vec![
                JsonValue::Str("a".to_string()),
                JsonValue::Int(0),
                JsonValue::Arr(vec![]),
                JsonValue::Obj(vec![]),
            ]),
        ),
    ]);
    let text = gateway_core::json::to_json_string(&value);
    let bytes: Vec<u8> = text.clone().into_bytes();
    let parsed = parse_json_bytes(&bytes).expect("canonical text parses");
    let reprinted = gateway_core::json::to_json_string(&parsed);
    assert_eq!(text, reprinted);

    let chars: Vec<char> = text.chars().collect();
    let parsed_again = parse_json_chars(&chars).expect("canonical chars parse");
    assert_eq!(gateway_core::json::to_json_string(&parsed_again), text);
}

#[test]
fn canonical_json_renders_expected_text() {
    let value = obj(vec![
        ("command", JsonValue::Str("ingest".to_string())),
        ("payload", obj(vec![("doc", JsonValue::Int(1))])),
    ]);
    assert_eq!(
        gateway_core::json::to_json_string(&value),
        "{\"command\":\"ingest\",\"payload\":{\"doc\":1}}"
    );
}
