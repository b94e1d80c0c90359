use gateway_core::planner::{ChunkPlan, PlannedChunk, RetryPolicy};
use gateway_core::sanitize::{SanitizationConfig, Sanitizer};

fn build_plan() -> ChunkPlan {
    ChunkPlan {
        plan_id: "repo-gamma::src/secret.rs::0".to_string(),
        repo_id: "repo-gamma".to_string(),
        chunker_config: "size=128".to_string(),
        source_span: "src/secret.rs:1-40".to_string(),
        hash: "deadbeef".to_string(),
        retry_policy: RetryPolicy::default(),
    }
}

#[test]
fn sanitizer_redacts_secret_tokens() {
    let plan = build_plan();
    let chunk = PlannedChunk::new(
        plan,
        "let TOKEN = \"SECRET-123\";\nlet api_key = \"API_KEY=XYZ\";".to_string(),
    );
    let sanitizer = Sanitizer::new(SanitizationConfig::default());
    let sanitized = sanitizer.apply(&chunk).expect("sanitization should succeed");
    assert!(!sanitized.scrubbed_payload.contains("SECRET"));
    assert!(sanitized
        .redaction_log
        .iter()
        .any(|entry| entry.contains("SECRET[-_A-Z0-9]+ => count=1")));
    assert!(sanitized
        .redaction_log
        .iter()
        .any(|entry| entry.contains("API_KEY[=:][A-Za-z0-9_-]+ => count=1")));
    assert!(!sanitized
        .redaction_log
        .iter()
        .any(|entry| entry.contains("SECRET-123") || entry.contains("API_KEY=XYZ")));
    assert!(sanitized.redaction_log.iter().all(|entry| entry.contains("digest=")));
    assert_eq!(sanitized.plan_id, "repo-gamma::src/secret.rs::0");
}

#[test]
fn sanitizer_flags_script_with_shebang() {
    let plan = build_plan();
    let chunk = PlannedChunk::new(plan, "#!/bin/bash\necho SECRET".to_string());
    let sanitizer = Sanitizer::new(SanitizationConfig::default());
    let sanitized = sanitizer.apply(&chunk).expect("sanitization should succeed");
    assert_eq!(sanitized.validation_status, "script-reviewed");
}
