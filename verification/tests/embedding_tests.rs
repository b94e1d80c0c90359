use gateway_core::embed::{EmbeddingConfig, EmbeddingGenerator};
use gateway_core::planner::{ChunkPlan, PlannedChunk, RetryPolicy};
use gateway_core::sanitize::{SanitizationConfig, Sanitizer};

fn sanitized_chunk(payload: &str) -> gateway_core::sanitize::SanitizedChunk {
    let plan = ChunkPlan {
        plan_id: "repo-epsilon::src/lib.rs::0".to_string(),
        repo_id: "repo-epsilon".to_string(),
        chunker_config: "size=256".to_string(),
        source_span: "src/lib.rs:1-80".to_string(),
        hash: "ff00ff".to_string(),
        retry_policy: RetryPolicy::default(),
    };
    let planned = PlannedChunk::new(plan, payload.to_string());
    let sanitizer = Sanitizer::new(SanitizationConfig::default());
    sanitizer.apply(&planned).expect("sanitization should succeed")
}

/// The unit-interval floats consumers derive from the digest words.
fn normalized(vector: &[u16]) -> Vec<f32> {
    vector.iter().map(|w| f32::from(*w) / f32::from(u16::MAX)).collect()
}

#[test]
fn embedding_is_deterministic_for_identical_chunks() {
    let config = EmbeddingConfig::new("encoder-a".to_string(), 4);
    let generator = EmbeddingGenerator::new(config);
    let chunk = sanitized_chunk("fn add(a: i32, b: i32) -> i32 { a + b }");
    let chunk2 = sanitized_chunk("fn add(a: i32, b: i32) -> i32 { a + b }");
    let batch1 = generator.encode(&vec![chunk]).expect("encoding should succeed");
    let batch2 = generator.encode(&vec![chunk2]).expect("encoding should succeed");
    assert_eq!(batch1.vectors, batch2.vectors);
    assert_eq!(normalized(&batch1.vectors[0]), normalized(&batch2.vectors[0]));
    assert_eq!(batch1.encoder_id, "encoder-a");
    for value in normalized(&batch1.vectors[0]) {
        assert!((0.0..=1.0).contains(&value));
    }
}

#[test]
fn embedding_batch_contains_metadata() {
    let generator = EmbeddingGenerator::new(EmbeddingConfig::new("encoder-b".to_string(), 8));
    let chunks = vec![
        sanitized_chunk("first"),
        sanitized_chunk("second"),
        sanitized_chunk("third"),
    ];
    let batch = generator.encode(&chunks).expect("encoding should succeed");
    assert_eq!(batch.vectors.len(), 3);
    assert!(batch.compression_fingerprint.starts_with("comp:"));
}

#[test]
fn embedding_rejects_zero_dimensions() {
    let generator = EmbeddingGenerator::new(EmbeddingConfig::new("encoder-c".to_string(), 0));
    assert!(generator.encode(&vec![sanitized_chunk("data")]).is_err());
}
