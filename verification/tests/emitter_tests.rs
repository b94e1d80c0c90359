use gateway_core::embed::{EmbeddingBatch, EmbeddingConfig, EmbeddingGenerator};
use gateway_core::emitter::{ManifestDiff, ManifestEmitter, ManifestEmitterConfig, RecordingQueue};
use gateway_core::ledger::{OfflineReplayBuffer, ReplayEntry};
use gateway_core::planner::{ChunkPlan, PlannedChunk, RetryPolicy};
use gateway_core::sanitize::{SanitizationConfig, Sanitizer};

fn sanitized_payload() -> gateway_core::sanitize::SanitizedChunk {
    let plan = ChunkPlan {
        plan_id: "repo-theta::docs/notes.md::0".to_string(),
        repo_id: "repo-theta".to_string(),
        chunker_config: "size=512".to_string(),
        source_span: "docs/notes.md:1-200".to_string(),
        hash: "aa55aa".to_string(),
        retry_policy: RetryPolicy::default(),
    };
    let planned = PlannedChunk::new(plan, "# Notes\nSECRET token".to_string());
    let sanitizer = Sanitizer::new(SanitizationConfig::default());
    sanitizer.apply(&planned).expect("sanitization should succeed")
}

fn batch() -> EmbeddingBatch {
    let generator = EmbeddingGenerator::new(EmbeddingConfig::new("encoder-z".to_string(), 6));
    generator.encode(&vec![sanitized_payload()]).expect("encoding should succeed")
}

fn buffered_entry(sequence: u64, repo: &str) -> ReplayEntry {
    ReplayEntry {
        sequence,
        repo_id: repo.to_string(),
        delayed_ms: 0,
        payload_checksum_before: format!("before-{sequence}"),
        payload_checksum_after: format!("after-{sequence}"),
        status: "buffered".to_string(),
    }
}

#[test]
fn emitter_respects_configured_sequence_floor_over_buffered_entries() {
    let queue = RecordingQueue::new();
    let mut buffer = OfflineReplayBuffer::new(8, 60_000);

    for sequence in [4u64, 5, 6] {
        buffer
            .push(buffered_entry(sequence, &format!("repo-theta-{sequence}")))
            .expect("buffer push should succeed");
    }

    let config = ManifestEmitterConfig {
        sequence_start: 42,
        encryption_key: "test-key".to_string(),
        retention_max_entries: 8,
        retention_max_age_ms: 60_000,
    };

    let mut emitter = ManifestEmitter::new(config, buffer, queue);

    let diff = ManifestDiff {
        repo_id: "repo-floor".to_string(),
        applied_at_ms: 0,
        added_chunks: vec!["chunk-floor".to_string()],
        removed_chunks: vec![],
        checksum_before: "before-floor".to_string(),
        checksum_after: "after-floor".to_string(),
    };

    emitter
        .emit(&diff, &batch())
        .expect("emit should succeed with configured floor");

    let collected = emitter.queue.collected();
    assert_eq!(collected.len(), 1, "expected one emitted entry");
    assert_eq!(
        collected[0].sequence, 42,
        "emitter should honor configured sequence_start even when buffer has lower sequences"
    );
}

#[test]
fn emitter_records_delay_based_on_applied_at() {
    let queue = RecordingQueue::new();
    let buffer = OfflineReplayBuffer::new(16, 60_000);
    let config = ManifestEmitterConfig {
        sequence_start: 1,
        encryption_key: "test-key".to_string(),
        retention_max_entries: 16,
        retention_max_age_ms: 60_000,
    };

    let mut emitter = ManifestEmitter::new(config, buffer, queue);

    let now: u64 = 10_000;
    let diff = ManifestDiff {
        repo_id: "repo-omega".to_string(),
        applied_at_ms: now - 1_500,
        added_chunks: vec!["chunk-0".to_string()],
        removed_chunks: vec![],
        checksum_before: "before".to_string(),
        checksum_after: "after".to_string(),
    };

    emitter.emit_at(&diff, &batch(), now).expect("emit should succeed");

    let collected = emitter.queue.collected();
    assert_eq!(collected.len(), 1, "expected emitted replay entry");
    assert_eq!(collected[0].delayed_ms, 1_500);

    let future_diff = ManifestDiff {
        repo_id: "repo-omega".to_string(),
        applied_at_ms: now + 5_000,
        added_chunks: vec!["chunk-0".to_string()],
        removed_chunks: vec![],
        checksum_before: "before".to_string(),
        checksum_after: "after".to_string(),
    };

    emitter
        .emit_at(&future_diff, &batch(), now)
        .expect("emit should succeed for future diff");

    let collected = emitter.queue.collected();
    assert_eq!(collected.len(), 2, "expected future replay entry");
    assert_eq!(collected[1].delayed_ms, 0, "future diffs should clamp delay to zero");
}

#[test]
fn flush_offline_handles_queue_failure_mid_flush() {
    let queue = RecordingQueue::new();
    let mut buffer = OfflineReplayBuffer::new(8, 60_000);

    for sequence in 40..=42 {
        buffer
            .push(buffered_entry(sequence, "repo-mid-flush"))
            .expect("buffer push should succeed");
    }

    let config = ManifestEmitterConfig {
        sequence_start: 50,
        encryption_key: "test-key".to_string(),
        retention_max_entries: 8,
        retention_max_age_ms: 60_000,
    };

    let mut emitter = ManifestEmitter::new(config, buffer, queue);
    emitter.queue.set_fail(true);

    let diff = ManifestDiff {
        repo_id: "repo-mid-flush".to_string(),
        applied_at_ms: 0,
        added_chunks: vec!["chunk-mid".to_string()],
        removed_chunks: vec![],
        checksum_before: "before-mid".to_string(),
        checksum_after: "after-mid".to_string(),
    };

    emitter
        .emit(&diff, &batch())
        .expect_err("emit should fail when queue is offline");

    emitter.queue.set_fail(false);
    emitter.flush_offline().expect("flush should succeed");

    let collected = emitter.queue.collected();
    let sequences: Vec<u64> = collected.iter().map(|entry| entry.sequence).collect();
    assert_eq!(sequences, vec![40, 41, 42, 50]);
}

#[test]
fn emit_during_active_flush_queues_follow_up() {
    let queue = RecordingQueue::new();
    let mut buffer = OfflineReplayBuffer::new(8, 60_000);

    for sequence in 60..=61 {
        buffer
            .push(buffered_entry(sequence, "repo-follow-up"))
            .expect("buffer push should succeed");
    }

    let config = ManifestEmitterConfig {
        sequence_start: 70,
        encryption_key: "test-key".to_string(),
        retention_max_entries: 8,
        retention_max_age_ms: 60_000,
    };

    let mut emitter = ManifestEmitter::new(config, buffer, queue);

    emitter.flush_offline().expect("initial flush should succeed");
    assert_eq!(emitter.queue.collected().len(), 2);

    let diff = ManifestDiff {
        repo_id: "repo-follow-up".to_string(),
        applied_at_ms: 0,
        added_chunks: vec!["chunk-new".to_string()],
        removed_chunks: vec![],
        checksum_before: "before-new".to_string(),
        checksum_after: "after-new".to_string(),
    };
    emitter
        .emit(&diff, &batch())
        .expect("emit should succeed while queue online");

    emitter.flush_offline().expect("follow-up flush should succeed");

    let collected = emitter.queue.collected();
    let sequences: Vec<u64> = collected.iter().map(|entry| entry.sequence).collect();
    assert_eq!(sequences, vec![60, 61, 70]);
}

#[test]
fn emitter_flushes_offline_buffer_against_golden() {
    let expected_sequence: u64 = 42;
    let checksum_before = "before-42".to_string();
    let checksum_after = "after-42".to_string();
    let mut buffer = OfflineReplayBuffer::new(128, 120_000);
    for sequence in [40u64, 41, 42] {
        buffer
            .push(buffered_entry(sequence, &format!("repo-theta-{sequence}")))
            .expect("buffer push should succeed");
    }
    let mut queue = RecordingQueue::new();
    queue.set_fail(true);

    let config = ManifestEmitterConfig {
        sequence_start: expected_sequence - 2,
        encryption_key: "test-key".to_string(),
        retention_max_entries: 128,
        retention_max_age_ms: 120_000,
    };
    let mut emitter = ManifestEmitter::new(config, buffer, queue);

    let diff = ManifestDiff {
        repo_id: "repo-theta".to_string(),
        applied_at_ms: 0,
        added_chunks: vec!["chunk-0".to_string()],
        removed_chunks: vec![],
        checksum_before: checksum_before.clone(),
        checksum_after: checksum_after.clone(),
    };

    // Emit while queue is offline, forcing a buffer write.
    emitter.emit(&diff, &batch()).expect_err("queue offline should error");

    // Bring the queue back online and flush.
    emitter.queue.set_fail(false);
    emitter.flush_offline().expect("flush should succeed");

    let collected = emitter.queue.collected();
    assert!(!collected.is_empty());
    let golden_entry = collected
        .iter()
        .find(|entry| entry.sequence == expected_sequence)
        .expect("expected golden replay entry");
    assert_eq!(golden_entry.payload_checksum_before, checksum_before);
    assert_eq!(golden_entry.payload_checksum_after, checksum_after);
    assert!(collected.iter().any(|entry| entry.sequence > expected_sequence));
}
