use gateway_core::ledger::{OfflineReplayBuffer, ReplayEntry};

fn entry_with_sequence(sequence: u64) -> ReplayEntry {
    ReplayEntry {
        sequence,
        repo_id: format!("repo-{sequence}"),
        delayed_ms: 0,
        payload_checksum_before: format!("before-{sequence}"),
        payload_checksum_after: format!("after-{sequence}"),
        status: "buffered".to_string(),
    }
}

#[test]
fn requeue_preserves_original_age_for_expiration() {
    let mut buffer = OfflineReplayBuffer::new(16, 100);
    buffer.push_at(entry_with_sequence(1), 0).unwrap();

    let mut ready = buffer.drain_ready_at(40);
    assert_eq!(ready.len(), 1);
    let ready_entry = ready.pop().unwrap();

    buffer.requeue_at(ready_entry, 40).unwrap();
    assert!(!buffer.is_empty());

    let drained_after_wait = buffer.drain_ready_at(120);
    assert!(drained_after_wait.is_empty());
    assert!(buffer.is_empty());
}

#[test]
fn capacity_eviction_removes_oldest_entry_fifo() {
    let mut buffer = OfflineReplayBuffer::new(3, 60_000);
    for sequence in 1..=4 {
        buffer.push(entry_with_sequence(sequence)).unwrap();
    }

    assert_eq!(buffer.max_sequence(), Some(4));

    let drained = buffer.drain_ready();
    let sequences: Vec<u64> = drained.iter().map(|ready| ready.entry.sequence).collect();
    assert_eq!(sequences, vec![2, 3, 4], "oldest entry should be evicted");
    assert!(buffer.is_empty());
}

#[test]
fn purges_entries_exceeding_max_age() {
    let mut buffer = OfflineReplayBuffer::new(4, 50);
    buffer.push_at(entry_with_sequence(10), 0).unwrap();

    let drained = buffer.drain_ready_at(65);
    assert!(drained.is_empty(), "expired entry should be purged");
    assert!(buffer.is_empty());
}

#[test]
fn requeue_after_partial_flush_maintains_sequence() {
    let mut buffer = OfflineReplayBuffer::new(8, 60_000);
    for seq in 1..=3 {
        buffer.push(entry_with_sequence(seq)).unwrap();
    }

    let mut drained = buffer.drain_ready();
    assert_eq!(drained.len(), 3);
    let failed_entry = drained.remove(1);

    buffer.requeue(failed_entry).unwrap();
    assert_eq!(buffer.max_sequence(), Some(3));

    for seq in 4..=5 {
        buffer.push(entry_with_sequence(seq)).unwrap();
    }

    let drained_after_requeue = buffer.drain_ready();
    let sequences: Vec<u64> = drained_after_requeue
        .iter()
        .map(|ready| ready.entry.sequence)
        .collect();
    assert_eq!(sequences, vec![2, 4, 5]);
    assert!(buffer.is_empty());
}

#[test]
fn drain_ready_concurrent_push_preserves_order() {
    let mut buffer = OfflineReplayBuffer::new(8, 60_000);
    for seq in 10..=12 {
        buffer.push(entry_with_sequence(seq)).unwrap();
    }

    let drained = buffer.drain_ready();
    let drained_sequences: Vec<u64> = drained.iter().map(|ready| ready.entry.sequence).collect();
    assert_eq!(drained_sequences, vec![10, 11, 12]);

    for seq in 13..=15 {
        buffer.push(entry_with_sequence(seq)).unwrap();
    }

    let drained_after_push = buffer.drain_ready();
    let sequences_after_push: Vec<u64> = drained_after_push
        .iter()
        .map(|ready| ready.entry.sequence)
        .collect();
    assert_eq!(sequences_after_push, vec![13, 14, 15]);
    assert!(buffer.is_empty());
}
