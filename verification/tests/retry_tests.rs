use gateway_core::json::JsonValue;
use gateway_core::stdio::{RetryBuffer, RetryPayload};

fn payload(sequence: u64, command: &str, token_id: &str) -> RetryPayload {
    RetryPayload {
        sequence,
        command: command.to_string(),
        payload: JsonValue::Obj(vec![("id".to_string(), JsonValue::Int(sequence as i64))]),
        token_id: token_id.to_string(),
    }
}

#[test]
fn retry_buffer_enforces_capacity_fifo() {
    let mut buffer = RetryBuffer::new(3, 60_000);
    for seq in 1..=4 {
        buffer.enqueue(payload(seq, "ingest", &format!("tok-{seq}"))).unwrap();
    }

    assert_eq!(buffer.max_sequence(), Some(4));
    let drained = buffer.drain_ready();
    let sequences: Vec<u64> = drained.iter().map(|entry| entry.payload().sequence).collect();
    assert_eq!(sequences, vec![2, 3, 4]);
}

#[test]
fn retry_buffer_requeue_retains_order() {
    let mut buffer = RetryBuffer::new(5, 60_000);
    for seq in 10..=12 {
        buffer.enqueue(payload(seq, "ingest", &format!("tok-{seq}"))).unwrap();
    }

    let mut drained = buffer.drain_ready();
    assert_eq!(drained.len(), 3);
    let retry_entry = drained.remove(1);
    buffer.requeue(retry_entry).unwrap();

    buffer.enqueue(payload(13, "search", "tok-13")).unwrap();

    let drained_again = buffer.drain_ready();
    let sequences: Vec<u64> = drained_again
        .iter()
        .map(|entry| entry.payload().sequence)
        .collect();
    assert_eq!(sequences, vec![11, 13]);
}

#[test]
fn retry_buffer_rehydrates_snapshot_fifo() {
    let mut buffer = RetryBuffer::new(16, 86_400_000);
    let records = [
        (1u64, "ingest", "offline-1"),
        (2u64, "ingest", "offline-2"),
        (3u64, "search", "offline-3"),
    ];
    let now: u64 = 1_000_000;
    for (idx, (seq, command, token)) in records.iter().enumerate() {
        let offset = (records.len() - idx) as u64 * 1000;
        buffer
            .enqueue_at(payload(*seq, command, token), now - offset, now)
            .unwrap();
    }

    assert_eq!(buffer.max_sequence(), Some(3));

    let drained = buffer.drain_ready_at(now);
    let sequences: Vec<u64> = drained.iter().map(|entry| entry.payload().sequence).collect();
    assert_eq!(sequences, vec![1, 2, 3]);
}

#[test]
fn retry_buffer_preserves_sequence_on_requeue_after_snapshot() {
    let mut buffer = RetryBuffer::new(4, 86_400_000);
    let records = [
        (1u64, "ingest", "offline-1"),
        (2u64, "ingest", "offline-2"),
        (3u64, "search", "offline-3"),
    ];
    let now: u64 = 1_000_000;
    for (idx, (seq, command, token)) in records.iter().enumerate() {
        let offset = (records.len() - idx) as u64 * 1000;
        buffer
            .enqueue_at(payload(*seq, command, token), now - offset, now)
            .unwrap();
    }

    let mut drained = buffer.drain_ready_at(now);
    assert_eq!(drained.len(), 3);
    let retry_entry = drained.remove(0);
    buffer.requeue_at(retry_entry, now).unwrap();

    buffer.enqueue_at(payload(4, "ingest", "offline-4"), now, now).unwrap();

    let drained_again = buffer.drain_ready_at(now);
    let sequences: Vec<u64> = drained_again
        .iter()
        .map(|entry| entry.payload().sequence)
        .collect();
    assert_eq!(sequences, vec![1, 4]);
}
