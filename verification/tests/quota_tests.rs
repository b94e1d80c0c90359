use gateway_core::quota::{ArchiveQuotaTracker, ArchiveSample, QuotaError, QuotaLimits};

fn sample(bytes: u64, entries: u64, nesting_depth: u32, max_latency_ms: u64) -> ArchiveSample {
    ArchiveSample { bytes, entries, nesting_depth, max_latency_ms }
}

#[test]
fn tracker_accumulates_saturating_totals_and_maxima() {
    let mut tracker = ArchiveQuotaTracker::new(QuotaLimits {
        bytes_max: None,
        entries_max: None,
        nesting_max: None,
        latency_budget_ms: None,
    });
    tracker.observe(&sample(100, 5, 2, 40));
    tracker.observe(&sample(50, 3, 4, 20));
    tracker.observe(&sample(u64::MAX, 1, 1, 60));

    let diagnostics = tracker.diagnostics();
    assert_eq!(diagnostics.bytes_observed, u64::MAX);
    assert_eq!(diagnostics.entries_observed, 9);
    assert_eq!(diagnostics.nesting_observed, 4);
    assert_eq!(diagnostics.latency_budget_ms, Some(60));
    // absent limits are reported as the observed values
    assert_eq!(diagnostics.bytes_limit, u64::MAX);
    assert_eq!(diagnostics.entries_limit, 9);
    assert_eq!(diagnostics.nesting_limit, 4);
}

#[test]
fn check_fails_exactly_when_a_populated_limit_is_exceeded() {
    let mut tracker = ArchiveQuotaTracker::new(QuotaLimits {
        bytes_max: Some(1_000),
        entries_max: Some(10),
        nesting_max: Some(3),
        latency_budget_ms: Some(100),
    });
    tracker.observe(&sample(999, 10, 3, 100));
    assert!(tracker.check().is_ok());

    tracker.observe(&sample(2, 0, 0, 0));
    match tracker.check() {
        Err(QuotaError::Exceeded { diagnostics }) => {
            assert_eq!(diagnostics.bytes_observed, 1_001);
            assert_eq!(diagnostics.bytes_limit, 1_000);
        }
        Ok(()) => panic!("expected the byte limit to trip"),
    }
}

#[test]
fn merge_with_limits_never_reports_a_budget_below_the_configured_one() {
    let tracker = ArchiveQuotaTracker::new(QuotaLimits {
        bytes_max: None,
        entries_max: None,
        nesting_max: None,
        latency_budget_ms: Some(500),
    });
    let merged = tracker.diagnostics().merge_with_limits(&QuotaLimits {
        bytes_max: None,
        entries_max: None,
        nesting_max: None,
        latency_budget_ms: Some(500),
    });
    assert_eq!(merged.latency_budget_ms, Some(500));
}

#[test]
fn store_checksum_reports_payload_length() {
    let mut store = gateway_core::store::VectorStore::new();
    let entry = store
        .upsert(&"repo-len".to_string(), &"k".to_string(), &vec![0u8; 17])
        .expect("upsert ok");
    assert_eq!(entry.payload_checksum_before, "len:17");
    assert_eq!(entry.payload_checksum_after, "len:17");
    assert_eq!(entry.status, "emitted");
    assert_eq!(entry.delayed_ms, 0);
}
