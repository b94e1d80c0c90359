use gateway_core::workspace::{
    EnumeratorConfig, IgnoreRule, IgnoreSource, LatencyEvent, LatencyWindow, RegistrySnapshot,
    RepoType, WorkspaceEnumerator, WorkspaceRecord,
};

fn record(repo_id: &str, rules: Vec<IgnoreRule>, windows: Vec<LatencyWindow>) -> WorkspaceRecord {
    WorkspaceRecord {
        repo_id: repo_id.to_string(),
        root_path: format!("/workspaces/{repo_id}"),
        repo_type: RepoType::Archive,
        manifest_cursor: Some("cursor-9".to_string()),
        ignore_rules: rules,
        archives: vec![],
        latency_windows: windows,
        files: vec![],
    }
}

#[test]
fn ignore_stack_merges_deterministically() {
    let rec = record(
        "repo-beta",
        vec![
            IgnoreRule::new(IgnoreSource::Git, ".git".to_string()),
            IgnoreRule::new(IgnoreSource::Custom("repo".to_string()), "vendor".to_string()),
        ],
        vec![],
    );
    let snapshot = RegistrySnapshot::new(vec![rec]);
    let enumerator = WorkspaceEnumerator::new(EnumeratorConfig {
        global_ignores: vec![
            IgnoreRule::new(IgnoreSource::Global, "node_modules".to_string()),
            IgnoreRule::new(IgnoreSource::Global, ".git".to_string()),
        ],
        sandbox_ignores: vec![IgnoreRule::new(IgnoreSource::Sandbox, "tmp".to_string())],
    });

    let descriptors = enumerator
        .scan(&snapshot)
        .expect("workspace enumeration should succeed");
    let descriptor = &descriptors[0];
    let patterns: Vec<String> = descriptor
        .ignore_stack()
        .iter()
        .map(|rule| rule.pattern.clone())
        .collect();
    assert_eq!(patterns, vec!["node_modules", "tmp", ".git", "vendor"]);
}

#[test]
fn watcher_latency_budget_matches_golden() {
    let windows = vec![
        LatencyWindow {
            window_ms: 250,
            debounce_ms: 40,
            queue_depth: 8,
            events: vec![
                LatencyEvent {
                    path: "src/main.rs".to_string(),
                    action: "modify".to_string(),
                    latency_ms: 12,
                },
                LatencyEvent {
                    path: "src/lib.rs".to_string(),
                    action: "modify".to_string(),
                    latency_ms: 48,
                },
            ],
            events_observed: 0,
            max_latency_ms: 0,
        },
        LatencyWindow {
            window_ms: 500,
            debounce_ms: 80,
            queue_depth: 4,
            events: vec![LatencyEvent {
                path: "docs/design.md".to_string(),
                action: "create".to_string(),
                latency_ms: 95,
            }],
            events_observed: 7,
            max_latency_ms: 130,
        },
    ];
    let rec = record(
        "repo-alpha",
        vec![
            IgnoreRule::new(IgnoreSource::Git, "target".to_string()),
            IgnoreRule::new(IgnoreSource::Editor, "*.swp".to_string()),
        ],
        windows,
    );
    let snapshot = RegistrySnapshot::new(vec![rec]);
    let enumerator = WorkspaceEnumerator::new(EnumeratorConfig {
        global_ignores: vec![IgnoreRule::new(IgnoreSource::Global, "node_modules".to_string())],
        sandbox_ignores: vec![IgnoreRule::new(IgnoreSource::Sandbox, "tmp".to_string())],
    });

    let descriptors = enumerator
        .scan(&snapshot)
        .expect("workspace enumeration should succeed");
    assert_eq!(descriptors.len(), 1);
    let descriptor = &descriptors[0];

    // Zeroed counters are backfilled from the events.
    let burst = descriptor
        .latency_windows()
        .iter()
        .find(|w| w.window_ms == 250)
        .expect("expected window to be present");
    assert_eq!(burst.events_observed, 2);
    assert_eq!(burst.max_latency_ms, 48);
    assert_eq!(burst.queue_depth, 8);
    assert_eq!(burst.debounce_ms, 40);

    // Populated counters are kept.
    let steady = descriptor
        .latency_windows()
        .iter()
        .find(|w| w.window_ms == 500)
        .expect("expected window to be present");
    assert_eq!(steady.events_observed, 7);
    assert_eq!(steady.max_latency_ms, 130);
    assert_eq!(steady.queue_depth, 4);
    assert_eq!(steady.debounce_ms, 80);
}
