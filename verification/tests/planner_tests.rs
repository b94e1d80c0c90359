use gateway_core::planner::{ChunkPlanner, PlannerConfig, PlanningError};
use gateway_core::workspace::{
    ArchiveDescriptor, IgnoreRule, IgnoreSource, RepoType, WorkspaceDescriptor, WorkspaceFile,
};

fn descriptor(repo_id: &str, files: Vec<WorkspaceFile>, archives: Vec<ArchiveDescriptor>) -> WorkspaceDescriptor {
    WorkspaceDescriptor {
        repo_id: repo_id.to_string(),
        root_path: format!("/tmp/{repo_id}"),
        repo_type: RepoType::Git,
        manifest_cursor: Some("cursor-12".to_string()),
        ignore_stack: vec![IgnoreRule::new(IgnoreSource::Global, "node_modules".to_string())],
        archives,
        latency_windows: vec![],
        files,
    }
}

#[test]
fn archive_quota_violation_matches_fixture() {
    let archive = ArchiveDescriptor {
        name: "oversized".to_string(),
        bytes: 5_632,
        entries: 22,
        nesting_depth: 3,
        expected_status: "rejected".to_string(),
        max_latency_ms: 180,
        scenario: "quota".to_string(),
    };
    let workspace = descriptor(
        "repo-alpha",
        vec![WorkspaceFile::new("archive.tar".to_string(), "placeholder".to_string())],
        vec![archive],
    );

    let planner = ChunkPlanner::new(PlannerConfig {
        target_chunk_bytes: 1024,
        max_chunks_per_batch: 4,
        quota_bytes_max: Some(4_096),
        quota_entries_max: Some(16),
        quota_nesting_max: Some(2),
        quota_latency_budget_ms: Some(120),
    });
    match planner.plan(&workspace) {
        Err(PlanningError::QuotaExceeded { diagnostics }) => {
            assert_eq!(diagnostics.bytes_limit, 4_096);
            assert_eq!(diagnostics.entries_limit, 16);
            assert_eq!(diagnostics.nesting_limit, 2);
            assert_eq!(diagnostics.bytes_observed, 5_632);
            assert_eq!(diagnostics.entries_observed, 22);
            assert!(diagnostics
                .latency_budget_ms
                .map(|value| value >= 120)
                .unwrap_or(false));
        }
        Ok(_) => panic!("expected quota violation"),
    }
}

#[test]
fn deterministic_chunk_batches_use_sorted_filenames() {
    let workspace = descriptor(
        "repo-delta",
        vec![
            WorkspaceFile::new("src/bin.rs".to_string(), "fn main() {}".to_string()),
            WorkspaceFile::new(
                "src/lib.rs".to_string(),
                "pub fn add(a: i32, b: i32) -> i32 { a + b }".to_string(),
            ),
            WorkspaceFile::new("README.md".to_string(), "# sample".to_string()),
        ],
        vec![],
    );
    let planner = ChunkPlanner::new(PlannerConfig {
        target_chunk_bytes: 512,
        max_chunks_per_batch: 3,
        quota_bytes_max: None,
        quota_entries_max: None,
        quota_nesting_max: None,
        quota_latency_budget_ms: None,
    });

    let plans = planner.plan(&workspace).expect("planning should succeed");
    let plan_ids: Vec<String> = plans.iter().map(|plan| plan.plan_id.clone()).collect();
    assert_eq!(
        plan_ids,
        vec![
            "repo-delta::README.md::0",
            "repo-delta::src/bin.rs::1",
            "repo-delta::src/lib.rs::2",
        ]
    );
}

#[test]
fn planner_is_stable_under_file_reordering() {
    let files_a = vec![
        WorkspaceFile::new("b.txt".to_string(), "bravo".to_string()),
        WorkspaceFile::new("a.txt".to_string(), "alpha".to_string()),
        WorkspaceFile::new("c.txt".to_string(), "charlie".to_string()),
    ];
    let files_b = vec![
        WorkspaceFile::new("c.txt".to_string(), "charlie".to_string()),
        WorkspaceFile::new("a.txt".to_string(), "alpha".to_string()),
        WorkspaceFile::new("b.txt".to_string(), "bravo".to_string()),
    ];
    let planner = ChunkPlanner::new(PlannerConfig::new(2, 100));
    let plans_a = planner.plan(&descriptor("repo-perm", files_a, vec![])).unwrap();
    let plans_b = planner.plan(&descriptor("repo-perm", files_b, vec![])).unwrap();
    let ids_a: Vec<String> = plans_a.iter().map(|p| p.plan_id.clone()).collect();
    let ids_b: Vec<String> = plans_b.iter().map(|p| p.plan_id.clone()).collect();
    let hashes_a: Vec<String> = plans_a.iter().map(|p| p.hash.clone()).collect();
    let hashes_b: Vec<String> = plans_b.iter().map(|p| p.hash.clone()).collect();
    assert_eq!(ids_a, ids_b);
    assert_eq!(hashes_a, hashes_b);
}

#[test]
fn empty_files_emit_single_zero_span_plan() {
    let workspace = descriptor(
        "repo-empty",
        vec![WorkspaceFile::new("void.txt".to_string(), String::new())],
        vec![],
    );
    let planner = ChunkPlanner::new(PlannerConfig::new(16, 10));
    let plans = planner.plan(&workspace).unwrap();
    assert_eq!(plans.len(), 1);
    assert_eq!(plans[0].source_span, "void.txt:0-0");
    assert_eq!(plans[0].plan_id, "repo-empty::void.txt::0");
}

#[test]
fn plan_count_respects_batch_cap() {
    let workspace = descriptor(
        "repo-cap",
        vec![WorkspaceFile::new("data.bin".to_string(), "abcdefghij".to_string())],
        vec![],
    );
    let planner = ChunkPlanner::new(PlannerConfig::new(2, 3));
    let plans = planner.plan(&workspace).unwrap();
    assert_eq!(plans.len(), 3);
    assert_eq!(plans[0].source_span, "data.bin:0-2");
    assert_eq!(plans[2].source_span, "data.bin:4-6");
}
