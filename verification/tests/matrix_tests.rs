use gateway_core::matrix::RoutingMatrix;

fn sample_matrix() -> RoutingMatrix {
    RoutingMatrix::from_rows(vec![
        (
            "ingest-api".to_string(),
            vec![("routing-control".to_string(), 3u64)],
        ),
        (
            "routing-control".to_string(),
            vec![
                ("artifact-store".to_string(), 2u64),
                ("telemetry-hub".to_string(), 9u64),
            ],
        ),
        (
            "artifact-store".to_string(),
            vec![("audit-log".to_string(), 1u64)],
        ),
        (
            "telemetry-hub".to_string(),
            vec![("audit-log".to_string(), 4u64)],
        ),
    ])
}

#[test]
fn routing_matrix_reports_weights_and_nodes() {
    let matrix = sample_matrix();
    assert_eq!(matrix.edge_count(), 5);
    assert_eq!(matrix.weight("ingest-api", "routing-control"), Some(3));
    assert_eq!(matrix.weight("routing-control", "artifact-store"), Some(2));
    assert_eq!(matrix.weight("audit-log", "ingest-api"), None);
    assert_eq!(matrix.nodes().len(), 5);
}

#[test]
fn routing_matrix_walks_a_route_over_edges() {
    let matrix = sample_matrix();
    let path = matrix
        .shortest_path("ingest-api", "audit-log")
        .expect("path exists");
    assert_eq!(
        path,
        vec![
            "ingest-api".to_string(),
            "routing-control".to_string(),
            "artifact-store".to_string(),
            "audit-log".to_string(),
        ]
    );
    for pair in path.windows(2) {
        assert!(matrix.weight(&pair[0], &pair[1]).is_some(), "every hop is an edge");
    }

    assert!(matrix.shortest_path("audit-log", "ingest-api").is_none());
    let trivial = matrix.shortest_path("ingest-api", "ingest-api").expect("self route");
    assert_eq!(trivial, vec!["ingest-api".to_string()]);
}

#[test]
fn routing_matrix_prefers_cheap_routes_over_short_ones() {
    // a direct hop routing-control -> audit-log exists but costs more than
    // the longer route through the artifact store
    let matrix = gateway_core::matrix::RoutingMatrix::from_rows(vec![
        (
            "ingest-api".to_string(),
            vec![("routing-control".to_string(), 3u64)],
        ),
        (
            "routing-control".to_string(),
            vec![
                ("artifact-store".to_string(), 2u64),
                ("audit-log".to_string(), 20u64),
            ],
        ),
        (
            "artifact-store".to_string(),
            vec![("audit-log".to_string(), 1u64)],
        ),
    ]);
    let path = matrix
        .shortest_path("ingest-api", "audit-log")
        .expect("path exists");
    assert_eq!(
        path,
        vec![
            "ingest-api".to_string(),
            "routing-control".to_string(),
            "artifact-store".to_string(),
            "audit-log".to_string(),
        ]
    );
}

#[test]
fn routing_matrix_nodes_cover_sources_and_targets() {
    let matrix = sample_matrix();
    let nodes = matrix.nodes();
    for name in [
        "ingest-api",
        "routing-control",
        "artifact-store",
        "telemetry-hub",
        "audit-log",
    ] {
        assert!(nodes.iter().any(|n| n == name), "node {name} is listed");
    }
    assert_eq!(nodes.len(), 5);
}
