use export_opinion::models::{export_order, group_places, join_taxonomy_terms};
use export_opinion::create_dataset_filter_clause;
use export_opinion::env_file::parse_env_line;
use export_opinion::materialize::{SnapshotWrite, TxState, WriteStep};
use export_opinion::record_kind::{analyst_key, export_table_name, source_table_name, RecordKind, SnapshotTable};
use export_opinion::review_stats::{tally_review_counts, ReviewCounts};
use export_opinion::text::decimal;

#[test]
fn export_table_names() {
    assert_eq!(
        export_table_name("u1", RecordKind::Entity, SnapshotTable::Cluster, "20240101120000"),
        "u1_entity_group_cluster_export_20240101120000"
    );
    assert_eq!(
        export_table_name("u1", RecordKind::Service, SnapshotTable::Group, "ts"),
        "u1_service_group_export_ts"
    );
    assert_eq!(
        export_table_name("u1", RecordKind::Service, SnapshotTable::EdgeVisualization, "ts"),
        "u1_service_edge_visualization_export_ts"
    );
    assert_eq!(
        source_table_name("u1", RecordKind::Entity, SnapshotTable::EdgeVisualization),
        "u1_entity_edge_visualization"
    );
    assert_eq!(analyst_key("jdoe", "main"), "jdoe_main");
}

#[test]
fn kind_columns_and_parse() {
    assert_eq!(RecordKind::Entity.cluster_column(), "cluster_id");
    assert_eq!(RecordKind::Service.cluster_column(), "service_group_cluster_id");
    assert_eq!(RecordKind::Service.group_count_column(), "service_group_count");
    assert_eq!(RecordKind::parse("entity"), Some(RecordKind::Entity));
    assert_eq!(RecordKind::parse("service"), Some(RecordKind::Service));
    assert_eq!(RecordKind::parse("other"), None);
    assert!(SnapshotTable::Group.holds_self_pairs());
    assert!(!SnapshotTable::Cluster.holds_self_pairs());
}

#[test]
fn filter_clause_empty_whitelist() {
    let (clause, params) = create_dataset_filter_clause("t", "source_system", &[], 1);
    assert_eq!(clause, "1=1");
    assert!(params.is_empty());
}

#[test]
fn filter_clause_numbers_parameters() {
    let w = vec!["ds_a".to_string(), "ds_b".to_string(), "ds_c".to_string()];
    let (clause, params) = create_dataset_filter_clause("src", "source_system", &w, 9);
    assert_eq!(clause, "src.source_system = ANY(ARRAY[$9, $10, $11])");
    assert_eq!(params, w);
}

#[test]
fn decimal_rendering() {
    assert_eq!(decimal(0), "0");
    assert_eq!(decimal(7), "7");
    assert_eq!(decimal(1200), "1200");
    assert_eq!(decimal(usize::MAX), usize::MAX.to_string());
}

#[test]
fn env_lines() {
    assert_eq!(parse_env_line("# comment=1"), None);
    assert_eq!(parse_env_line("   "), None);
    assert_eq!(parse_env_line("NOEQUALS"), None);
    assert_eq!(
        parse_env_line("  POSTGRES_HOST = \"db.local\" "),
        Some(("POSTGRES_HOST".to_string(), "db.local".to_string()))
    );
    assert_eq!(parse_env_line("A=b=c"), Some(("A".to_string(), "b=c".to_string())));
    assert_eq!(parse_env_line("EMPTY="), Some(("EMPTY".to_string(), "".to_string())));
}

#[test]
fn write_plan_skips_empty_inserts() {
    let w = SnapshotWrite::new(2, 0, 1);
    assert_eq!(
        w.steps,
        vec![
            WriteStep::DeleteClusters,
            WriteStep::DeleteGroups,
            WriteStep::DeleteEdges,
            WriteStep::InsertClusters,
            WriteStep::InsertEdges,
            WriteStep::Commit
        ]
    );
}

#[test]
fn failure_in_group_insert_rolls_back() {
    let mut w = SnapshotWrite::new(2, 3, 1);
    let mut ran = Vec::new();
    while let Some(step) = w.next_step() {
        ran.push(step);
        w.record(step != WriteStep::InsertGroups);
    }
    assert_eq!(w.state, TxState::RolledBack);
    assert!(!w.is_visible());
    assert_eq!(ran.last(), Some(&WriteStep::InsertGroups));
    assert!(!ran.contains(&WriteStep::Commit));
}

#[test]
fn all_steps_succeed_commits() {
    let mut w = SnapshotWrite::new(1, 1, 0);
    let mut n = 0;
    while let Some(_) = w.next_step() {
        w.record(true);
        n += 1;
    }
    assert_eq!(n, 6);
    assert_eq!(w.state, TxState::Committed);
    assert!(w.is_visible());
}

#[test]
fn review_counts() {
    let rows = vec![
        ("PENDING_REVIEW".to_string(), 4),
        ("CONFIRMED_MATCH".to_string(), 2),
        ("OTHER".to_string(), 99),
        ("CONFIRMED_NON_MATCH".to_string(), 1),
    ];
    assert_eq!(tally_review_counts(&rows), (4, 2, 1));
    let c = ReviewCounts::new(4, 2, 1);
    assert_eq!((c.total, c.reviewed_count), (7, 3));
    assert!(!c.is_complete());
    assert!(ReviewCounts::new(0, 2, 1).is_complete());
    assert!(!ReviewCounts::new(0, 0, 0).is_complete());
}

#[test]
fn taxonomy_terms_sorted_and_joined() {
    assert_eq!(join_taxonomy_terms(&vec![]), None);
    let terms = vec!["Housing".to_string(), "Food".to_string(), "Legal".to_string()];
    assert_eq!(join_taxonomy_terms(&terms), Some("Food, Housing, Legal".to_string()));
}

#[test]
fn places_grouped_by_key() {
    let keys: Vec<String> = ["s2", "s1", "s2", "s3", "s1"].iter().map(|s| s.to_string()).collect();
    let (table, groups) = group_places(&keys);
    assert_eq!(table.ids, vec!["s1".to_string(), "s2".to_string(), "s3".to_string()]);
    assert_eq!(groups, vec![vec![1, 4], vec![0, 2], vec![3]]);
}

#[test]
fn export_rows_ordered_by_cluster_then_name() {
    let s = |x: &str| Some(x.to_string());
    let clusters = vec![None, s("c2"), s("c1"), s("c2"), None];
    let names = vec![s("b"), s("z"), s("q"), s("a"), s("a")];
    assert_eq!(export_order(&clusters, &names), vec![2, 3, 1, 4, 0]);
}
