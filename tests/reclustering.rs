use export_opinion::edges::{parse_status, EdgeStatus, RawEdgeVisualization};
use export_opinion::membership::MembershipMethod;
use export_opinion::record_kind::RecordKind;
use export_opinion::snapshot::{cluster_description, cluster_name, compute_derivation, fresh_ids, recluster, Derivation};

fn edge(id: &str, a: &str, b: &str, status: Option<&str>) -> RawEdgeVisualization {
    RawEdgeVisualization {
        id: id.to_string(),
        entity_id_1: Some(a.to_string()),
        entity_id_2: Some(b.to_string()),
        service_id_1: None,
        service_id_2: None,
        confirmed_status: status.map(|s| s.to_string()),
        details: None,
    }
}

fn universe(ids: &[&str]) -> Vec<String> {
    ids.iter().map(|s| s.to_string()).collect()
}

/// The clusters as sorted lists of record identifiers, sorted.
fn groups_of(d: &Derivation) -> Vec<Vec<String>> {
    let mut out: Vec<Vec<String>> = d
        .clustering
        .clusters
        .iter()
        .map(|c| {
            let mut v: Vec<String> = c.iter().map(|&x| d.table.ids[x].clone()).collect();
            v.sort();
            v
        })
        .collect();
    out.sort();
    out
}

fn strs(v: &[&[&str]]) -> Vec<Vec<String>> {
    v.iter().map(|c| c.iter().map(|s| s.to_string()).collect()).collect()
}

#[test]
fn four_records_two_clusters() {
    let u = universe(&["A", "B", "C", "D"]);
    let e = vec![
        edge("e1", "A", "B", Some("CONFIRMED_MATCH")),
        edge("e2", "B", "C", Some("PENDING_REVIEW")),
        edge("e3", "C", "D", Some("CONFIRMED_NON_MATCH")),
    ];
    let (d, s) = recluster(RecordKind::Entity, &u, &e);
    assert_eq!(groups_of(&d), strs(&[&["A", "B", "C"], &["D"]]));
    assert_eq!(s.clusters.len(), 2);
    assert_eq!(s.groups.len(), 4);
    let connected = s.groups.iter().filter(|g| g.method == "USER_REVIEW_CONNECTED").count();
    let isolated: Vec<_> = s.groups.iter().filter(|g| g.method == "USER_REVIEW_ISOLATED").collect();
    assert_eq!(connected, 3);
    assert_eq!(isolated.len(), 1);
    assert_eq!(isolated[0].first_id, "D");
    assert_eq!(isolated[0].second_id, "D");
    assert_eq!(s.edges.len(), 2);
    assert_eq!((s.edges[0].first_id.as_str(), s.edges[0].second_id.as_str()), ("A", "B"));
    assert_eq!((s.edges[1].first_id.as_str(), s.edges[1].second_id.as_str()), ("B", "C"));
    assert_eq!(s.edges[0].status, "CONFIRMED_MATCH");
    assert_eq!(s.edges[1].status, "PENDING_REVIEW");
    assert_eq!(s.edges[0].edge, 0);
    assert_eq!(s.edges[1].edge, 1);
    assert_eq!(s.edges[0].cluster_id, s.edges[1].cluster_id);
    let abc = s.clusters.iter().find(|c| c.member_count == 3).unwrap();
    assert_eq!(s.edges[0].cluster_id, abc.id);
    for g in &s.groups {
        let owner = s.clusters.iter().find(|c| c.id == g.cluster_id).unwrap();
        if g.first_id == "D" {
            assert_eq!(owner.member_count, 1);
        } else {
            assert_eq!(owner.member_count, 3);
        }
    }
}

#[test]
fn edge_outside_universe_is_excluded() {
    let u = universe(&["A", "B", "C"]);
    let e = vec![edge("e1", "A", "X", Some("CONFIRMED_MATCH")), edge("e2", "X", "B", None)];
    let d = compute_derivation(RecordKind::Entity, &u, &e);
    assert_eq!(groups_of(&d), strs(&[&["A"], &["B"], &["C"]]));
    assert!(d.links.is_empty());
}

#[test]
fn empty_endpoint_is_skipped() {
    let u = universe(&["A", "B"]);
    let e = vec![edge("e1", "", "B", Some("CONFIRMED_MATCH")), edge("e2", "A", "B", None)];
    let d = compute_derivation(RecordKind::Entity, &u, &e);
    assert_eq!(groups_of(&d), strs(&[&["A", "B"]]));
    assert_eq!(d.links.len(), 1);
    assert_eq!(d.links[0].edge, 1);
    assert_eq!(d.links[0].status, EdgeStatus::PendingReview);
}

#[test]
fn unknown_label_does_not_connect() {
    let u = universe(&["A", "B"]);
    let e = vec![edge("e1", "A", "B", Some("MAYBE"))];
    let d = compute_derivation(RecordKind::Entity, &u, &e);
    assert_eq!(groups_of(&d), strs(&[&["A"], &["B"]]));
}

#[test]
fn service_edges_use_service_ids() {
    let u = universe(&["s1", "s2"]);
    let e = vec![RawEdgeVisualization {
        id: "e".to_string(),
        entity_id_1: None,
        entity_id_2: None,
        service_id_1: Some("s1".to_string()),
        service_id_2: Some("s2".to_string()),
        confirmed_status: Some("CONFIRMED_MATCH".to_string()),
        details: None,
    }];
    let d = compute_derivation(RecordKind::Service, &u, &e);
    assert_eq!(groups_of(&d), strs(&[&["s1", "s2"]]));
    let d2 = compute_derivation(RecordKind::Entity, &u, &e);
    assert_eq!(groups_of(&d2), strs(&[&["s1"], &["s2"]]));
}

#[test]
fn repeated_universe_ids_form_one_record() {
    let u = universe(&["B", "A", "B", "C", "A"]);
    let d = compute_derivation(RecordKind::Entity, &u, &vec![]);
    assert_eq!(d.table.ids, universe(&["A", "B", "C"]));
    assert_eq!(groups_of(&d), strs(&[&["A"], &["B"], &["C"]]));
}

#[test]
fn transitive_chain_joins_all() {
    let u = universe(&["a", "b", "c", "d", "e"]);
    let e = vec![
        edge("1", "d", "e", None),
        edge("2", "a", "b", Some("CONFIRMED_MATCH")),
        edge("3", "c", "d", Some("PENDING_REVIEW")),
        edge("4", "b", "c", Some("CONFIRMED_MATCH")),
    ];
    let d = compute_derivation(RecordKind::Entity, &u, &e);
    assert_eq!(groups_of(&d), strs(&[&["a", "b", "c", "d", "e"]]));
    assert_eq!(d.memberships.len(), 10);
}

#[test]
fn rerun_gives_same_partition() {
    let u = universe(&["A", "B", "C", "D", "E"]);
    let e = vec![
        edge("1", "A", "C", None),
        edge("2", "D", "E", Some("CONFIRMED_MATCH")),
        edge("3", "B", "E", Some("CONFIRMED_NON_MATCH")),
    ];
    let (d1, s1) = recluster(RecordKind::Entity, &u, &e);
    let (d2, s2) = recluster(RecordKind::Entity, &u, &e);
    assert_eq!(groups_of(&d1), groups_of(&d2));
    assert_eq!(groups_of(&d1), strs(&[&["A", "C"], &["B"], &["D", "E"]]));
    assert_ne!(s1.clusters[0].id, s2.clusters[0].id);
}

#[test]
fn dropping_non_matches_first_changes_nothing() {
    let u = universe(&["A", "B", "C", "D"]);
    let with = vec![
        edge("1", "A", "B", None),
        edge("2", "B", "C", Some("CONFIRMED_NON_MATCH")),
        edge("3", "C", "D", Some("CONFIRMED_MATCH")),
        edge("4", "A", "D", Some("CONFIRMED_NON_MATCH")),
    ];
    let without = vec![edge("1", "A", "B", None), edge("3", "C", "D", Some("CONFIRMED_MATCH"))];
    let d1 = compute_derivation(RecordKind::Entity, &u, &with);
    let d2 = compute_derivation(RecordKind::Entity, &u, &without);
    assert_eq!(groups_of(&d1), groups_of(&d2));
    assert_eq!(groups_of(&d1), strs(&[&["A", "B"], &["C", "D"]]));
    assert!(d1.links.iter().all(|l| l.status != EdgeStatus::ConfirmedNonMatch));
}

#[test]
fn record_without_edges_is_a_singleton() {
    let u = universe(&["A", "B", "Z"]);
    let e = vec![edge("1", "A", "B", None)];
    let (d, s) = recluster(RecordKind::Entity, &u, &e);
    let z = d.table.ids.iter().position(|x| x == "Z").unwrap();
    let c = d.clustering.labels[z];
    assert_eq!(d.clustering.clusters[c], vec![z]);
    let rows: Vec<_> = s.groups.iter().filter(|g| g.first_id == "Z" || g.second_id == "Z").collect();
    assert_eq!(rows.len(), 1);
    assert_eq!(rows[0].method, "USER_REVIEW_ISOLATED");
    assert_eq!(rows[0].cluster_id, s.clusters[c].id);
}

#[test]
fn cluster_of_four_has_six_pairs() {
    let u = universe(&["p", "q", "r", "s"]);
    let e = vec![edge("1", "p", "q", None), edge("2", "q", "r", None), edge("3", "r", "s", None)];
    let d = compute_derivation(RecordKind::Entity, &u, &e);
    assert_eq!(d.memberships.len(), 6);
    let mut pairs: Vec<(usize, usize)> = d
        .memberships
        .iter()
        .map(|m| {
            assert_eq!(m.method, MembershipMethod::Connected);
            (m.first.min(m.second), m.first.max(m.second))
        })
        .collect();
    pairs.sort();
    pairs.dedup();
    assert_eq!(pairs.len(), 6);
}

#[test]
fn no_records_no_rows() {
    let (d, s) = recluster(RecordKind::Service, &vec![], &vec![]);
    assert!(d.clustering.clusters.is_empty());
    assert!(s.clusters.is_empty() && s.groups.is_empty() && s.edges.is_empty());
}

#[test]
fn cluster_name_and_description() {
    let id = "0123456789abcdef".to_string();
    assert_eq!(cluster_name(RecordKind::Entity, &id), "ENTITYCluster-01234567");
    assert_eq!(cluster_name(RecordKind::Service, &"abc".to_string()), "SERVICECluster-abc");
    assert_eq!(
        cluster_description(RecordKind::Service, 12),
        "Re-clustered service of 12 services based on user opinions (whitelisted datasets only)."
    );
    assert_eq!(
        cluster_description(RecordKind::Entity, 1),
        "Re-clustered entity of 1 entitys based on user opinions (whitelisted datasets only)."
    );
}

#[test]
fn rows_carry_names_from_their_ids() {
    let u = universe(&["A"]);
    let (_, s) = recluster(RecordKind::Entity, &u, &vec![]);
    let row = &s.clusters[0];
    assert_eq!(row.id.len(), 36);
    assert_eq!(row.name, format!("ENTITYCluster-{}", &row.id[..8]));
    assert_eq!(row.member_count, 1);
}

#[test]
fn fresh_ids_are_distinct_uuids() {
    let ids = fresh_ids(3);
    assert_eq!(ids.len(), 3);
    assert!(ids.iter().all(|s| s.len() == 36 && s.chars().filter(|&c| c == '-').count() == 4));
    assert_ne!(ids[0], ids[1]);
}

#[test]
fn labels_parse() {
    assert_eq!(parse_status(&None), EdgeStatus::PendingReview);
    assert_eq!(parse_status(&Some("CONFIRMED_MATCH".to_string())), EdgeStatus::ConfirmedMatch);
    assert_eq!(parse_status(&Some("CONFIRMED_NON_MATCH".to_string())), EdgeStatus::ConfirmedNonMatch);
    assert_eq!(parse_status(&Some("confirmed_match".to_string())), EdgeStatus::Unrecognized);
    assert_eq!(EdgeStatus::PendingReview.label_text(), "PENDING_REVIEW");
}
