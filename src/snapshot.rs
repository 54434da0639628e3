use vstd::prelude::*;
use vstd::string::StrSliceExecFns;
use crate::clustering::{derive_clusters, Clustering};
use crate::edges::{link_pairs, pairs_of, select_links, selects, status_text, Link, RawEdgeVisualization};
use crate::graph::{build_graph, INDEX_END};
use crate::ids::{in_texts, RecordTable};
use crate::membership::{all_memberships, build_memberships, member_seqs, method_text, Membership};
use crate::record_kind::{kind_text, RecordKind};
use crate::text::{decimal_text, push_decimal};

verus! {

/// Everything derived from one analyst's edges over one universe.
pub struct Derivation {
    /// The distinct records of the universe.
    pub table: RecordTable,
    /// The surviving edges.
    pub links: Vec<Link>,
    /// The partition of the table's records.
    pub clustering: Clustering,
    /// The pairwise memberships of every cluster.
    pub memberships: Vec<Membership>,
}

/// Whether `d` is what the edges imply over the universe.
pub open spec fn derives(
    kind: RecordKind,
    universe: Seq<String>,
    edges: Seq<RawEdgeVisualization>,
    d: Derivation,
) -> bool {
    &&& d.table.wf()
    &&& forall|id: Seq<char>| #[trigger] d.table.holds(id) <==> in_texts(universe, id)
    &&& selects(d.table, kind, edges, d.links@)
    &&& d.clustering.wf(d.table.len())
    &&& d.clustering.follows_links(link_pairs(d.links@))
    &&& d.memberships@ == all_memberships(member_seqs(d.clustering.clusters@))
}

/// Derives the clusters, memberships and surviving edges.
pub fn compute_derivation(kind: RecordKind, universe: &Vec<String>, edges: &Vec<RawEdgeVisualization>) -> (d:
    Derivation)
    requires
        universe@.len() < INDEX_END,
        edges@.len() < INDEX_END,
    ensures
        derives(kind, universe@, edges@, d),
{
    let table = RecordTable::from_universe(universe);
    let links = select_links(&table, kind, edges);
    let pairs = pairs_of(&links);
    proof {
        crate::edges::lemma_selects_bounded(table, kind, edges@, links@);
    }
    let g = build_graph(table.ids.len(), &pairs);
    let clustering = derive_clusters(&g, table.ids.len());
    let memberships = build_memberships(&clustering.clusters);
    Derivation { table, links, clustering, memberships }
}

/// One row of the cluster table.
pub struct ClusterRow {
    pub id: String,
    pub name: String,
    pub description: String,
    pub member_count: usize,
}

/// One row of the group table.
pub struct GroupRow {
    pub id: String,
    pub first_id: String,
    pub second_id: String,
    pub cluster_id: String,
    pub method: String,
}

/// One row of the edge-visualization table; `edge` is the stored edge's place.
pub struct EdgeRow {
    pub id: String,
    pub edge: usize,
    pub cluster_id: String,
    pub first_id: String,
    pub second_id: String,
    pub status: String,
}

/// The rows of one snapshot.
pub struct Snapshot {
    pub clusters: Vec<ClusterRow>,
    pub groups: Vec<GroupRow>,
    pub edges: Vec<EdgeRow>,
}

/// A cluster's name: the kind in capitals, `Cluster-`, and the first eight
/// characters of its identifier.
pub open spec fn cluster_name_text(kind: RecordKind, id: Seq<char>) -> Seq<char> {
    let upper = match kind {
        RecordKind::Entity => "ENTITY"@,
        RecordKind::Service => "SERVICE"@,
    };
    upper + "Cluster-"@ + id.take(if id.len() < 8 {
        id.len() as int
    } else {
        8
    })
}

/// A cluster's description, which gives its number of members.
pub open spec fn cluster_description_text(kind: RecordKind, count: nat) -> Seq<char> {
    "Re-clustered "@ + kind_text(kind) + " of "@ + decimal_text(count) + " "@ + kind_text(kind)
        + "s based on user opinions (whitelisted datasets only)."@
}

/// Whether the rows render the derivation, with the identifiers they hold.
pub open spec fn renders(kind: RecordKind, d: Derivation, s: Snapshot) -> bool {
    let cl = d.clustering.clusters@;
    &&& s.clusters@.len() == cl.len()
    &&& forall|c: int|
        0 <= c < cl.len() ==> {
            let row = #[trigger] s.clusters@[c];
            &&& row.name@ == cluster_name_text(kind, row.id@)
            &&& row.description@ == cluster_description_text(kind, cl[c]@.len())
            &&& row.member_count == cl[c]@.len()
        }
    &&& s.groups@.len() == d.memberships@.len()
    &&& forall|i: int|
        0 <= i < s.groups@.len() ==> {
            let row = #[trigger] s.groups@[i];
            let m = d.memberships@[i];
            &&& row.first_id@ == d.table.ids@[m.first as int]@
            &&& row.second_id@ == d.table.ids@[m.second as int]@
            &&& row.cluster_id@ == s.clusters@[m.cluster as int].id@
            &&& row.method@ == method_text(m.method)
        }
    &&& s.edges@.len() == d.links@.len()
    &&& forall|i: int|
        0 <= i < s.edges@.len() ==> {
            let row = #[trigger] s.edges@[i];
            let l = d.links@[i];
            &&& row.edge == l.edge
            &&& row.first_id@ == d.table.ids@[l.a as int]@
            &&& row.second_id@ == d.table.ids@[l.b as int]@
            &&& row.cluster_id@ == s.clusters@[d.clustering.labels@[l.a as int] as int].id@
            &&& row.status@ == status_text(l.status)
        }
}

/// A cluster's name.
pub fn cluster_name(kind: RecordKind, id: &String) -> (r: String)
    ensures
        r@ == cluster_name_text(kind, id@),
{
    let mut s = kind.upper_label();
    s.append("Cluster-");
    let len = id.as_str().unicode_len();
    let k = if len < 8 {
        len
    } else {
        8
    };
    s.append(id.as_str().substring_char(0, k));
    assert(id@.subrange(0, k as int) =~= id@.take(k as int));
    s
}

/// A cluster's description.
pub fn cluster_description(kind: RecordKind, count: usize) -> (r: String)
    ensures
        r@ == cluster_description_text(kind, count as nat),
{
    let label = kind.label();
    let mut s = "Re-clustered ".to_owned();
    s.append(label.as_str());
    s.append(" of ");
    push_decimal(&mut s, count);
    s.append(" ");
    s.append(label.as_str());
    s.append("s based on user opinions (whitelisted datasets only).");
    s
}

/// The rows of the snapshot, with the given identifiers for clusters,
/// group rows and edge rows.
pub fn render(
    kind: RecordKind,
    d: &Derivation,
    cluster_ids: &Vec<String>,
    group_ids: &Vec<String>,
    edge_ids: &Vec<String>,
) -> (s: Snapshot)
    requires
        d.table.wf(),
        d.clustering.wf(d.table.len()),
        forall|i: int|
            0 <= i < d.links@.len() ==> (#[trigger] d.links@[i]).a < d.table.len() && d.links@[i].b
                < d.table.len(),
        forall|i: int|
            0 <= i < d.memberships@.len() ==> {
                &&& (#[trigger] d.memberships@[i]).first < d.table.len()
                &&& d.memberships@[i].second < d.table.len()
                &&& d.memberships@[i].cluster < d.clustering.clusters@.len()
            },
        cluster_ids@.len() == d.clustering.clusters@.len(),
        group_ids@.len() == d.memberships@.len(),
        edge_ids@.len() == d.links@.len(),
    ensures
        renders(kind, *d, s),
        forall|c: int| 0 <= c < s.clusters@.len() ==> (#[trigger] s.clusters@[c]).id == cluster_ids@[c],
        forall|i: int| 0 <= i < s.groups@.len() ==> (#[trigger] s.groups@[i]).id == group_ids@[i],
        forall|i: int| 0 <= i < s.edges@.len() ==> (#[trigger] s.edges@[i]).id == edge_ids@[i],
{
    let mut clusters: Vec<ClusterRow> = Vec::new();
    let mut c: usize = 0;
    while c < cluster_ids.len()
        invariant
            cluster_ids@.len() == d.clustering.clusters@.len(),
            c <= cluster_ids@.len(),
            clusters@.len() == c,
            forall|k: int|
                0 <= k < c ==> {
                    let row = #[trigger] clusters@[k];
                    &&& row.id == cluster_ids@[k]
                    &&& row.name@ == cluster_name_text(kind, row.id@)
                    &&& row.description@ == cluster_description_text(
                        kind,
                        d.clustering.clusters@[k]@.len(),
                    )
                    &&& row.member_count == d.clustering.clusters@[k]@.len()
                },
        decreases cluster_ids@.len() - c,
    {
        let id = cluster_ids[c].clone();
        let count = d.clustering.clusters[c].len();
        let row = ClusterRow {
            name: cluster_name(kind, &id),
            description: cluster_description(kind, count),
            member_count: count,
            id,
        };
        clusters.push(row);
        c += 1;
    }
    let mut groups: Vec<GroupRow> = Vec::new();
    let mut i: usize = 0;
    while i < group_ids.len()
        invariant
            d.table.wf(),
            forall|i: int|
                0 <= i < d.memberships@.len() ==> {
                    &&& (#[trigger] d.memberships@[i]).first < d.table.len()
                    &&& d.memberships@[i].second < d.table.len()
                    &&& d.memberships@[i].cluster < d.clustering.clusters@.len()
                },
            clusters@.len() == d.clustering.clusters@.len(),
            group_ids@.len() == d.memberships@.len(),
            i <= group_ids@.len(),
            groups@.len() == i,
            forall|k: int|
                0 <= k < i ==> {
                    let row = #[trigger] groups@[k];
                    let m = d.memberships@[k];
                    &&& row.id == group_ids@[k]
                    &&& row.first_id@ == d.table.ids@[m.first as int]@
                    &&& row.second_id@ == d.table.ids@[m.second as int]@
                    &&& row.cluster_id@ == clusters@[m.cluster as int].id@
                    &&& row.method@ == method_text(m.method)
                },
        decreases group_ids@.len() - i,
    {
        let m = d.memberships[i];
        let row = GroupRow {
            id: group_ids[i].clone(),
            first_id: d.table.ids[m.first].clone(),
            second_id: d.table.ids[m.second].clone(),
            cluster_id: clusters[m.cluster].id.clone(),
            method: m.method.text(),
        };
        groups.push(row);
        i += 1;
    }
    let mut edges: Vec<EdgeRow> = Vec::new();
    let mut i: usize = 0;
    while i < edge_ids.len()
        invariant
            d.table.wf(),
            d.clustering.wf(d.table.len()),
            forall|i: int|
                0 <= i < d.links@.len() ==> (#[trigger] d.links@[i]).a < d.table.len()
                    && d.links@[i].b < d.table.len(),
            clusters@.len() == d.clustering.clusters@.len(),
            edge_ids@.len() == d.links@.len(),
            i <= edge_ids@.len(),
            edges@.len() == i,
            forall|k: int|
                0 <= k < i ==> {
                    let row = #[trigger] edges@[k];
                    let l = d.links@[k];
                    &&& row.id == edge_ids@[k]
                    &&& row.edge == l.edge
                    &&& row.first_id@ == d.table.ids@[l.a as int]@
                    &&& row.second_id@ == d.table.ids@[l.b as int]@
                    &&& row.cluster_id@ == clusters@[d.clustering.labels@[l.a as int] as int].id@
                    &&& row.status@ == status_text(l.status)
                },
        decreases edge_ids@.len() - i,
    {
        let l = d.links[i];
        let label = d.clustering.labels[l.a];
        let row = EdgeRow {
            id: edge_ids[i].clone(),
            edge: l.edge,
            cluster_id: clusters[label].id.clone(),
            first_id: d.table.ids[l.a].clone(),
            second_id: d.table.ids[l.b].clone(),
            status: l.status.label_text(),
        };
        edges.push(row);
        i += 1;
    }
    Snapshot { clusters, groups, edges }
}

} // verus!

verus! {

/// Relies on `Uuid::new_v4` and `Uuid`'s `Display`, which writes the
/// hyphenated form: a fresh random identifier of 36 characters.
#[verifier::external_body]
fn fresh_id() -> (r: String)
    ensures
        r@.len() == 36,
{
    uuid::Uuid::new_v4().to_string()
}

/// `k` fresh random identifiers.
pub fn fresh_ids(k: usize) -> (r: Vec<String>)
    ensures
        r@.len() == k,
        forall|i: int| 0 <= i < k ==> (#[trigger] r@[i])@.len() == 36,
{
    let mut r: Vec<String> = Vec::new();
    let mut i: usize = 0;
    while i < k
        invariant
            i <= k,
            r@.len() == i,
            forall|j: int| 0 <= j < i ==> (#[trigger] r@[j])@.len() == 36,
        decreases k - i,
    {
        r.push(fresh_id());
        i += 1;
    }
    r
}

/// Reclusters one analyst's edges over one universe: the derivation, and its
/// rows under fresh random identifiers.
pub fn recluster(kind: RecordKind, universe: &Vec<String>, edges: &Vec<RawEdgeVisualization>) -> (r: (
    Derivation,
    Snapshot,
))
    requires
        universe@.len() < INDEX_END,
        edges@.len() < INDEX_END,
    ensures
        derives(kind, universe@, edges@, r.0),
        renders(kind, r.0, r.1),
{
    let d = compute_derivation(kind, universe, edges);
    proof {
        crate::edges::lemma_selects_bounded(d.table, kind, edges@, d.links@);
        let cl = member_seqs(d.clustering.clusters@);
        assert forall|c: int, i: int| 0 <= c < cl.len() && 0 <= i < cl[c].len() implies #[trigger] cl[c][i]
            < d.table.len() by {
            assert(cl[c] == d.clustering.clusters@[c]@);
            assert(d.clustering.clusters@[c]@[i] < d.table.len());
        }
        crate::membership::lemma_memberships_bounded(cl, cl.len() as int, d.table.len());
    }
    let cluster_ids = fresh_ids(d.clustering.clusters.len());
    let group_ids = fresh_ids(d.memberships.len());
    let edge_ids = fresh_ids(d.links.len());
    let s = render(kind, &d, &cluster_ids, &group_ids, &edge_ids);
    (d, s)
}

} // verus!
