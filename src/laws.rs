use vstd::prelude::*;
use crate::clustering::{connected, is_walk};
use crate::edges::{
    kept_indices, keeps, lemma_kept_ends_holds_only, lemma_kept_indices_bounded,
    lemma_same_ends_same_pairs, lemma_without_non_matches_ends, link_pairs,
    without_non_matches, EdgeStatus, RawEdgeVisualization,
};
use crate::ids::{in_texts, lemma_table_distinct, lemma_tables_agree};
use crate::membership::{cluster_memberships, pair_row, pairs_upto, Membership, MembershipMethod};
use crate::record_kind::RecordKind;
use crate::snapshot::{derives, Derivation};

verus! {

/// Whether two derivations group the same records together.
pub open spec fn same_partition(d1: Derivation, d2: Derivation) -> bool {
    &&& d1.table.view_ids() == d2.table.view_ids()
    &&& forall|x: int, y: int|
        0 <= x < d1.table.len() && 0 <= y < d1.table.len() ==> (d1.clustering.labels@[x]
            == d1.clustering.labels@[y] <==> #[trigger] d2.clustering.labels@[x]
            == #[trigger] d2.clustering.labels@[y])
}

/// The clusters cover exactly the universe, and no record lies in two
/// clusters or twice in one.
pub proof fn law_partition(
    kind: RecordKind,
    universe: Seq<String>,
    edges: Seq<RawEdgeVisualization>,
    d: Derivation,
)
    requires
        derives(kind, universe, edges, d),
    ensures
        forall|id: Seq<char>|
            in_texts(universe, id) <==> exists|c: int, i: int|
                0 <= c < d.clustering.clusters@.len() && 0 <= i < d.clustering.clusters@[c]@.len()
                    && #[trigger] d.table.ids@[d.clustering.clusters@[c]@[i] as int]@ == id,
        forall|c1: int, i1: int, c2: int, i2: int|
            0 <= c1 < d.clustering.clusters@.len() && 0 <= i1 < d.clustering.clusters@[c1]@.len() && 0
                <= c2 < d.clustering.clusters@.len() && 0 <= i2 < d.clustering.clusters@[c2]@.len()
                && #[trigger] d.table.ids@[d.clustering.clusters@[c1]@[i1] as int]@
                == #[trigger] d.table.ids@[d.clustering.clusters@[c2]@[i2] as int]@ ==> c1 == c2 && i1
                == i2,
{
    let cl = d.clustering.clusters@;
    let ids = d.table.ids@;
    assert(d.table.ids.len() == ids.len());
    reveal(in_texts);
    assert forall|id: Seq<char>|
        in_texts(universe, id) implies exists|c: int, i: int|
            0 <= c < cl.len() && 0 <= i < cl[c]@.len() && #[trigger] ids[cl[c]@[i] as int]@ == id by {
        assert(d.table.holds(id));
        let x = choose|x: int| 0 <= x < ids.len() && #[trigger] ids[x]@ == id;
        let c = d.clustering.labels@[x] as int;
        assert(cl[c]@.contains(x as usize));
        let i = choose|i: int| 0 <= i < cl[c]@.len() && cl[c]@[i] == x as usize;
        assert(cl[c]@[i] as int == x);
        assert(ids[x]@ == id);
        assert(ids[cl[c]@[i] as int]@ == id);
    }
    assert forall|id: Seq<char>|
        (exists|c: int, i: int|
            0 <= c < cl.len() && 0 <= i < cl[c]@.len() && #[trigger] ids[cl[c]@[i] as int]@ == id)
            implies in_texts(universe, id) by {
        let (c, i) = choose|c: int, i: int|
            0 <= c < cl.len() && 0 <= i < cl[c]@.len() && #[trigger] ids[cl[c]@[i] as int]@ == id;
        let x = cl[c]@[i] as int;
        assert(ids[x]@ == id);
        assert(d.table.holds(id));
    }
    assert forall|c1: int, i1: int, c2: int, i2: int|
        0 <= c1 < cl.len() && 0 <= i1 < cl[c1]@.len() && 0 <= c2 < cl.len() && 0 <= i2
            < cl[c2]@.len() && #[trigger] ids[cl[c1]@[i1] as int]@ == #[trigger] ids[cl[c2]@[i2] as int]@
            implies c1 == c2 && i1 == i2 by {
        lemma_table_distinct(d.table, cl[c1]@[i1] as int, cl[c2]@[i2] as int);
        assert(cl[c1][i1] == cl[c2][i2]);
    }
}

/// Derivations with the same surviving endpoint texts group alike.
proof fn lemma_same_links_same_partition(
    kind: RecordKind,
    universe: Seq<String>,
    e1: Seq<RawEdgeVisualization>,
    e2: Seq<RawEdgeVisualization>,
    d1: Derivation,
    d2: Derivation,
)
    requires
        derives(kind, universe, e1, d1),
        derives(kind, universe, e2, d2),
        crate::edges::kept_ends(d2.table, kind, e1) == crate::edges::kept_ends(d2.table, kind, e2),
    ensures
        same_partition(d1, d2),
{
    lemma_tables_agree(d1.table, d2.table);
    lemma_kept_ends_holds_only(d1.table, d2.table, kind, e1);
    lemma_same_ends_same_pairs(d1.table, d2.table, kind, e1, e2, d1.links@, d2.links@);
    assert(d1.table.ids@.len() == crate::ids::texts(d1.table.ids@).len());
    assert(d2.table.ids@.len() == crate::ids::texts(d2.table.ids@).len());
    let p = link_pairs(d1.links@);
    assert forall|x: int, y: int|
        0 <= x < d1.table.len() && 0 <= y < d1.table.len() implies (d1.clustering.labels@[x]
            == d1.clustering.labels@[y] <==> #[trigger] d2.clustering.labels@[x]
            == #[trigger] d2.clustering.labels@[y]) by {
        assert(d1.clustering.labels@[x] == d1.clustering.labels@[y] <==> connected(p, x, y));
        assert(d2.clustering.labels@[x] == d2.clustering.labels@[y] <==> connected(p, x, y));
    }
}

/// Reclustering the same edges over the same universe twice groups the
/// records alike; only the fresh identifiers may differ.
pub proof fn law_rerun_same_partition(
    kind: RecordKind,
    universe: Seq<String>,
    edges: Seq<RawEdgeVisualization>,
    d1: Derivation,
    d2: Derivation,
)
    requires
        derives(kind, universe, edges, d1),
        derives(kind, universe, edges, d2),
    ensures
        same_partition(d1, d2),
{
    lemma_same_links_same_partition(kind, universe, edges, edges, d1, d2);
}

/// Confirmed non-matches never connect: no surviving edge is one, and
/// dropping them before reclustering groups the records alike.
pub proof fn law_non_match_severance(
    kind: RecordKind,
    universe: Seq<String>,
    edges: Seq<RawEdgeVisualization>,
    d1: Derivation,
    d2: Derivation,
)
    requires
        derives(kind, universe, edges, d1),
        derives(kind, universe, without_non_matches(edges), d2),
    ensures
        forall|i: int| 0 <= i < d1.links@.len() ==> (#[trigger] d1.links@[i]).status != EdgeStatus::ConfirmedNonMatch,
        same_partition(d1, d2),
{
    lemma_kept_indices_bounded(d1.table, kind, edges);
    assert forall|i: int| 0 <= i < d1.links@.len() implies (#[trigger] d1.links@[i]).status
        != EdgeStatus::ConfirmedNonMatch by {
        let k = kept_indices(d1.table, kind, edges)[i];
        assert(keeps(d1.table, kind, edges[k]));
    }
    lemma_without_non_matches_ends(d2.table, kind, edges);
    lemma_same_links_same_partition(kind, universe, edges, without_non_matches(edges), d1, d2);
}

/// A record that no surviving edge touches forms a cluster of its own.
pub proof fn law_singleton(
    kind: RecordKind,
    universe: Seq<String>,
    edges: Seq<RawEdgeVisualization>,
    d: Derivation,
    x: int,
)
    requires
        derives(kind, universe, edges, d),
        0 <= x < d.table.len(),
        forall|k: int| 0 <= k < d.links@.len() ==> (#[trigger] d.links@[k]).a != x && d.links@[k].b != x,
    ensures
        d.clustering.clusters@[d.clustering.labels@[x] as int]@ == seq![x as usize],
{
    let p = link_pairs(d.links@);
    let c = d.clustering.labels@[x] as int;
    let m = d.clustering.clusters@[c]@;
    assert forall|i: int| 0 <= i < m.len() implies #[trigger] m[i] == x as usize by {
        let y = m[i] as int;
        assert(d.clustering.labels@[y] == c);
        assert(connected(p, x, y));
        reveal(connected);
        let w = choose|w: Seq<int>| #[trigger] is_walk(p, w) && w[0] == x && w.last() == y;
        if w.len() > 1 {
            assert(crate::graph::adjacent(p, w[0], w[1]));
            let k = choose|k: int|
                0 <= k < p.len() && ((#[trigger] p[k]).0 == w[0] && p[k].1 == w[1] || p[k].0 == w[1]
                    && p[k].1 == w[0]);
            assert(p[k] == (d.links@[k].a, d.links@[k].b));
        }
    }
    assert(m.contains(x as usize));
    if m.len() > 1 {
        assert(m[0] == m[1]);
    }
    assert(m =~= seq![x as usize]);
}

proof fn lemma_pairs_upto_len(m: Seq<usize>, i: int, c: usize)
    requires
        0 <= i <= m.len(),
    ensures
        2 * pairs_upto(m, i, c).len() == i * (2 * m.len() - i - 1),
    decreases i,
{
    if i > 0 {
        lemma_pairs_upto_len(m, i - 1, c);
        let n = m.len() as int;
        assert(pair_row(m, i - 1, c).len() == n - i);
        assert(pairs_upto(m, i, c).len() == pairs_upto(m, i - 1, c).len() + (n - i));
        assert((i - 1) * (2 * n - i) + 2 * (n - i) == i * (2 * n - i - 1)) by (nonlinear_arith);
    }
}

proof fn lemma_pairs_upto_prefix(m: Seq<usize>, i: int, i2: int, c: usize, k: int)
    requires
        0 <= i <= i2 <= m.len(),
        0 <= k < pairs_upto(m, i, c).len(),
    ensures
        k < pairs_upto(m, i2, c).len(),
        pairs_upto(m, i2, c)[k] == pairs_upto(m, i, c)[k],
    decreases i2 - i,
{
    if i2 > i {
        lemma_pairs_upto_prefix(m, i, i2 - 1, c, k);
    }
}

proof fn lemma_pairs_upto_shape(m: Seq<usize>, i: int, c: usize, k: int)
    requires
        0 <= i <= m.len(),
        0 <= k < pairs_upto(m, i, c).len(),
    ensures
        ({
            let e = pairs_upto(m, i, c)[k];
            &&& e.method == MembershipMethod::Connected
            &&& e.cluster == c
            &&& exists|a: int, b: int| 0 <= a < b < m.len() && e.first == m[a] && e.second == m[b]
        }),
    decreases i,
{
    let prev = pairs_upto(m, i - 1, c);
    if k < prev.len() {
        lemma_pairs_upto_shape(m, i - 1, c, k);
        assert(pairs_upto(m, i, c)[k] == prev[k]);
    } else {
        let j = k - prev.len();
        let e = pairs_upto(m, i, c)[k];
        assert(e == pair_row(m, i - 1, c)[j]);
        assert(e.first == m[i - 1] && e.second == m[i - 1 + 1 + j]);
    }
}

/// A cluster of `n` > 1 members yields exactly n(n-1)/2 connected
/// memberships, one for each unordered pair of members.
pub proof fn law_pairwise(m: Seq<usize>, c: usize)
    requires
        m.len() > 1,
    ensures
        2 * cluster_memberships(m, c).len() == m.len() * (m.len() - 1),
        forall|k: int|
            0 <= k < cluster_memberships(m, c).len() ==> {
                let e = #[trigger] cluster_memberships(m, c)[k];
                &&& e.method == MembershipMethod::Connected
                &&& e.cluster == c
                &&& exists|a: int, b: int| 0 <= a < b < m.len() && e.first == m[a] && e.second == m[b]
            },
        forall|a: int, b: int|
            #![trigger m[a], m[b]]
            0 <= a < b < m.len() ==> exists|k: int|
                0 <= k < cluster_memberships(m, c).len() && #[trigger] cluster_memberships(m, c)[k]
                    == (Membership {
                    first: m[a],
                    second: m[b],
                    cluster: c,
                    method: MembershipMethod::Connected,
                }),
{
    lemma_pairwise_count(m, c);
    lemma_pairwise_shape(m, c);
    lemma_pairwise_cover(m, c);
}

proof fn lemma_pairwise_count(m: Seq<usize>, c: usize)
    requires
        m.len() > 1,
    ensures
        2 * cluster_memberships(m, c).len() == m.len() * (m.len() - 1),
{
    let n = m.len() as int;
    reveal(cluster_memberships);
    assert(cluster_memberships(m, c) == pairs_upto(m, n, c));
    lemma_pairs_upto_len(m, n, c);
    assert(n * (2 * n - n - 1) == n * (n - 1)) by (nonlinear_arith);
}

proof fn lemma_pairwise_shape(m: Seq<usize>, c: usize)
    requires
        m.len() > 1,
    ensures
        forall|k: int|
            0 <= k < cluster_memberships(m, c).len() ==> {
                let e = #[trigger] cluster_memberships(m, c)[k];
                &&& e.method == MembershipMethod::Connected
                &&& e.cluster == c
                &&& exists|a: int, b: int| 0 <= a < b < m.len() && e.first == m[a] && e.second == m[b]
            },
{
    let n = m.len() as int;
    reveal(cluster_memberships);
    assert(cluster_memberships(m, c) == pairs_upto(m, n, c));
    assert forall|k: int| 0 <= k < cluster_memberships(m, c).len() implies {
        let e = #[trigger] cluster_memberships(m, c)[k];
        &&& e.method == MembershipMethod::Connected
        &&& e.cluster == c
        &&& exists|a: int, b: int| 0 <= a < b < m.len() && e.first == m[a] && e.second == m[b]
    } by {
        lemma_pairs_upto_shape(m, n, c, k);
    }
}

proof fn lemma_pairwise_cover(m: Seq<usize>, c: usize)
    requires
        m.len() > 1,
    ensures
        forall|a: int, b: int|
            #![trigger m[a], m[b]]
            0 <= a < b < m.len() ==> exists|k: int|
                0 <= k < cluster_memberships(m, c).len() && #[trigger] cluster_memberships(m, c)[k]
                    == (Membership {
                    first: m[a],
                    second: m[b],
                    cluster: c,
                    method: MembershipMethod::Connected,
                }),
{
    assert forall|a: int, b: int| #![trigger m[a], m[b]] 0 <= a < b < m.len() implies exists|k: int|
        0 <= k < cluster_memberships(m, c).len() && #[trigger] cluster_memberships(m, c)[k] == (Membership {
            first: m[a],
            second: m[b],
            cluster: c,
            method: MembershipMethod::Connected,
        }) by {
        let k = lemma_pair_present(m, c, a, b);
    }
}

proof fn lemma_pair_present(m: Seq<usize>, c: usize, a: int, b: int) -> (k: int)
    requires
        m.len() > 1,
        0 <= a < b < m.len(),
    ensures
        0 <= k < cluster_memberships(m, c).len(),
        cluster_memberships(m, c)[k] == (Membership {
            first: m[a],
            second: m[b],
            cluster: c,
            method: MembershipMethod::Connected,
        }),
{
    let n = m.len() as int;
    let base = pairs_upto(m, a, c).len() as int;
    let k = base + (b - a - 1);
    assert(pair_row(m, a, c).len() == n - a - 1);
    assert(pairs_upto(m, a + 1, c) == pairs_upto(m, a, c) + pair_row(m, a, c));
    assert(pairs_upto(m, a + 1, c)[k] == pair_row(m, a, c)[b - a - 1]);
    lemma_pairs_upto_prefix(m, a + 1, n, c, k);
    reveal(cluster_memberships);
    assert(cluster_memberships(m, c) == pairs_upto(m, n, c));
    k
}

} // verus!
