use vstd::prelude::*;
use crate::graph::{adjacent, graph_edges, graph_nodes, links_within, neighbors, LinkGraph};

verus! {

/// Whether `p` is a walk along links.
pub open spec fn is_walk(links: Seq<(usize, usize)>, p: Seq<int>) -> bool {
    &&& p.len() > 0
    &&& forall|i: int| 0 <= i < p.len() - 1 ==> adjacent(links, #[trigger] p[i], p[i + 1])
}

/// Whether a walk along links leads from `x` to `y`.
#[verifier::opaque]
pub open spec fn connected(links: Seq<(usize, usize)>, x: int, y: int) -> bool {
    exists|p: Seq<int>| #[trigger] is_walk(links, p) && p[0] == x && p.last() == y
}

pub proof fn lemma_connected_refl(links: Seq<(usize, usize)>, x: int)
    ensures
        connected(links, x, x),
{
    reveal(connected);
    let p = seq![x];
    assert(is_walk(links, p));
}

pub proof fn lemma_connected_step(links: Seq<(usize, usize)>, x: int, y: int, z: int)
    requires
        connected(links, x, y),
        adjacent(links, y, z),
    ensures
        connected(links, x, z),
{
    reveal(connected);
    let p = choose|p: Seq<int>| is_walk(links, p) && p[0] == x && p.last() == y;
    let q = p.push(z);
    assert forall|i: int| 0 <= i < q.len() - 1 implies adjacent(links, #[trigger] q[i], q[i + 1]) by {
        if i < p.len() - 1 {
            assert(q[i] == p[i] && q[i + 1] == p[i + 1]);
        }
    }
    assert(is_walk(links, q));
}

pub proof fn lemma_adjacent_symmetric(links: Seq<(usize, usize)>, x: int, y: int)
    requires
        adjacent(links, x, y),
    ensures
        adjacent(links, y, x),
{
    let k = choose|k: int|
        0 <= k < links.len() && ((#[trigger] links[k]).0 == x && links[k].1 == y || links[k].0 == y
            && links[k].1 == x);
    assert(links[k].0 == y && links[k].1 == x || links[k].0 == x && links[k].1 == y);
}

pub proof fn lemma_connected_symmetric(links: Seq<(usize, usize)>, x: int, y: int)
    requires
        connected(links, x, y),
    ensures
        connected(links, y, x),
{
    reveal(connected);
    let p = choose|p: Seq<int>| is_walk(links, p) && p[0] == x && p.last() == y;
    let q = Seq::new(p.len(), |i: int| p[p.len() - 1 - i]);
    assert forall|i: int| 0 <= i < q.len() - 1 implies adjacent(links, #[trigger] q[i], q[i + 1]) by {
        let j = p.len() - 2 - i;
        assert(adjacent(links, p[j], p[j + 1]));
        lemma_adjacent_symmetric(links, p[j], p[j + 1]);
    }
    assert(is_walk(links, q));
}

pub proof fn lemma_connected_transitive(links: Seq<(usize, usize)>, x: int, y: int, z: int)
    requires
        connected(links, x, y),
        connected(links, y, z),
    ensures
        connected(links, x, z),
{
    reveal(connected);
    let p = choose|p: Seq<int>| is_walk(links, p) && p[0] == x && p.last() == y;
    let q = choose|q: Seq<int>| is_walk(links, q) && q[0] == y && q.last() == z;
    let r = p + q.drop_first();
    assert forall|i: int| 0 <= i < r.len() - 1 implies adjacent(links, #[trigger] r[i], r[i + 1]) by {
        if i < p.len() - 1 {
            assert(r[i] == p[i] && r[i + 1] == p[i + 1]);
        } else {
            let j = i - p.len() + 1;
            assert(r[i] == q[j] && r[i + 1] == q[j + 1]);
        }
    }
    assert(is_walk(links, r));
}

/// Labels that agree across every link agree along every walk.
pub proof fn lemma_closed_labels_connected(
    links: Seq<(usize, usize)>,
    labels: Seq<usize>,
    x: int,
    y: int,
)
    requires
        links_within(links, labels.len()),
        0 <= x < labels.len(),
        forall|a: int, b: int|
            0 <= a < labels.len() && 0 <= b < labels.len() && #[trigger] adjacent(links, a, b)
                ==> labels[a] == labels[b],
        connected(links, x, y),
    ensures
        0 <= y < labels.len(),
        labels[x] == labels[y],
{
    reveal(connected);
    let p = choose|p: Seq<int>| is_walk(links, p) && p[0] == x && p.last() == y;
    lemma_walk_labels(links, labels, p, p.len() - 1);
}

proof fn lemma_walk_labels(links: Seq<(usize, usize)>, labels: Seq<usize>, p: Seq<int>, i: int)
    requires
        links_within(links, labels.len()),
        is_walk(links, p),
        0 <= p[0] < labels.len(),
        0 <= i < p.len(),
        forall|a: int, b: int|
            0 <= a < labels.len() && 0 <= b < labels.len() && #[trigger] adjacent(links, a, b)
                ==> labels[a] == labels[b],
    ensures
        0 <= p[i] < labels.len(),
        labels[p[i]] == labels[p[0]],
    decreases i,
{
    if i > 0 {
        lemma_walk_labels(links, labels, p, i - 1);
        assert(adjacent(links, p[i - 1], p[i]));
        let k = choose|k: int|
            0 <= k < links.len() && ((#[trigger] links[k]).0 == p[i - 1] && links[k].1 == p[i]
                || links[k].0 == p[i] && links[k].1 == p[i - 1]);
        assert(links[k].0 < labels.len() && links[k].1 < labels.len());
    }
}

/// The number of `false` entries.
pub open spec fn count_false(s: Seq<bool>) -> nat
    decreases s.len(),
{
    if s.len() == 0 {
        0
    } else {
        count_false(s.drop_last()) + if s.last() {
            0nat
        } else {
            1nat
        }
    }
}

proof fn lemma_count_false_mark(s: Seq<bool>, i: int)
    requires
        0 <= i < s.len(),
        !s[i],
    ensures
        count_false(s.update(i, true)) + 1 == count_false(s),
    decreases s.len(),
{
    let t = s.update(i, true);
    if i == s.len() - 1 {
        assert(t.drop_last() =~= s.drop_last());
    } else {
        assert(t.drop_last() =~= s.drop_last().update(i, true));
        lemma_count_false_mark(s.drop_last(), i);
    }
}

/// A partition of the first `n` records into clusters.
///
/// `labels[x]` is the cluster of record `x`; `clusters[c]` lists the members
/// of cluster `c`, each once.
pub struct Clustering {
    pub labels: Vec<usize>,
    pub clusters: Vec<Vec<usize>>,
}

impl Clustering {
    /// Labels and member lists agree, and every cluster is non-empty.
    pub open spec fn wf(&self, n: nat) -> bool {
        &&& self.labels@.len() == n
        &&& forall|x: int| 0 <= x < n ==> (#[trigger] self.labels@[x]) < self.clusters@.len()
        &&& forall|x: int|
            0 <= x < n ==> self.clusters@[#[trigger] self.labels@[x] as int]@.contains(x as usize)
        &&& forall|c: int|
            0 <= c < self.clusters@.len() ==> {
                &&& (#[trigger] self.clusters@[c])@.len() > 0
                &&& self.clusters@[c]@.no_duplicates()
            }
        &&& forall|c: int, i: int|
            0 <= c < self.clusters@.len() && 0 <= i < self.clusters@[c]@.len() ==> {
                &&& (#[trigger] self.clusters@[c]@[i]) < n
                &&& self.labels@[self.clusters@[c]@[i] as int] == c
            }
    }

    /// Two records share a cluster exactly when a walk along links joins them.
    pub open spec fn follows_links(&self, links: Seq<(usize, usize)>) -> bool {
        forall|x: int, y: int|
            0 <= x < self.labels@.len() && 0 <= y < self.labels@.len() ==> (self.labels@[x]
                == self.labels@[y] <==> #[trigger] connected(links, x, y))
    }
}

/// The connected components of the graph, found by depth-first search.
#[verifier::rlimit(60)]
pub fn derive_clusters(g: &LinkGraph, n: usize) -> (r: Clustering)
    requires
        graph_nodes(*g).len() == n,
        links_within(graph_edges(*g), n as nat),
    ensures
        r.wf(n as nat),
        r.follows_links(graph_edges(*g)),
{
    let ghost links = graph_edges(*g);
    let mut seen: Vec<bool> = Vec::new();
    let mut labels: Vec<usize> = Vec::new();
    let mut i: usize = 0;
    while i < n
        invariant
            i <= n,
            seen@.len() == i,
            labels@.len() == i,
            forall|x: int| 0 <= x < i ==> !(#[trigger] seen@[x]),
        decreases n - i,
    {
        seen.push(false);
        labels.push(0);
        i += 1;
    }
    let mut clusters: Vec<Vec<usize>> = Vec::new();
    let ghost mut roots: Seq<int> = Seq::empty();
    let mut r: usize = 0;
    while r < n
        invariant
            graph_nodes(*g).len() == n,
            links == graph_edges(*g),
            links_within(links, n as nat),
            r <= n,
            seen@.len() == n,
            labels@.len() == n,
            roots.len() == clusters@.len(),
            forall|x: int| 0 <= x < r ==> #[trigger] seen@[x],
            forall|x: int| 0 <= x < n && #[trigger] seen@[x] ==> labels@[x] < clusters@.len(),
            forall|x: int, y: int|
                0 <= x < n && 0 <= y < n && seen@[x] && #[trigger] adjacent(links, x, y) ==> seen@[y]
                    && labels@[y] == labels@[x],
            forall|x: int|
                0 <= x < n && #[trigger] seen@[x] ==> connected(links, roots[labels@[x] as int], x),
            forall|x: int|
                0 <= x < n && #[trigger] seen@[x] ==> clusters@[labels@[x] as int]@.contains(
                    x as usize,
                ),
            forall|c: int|
                0 <= c < clusters@.len() ==> {
                    &&& (#[trigger] clusters@[c])@.len() > 0
                    &&& clusters@[c]@.no_duplicates()
                },
            forall|c: int, k: int|
                0 <= c < clusters@.len() && 0 <= k < clusters@[c]@.len() ==> {
                    &&& (#[trigger] clusters@[c]@[k]) < n
                    &&& seen@[clusters@[c]@[k] as int]
                    &&& labels@[clusters@[c]@[k] as int] == c
                },
        decreases n - r,
    {
        if !seen[r] {
            let c = clusters.len();
            let ghost root = r as int;
            seen.set(r, true);
            labels.set(r, c);
            let mut current: Vec<usize> = vec![r];
            let mut stack: Vec<usize> = vec![r];
            proof {
                lemma_connected_refl(links, root);
                roots = roots.push(root);
            }
            while stack.len() > 0
                invariant
                    graph_nodes(*g).len() == n,
                    links == graph_edges(*g),
                    links_within(links, n as nat),
                    r < n,
                    seen@[r as int],
                    c == clusters@.len(),
                    seen@.len() == n,
                    labels@.len() == n,
                    roots.len() == c + 1,
                    roots[c as int] == root,
                    forall|x: int| 0 <= x < r ==> #[trigger] seen@[x],
                    forall|x: int| 0 <= x < n && #[trigger] seen@[x] ==> labels@[x] <= c,
                    forall|x: int, y: int|
                        0 <= x < n && 0 <= y < n && seen@[x] && labels@[x] < c
                            && #[trigger] adjacent(links, x, y) ==> seen@[y] && labels@[y]
                            == labels@[x],
                    forall|x: int|
                        0 <= x < n && #[trigger] seen@[x] && labels@[x] == c ==> stack@.contains(
                            x as usize,
                        ) || forall|y: int|
                            0 <= y < n && #[trigger] adjacent(links, x, y) ==> seen@[y]
                                && labels@[y] == c,
                    forall|k: int|
                        0 <= k < stack@.len() ==> (#[trigger] stack@[k]) < n && seen@[stack@[k] as int]
                            && labels@[stack@[k] as int] == c,
                    forall|x: int|
                        0 <= x < n && #[trigger] seen@[x] ==> connected(
                            links,
                            roots[labels@[x] as int],
                            x,
                        ),
                    forall|x: int|
                        0 <= x < n && #[trigger] seen@[x] && labels@[x] < c ==> clusters@[labels@[x] as int]@.contains(
                            x as usize,
                        ),
                    forall|x: int|
                        0 <= x < n && #[trigger] seen@[x] && labels@[x] == c ==> current@.contains(
                            x as usize,
                        ),
                    current@.len() > 0,
                    current@.no_duplicates(),
                    forall|k: int|
                        0 <= k < current@.len() ==> (#[trigger] current@[k]) < n && seen@[current@[k] as int]
                            && labels@[current@[k] as int] == c,
                    forall|d: int|
                        0 <= d < clusters@.len() ==> {
                            &&& (#[trigger] clusters@[d])@.len() > 0
                            &&& clusters@[d]@.no_duplicates()
                        },
                    forall|d: int, k: int|
                        0 <= d < clusters@.len() && 0 <= k < clusters@[d]@.len() ==> {
                            &&& (#[trigger] clusters@[d]@[k]) < n
                            &&& seen@[clusters@[d]@[k] as int]
                            &&& labels@[clusters@[d]@[k] as int] == d
                        },
                decreases count_false(seen@) + stack@.len(),
            {
                let ghost stack_before_pop = stack@;
                let x = stack.pop().unwrap();
                proof {
                    assert(stack_before_pop =~= stack@.push(x));
                    assert forall|z: int|
                        0 <= z < n && #[trigger] seen@[z] && labels@[z] == c && stack_before_pop.contains(
                            z as usize,
                        ) implies z == x || stack@.contains(z as usize) by {
                        let k = choose|k: int| 0 <= k < stack_before_pop.len() && stack_before_pop[k] == z as usize;
                        if k < stack@.len() {
                            assert(stack@[k] == z as usize);
                        }
                    }
                }
                let nbrs = neighbors(g, x);
                proof {
                    assert forall|k: int| 0 <= k < nbrs@.len() implies (#[trigger] nbrs@[k]) < n by {
                        let y = nbrs@[k];
                        assert(nbrs@.contains(y));
                        let e = choose|e: int|
                            0 <= e < links.len() && ((#[trigger] links[e]).0 == x && links[e].1 == y
                                || links[e].0 == y && links[e].1 == x);
                        assert(links[e].0 < n && links[e].1 < n);
                    }
                }
                let ghost measure = count_false(seen@) + stack@.len();
                let mut j: usize = 0;
                while j < nbrs.len()
                    invariant
                        graph_nodes(*g).len() == n,
                        links == graph_edges(*g),
                        links_within(links, n as nat),
                        r < n,
                        seen@[r as int],
                        x < n,
                        seen@[x as int],
                        labels@[x as int] == c,
                        forall|y: usize| #[trigger] nbrs@.contains(y) <==> adjacent(links, x as int, y as int),
                        j <= nbrs@.len(),
                        forall|k: int| 0 <= k < nbrs@.len() ==> (#[trigger] nbrs@[k]) < n,
                        count_false(seen@) + stack@.len() == measure,
                        c == clusters@.len(),
                        seen@.len() == n,
                        labels@.len() == n,
                        roots.len() == c + 1,
                        roots[c as int] == root,
                        forall|k: int| 0 <= k < j ==> seen@[#[trigger] nbrs@[k] as int] && labels@[nbrs@[k] as int] == c,
                        forall|x: int| 0 <= x < r ==> #[trigger] seen@[x],
                        forall|x: int| 0 <= x < n && #[trigger] seen@[x] ==> labels@[x] <= c,
                        forall|x: int, y: int|
                            0 <= x < n && 0 <= y < n && seen@[x] && labels@[x] < c
                                && #[trigger] adjacent(links, x, y) ==> seen@[y] && labels@[y]
                                == labels@[x],
                        forall|z: int|
                            0 <= z < n && #[trigger] seen@[z] && labels@[z] == c ==> z == x || stack@.contains(
                                z as usize,
                            ) || forall|y: int|
                                0 <= y < n && #[trigger] adjacent(links, z, y) ==> seen@[y]
                                    && labels@[y] == c,
                        forall|k: int|
                            0 <= k < stack@.len() ==> (#[trigger] stack@[k]) < n && seen@[stack@[k] as int]
                                && labels@[stack@[k] as int] == c,
                        forall|z: int|
                            0 <= z < n && #[trigger] seen@[z] ==> connected(
                                links,
                                roots[labels@[z] as int],
                                z,
                            ),
                        forall|z: int|
                            0 <= z < n && #[trigger] seen@[z] && labels@[z] < c ==> clusters@[labels@[z] as int]@.contains(
                                z as usize,
                            ),
                        forall|z: int|
                            0 <= z < n && #[trigger] seen@[z] && labels@[z] == c ==> current@.contains(
                                z as usize,
                            ),
                        current@.len() > 0,
                        current@.no_duplicates(),
                        forall|k: int|
                            0 <= k < current@.len() ==> (#[trigger] current@[k]) < n && seen@[current@[k] as int]
                                && labels@[current@[k] as int] == c,
                        forall|d: int|
                            0 <= d < clusters@.len() ==> {
                                &&& (#[trigger] clusters@[d])@.len() > 0
                                &&& clusters@[d]@.no_duplicates()
                            },
                        forall|d: int, k: int|
                            0 <= d < clusters@.len() && 0 <= k < clusters@[d]@.len() ==> {
                                &&& (#[trigger] clusters@[d]@[k]) < n
                                &&& seen@[clusters@[d]@[k] as int]
                                &&& labels@[clusters@[d]@[k] as int] == d
                            },
                    decreases nbrs@.len() - j,
                {
                    let y = nbrs[j];
                    proof {
                        assert(nbrs@.contains(y));
                        assert(adjacent(links, x as int, y as int));
                        let k = choose|k: int|
                            0 <= k < links.len() && ((#[trigger] links[k]).0 == x && links[k].1 == y
                                || links[k].0 == y && links[k].1 == x);
                        assert(links[k].0 < n && links[k].1 < n);
                        lemma_adjacent_symmetric(links, x as int, y as int);
                    }
                    let ghost stack_before = stack@;
                    let ghost current_before = current@;
                    let ghost seen_before = seen@;
                    let ghost labels_before = labels@;
                    if !seen[y] {
                        proof {
                            lemma_count_false_mark(seen@, y as int);
                            lemma_connected_step(links, root, x as int, y as int);
                        }
                        seen.set(y, true);
                        labels.set(y, c);
                        proof {
                            assert forall|z: int| 0 <= z < n && #[trigger] seen@[z] && labels@[z] == c
                                implies !current@.contains(z as usize) ==> z == y by {}
                            assert(!current@.contains(y)) by {
                                if current@.contains(y) {
                                    let k = choose|k: int| 0 <= k < current@.len() && current@[k] == y;
                                    assert(current@[k] == y);
                                }
                            }
                        }
                        current.push(y);
                        stack.push(y);
                        proof {
                            assert(current@.last() == y);
                            assert(stack@.last() == y);
                            assert forall|z: int| 0 <= z < n && #[trigger] stack_before.contains(z as usize) implies stack@.contains(
                                z as usize,
                            ) by {
                                let k = choose|k: int| 0 <= k < stack_before.len() && stack_before[k] == z as usize;
                                assert(stack@[k] == z as usize);
                            }
                            assert forall|z: int|
                                0 <= z < n && #[trigger] seen@[z] && labels@[z] == c implies current@.contains(
                                    z as usize,
                                ) by {
                                if z != y as int {
                                    assert(seen_before[z] && labels_before[z] == c);
                                    let k = choose|k: int| 0 <= k < current_before.len() && current_before[k] == z as usize;
                                    assert(current@[k] == z as usize);
                                }
                            }
                        }
                    } else {
                        proof {
                            if labels@[y as int] < c {
                                assert(adjacent(links, y as int, x as int));
                            }
                        }
                    }
                    proof {
                        assert forall|k: int| 0 <= k < j + 1 implies seen@[#[trigger] nbrs@[k] as int]
                            && labels@[nbrs@[k] as int] == c by {
                            if k < j {
                                assert(seen_before[nbrs@[k] as int] && labels_before[nbrs@[k] as int] == c);
                            }
                        }
                    }
                    j += 1;
                }
                proof {
                    assert forall|yy: int| 0 <= yy < n && #[trigger] adjacent(links, x as int, yy)
                        implies seen@[yy] && labels@[yy] == c by {
                        assert(nbrs@.contains(yy as usize));
                        let k = choose|k: int| 0 <= k < nbrs@.len() && nbrs@[k] == yy as usize;
                        assert(seen@[nbrs@[k] as int]);
                    }
                }
            }
            let ghost before = clusters@;
            clusters.push(current);
            proof {
                assert forall|d: int| 0 <= d < clusters@.len() implies {
                    &&& (#[trigger] clusters@[d])@.len() > 0
                    &&& clusters@[d]@.no_duplicates()
                } by {
                    if d < c {
                        assert(clusters@[d] == before[d]);
                    }
                }
                assert forall|d: int, k: int| 0 <= d < clusters@.len() && 0 <= k < clusters@[d]@.len() implies {
                    &&& (#[trigger] clusters@[d]@[k]) < n
                    &&& seen@[clusters@[d]@[k] as int]
                    &&& labels@[clusters@[d]@[k] as int] == d
                } by {
                    if d < c {
                        assert(clusters@[d] == before[d]);
                    }
                }
                assert forall|x: int| 0 <= x < n && #[trigger] seen@[x] implies clusters@[labels@[x] as int]@.contains(
                    x as usize,
                ) by {
                    if labels@[x] < c {
                        assert(clusters@[labels@[x] as int] == before[labels@[x] as int]);
                    }
                }
                assert forall|x: int, y: int|
                    0 <= x < n && 0 <= y < n && seen@[x] && #[trigger] adjacent(links, x, y) implies seen@[y]
                        && labels@[y] == labels@[x] by {
                    if labels@[x] == c {
                        assert(!stack@.contains(x as usize));
                    }
                }
            }
        }
        r += 1;
    }
    let result = Clustering { labels, clusters };
    proof {
        assert forall|x: int, y: int|
            0 <= x < n && 0 <= y < n implies (result.labels@[x] == result.labels@[y] <==> #[trigger] connected(
                links,
                x,
                y,
            )) by {
            assert(seen@[x]);
            assert(seen@[y]);
            if result.labels@[x] == result.labels@[y] {
                let root = roots[labels@[x] as int];
                assert(connected(links, root, x));
                assert(connected(links, root, y));
                lemma_connected_symmetric(links, root, x);
                lemma_connected_transitive(links, x, root, y);
            }
            if connected(links, x, y) {
                assert forall|a: int, b: int|
                    0 <= a < labels@.len() && 0 <= b < labels@.len() && #[trigger] adjacent(links, a, b)
                        implies labels@[a] == labels@[b] by {
                    assert(seen@[a]);
                }
                lemma_closed_labels_connected(links, labels@, x, y);
            }
        }
        assert forall|x: int| 0 <= x < n implies (#[trigger] result.labels@[x]) < result.clusters@.len() by {
            assert(seen@[x]);
        }
        assert forall|x: int| 0 <= x < n implies result.clusters@[#[trigger] result.labels@[x] as int]@.contains(
            x as usize,
        ) by {
            assert(seen@[x]);
        }
    }
    result
}

} // verus!
