use vstd::prelude::*;

verus! {

/// petgraph's `Graph`, held opaque; its contents are read through
/// `graph_nodes` and `graph_edges`.
#[verifier::external_type_specification]
#[verifier::external_body]
#[verifier::reject_recursive_types(N)]
#[verifier::reject_recursive_types(E)]
#[verifier::reject_recursive_types(Ty)]
#[verifier::reject_recursive_types(Ix)]
pub struct ExGraph<N, E, Ty, Ix>(petgraph::graph::Graph<N, E, Ty, Ix>);

/// petgraph's marker for undirected edges.
#[verifier::external_type_specification]
#[verifier::external_body]
pub struct ExUndirected(petgraph::Undirected);

/// The graph of surviving links: one node per record, weighted by the
/// record's position, and one edge per link.
pub type LinkGraph = petgraph::graph::UnGraph<usize, ()>;

/// The node weights of a graph, by node index.
pub uninterp spec fn graph_nodes(g: petgraph::graph::UnGraph<usize, ()>) -> Seq<usize>;

/// The endpoints of the edges of a graph, by edge index.
pub uninterp spec fn graph_edges(g: petgraph::graph::UnGraph<usize, ()>) -> Seq<(usize, usize)>;

/// The largest value of the graph's index type, which no index may take.
pub const INDEX_END: usize = 4294967295;

/// Whether some link joins `x` and `y`, in either direction.
pub open spec fn adjacent(links: Seq<(usize, usize)>, x: int, y: int) -> bool {
    exists|k: int|
        0 <= k < links.len() && ((#[trigger] links[k]).0 == x && links[k].1 == y || links[k].0 == y
            && links[k].1 == x)
}

/// Relies on `Graph::new_undirected`: a graph without nodes or edges.
#[verifier::external_body]
fn new_graph() -> (g: LinkGraph)
    ensures
        graph_nodes(g) == Seq::<usize>::empty(),
        graph_edges(g) == Seq::<(usize, usize)>::empty(),
{
    petgraph::graph::UnGraph::<usize, ()>::new_undirected()
}

/// Relies on `Graph::add_node`: the node is appended and its index returned.
/// It panics when the index would be the index type's largest value.
#[verifier::external_body]
fn add_node(g: &mut LinkGraph, weight: usize) -> (r: usize)
    requires
        graph_nodes(*old(g)).len() < INDEX_END,
    ensures
        r == graph_nodes(*old(g)).len(),
        graph_nodes(*final(g)) == graph_nodes(*old(g)).push(weight),
        graph_edges(*final(g)) == graph_edges(*old(g)),
{
    g.add_node(weight).index()
}

/// Relies on `Graph::add_edge`: the edge is appended. It panics on a node
/// index out of bounds, or when the edge index would be the index type's
/// largest value.
#[verifier::external_body]
fn add_edge(g: &mut LinkGraph, a: usize, b: usize)
    requires
        a < graph_nodes(*old(g)).len(),
        b < graph_nodes(*old(g)).len(),
        graph_edges(*old(g)).len() < INDEX_END,
    ensures
        graph_nodes(*final(g)) == graph_nodes(*old(g)),
        graph_edges(*final(g)) == graph_edges(*old(g)).push((a, b)),
{
    g.add_edge(petgraph::graph::NodeIndex::new(a), petgraph::graph::NodeIndex::new(b), ());
}

/// Relies on `Graph::neighbors`: in an undirected graph, the nodes joined to
/// `x` by an edge in either direction.
#[verifier::external_body]
pub(crate) fn neighbors(g: &LinkGraph, x: usize) -> (r: Vec<usize>)
    requires
        x < graph_nodes(*g).len(),
    ensures
        forall|y: usize| #[trigger] r@.contains(y) <==> adjacent(graph_edges(*g), x as int, y as int),
{
    g.neighbors(petgraph::graph::NodeIndex::new(x)).map(|n| n.index()).collect()
}

/// Whether every link joins two of the first `n` records.
pub open spec fn links_within(links: Seq<(usize, usize)>, n: nat) -> bool {
    forall|k: int| 0 <= k < links.len() ==> (#[trigger] links[k]).0 < n && links[k].1 < n
}

/// The graph with one node for each of `n` records and one edge per link.
pub fn build_graph(n: usize, links: &Vec<(usize, usize)>) -> (g: LinkGraph)
    requires
        n < INDEX_END,
        links@.len() < INDEX_END,
        links_within(links@, n as nat),
    ensures
        graph_nodes(g).len() == n,
        graph_edges(g) == links@,
{
    let mut g = new_graph();
    let mut i: usize = 0;
    while i < n
        invariant
            n < INDEX_END,
            i <= n,
            graph_nodes(g).len() == i,
            graph_edges(g) == Seq::<(usize, usize)>::empty(),
        decreases n - i,
    {
        add_node(&mut g, i);
        i += 1;
    }
    let mut k: usize = 0;
    while k < links.len()
        invariant
            links@.len() < INDEX_END,
            links_within(links@, n as nat),
            k <= links@.len(),
            graph_nodes(g).len() == n,
            graph_edges(g) == links@.take(k as int),
        decreases links@.len() - k,
    {
        let (a, b) = links[k];
        add_edge(&mut g, a, b);
        assert(links@.take(k as int).push((a, b)) =~= links@.take(k + 1));
        k += 1;
    }
    assert(links@.take(k as int) =~= links@);
    g
}

} // verus!
