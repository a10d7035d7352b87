//! The shape of a directed multigraph, kept in a `petgraph` graph: which
//! nodes there are and which edges run between them. Node and edge indices
//! count from zero in the order of insertion.
use vstd::prelude::*;

verus! {

/// The graph type of `petgraph`; what it holds is opaque here.
#[verifier::external_type_specification]
#[verifier::external_body]
#[verifier::reject_recursive_types(N)]
#[verifier::reject_recursive_types(E)]
#[verifier::reject_recursive_types(Ty)]
#[verifier::reject_recursive_types(Ix)]
pub struct ExGraph<N, E, Ty, Ix>(petgraph::graph::Graph<N, E, Ty, Ix>);

/// The marker of `petgraph` for directed graphs.
#[verifier::external_type_specification]
#[verifier::external_body]
pub struct ExDirected(petgraph::Directed);

/// The number of nodes of a graph.
pub uninterp spec fn topo_nodes(g: petgraph::graph::Graph<(), (), petgraph::Directed, usize>) -> nat;

/// The edges of a graph in the order of their insertion, each as its source
/// and its target.
pub uninterp spec fn topo_edges(g: petgraph::graph::Graph<(), (), petgraph::Directed, usize>) -> Seq<(usize, usize)>;

/// The order in which a depth-first search of `petgraph` from `start` first
/// reaches the nodes.
pub uninterp spec fn dfs_order(nodes: nat, edges: Seq<(usize, usize)>, start: usize) -> Seq<usize>;

/// The order in which a depth-first search of `petgraph` from `start`
/// finishes the nodes.
pub uninterp spec fn dfs_post_order(nodes: nat, edges: Seq<(usize, usize)>, start: usize) -> Seq<usize>;

/// The order in which a depth-first search of `petgraph` from `start` first
/// reaches the nodes when every edge is walked against its direction.
pub uninterp spec fn dfs_order_reversed(nodes: nat, edges: Seq<(usize, usize)>, start: usize) -> Seq<usize>;

/// The entries of the table that `floyd_warshall` of `petgraph` computes
/// when every edge costs one: a source, a target and the cost between them.
pub uninterp spec fn unit_costs(nodes: nat, edges: Seq<(usize, usize)>) -> Set<(usize, usize, i32)>;

/// Whether a sequence of nodes is a path: at least one edge long, each
/// node joined to the next by an edge.
pub open spec fn is_walk(edges: Seq<(usize, usize)>, p: Seq<usize>) -> bool {
    p.len() >= 2 && forall|t: int| 0 <= t < p.len() - 1 ==> #[trigger] joined_at(edges, p, t)
}

/// Whether an edge joins the node at a position of a sequence to the next.
pub open spec fn joined_at(edges: Seq<(usize, usize)>, p: Seq<usize>, t: int) -> bool {
    edges.contains((p[t], p[t + 1]))
}

/// Whether a path of at least one edge leads from one node to another.
pub open spec fn connected(edges: Seq<(usize, usize)>, a: usize, b: usize) -> bool {
    exists|p: Seq<usize>| #[trigger] is_walk(edges, p) && p[0] == a && p.last() == b
}

/// Whether a walk holds the start and the nodes to which a path leads
/// from it, and no others.
pub open spec fn reaches(edges: Seq<(usize, usize)>, start: usize, walk: Seq<usize>) -> bool {
    forall|x: usize| #[trigger] walk.contains(x) <==> x == start || connected(edges, start, x)
}

/// Whether a walk holds the start and the nodes from which a path leads
/// to it, and no others.
pub open spec fn reached_from(edges: Seq<(usize, usize)>, start: usize, walk: Seq<usize>) -> bool {
    forall|x: usize| #[trigger] walk.contains(x) <==> x == start || connected(edges, x, start)
}

/// Whether a table of costs has an entry for two nodes.
pub open spec fn has_entry(table: Set<(usize, usize, i32)>, a: usize, b: usize) -> bool {
    exists|d: i32| #[trigger] table.contains((a, b, d))
}

/// What a table of costs holds when every edge costs one: an entry for
/// each two nodes; the cost zero from a node to itself; and between two
/// different nodes a cost below the largest exactly if a path leads from
/// the one to the other.
pub open spec fn table_ok(table: Set<(usize, usize, i32)>, nodes: nat, edges: Seq<(usize, usize)>) -> bool {
    &&& forall|a: usize, b: usize| a < nodes && b < nodes ==> #[trigger] has_entry(table, a, b)
    &&& forall|x: (usize, usize, i32)| #[trigger] table.contains(x) ==> x.0 < nodes && x.1 < nodes && if x.0 == x.1 {
        x.2 == 0
    } else {
        (x.2 != i32::MAX) == connected(edges, x.0, x.1)
    }
}

/// The ids below `upto` of the edges that leave (`outgoing`) or enter the
/// node, latest first.
pub open spec fn edge_ids_at(edges: Seq<(usize, usize)>, node: usize, outgoing: bool, upto: int) -> Seq<usize>
    decreases upto,
{
    if upto <= 0 || upto > edges.len() {
        Seq::empty()
    } else {
        let e = upto - 1;
        let hit = if outgoing {
            edges[e].0 == node
        } else {
            edges[e].1 == node
        };
        if hit {
            seq![e as usize] + edge_ids_at(edges, node, outgoing, e)
        } else {
            edge_ids_at(edges, node, outgoing, e)
        }
    }
}

/// The ids of the edges that leave a node, latest first.
pub open spec fn edges_from(edges: Seq<(usize, usize)>, node: usize) -> Seq<usize> {
    edge_ids_at(edges, node, true, edges.len() as int)
}

/// The ids of the edges that enter a node, latest first.
pub open spec fn edges_into(edges: Seq<(usize, usize)>, node: usize) -> Seq<usize> {
    edge_ids_at(edges, node, false, edges.len() as int)
}

/// Each id that `edge_ids_at` lists is that of an edge at the node.
pub proof fn lemma_edge_ids_at(edges: Seq<(usize, usize)>, node: usize, outgoing: bool, upto: int)
    requires
        0 <= upto <= edges.len(),
        edges.len() <= usize::MAX,
    ensures
        forall|i: int| 0 <= i < edge_ids_at(edges, node, outgoing, upto).len() ==> {
            let e = #[trigger] edge_ids_at(edges, node, outgoing, upto)[i];
            &&& e < upto
            &&& if outgoing {
                edges[e as int].0 == node
            } else {
                edges[e as int].1 == node
            }
        },
        edge_ids_at(edges, node, outgoing, upto).len() <= upto,
        forall|e: int| 0 <= e < upto && (if outgoing {
            edges[e].0 == node
        } else {
            edges[e].1 == node
        }) ==> edge_ids_at(edges, node, outgoing, upto).contains(e as usize),
    decreases upto,
{
    if upto > 0 {
        lemma_edge_ids_at(edges, node, outgoing, upto - 1);
        let rest = edge_ids_at(edges, node, outgoing, upto - 1);
        let all = edge_ids_at(edges, node, outgoing, upto);
        let hit = if outgoing {
            edges[upto - 1].0 == node
        } else {
            edges[upto - 1].1 == node
        };
        assert forall|e: int| 0 <= e < upto && (if outgoing {
            edges[e].0 == node
        } else {
            edges[e].1 == node
        }) implies all.contains(e as usize) by {
            if e == upto - 1 {
                assert(all[0] == e as usize);
            } else {
                let i = choose|i: int| 0 <= i < rest.len() && rest[i] == e as usize;
                if hit {
                    assert(all[i + 1] == e as usize);
                } else {
                    assert(all[i] == e as usize);
                }
            }
        }
    }
}

/// `Graph::with_capacity` of `petgraph` for no nodes and no edges: a graph
/// without nodes or edges.
#[verifier::external_body]
pub(crate) fn topo_new() -> (g: petgraph::graph::Graph<(), (), petgraph::Directed, usize>)
    ensures
        topo_nodes(g) == 0,
        topo_edges(g) == Seq::<(usize, usize)>::empty(),
{
    petgraph::graph::Graph::with_capacity(0, 0)
}

/// `Graph::clone` of `petgraph`: a graph with the same nodes and edges.
#[verifier::external_body]
pub(crate) fn topo_clone(g: &petgraph::graph::Graph<(), (), petgraph::Directed, usize>) -> (r: petgraph::graph::Graph<(), (), petgraph::Directed, usize>)
    ensures
        topo_nodes(r) == topo_nodes(*g),
        topo_edges(r) == topo_edges(*g),
{
    g.clone()
}

/// `Graph::add_node` of `petgraph`: the new node gets the next index, and
/// the edges stay as they are. The graph counts its nodes in `usize`, so
/// the count at which `petgraph` gives up cannot be reached in memory.
#[verifier::external_body]
pub(crate) fn topo_add_node(g: &mut petgraph::graph::Graph<(), (), petgraph::Directed, usize>) -> (id: usize)
    ensures
        id == topo_nodes(*old(g)),
        topo_nodes(*final(g)) == topo_nodes(*old(g)) + 1,
        topo_edges(*final(g)) == topo_edges(*old(g)),
{
    g.add_node(()).index()
}

/// `Graph::add_edge` of `petgraph` between two nodes of the graph: the new
/// edge gets the next index and comes last. The graph counts its edges in
/// `usize`, so the count at which `petgraph` gives up cannot be reached in
/// memory.
#[verifier::external_body]
pub(crate) fn topo_add_edge(g: &mut petgraph::graph::Graph<(), (), petgraph::Directed, usize>, a: usize, b: usize) -> (id: usize)
    requires
        a < topo_nodes(*old(g)),
        b < topo_nodes(*old(g)),
    ensures
        id == topo_edges(*old(g)).len(),
        topo_nodes(*final(g)) == topo_nodes(*old(g)),
        topo_edges(*final(g)) == topo_edges(*old(g)).push((a, b)),
{
    g.add_edge(petgraph::graph::NodeIndex::new(a), petgraph::graph::NodeIndex::new(b), ()).index()
}

/// `Graph::edge_endpoints` of `petgraph` for an edge of the graph.
#[verifier::external_body]
pub(crate) fn topo_endpoints(g: &petgraph::graph::Graph<(), (), petgraph::Directed, usize>, e: usize) -> (r: (usize, usize))
    requires
        e < topo_edges(*g).len(),
    ensures
        r == topo_edges(*g)[e as int],
{
    let (a, b) = g.edge_endpoints(petgraph::graph::EdgeIndex::new(e)).unwrap();
    (a.index(), b.index())
}

/// `Graph::edges_directed` of `petgraph` with `Outgoing`: the edges that
/// leave the node, the one added last first.
#[verifier::external_body]
pub(crate) fn topo_edges_from(g: &petgraph::graph::Graph<(), (), petgraph::Directed, usize>, node: usize) -> (r: Vec<usize>)
    requires
        node < topo_nodes(*g),
    ensures
        r@ == edges_from(topo_edges(*g), node),
{
    g.edges_directed(petgraph::graph::NodeIndex::new(node), petgraph::Direction::Outgoing).map(|e| petgraph::visit::EdgeRef::id(&e).index()).collect()
}

/// `Graph::edges_directed` of `petgraph` with `Incoming`: the edges that
/// enter the node, the one added last first.
#[verifier::external_body]
pub(crate) fn topo_edges_into(g: &petgraph::graph::Graph<(), (), petgraph::Directed, usize>, node: usize) -> (r: Vec<usize>)
    requires
        node < topo_nodes(*g),
    ensures
        r@ == edges_into(topo_edges(*g), node),
{
    g.edges_directed(petgraph::graph::NodeIndex::new(node), petgraph::Direction::Incoming).map(|e| petgraph::visit::EdgeRef::id(&e).index()).collect()
}

/// `Dfs` of `petgraph` from a node of the graph, walked to its end: nodes of
/// the graph, none of them twice; the start and each node to which a path
/// leads from it, and no others.
#[verifier::external_body]
pub(crate) fn topo_dfs(g: &petgraph::graph::Graph<(), (), petgraph::Directed, usize>, start: usize) -> (r: Vec<usize>)
    requires
        start < topo_nodes(*g),
    ensures
        r@ == dfs_order(topo_nodes(*g), topo_edges(*g), start),
        forall|i: int| 0 <= i < r@.len() ==> #[trigger] r@[i] < topo_nodes(*g),
        r@.no_duplicates(),
        reaches(topo_edges(*g), start, r@),
{
    petgraph::visit::Walker::iter(petgraph::visit::Dfs::new(g, petgraph::graph::NodeIndex::new(start)), g).map(|n| n.index()).collect()
}

/// `DfsPostOrder` of `petgraph` from a node of the graph, walked to its end:
/// nodes of the graph, none of them twice; the start and each node to which
/// a path leads from it, and no others.
#[verifier::external_body]
pub(crate) fn topo_dfs_post_order(g: &petgraph::graph::Graph<(), (), petgraph::Directed, usize>, start: usize) -> (r: Vec<usize>)
    requires
        start < topo_nodes(*g),
    ensures
        r@ == dfs_post_order(topo_nodes(*g), topo_edges(*g), start),
        forall|i: int| 0 <= i < r@.len() ==> #[trigger] r@[i] < topo_nodes(*g),
        r@.no_duplicates(),
        reaches(topo_edges(*g), start, r@),
{
    petgraph::visit::Walker::iter(petgraph::visit::DfsPostOrder::new(g, petgraph::graph::NodeIndex::new(start)), g).map(|n| n.index()).collect()
}

/// `Dfs` of `petgraph` over `Reversed` from a node of the graph, walked to
/// its end: nodes of the graph, none of them twice; the start and each node
/// from which a path leads to it, and no others.
#[verifier::external_body]
pub(crate) fn topo_dfs_reversed(g: &petgraph::graph::Graph<(), (), petgraph::Directed, usize>, start: usize) -> (r: Vec<usize>)
    requires
        start < topo_nodes(*g),
    ensures
        r@ == dfs_order_reversed(topo_nodes(*g), topo_edges(*g), start),
        forall|i: int| 0 <= i < r@.len() ==> #[trigger] r@[i] < topo_nodes(*g),
        r@.no_duplicates(),
        reached_from(topo_edges(*g), start, r@),
{
    petgraph::visit::Walker::iter(petgraph::visit::Dfs::new(petgraph::visit::Reversed(g), petgraph::graph::NodeIndex::new(start)), petgraph::visit::Reversed(g)).map(|n| n.index()).collect()
}

/// `floyd_warshall` of `petgraph` with a cost of one for every edge: the
/// entries of its table, between nodes of the graph, in no particular order.
/// The table holds the cost of the cheapest path between each two nodes,
/// zero from a node to itself and the largest `i32` where there is no path;
/// a cheapest path has fewer edges than the graph has nodes, so with no more
/// nodes than the largest `i32` every path shows in the table.
#[verifier::external_body]
pub(crate) fn topo_unit_costs(g: &petgraph::graph::Graph<(), (), petgraph::Directed, usize>) -> (r: Vec<(usize, usize, i32)>)
    ensures
        r@.to_set() == unit_costs(topo_nodes(*g), topo_edges(*g)),
        forall|i: int| 0 <= i < r@.len() ==> (#[trigger] r@[i]).0 < topo_nodes(*g) && r@[i].1 < topo_nodes(*g),
        topo_nodes(*g) <= i32::MAX ==> table_ok(r@.to_set(), topo_nodes(*g), topo_edges(*g)),
{
    petgraph::algo::floyd_warshall(g, |_| 1i32).unwrap_or_default().into_iter().map(|((a, b), d)| (a.index(), b.index(), d)).collect()
}

} // verus!
