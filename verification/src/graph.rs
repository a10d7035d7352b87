//! Directed multigraphs with a weight on each node and a label on each edge.
use crate::order::{all_valid, keys_of, Key};
use crate::topology::{dfs_order, dfs_order_reversed, dfs_post_order, edges_from, edges_into, lemma_edge_ids_at, topo_add_edge, topo_add_node, topo_clone, topo_dfs, topo_dfs_post_order, topo_dfs_reversed, topo_edges, topo_edges_from, topo_edges_into, topo_endpoints, topo_nodes, topo_unit_costs, unit_costs, table_ok, reaches, reached_from};
use vstd::prelude::*;

verus! {

/// A node's index in its graph.
pub type NodeId = usize;

/// An edge's index in its graph.
pub type EdgeId = usize;

/// The index that stands for no node.
pub const NO_NODE: usize = usize::MAX;

/// A directed multigraph. Nodes and edges are numbered from zero in the
/// order in which they were added.
#[derive(Debug)]
pub struct Digraph<N: Key, E: Key> {
    topo: petgraph::graph::Graph<(), (), petgraph::Directed, usize>,
    nodes: Vec<N>,
    labels: Vec<E>,
}

impl<N: Key, E: Key> Digraph<N, E> {
    /// The weights of the nodes as they are held.
    pub closed spec fn weights(&self) -> Seq<N> {
        self.nodes@
    }

    /// The weights of the nodes.
    pub closed spec fn nodes(&self) -> Seq<N::V> {
        keys_of(self.nodes@)
    }

    /// The source and the target of each edge.
    pub closed spec fn edges(&self) -> Seq<(usize, usize)> {
        topo_edges(self.topo)
    }

    /// The labels of the edges.
    pub closed spec fn labels(&self) -> Seq<E::V> {
        keys_of(self.labels@)
    }

    /// Every edge has a label and runs between nodes of the graph.
    pub closed spec fn wf(&self) -> bool {
        &&& topo_nodes(self.topo) == self.nodes@.len()
        &&& topo_edges(self.topo).len() == self.labels@.len()
        &&& all_valid(self.nodes@)
        &&& all_valid(self.labels@)
        &&& forall|e: int| 0 <= e < topo_edges(self.topo).len() ==> (#[trigger] topo_edges(self.topo)[e]).0 < self.nodes@.len() && topo_edges(self.topo)[e].1 < self.nodes@.len()
    }

    /// What well-formedness means for nodes, edges and labels.
    pub proof fn lemma_wf(&self)
        requires
            self.wf(),
        ensures
            self.edges().len() == self.labels().len(),
            forall|e: int| 0 <= e < self.edges().len() ==> (#[trigger] self.edges()[e]).0 < self.nodes().len() && self.edges()[e].1 < self.nodes().len(),
            self.nodes() == keys_of(self.weights()),
            all_valid(self.weights()),
            self.edges().len() <= usize::MAX,
            self.nodes().len() <= usize::MAX,
    {
        assert(self.labels@.len() == self.labels.len());
        assert(self.nodes@.len() == self.nodes.len());
    }

    pub fn new() -> (g: Self)
        ensures
            g.wf(),
            g.nodes() == Seq::<N::V>::empty(),
            g.edges() == Seq::<(usize, usize)>::empty(),
            g.labels() == Seq::<E::V>::empty(),
    {
        let g = Digraph { topo: crate::topology::topo_new(), nodes: Vec::new(), labels: Vec::new() };
        assert(g.nodes() =~= Seq::<N::V>::empty());
        assert(g.labels() =~= Seq::<E::V>::empty());
        g
    }

    pub fn node_count(&self) -> (n: usize)
        ensures
            n == self.nodes().len(),
    {
        self.nodes.len()
    }

    pub fn edge_count(&self) -> (n: usize)
        requires
            self.wf(),
        ensures
            n == self.edges().len(),
    {
        self.labels.len()
    }

    /// Adds a node and returns its index.
    pub fn add_node(&mut self, weight: N) -> (id: usize)
        requires
            old(self).wf(),
            weight.valid(),
        ensures
            final(self).wf(),
            id == old(self).nodes().len(),
            final(self).nodes() == old(self).nodes().push(weight.key()),
            final(self).weights() == old(self).weights().push(weight),
            final(self).edges() == old(self).edges(),
            final(self).labels() == old(self).labels(),
    {
        let id = topo_add_node(&mut self.topo);
        self.nodes.push(weight);
        assert(self.nodes() =~= old(self).nodes().push(weight.key()));
        id
    }

    /// Adds an edge between two nodes of the graph and returns its index.
    pub fn add_edge(&mut self, a: usize, b: usize, label: E) -> (id: usize)
        requires
            old(self).wf(),
            a < old(self).nodes().len(),
            b < old(self).nodes().len(),
            label.valid(),
        ensures
            final(self).wf(),
            id == old(self).edges().len(),
            final(self).nodes() == old(self).nodes(),
            final(self).weights() == old(self).weights(),
            final(self).edges() == old(self).edges().push((a, b)),
            final(self).labels() == old(self).labels().push(label.key()),
    {
        let id = topo_add_edge(&mut self.topo, a, b);
        self.labels.push(label);
        assert(self.labels() =~= old(self).labels().push(label.key()));
        id
    }

    /// The weight of a node.
    pub fn node(&self, n: usize) -> (r: &N)
        requires
            self.wf(),
            n < self.nodes().len(),
        ensures
            r.valid(),
            r.key() == self.nodes()[n as int],
            *r == self.weights()[n as int],
    {
        &self.nodes[n]
    }

    /// The label of an edge.
    pub fn label(&self, e: usize) -> (r: &E)
        requires
            self.wf(),
            e < self.edges().len(),
        ensures
            r.valid(),
            r.key() == self.labels()[e as int],
    {
        &self.labels[e]
    }

    /// The source and the target of an edge.
    pub fn endpoints(&self, e: usize) -> (r: (usize, usize))
        requires
            self.wf(),
            e < self.edges().len(),
        ensures
            r == self.edges()[e as int],
            r.0 < self.nodes().len(),
            r.1 < self.nodes().len(),
    {
        topo_endpoints(&self.topo, e)
    }

    pub fn source(&self, e: usize) -> (r: usize)
        requires
            self.wf(),
            e < self.edges().len(),
        ensures
            r == self.edges()[e as int].0,
            r < self.nodes().len(),
    {
        topo_endpoints(&self.topo, e).0
    }

    pub fn target(&self, e: usize) -> (r: usize)
        requires
            self.wf(),
            e < self.edges().len(),
        ensures
            r == self.edges()[e as int].1,
            r < self.nodes().len(),
    {
        topo_endpoints(&self.topo, e).1
    }

    /// The edges that leave a node, the one added last first.
    pub fn out_edges(&self, n: usize) -> (r: Vec<usize>)
        requires
            self.wf(),
            n < self.nodes().len(),
        ensures
            r@ == edges_from(self.edges(), n),
            forall|i: int| 0 <= i < r@.len() ==> #[trigger] r@[i] < self.edges().len() && self.edges()[r@[i] as int].0 == n,
    {
        let r = topo_edges_from(&self.topo, n);
        let _ = self.labels.len();
        proof {
            lemma_edge_ids_at(self.edges(), n, true, self.edges().len() as int);
        }
        r
    }

    /// The edges that enter a node, the one added last first.
    pub fn in_edges(&self, n: usize) -> (r: Vec<usize>)
        requires
            self.wf(),
            n < self.nodes().len(),
        ensures
            r@ == edges_into(self.edges(), n),
            forall|i: int| 0 <= i < r@.len() ==> #[trigger] r@[i] < self.edges().len() && self.edges()[r@[i] as int].1 == n,
    {
        let r = topo_edges_into(&self.topo, n);
        let _ = self.labels.len();
        proof {
            lemma_edge_ids_at(self.edges(), n, false, self.edges().len() as int);
        }
        r
    }

    /// The nodes in the order in which a depth-first search from `start`
    /// first reaches them.
    pub fn dfs(&self, start: usize) -> (r: Vec<usize>)
        requires
            self.wf(),
            start < self.nodes().len(),
        ensures
            r@ == dfs_order(self.nodes().len(), self.edges(), start),
            forall|i: int| 0 <= i < r@.len() ==> #[trigger] r@[i] < self.nodes().len(),
            r@.no_duplicates(),
            reaches(self.edges(), start, r@),
    {
        topo_dfs(&self.topo, start)
    }

    /// The nodes in the order in which a depth-first search from `start`
    /// finishes them.
    pub fn dfs_post(&self, start: usize) -> (r: Vec<usize>)
        requires
            self.wf(),
            start < self.nodes().len(),
        ensures
            r@ == dfs_post_order(self.nodes().len(), self.edges(), start),
            forall|i: int| 0 <= i < r@.len() ==> #[trigger] r@[i] < self.nodes().len(),
            r@.no_duplicates(),
            reaches(self.edges(), start, r@),
    {
        topo_dfs_post_order(&self.topo, start)
    }

    /// The nodes in the order in which a depth-first search from `start`
    /// against the direction of the edges first reaches them.
    pub fn dfs_reversed(&self, start: usize) -> (r: Vec<usize>)
        requires
            self.wf(),
            start < self.nodes().len(),
        ensures
            r@ == dfs_order_reversed(self.nodes().len(), self.edges(), start),
            forall|i: int| 0 <= i < r@.len() ==> #[trigger] r@[i] < self.nodes().len(),
            r@.no_duplicates(),
            reached_from(self.edges(), start, r@),
    {
        topo_dfs_reversed(&self.topo, start)
    }

    /// The cost of the cheapest path between each two nodes when every edge
    /// costs one, as entries in no particular order.
    pub fn unit_costs(&self) -> (r: Vec<(usize, usize, i32)>)
        requires
            self.wf(),
        ensures
            r@.to_set() == unit_costs(self.nodes().len(), self.edges()),
            forall|i: int| 0 <= i < r@.len() ==> (#[trigger] r@[i]).0 < self.nodes().len() && r@[i].1 < self.nodes().len(),
            self.nodes().len() <= i32::MAX ==> table_ok(r@.to_set(), self.nodes().len(), self.edges()),
    {
        topo_unit_costs(&self.topo)
    }

    /// A graph with the same nodes, edges and labels.
    pub fn duplicate(&self) -> (g: Self)
        requires
            self.wf(),
        ensures
            g.wf(),
            g.nodes() == self.nodes(),
            g.edges() == self.edges(),
            g.labels() == self.labels(),
    {
        Digraph {
            topo: topo_clone(&self.topo),
            nodes: crate::order::duplicate_items(&self.nodes),
            labels: crate::order::duplicate_items(&self.labels),
        }
    }

    /// A graph with the same edges and labels and the node weights given.
    pub fn with_nodes<M: Key>(&self, nodes: Vec<M>) -> (g: Digraph<M, E>)
        requires
            self.wf(),
            nodes@.len() == self.nodes().len(),
            all_valid(nodes@),
        ensures
            g.wf(),
            g.nodes() == keys_of(nodes@),
            g.edges() == self.edges(),
            g.labels() == self.labels(),
    {
        let g = Digraph { topo: topo_clone(&self.topo), nodes, labels: crate::order::duplicate_items(&self.labels) };
        assert(g.nodes().len() == self.nodes().len());
        g
    }
}

} // verus!
