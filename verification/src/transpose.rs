//! The transposed view of a graph: the same nodes with every edge turned
//! around.

use crate::graph::Graph;
use vstd::prelude::*;

verus! {

pub struct TransposedGraph<G: Graph> {
    pub base_graph: G,
    pub start_node: usize,
}

impl<G: Graph> TransposedGraph<G> {
    /// The transposed view of `base_graph`, entered at the same node.
    pub fn new(base_graph: G) -> (r: Self)
        requires
            base_graph.wf(),
        ensures
            r.wf(),
            r.base_graph == base_graph,
            r.start_node == base_graph.entry(),
    {
        let start_node = base_graph.start_node();
        Self::with_start(base_graph, start_node)
    }

    /// The transposed view of `base_graph`, entered at `start_node`.
    pub fn with_start(base_graph: G, start_node: usize) -> (r: Self)
        requires
            base_graph.wf(),
            start_node < base_graph.node_count(),
        ensures
            r.wf(),
            r.base_graph == base_graph,
            r.start_node == start_node,
    {
        TransposedGraph { base_graph, start_node }
    }
}

impl<G: Graph> Graph for TransposedGraph<G> {
    open spec fn wf(&self) -> bool {
        self.base_graph.wf() && self.start_node < self.base_graph.node_count()
    }

    open spec fn node_count(&self) -> nat {
        self.base_graph.node_count()
    }

    open spec fn entry(&self) -> nat {
        self.start_node as nat
    }

    open spec fn preds(&self, node: int) -> Seq<usize> {
        self.base_graph.succs(node)
    }

    open spec fn succs(&self, node: int) -> Seq<usize> {
        self.base_graph.preds(node)
    }

    proof fn lemma_edges(&self) {
        self.base_graph.lemma_edges();
    }

    fn num_nodes(&self) -> (n: usize) {
        self.base_graph.num_nodes()
    }

    fn start_node(&self) -> (s: usize) {
        self.start_node
    }

    fn predecessors(&self, node: usize) -> (r: &Vec<usize>) {
        self.base_graph.successors(node)
    }

    fn successors(&self, node: usize) -> (r: &Vec<usize>) {
        self.base_graph.predecessors(node)
    }
}

} // verus!
