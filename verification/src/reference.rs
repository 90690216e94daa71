//! A shared reference to a graph is a graph.

use crate::graph::Graph;
use vstd::prelude::*;

verus! {

impl<'graph, G: Graph> Graph for &'graph G {
    open spec fn wf(&self) -> bool {
        (**self).wf()
    }

    open spec fn node_count(&self) -> nat {
        (**self).node_count()
    }

    open spec fn entry(&self) -> nat {
        (**self).entry()
    }

    open spec fn preds(&self, node: int) -> Seq<usize> {
        (**self).preds(node)
    }

    open spec fn succs(&self, node: int) -> Seq<usize> {
        (**self).succs(node)
    }

    proof fn lemma_edges(&self) {
        (**self).lemma_edges();
    }

    fn num_nodes(&self) -> (n: usize) {
        (**self).num_nodes()
    }

    fn start_node(&self) -> (s: usize) {
        (**self).start_node()
    }

    fn predecessors(&self, node: usize) -> (r: &Vec<usize>) {
        (**self).predecessors(node)
    }

    fn successors(&self, node: usize) -> (r: &Vec<usize>) {
        (**self).successors(node)
    }
}

} // verus!
