//! The loops of a graph: for every node the innermost loop that holds it,
//! and for every loop its head, its parent loop and its exits.

pub mod model;
pub mod tree;
pub mod walk;

use crate::dominance::complete_on;
use crate::dominators::{dominators, exact_on, settled_on, Dominators};
use crate::graph::{reaches, Graph};
use model::loop_tree_of;
use vstd::prelude::*;

pub use tree::{LoopId, LoopTree, Parents};

verus! {

/// `d` is what the dominators of `g` are: a well-formed forest over the
/// nodes that the entry reaches, in which the chain of every node holds
/// what dominates it and nothing else.
pub open spec fn dominators_of<G: Graph>(g: &G, d: &Dominators<G>) -> bool {
    &&& d.wf()
    &&& d.node_count() == g.node_count()
    &&& d.root() == g.entry()
    &&& forall|n: int| 0 <= n < g.node_count() ==> (d.reachable(n) <==> reaches(g, g.entry() as int, n))
    &&& d.settled() ==> settled_on(g, d.ranks(), d.idoms(), d.root())
    &&& complete_on(g, d.ranks(), d.idoms(), d.root())
    &&& exact_on(g, d)
}

/// `r` is the loop tree of `g` with the dominators `d`: what the two walks
/// leave, and nothing where the head walk gives up.
pub open spec fn is_loop_tree<G: Graph>(g: &G, d: &Dominators<G>, r: Option<LoopTree<G>>) -> bool {
    match loop_tree_of(g, d) {
        None => r is None,
        Some(t) => r matches Some(tree) && tree.model() == t,
    }
}

/// The loop tree of `graph`, held against its dominators. `None` where two
/// loop heads that one node reaches by back edges do not dominate one
/// another, or where a loop head reaches by back edges a loop that lies
/// within its own.
pub fn loop_tree<G: Graph>(graph: &G) -> (r: Option<LoopTree<G>>)
    requires
        graph.wf(),
    ensures
        exists|d: Dominators<G>|
            dominators_of(graph, &d) && #[trigger] is_loop_tree(graph, &d, r) && (r matches Some(t)
                ==> t.nested_by(&d)),
        r matches Some(t) ==> t.heads_reached(graph),
        r matches Some(t) ==> t.wf() && t.nodes() == graph.node_count() && t.holds_of(graph) && t.exits_hold(
            graph,
        ),
{
    let dominators = dominators(graph);
    let r = loop_tree_given(graph, &dominators);
    proof {
        assert(dominators_of(graph, &dominators) && is_loop_tree(graph, &dominators, r) && (r matches Some(t)
            ==> t.nested_by(&dominators)));
    }
    r
}

/// The loop tree of `graph`, with its dominators given.
pub fn loop_tree_given<G: Graph>(graph: &G, dominators: &Dominators<G>) -> (r: Option<LoopTree<G>>)
    requires
        graph.wf(),
        dominators.wf(),
        dominators.node_count() == graph.node_count(),
        forall|n: int|
            0 <= n < graph.node_count() && reaches(graph, graph.entry() as int, n)
                ==> dominators.reachable(n),
    ensures
        is_loop_tree(graph, dominators, r),
        r matches Some(t) ==> t.wf() && t.nodes() == graph.node_count() && t.holds_of(graph) && t.exits_hold(
            graph,
        ) && t.nested_by(dominators) && t.heads_reached(graph),
{
    walk::LoopTreeWalk::new(graph, dominators).compute_loop_tree()
}

} // verus!
