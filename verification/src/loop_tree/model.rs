//! What the two walks of the loop tree compute, as functions of the graph
//! and of its dominators: the head walk, a depth-first search that makes a
//! loop of every target of a back edge, and the exit walk, which records
//! where edges leave the loops.

use super::tree::{LoopId, TreeModel};
use super::walk::NodeState;
use crate::dominators::Dominators;
use crate::graph::Graph;
use vstd::prelude::*;

verus! {

/// The state of a walk: how far every node has come, and the tree so far.
pub ghost struct WalkModel {
    pub states: Seq<NodeState>,
    pub tree: TreeModel,
}

/// `set` with `id` at its end, unless `set` holds it.
pub open spec fn inserted(set: Seq<LoopId>, id: LoopId) -> Seq<LoopId> {
    if set.contains(id) {
        set
    } else {
        set.push(id)
    }
}

/// `set` with the first `upto` loops of `more` inserted, one after the
/// other.
pub open spec fn inserted_all(set: Seq<LoopId>, more: Seq<LoopId>, upto: int) -> Seq<LoopId>
    decreases upto,
{
    if upto <= 0 || upto > more.len() {
        set
    } else {
        inserted(inserted_all(set, more, upto - 1), more[upto - 1])
    }
}

/// The first `upto` loops of `set`, but `id`, in their order.
pub open spec fn without(set: Seq<LoopId>, id: LoopId, upto: int) -> Seq<LoopId>
    decreases upto,
{
    if upto <= 0 || upto > set.len() {
        Seq::empty()
    } else if set[upto - 1] != id {
        without(set, id, upto - 1).push(set[upto - 1])
    } else {
        without(set, id, upto - 1)
    }
}

/// Whether the head of `l2` dominates the head of `l1`, so that `l1` lies
/// within `l2`. `None` where neither head dominates the other.
pub open spec fn inner_of<G: Graph>(doms: &Dominators<G>, heads: Seq<usize>, l1: LoopId, l2: LoopId) -> Option<
    bool,
> {
    let h1 = heads[l1.index as int] as int;
    let h2 = heads[l2.index as int] as int;
    if h1 != h2 && doms.dominated_by(h1, h2) {
        Some(true)
    } else if h1 != h2 && doms.dominated_by(h2, h1) {
        Some(false)
    } else {
        None
    }
}

/// The innermost of the first `upto` loops of `set`: each loop in turn
/// takes the place of the innermost so far where it lies within it. The
/// inner `None` for no loop, the outer where two heads that are held
/// against one another do not dominate one another.
pub open spec fn innermost_of<G: Graph>(doms: &Dominators<G>, heads: Seq<usize>, set: Seq<LoopId>, upto: int) -> Option<
    Option<LoopId>,
>
    decreases upto,
{
    if upto <= 0 || upto > set.len() {
        Some(None)
    } else {
        match innermost_of(doms, heads, set, upto - 1) {
            None => None,
            Some(None) => Some(Some(set[upto - 1])),
            Some(Some(l2)) => match inner_of(doms, heads, set[upto - 1], l2) {
                None => None,
                Some(true) => Some(Some(set[upto - 1])),
                Some(false) => Some(Some(l2)),
            },
        }
    }
}

/// Where two heads do not dominate one another among the first loops, the
/// same holds among all.
pub proof fn lemma_innermost_none<G: Graph>(
    doms: &Dominators<G>,
    heads: Seq<usize>,
    set: Seq<LoopId>,
    at: int,
    upto: int,
)
    requires
        0 < at <= upto <= set.len(),
        innermost_of(doms, heads, set, at) is None,
    ensures
        innermost_of(doms, heads, set, upto) is None,
    decreases upto - at,
{
    if at < upto {
        lemma_innermost_none(doms, heads, set, at, upto - 1);
    }
}

/// The node `s`, which is in progress, becomes the head of a new loop.
pub open spec fn promoted(m: WalkModel, s: int) -> WalkModel {
    WalkModel {
        states: m.states.update(s, NodeState::InProgress(Some(LoopId { index: m.tree.heads.len() as usize }))),
        tree: m.tree.with_loop(s as usize),
    }
}

/// The head walk from `node`, which has not been started: the state after
/// it, and the loops that `node` reached by back edges and that do not end
/// at it. `None` where the walk gives up. `fuel` bounds the depth of the
/// walk.
pub open spec fn head_model<G: Graph>(g: &G, doms: &Dominators<G>, node: int, m: WalkModel, fuel: nat) -> Option<
    (WalkModel, Seq<LoopId>),
>
    decreases fuel, 0int,
{
    if fuel == 0 {
        None
    } else {
        let entered = WalkModel { states: m.states.update(node, NodeState::InProgress(None)), tree: m.tree };
        match succs_model(g, doms, g.succs(node), g.succs(node).len() as int, entered, (fuel - 1) as nat) {
            None => None,
            Some((walked, set)) => finish_model(doms, node, walked, set),
        }
    }
}

/// The head walk over the first `upto` successors of a node: a successor
/// that has not been started is walked, and what it reached is taken over;
/// one that is in progress is the target of a back edge, and becomes a loop
/// head unless it is one; the others are passed over.
pub open spec fn succs_model<G: Graph>(
    g: &G,
    doms: &Dominators<G>,
    list: Seq<usize>,
    upto: int,
    m: WalkModel,
    fuel: nat,
) -> Option<(WalkModel, Seq<LoopId>)>
    decreases fuel, upto + 1,
{
    if upto <= 0 || upto > list.len() {
        Some((m, Seq::empty()))
    } else {
        match succs_model(g, doms, list, upto - 1, m, fuel) {
            None => None,
            Some((before, set)) => {
                let s = list[upto - 1] as int;
                match before.states[s] {
                    NodeState::NotYetStarted => match head_model(g, doms, s, before, fuel) {
                        None => None,
                        Some((after, sub)) => Some((after, inserted_all(set, sub, sub.len() as int))),
                    },
                    NodeState::InProgress(Some(l)) => Some((before, inserted(set, l))),
                    NodeState::InProgress(None) => Some(
                        (promoted(before, s), inserted(set, LoopId { index: before.tree.heads.len() as usize })),
                    ),
                    _ => Some((before, set)),
                }
            },
        }
    }
}

/// The end of the head walk at `node`, which reached the loops of `set`:
/// the node is finished and gets the innermost of them for its loop. Where
/// it is the head of that loop, the loop leaves the set and gets the
/// innermost of the others for its parent. The walk gives up where two
/// heads do not dominate one another, and where the node is the head of a
/// loop that is not its innermost.
pub open spec fn finish_model<G: Graph>(doms: &Dominators<G>, node: int, m: WalkModel, set: Seq<LoopId>) -> Option<
    (WalkModel, Seq<LoopId>),
> {
    let own = match m.states[node] {
        NodeState::InProgress(x) => x,
        _ => None,
    };
    let states = m.states.update(node, NodeState::FinishedHeadWalk);
    match innermost_of(doms, m.tree.heads, set, set.len() as int) {
        None => None,
        Some(None) => Some((WalkModel { states, tree: m.tree }, set)),
        Some(Some(l)) => {
            let tree = m.tree.with_id(node, Some(l));
            if tree.heads[l.index as int] == node {
                let rest = without(set, l, set.len() as int);
                match innermost_of(doms, tree.heads, rest, rest.len() as int) {
                    None => None,
                    Some(p) => Some((WalkModel { states, tree: tree.with_parent(l.index as int, p) }, rest)),
                }
            } else if own is Some {
                None
            } else {
                Some((WalkModel { states, tree }, set))
            }
        },
    }
}

/// Where the walk gives up at one successor, it gives up at the node.
pub proof fn lemma_succs_none<G: Graph>(
    g: &G,
    doms: &Dominators<G>,
    list: Seq<usize>,
    at: int,
    upto: int,
    m: WalkModel,
    fuel: nat,
)
    requires
        0 < at <= upto <= list.len(),
        succs_model(g, doms, list, at, m, fuel) is None,
    ensures
        succs_model(g, doms, list, upto, m, fuel) is None,
    decreases upto - at,
{
    if at < upto {
        lemma_succs_none(g, doms, list, at, upto - 1, m, fuel);
    }
}

/// The loop `l` and the loops around it, for no more than `steps` loops and
/// as far as the loop `stop`, which is left out, get the exit `s`.
pub open spec fn exits_pushed(t: TreeModel, l: Option<LoopId>, s: usize, steps: nat, stop: Option<LoopId>) -> TreeModel
    decreases steps,
{
    if steps == 0 || l is None || l == stop {
        t
    } else {
        exits_pushed(
            t.with_exit(l->Some_0.index as int, s),
            t.parents[l->Some_0.index as int],
            s,
            (steps - 1) as nat,
            stop,
        )
    }
}

/// How many loops above its start a search along the parents, which is at
/// `cursor` and has `steps` steps left, finds the loop `target`; `found`
/// counts the steps so far.
pub open spec fn found_above(
    parents: Seq<Option<LoopId>>,
    cursor: Option<LoopId>,
    target: LoopId,
    steps: nat,
    found: nat,
) -> Option<nat>
    decreases steps,
{
    if steps == 0 || cursor is None {
        None
    } else if cursor == Some(target) {
        Some(found)
    } else {
        found_above(parents, parents[cursor->Some_0.index as int], target, (steps - 1) as nat, found + 1)
    }
}

/// A node of loop `l` has the successor `s`. Where the loop of `s` lies
/// around `l`, the successor is an exit of `l` and of the loops around it
/// up to that loop; where `s` is in no loop, of `l` and of all loops around
/// it; else of none.
pub open spec fn exit_updated(t: TreeModel, l: LoopId, s: usize) -> TreeModel {
    let count = t.heads.len();
    match t.ids[s as int] {
        Some(target) => match found_above(t.parents, t.parents[l.index as int], target, count, 1) {
            Some(distance) => exits_pushed(t, Some(l), s, distance, Some(target)),
            None => t,
        },
        None => exits_pushed(t, Some(l), s, count, None),
    }
}

/// The exits that the edges from a node of loop `l` to the first `upto`
/// nodes of `list` add.
pub open spec fn node_exits(t: TreeModel, l: LoopId, list: Seq<usize>, upto: int) -> TreeModel
    decreases upto,
{
    if upto <= 0 || upto > list.len() {
        t
    } else {
        exit_updated(node_exits(t, l, list, upto - 1), l, list[upto - 1])
    }
}

/// The first `upto` nodes of `list` are put on the stack and marked, but
/// those that are not waiting for the exit walk.
pub open spec fn enqueued(states: Seq<NodeState>, stack: Seq<usize>, list: Seq<usize>, upto: int) -> (
    Seq<NodeState>,
    Seq<usize>,
)
    decreases upto,
{
    if upto <= 0 || upto > list.len() {
        (states, stack)
    } else {
        let (before, pile) = enqueued(states, stack, list, upto - 1);
        let s = list[upto - 1];
        if before[s as int] is FinishedHeadWalk {
            (before.update(s as int, NodeState::EnqueuedExitWalk), pile.push(s))
        } else {
            (before, pile)
        }
    }
}

/// The exit walk: the node on top of the stack leaves it; where it is in
/// a loop, its edges add exits; then its successors that wait for the walk
/// are put on the stack. `fuel` bounds the number of nodes taken.
pub open spec fn exit_model<G: Graph>(g: &G, m: WalkModel, stack: Seq<usize>, fuel: nat) -> WalkModel
    decreases fuel,
{
    if fuel == 0 || stack.len() == 0 {
        m
    } else {
        let node = stack.last();
        let succs = g.succs(node as int);
        let tree = match m.tree.ids[node as int] {
            Some(l) => node_exits(m.tree, l, succs, succs.len() as int),
            None => m.tree,
        };
        let (states, pile) = enqueued(m.states, stack.drop_last(), succs, succs.len() as int);
        exit_model(g, WalkModel { states, tree }, pile, (fuel - 1) as nat)
    }
}

/// The exit walk from `start`, after the head walk.
pub open spec fn exit_walk_model<G: Graph>(g: &G, m: WalkModel, start: usize) -> WalkModel {
    exit_model(
        g,
        WalkModel { states: m.states.update(start as int, NodeState::EnqueuedExitWalk), tree: m.tree },
        seq![start],
        g.node_count() + 1,
    )
}

/// The state in which nothing has been walked.
pub open spec fn fresh<G: Graph>(g: &G) -> WalkModel {
    WalkModel {
        states: Seq::new(g.node_count(), |n: int| NodeState::NotYetStarted),
        tree: TreeModel::empty(g.node_count()),
    }
}

/// The loop tree of `g` with the dominators `doms`: what the head walk
/// from the entry and then the exit walk from the entry leave. `None` where
/// the head walk gives up.
pub open spec fn loop_tree_of<G: Graph>(g: &G, doms: &Dominators<G>) -> Option<TreeModel> {
    match head_model(g, doms, g.entry() as int, fresh(g), g.node_count()) {
        None => None,
        Some((m, _)) => Some(exit_walk_model(g, m, g.entry() as usize).tree),
    }
}

} // verus!
