//! The two walks that build a loop tree. The head walk is a depth-first
//! search in which the target of every back edge becomes a loop head; each
//! node gets the innermost loop it reached by back edges. The exit walk then
//! records, for every edge that leaves a loop, the target as an exit.

use super::model::{
    enqueued, exit_model, exit_updated, exit_walk_model, exits_pushed, finish_model, found_above, fresh, head_model,
    innermost_of, inserted, inserted_all, lemma_innermost_none, lemma_succs_none, loop_tree_of, node_exits,
    promoted, succs_model, without, WalkModel,
};
use super::tree::{LoopId, LoopTree};
use crate::dominators::Dominators;
use crate::graph::{
    closes_cycle, has_edge, is_walk, lemma_reach_edge, lemma_reach_self, lemma_reach_trans, on_one_cycle, reaches,
    Graph,
};
use crate::iterate::{count_false, lemma_count_bound, lemma_count_mark, lemma_count_mono};
use vstd::pervasive::unreached;
use vstd::prelude::*;

verus! {

#[derive(Copy, Clone, Debug)]
pub enum NodeState {
    NotYetStarted,
    InProgress(Option<LoopId>),
    FinishedHeadWalk,
    EnqueuedExitWalk,
}

impl Default for NodeState {
    fn default() -> (r: Self)
        ensures
            r is NotYetStarted,
    {
        NodeState::NotYetStarted
    }
}

/// For every node, whether the head walk has started it.
pub open spec fn started_flags(state: Seq<NodeState>) -> Seq<bool> {
    Seq::new(state.len(), |i: int| !(state[i] is NotYetStarted))
}

/// For every node, whether it is anything but finished and waiting for the
/// exit walk.
pub open spec fn queued_flags(state: Seq<NodeState>) -> Seq<bool> {
    Seq::new(state.len(), |i: int| !(state[i] is FinishedHeadWalk))
}

/// Adds `id` to `set` unless it is there.
fn set_insert(set: &mut Vec<LoopId>, id: LoopId)
    ensures
        final(set)@ == inserted(old(set)@, id),
        forall|x: LoopId| final(set)@.contains(x) <==> (old(set)@.contains(x) || x == id),
{
    let mut i: usize = 0;
    while i < set.len()
        invariant
            i <= set.len(),
            set@ == old(set)@,
            forall|j: int| 0 <= j < i ==> set@[j] != id,
        decreases set.len() - i,
    {
        if set[i] == id {
            proof {
                assert(set@[i as int] == id);
                assert(set@.contains(id));
            }
            return ;
        }
        i += 1;
    }
    set.push(id);
    proof {
        assert(!old(set)@.contains(id));
        assert forall|x: LoopId| set@.contains(x) <==> (old(set)@.contains(x) || x == id) by {
            if old(set)@.contains(x) {
                let j = choose|j: int| 0 <= j < old(set)@.len() && old(set)@[j] == x;
                assert(set@[j] == x);
            }
            if x == id {
                assert(set@[set@.len() - 1] == x);
            }
        }
    }
}

/// `set` without `id`.
fn set_without(set: &Vec<LoopId>, id: LoopId) -> (r: Vec<LoopId>)
    ensures
        r@ == without(set@, id, set@.len() as int),
        forall|x: LoopId| r@.contains(x) <==> (set@.contains(x) && x != id),
{
    let mut out: Vec<LoopId> = Vec::new();
    let mut i: usize = 0;
    while i < set.len()
        invariant
            i <= set.len(),
            out@ == without(set@, id, i as int),
            forall|x: LoopId|
                out@.contains(x) <==> (exists|j: int| 0 <= j < i && set@[j] == x && x != id),
        decreases set.len() - i,
    {
        let ghost before = out@;
        if set[i] != id {
            out.push(set[i]);
        }
        proof {
            assert forall|x: LoopId|
                out@.contains(x) <==> (exists|j: int| 0 <= j < i + 1 && set@[j] == x && x != id) by {
                if before.contains(x) {
                    let q = choose|q: int| 0 <= q < before.len() && before[q] == x;
                    assert(out@[q] == x);
                    let j = choose|j: int| 0 <= j < i && set@[j] == x && x != id;
                    assert(0 <= j < i + 1 && set@[j] == x);
                }
                if set@[i as int] == x && x != id {
                    assert(out@[out@.len() - 1] == x);
                }
                if out@.contains(x) {
                    let q = choose|q: int| 0 <= q < out@.len() && out@[q] == x;
                    if q < before.len() {
                        assert(before[q] == x);
                    } else {
                        assert(set@[i as int] == x);
                    }
                }
            }
        }
        i += 1;
    }
    proof {
        assert forall|x: LoopId| out@.contains(x) <==> (set@.contains(x) && x != id) by {
            if set@.contains(x) && x != id {
                let j = choose|j: int| 0 <= j < set@.len() && set@[j] == x;
                assert(0 <= j < set.len() && set@[j] == x && x != id);
            }
        }
    }
    out
}

pub struct LoopTreeWalk<'walk, G: Graph> {
    graph: &'walk G,
    dominators: &'walk Dominators<G>,
    state: Vec<NodeState>,
    loop_tree: LoopTree<G>,
}

impl<'walk, G: Graph> LoopTreeWalk<'walk, G> {
    pub closed spec fn wf(&self) -> bool {
        &&& self.graph.wf()
        &&& self.dominators.wf()
        &&& self.dominators.node_count() == self.graph.node_count()
        &&& forall|n: int|
            0 <= n < self.graph.node_count() && reaches(self.graph, self.graph.entry() as int, n)
                ==> self.dominators.reachable(n)
        &&& self.state.len() == self.graph.node_count()
        &&& self.loop_tree.wf()
        &&& self.loop_tree.nodes() == self.graph.node_count()
        &&& forall|n: int|
            0 <= n < self.state.len() ==> ((#[trigger] self.state[n]) matches NodeState::InProgress(
                Some(l),
            ) ==> l.index < self.loop_tree.loops())
        &&& forall|n: int|
            0 <= n < self.state.len() && !((#[trigger] self.state[n]) is NotYetStarted) ==> reaches(
                self.graph,
                self.graph.entry() as int,
                n,
            )
        &&& forall|l: int|
            0 <= l < self.loop_tree.loops() ==> reaches(
                self.graph,
                self.graph.entry() as int,
                #[trigger] self.loop_tree.head_of(l) as int,
            )
    }

    /// No node is enqueued for the exit walk, and every successor of a
    /// finished node has been started.
    pub closed spec fn head_phase(&self) -> bool {
        &&& forall|n: int| 0 <= n < self.state.len() ==> !((#[trigger] self.state[n]) is EnqueuedExitWalk)
        &&& forall|n: int, k: int|
            0 <= n < self.state.len() && self.state[n] is FinishedHeadWalk && 0 <= k
                < self.graph.succs(n).len() ==> !(self.state[#[trigger] self.graph.succs(n)[k] as int] is NotYetStarted)
    }

    /// What the tree says so far is true of the graph; a node in progress
    /// that is known as the head of a loop is the head of that loop; and
    /// the head of a loop has been started.
    pub closed spec fn sound(&self) -> bool {
        &&& self.loop_tree.holds_of(self.graph)
        &&& forall|n: int|
            0 <= n < self.state.len() ==> ((#[trigger] self.state[n]) matches NodeState::InProgress(
                Some(l),
            ) ==> self.loop_tree.head_of(l.index as int) == n)
        &&& forall|l: int|
            0 <= l < self.loop_tree.loops() ==> (self.state[#[trigger] self.loop_tree.head_of(l) as int] matches NodeState::InProgress(
                x,
            ) ==> x == Some(LoopId { index: l as usize }))
        &&& forall|l: int|
            0 <= l < self.loop_tree.loops() ==> !(self.state[#[trigger] self.loop_tree.head_of(l) as int] is NotYetStarted)
        &&& forall|l: int| 0 <= l < self.loop_tree.loops() ==> (#[trigger] self.loop_tree.exits_of(l)).len() == 0
    }

    /// The head of every loop has the head of the loop around it on its
    /// chain of dominators.
    pub closed spec fn nested(&self) -> bool {
        self.loop_tree.nested_by(self.dominators)
    }

    /// Every node in progress reaches `node`.
    pub closed spec fn stack_reaches(&self, node: int) -> bool {
        forall|x: int| 0 <= x < self.state.len() && (#[trigger] self.state[x]) is InProgress ==> reaches(self.graph, x, node)
    }

    /// The head of every loop of `set` is in progress, and `node` reaches
    /// it.
    pub closed spec fn open_loops(&self, set: Seq<LoopId>, node: int) -> bool {
        forall|x: LoopId|
            #[trigger] set.contains(x) ==> x.index < self.loop_tree.loops() && self.state[self.loop_tree.head_of(
                x.index as int,
            ) as int] is InProgress && reaches(self.graph, node, self.loop_tree.head_of(x.index as int) as int)
    }

    /// No node is in progress, and every successor of a node that the head
    /// walk has finished has been started.
    pub closed spec fn exit_phase(&self) -> bool {
        &&& forall|n: int|
            0 <= n < self.state.len() ==> !((#[trigger] self.state[n]) is InProgress)
        &&& forall|n: int, k: int|
            0 <= n < self.state.len() && !(self.state[n] is NotYetStarted) && 0 <= k
                < self.graph.succs(n).len() ==> !(self.state[#[trigger] self.graph.succs(n)[k] as int] is NotYetStarted)
    }

    pub closed spec fn tree(&self) -> LoopTree<G> {
        self.loop_tree
    }

    pub closed spec fn states(&self) -> Seq<NodeState> {
        self.state@
    }

    pub closed spec fn same_inputs(&self, other: &Self) -> bool {
        self.graph == other.graph && self.dominators == other.dominators
    }

    pub fn new(graph: &'walk G, dominators: &'walk Dominators<G>) -> (r: Self)
        requires
            graph.wf(),
            dominators.wf(),
            dominators.node_count() == graph.node_count(),
            forall|n: int|
                0 <= n < graph.node_count() && reaches(graph, graph.entry() as int, n)
                    ==> dominators.reachable(n),
        ensures
            r.wf(),
            r.head_phase(),
            r.sound(),
            r.input() == graph,
            r.doms() == dominators,
            r.model() == fresh(graph),
            r.nested(),
            r.tree().nodes() == graph.node_count(),
            r.states().len() == graph.node_count(),
            forall|n: int| 0 <= n < r.states().len() ==> r.states()[n] is NotYetStarted,
            r.starts_at(graph),
    {
        let num_nodes = graph.num_nodes();
        let mut state: Vec<NodeState> = Vec::new();
        let mut i: usize = 0;
        while i < num_nodes
            invariant
                i <= num_nodes,
                state.len() == i,
                forall|j: int| 0 <= j < i ==> state[j] is NotYetStarted,
            decreases num_nodes - i,
        {
            state.push(NodeState::NotYetStarted);
            i += 1;
        }
        let r = LoopTreeWalk { graph, dominators, state, loop_tree: LoopTree::new(graph) };
        proof {
            assert(r.model().states =~= fresh(graph).states);
        }
        r
    }

    pub closed spec fn starts_at(&self, graph: &G) -> bool {
        self.graph == graph
    }

    /// The graph that is walked.
    pub closed spec fn input(&self) -> &G {
        self.graph
    }

    /// The dominators that the loops are held against.
    pub closed spec fn doms(&self) -> &Dominators<G> {
        self.dominators
    }

    /// How far every node has come, and the tree so far.
    pub closed spec fn model(&self) -> WalkModel {
        WalkModel { states: self.state@, tree: self.loop_tree.model() }
    }

    /// Runs both walks. `None` where two loop heads that one node reaches by
    /// back edges do not dominate one another.
    pub fn compute_loop_tree(self) -> (r: Option<LoopTree<G>>)
        requires
            self.wf(),
            self.head_phase(),
            self.sound(),
            forall|n: int| 0 <= n < self.states().len() ==> self.states()[n] is NotYetStarted,
        ensures
            match loop_tree_of(self.input(), self.doms()) {
                None => r is None,
                Some(t) => r matches Some(tree) && tree.model() == t,
            },
            r matches Some(t) ==> t.wf() && t.nodes() == self.tree().nodes() && t.holds_of(self.input())
                && t.exits_hold(self.input()) && t.nested_by(self.doms()) && t.heads_reached(self.input()),
    {
        let mut walk = self;
        let graph: &'walk G = walk.graph;
        let start = graph.start_node();
        proof {
            let w = seq![start as int];
            assert(is_walk(graph, w) && w[0] == start as int && w.last() == start as int);
        }
        proof {
            assert(self.states()[start as int] is NotYetStarted);
            assert forall|n: int| 0 <= n < self.state.len() implies self.state[n] is NotYetStarted by {
                assert(self.states()[n] is NotYetStarted);
            }
            // a walk in which nothing was started has no loop yet
            if self.loop_tree.loops() > 0 {
                let h = self.loop_tree.head_of(0);
                assert(h < self.loop_tree.nodes());
                assert(self.state[h as int] is NotYetStarted);
            }
            assert(self.nested());
            let m = self.model();
            let f = fresh(graph);
            assert(m.states =~= f.states);
            assert(m.tree.ids =~= f.tree.ids);
            assert(m.tree.heads =~= f.tree.heads);
            assert(m.tree.parents =~= f.tree.parents);
            assert(m.tree.exits =~= f.tree.exits);
        }
        proof {
            lemma_count_bound(started_flags(walk.state@));
        }
        match walk.head_walk(start, Ghost(graph.node_count())) {
            None => None,
            Some(_) => {
                proof {
                    walk.lemma_exit_ready(&self);
                }
                let ghost headed = walk.loop_tree;
                proof {
                    assert(walk.sound());
                    assert(headed.exits_hold(graph)) by {
                        assert forall|l: int, k: int|
                            0 <= l < headed.loops() && 0 <= k < headed.exits_of(l).len() implies headed.leaves(
                            graph,
                            l,
                            #[trigger] headed.exits_of(l)[k] as int,
                        ) by {
                            assert(headed.exits_of(l).len() == 0);
                        }
                    }
                }
                proof {
                    assert(walk.nested());
                    assert(headed.nested_by(walk.dominators));
                    assert(headed.heads_reached(graph));
                }
                walk.exit_walk(start);
                proof {
                    walk.loop_tree.lemma_holds_same_shape(&headed, graph);
                    walk.loop_tree.lemma_nested_same_shape(&headed, self.dominators, graph);
                }
                Some(walk.loop_tree)
            },
        }
    }

    /// First walk: finds loop heads and loop parents. The result is the set
    /// of loops that `node` reached by back edges and that do not end at it.
    #[verifier::rlimit(60)]
    fn head_walk(&mut self, node: usize, Ghost(fuel): Ghost<nat>) -> (r: Option<Vec<LoopId>>)
        requires
            count_false(started_flags(old(self).state@)) <= fuel,
            old(self).wf(),
            old(self).head_phase(),
            node < old(self).state.len(),
            old(self).state[node as int] is NotYetStarted,
            reaches(old(self).graph, old(self).graph.entry() as int, node as int),
            old(self).sound(),
            old(self).nested(),
            old(self).stack_reaches(node as int),
        ensures
            match head_model(old(self).graph, old(self).dominators, node as int, old(self).model(), fuel) {
                None => r is None,
                Some((m, set)) => r matches Some(v) && v@ == set && final(self).model() == m,
            },
            r is Some ==> {
                &&& final(self).wf()
                &&& final(self).head_phase()
                &&& final(self).sound()
                &&& final(self).nested()
                &&& final(self).open_loops(r->Some_0@, node as int)
                &&& forall|l: int|
                    0 <= l < old(self).loop_tree.loops() ==> final(self).loop_tree.head_of(l) == old(self).loop_tree.head_of(l)
                &&& final(self).same_inputs(old(self))
                &&& final(self).state.len() == old(self).state.len()
                &&& final(self).state[node as int] is FinishedHeadWalk
                &&& forall|x: LoopId| r->Some_0@.contains(x) ==> x.index < final(self).loop_tree.loops()
                &&& forall|n: int|
                    0 <= n < old(self).state.len() ==> ((#[trigger] final(self).state[n]) is InProgress
                        <==> old(self).state[n] is InProgress)
                &&& forall|n: int|
                    0 <= n < old(self).state.len() && !(old(self).state[n] is NotYetStarted) ==> !((
                    #[trigger] final(self).state[n]) is NotYetStarted)
                &&& final(self).loop_tree.nodes() == old(self).loop_tree.nodes()
                &&& final(self).loop_tree.loops() >= old(self).loop_tree.loops()
            },
        decreases count_false(started_flags(old(self).state@)),
    {
        let graph: &'walk G = self.graph;
        proof {
            graph.lemma_edges();
            lemma_count_mark(started_flags(self.state@), node as int);
        }
        self.state.set(node, NodeState::InProgress(None));
        proof {
            assert(started_flags(self.state@) =~= started_flags(old(self).state@).update(
                node as int,
                true,
            ));
            assert(self.sound()) by {
                assert forall|l: int| 0 <= l < self.loop_tree.loops() implies self.loop_tree.head_of(l)
                    != node by {
                    assert(!(old(self).state[old(self).loop_tree.head_of(l) as int] is NotYetStarted));
                }
                assert forall|n: int|
                    0 <= n < self.state.len() implies ((#[trigger] self.state[n]) matches NodeState::InProgress(
                    Some(l),
                ) ==> self.loop_tree.head_of(l.index as int) == n) by {
                    if n != node {
                        assert(self.state[n] == old(self).state[n]);
                    }
                }
            }
            assert(self.stack_reaches(node as int)) by {
                assert forall|x: int|
                    0 <= x < self.state.len() && (#[trigger] self.state[x]) is InProgress implies reaches(
                    self.graph,
                    x,
                    node as int,
                ) by {
                    if x == node {
                        lemma_reach_self(graph, node as int);
                    } else {
                        assert(old(self).state[x] is InProgress);
                    }
                }
            }
        }
        let ghost entered = self.state@;
        let ghost first = self.model();
        let ghost rest = (fuel - 1) as nat;
        let ghost doms = self.dominators;
        proof {
            assert(fuel > 0);
            assert(first == (WalkModel {
                states: old(self).model().states.update(node as int, NodeState::InProgress(None)),
                tree: old(self).model().tree,
            }));
        }
        let mut set: Vec<LoopId> = Vec::new();
        let successors = graph.successors(node);
        let mut k: usize = 0;
        while k < successors.len()
            invariant
                graph == self.graph,
                self.wf(),
                self.head_phase(),
                self.same_inputs(old(self)),
                node < self.state.len(),
                self.state.len() == old(self).state.len(),
                self.loop_tree.nodes() == old(self).loop_tree.nodes(),
                self.loop_tree.loops() >= old(self).loop_tree.loops(),
                old(self).state[node as int] is NotYetStarted,
                successors@ == graph.succs(node as int),
                forall|i: int| 0 <= i < successors.len() ==> successors[i] < graph.node_count(),
                k <= successors.len(),
                self.state[node as int] is InProgress,
                count_false(started_flags(self.state@)) < count_false(
                    started_flags(old(self).state@),
                ),
                forall|x: LoopId| set@.contains(x) ==> x.index < self.loop_tree.loops(),
                fuel > 0,
                rest == fuel - 1,
                count_false(started_flags(old(self).state@)) <= fuel,
                doms == self.dominators,
                doms == old(self).dominators,
                graph == old(self).graph,
                succs_model(graph, doms, successors@, k as int, first, rest) == Some((self.model(), set@)),
                head_model(graph, doms, node as int, old(self).model(), fuel) == match succs_model(
                    graph,
                    doms,
                    successors@,
                    successors@.len() as int,
                    first,
                    rest,
                ) {
                    None => None,
                    Some((m, s)) => finish_model(doms, node as int, m, s),
                },
                self.sound(),
                self.nested(),
                self.stack_reaches(node as int),
                self.open_loops(set@, node as int),
                forall|l: int|
                    0 <= l < old(self).loop_tree.loops() ==> self.loop_tree.head_of(l) == old(self).loop_tree.head_of(l),
                forall|i: int| 0 <= i < k ==> !(self.state[#[trigger] successors[i] as int] is NotYetStarted),
                forall|n: int|
                    0 <= n < self.state.len() && n != node ==> ((#[trigger] self.state[n]) is InProgress
                        <==> old(self).state[n] is InProgress),
                forall|n: int|
                    0 <= n < self.state.len() && !(old(self).state[n] is NotYetStarted) ==> !((
                    #[trigger] self.state[n]) is NotYetStarted),
            decreases successors.len() - k,
        {
            let successor = successors[k];
            let ghost before = self.state@;
            proof {
                assert(successors@.contains(successor));
                assert(has_edge(graph, node as int, successor as int));
                lemma_reach_edge(graph, graph.entry() as int, node as int, successor as int);
            }
            match self.state[successor] {
                NodeState::NotYetStarted => {
                    let ghost calling = *self;
                    proof {
                        assert(self.stack_reaches(successor as int)) by {
                            assert forall|x: int|
                                0 <= x < self.state.len() && (#[trigger] self.state[x]) is InProgress implies reaches(
                                self.graph,
                                x,
                                successor as int,
                            ) by {
                                lemma_reach_edge(graph, x, node as int, successor as int);
                            }
                        }
                    }
                    let ghost set0 = set@;
                    match self.head_walk(successor, Ghost(rest)) {
                        None => {
                            proof {
                                assert(succs_model(graph, doms, successors@, k + 1, first, rest) is None);
                                lemma_succs_none(graph, doms, successors@, k + 1, successors@.len() as int, first, rest);
                                assert(successors@.len() == graph.succs(node as int).len());
                                assert(head_model(graph, doms, node as int, old(self).model(), fuel) is None);
                            }
                            return None;
                        },
                        Some(sub) => {
                            proof {
                                assert(succs_model(graph, doms, successors@, k + 1, first, rest) == Some(
                                    (self.model(), inserted_all(set0, sub@, sub@.len() as int)),
                                ));
                                lemma_reach_self(graph, node as int);
                                lemma_reach_edge(graph, node as int, node as int, successor as int);
                                assert(self.open_loops(sub@, node as int)) by {
                                    assert forall|x: LoopId| #[trigger] sub@.contains(x) implies reaches(
                                        self.graph,
                                        node as int,
                                        self.loop_tree.head_of(x.index as int) as int,
                                    ) by {
                                        lemma_reach_trans(
                                            graph,
                                            node as int,
                                            successor as int,
                                            self.loop_tree.head_of(x.index as int) as int,
                                        );
                                    }
                                }
                                assert(self.open_loops(set@, node as int)) by {
                                    assert forall|x: LoopId| #[trigger] set@.contains(x) implies x.index
                                        < self.loop_tree.loops() && self.state[self.loop_tree.head_of(
                                        x.index as int,
                                    ) as int] is InProgress && reaches(
                                        self.graph,
                                        node as int,
                                        self.loop_tree.head_of(x.index as int) as int,
                                    ) by {
                                        assert(calling.open_loops(set@, node as int));
                                        let h = calling.loop_tree.head_of(x.index as int);
                                        assert(self.loop_tree.head_of(x.index as int) == h);
                                        assert(calling.state[h as int] is InProgress);
                                    }
                                }
                                assert(self.stack_reaches(node as int)) by {
                                    assert forall|x: int|
                                        0 <= x < self.state.len() && (#[trigger] self.state[x]) is InProgress implies reaches(
                                        self.graph,
                                        x,
                                        node as int,
                                    ) by {
                                        assert(calling.state[x] is InProgress);
                                    }
                                }
                            }
                            let mut j: usize = 0;
                            while j < sub.len()
                                invariant
                                    j <= sub.len(),
                                    forall|x: LoopId|
                                        sub@.contains(x) ==> x.index < self.loop_tree.loops(),
                                    forall|x: LoopId|
                                        set@.contains(x) ==> x.index < self.loop_tree.loops(),
                                    self.open_loops(sub@, node as int),
                                    self.open_loops(set@, node as int),
                                    set@ == inserted_all(set0, sub@, j as int),
                                decreases sub.len() - j,
                            {
                                assert(sub@.contains(sub@[j as int]));
                                set_insert(&mut set, sub[j]);
                                j += 1;
                            }
                        },
                    }
                },
                NodeState::InProgress(opt_loop_id) => {
                    if let Some(loop_id) = opt_loop_id {
                        proof {
                            lemma_reach_self(graph, node as int);
                            lemma_reach_edge(graph, node as int, node as int, successor as int);
                            assert(self.loop_tree.head_of(loop_id.index as int) == successor);
                        }
                        set_insert(&mut set, loop_id);
                    } else {
                        let ghost calling = *self;
                        proof {
                            assert(reaches(graph, successor as int, node as int));
                            assert(closes_cycle(graph, successor as int));
                        }
                        let loop_id = self.promote_to_loop_head(successor);
                        proof {
                            assert(loop_id == (LoopId { index: calling.model().tree.heads.len() as usize }));
                            lemma_reach_self(graph, node as int);
                            lemma_reach_edge(graph, node as int, node as int, successor as int);
                            assert(self.open_loops(set@, node as int)) by {
                                assert forall|x: LoopId| #[trigger] set@.contains(x) implies x.index
                                    < self.loop_tree.loops() && self.state[self.loop_tree.head_of(
                                    x.index as int,
                                ) as int] is InProgress && reaches(
                                    self.graph,
                                    node as int,
                                    self.loop_tree.head_of(x.index as int) as int,
                                ) by {
                                    assert(calling.open_loops(set@, node as int));
                                    let h = calling.loop_tree.head_of(x.index as int);
                                    assert(self.loop_tree.head_of(x.index as int) == h);
                                    assert(calling.state[h as int] is InProgress);
                                }
                            }
                            assert(self.stack_reaches(node as int)) by {
                                assert forall|x: int|
                                    0 <= x < self.state.len() && (#[trigger] self.state[x]) is InProgress implies reaches(
                                    self.graph,
                                    x,
                                    node as int,
                                ) by {
                                    assert(calling.state[x] is InProgress);
                                }
                            }
                        }
                        set_insert(&mut set, loop_id);
                    }
                },
                NodeState::FinishedHeadWalk => {},
                NodeState::EnqueuedExitWalk => {
                    unreached()
                },
            }
            proof {
                lemma_count_mono(started_flags(before), started_flags(self.state@));
                assert forall|i: int| 0 <= i < k + 1 implies !(self.state[#[trigger] successors[i] as int] is NotYetStarted) by {
                    if i < k {
                        assert(!(before[successors[i] as int] is NotYetStarted));
                    }
                }
            }
            k += 1;
        }
        let own = match self.state[node] {
            NodeState::InProgress(x) => x,
            _ => None,
        };
        let ghost walked = *self;
        proof {
            assert(successors@.len() == graph.succs(node as int).len());
            assert(head_model(graph, doms, node as int, old(self).model(), fuel) == finish_model(
                doms,
                node as int,
                walked.model(),
                set@,
            ));
        }
        self.state.set(node, NodeState::FinishedHeadWalk);
        proof {
            assert(self.sound()) by {
                assert forall|n: int|
                    0 <= n < self.state.len() implies ((#[trigger] self.state[n]) matches NodeState::InProgress(
                    Some(l),
                ) ==> self.loop_tree.head_of(l.index as int) == n) by {
                    if n != node {
                        assert(self.state[n] == walked.state[n]);
                    }
                }
                assert forall|l: int|
                    0 <= l < self.loop_tree.loops() implies (self.state[#[trigger] self.loop_tree.head_of(
                    l,
                ) as int] matches NodeState::InProgress(x) ==> x == Some(LoopId { index: l as usize })) && !(
                self.state[self.loop_tree.head_of(l) as int] is NotYetStarted) by {
                    let h = walked.loop_tree.head_of(l);
                    if h != node {
                        assert(self.state[h as int] == walked.state[h as int]);
                    }
                }
            }
        }
        match self.innermost(&set) {
            None => None,
            Some(None) => {
                proof {
                    assert(self.open_loops(set@, node as int));
                }
                Some(set)
            },
            Some(Some(loop_id)) => {
                let ghost finished = *self;
                self.loop_tree.set_loop_id(node, Some(loop_id));
                let loop_head = self.loop_tree.loop_head(loop_id);
                proof {
                    assert(self.nested()) by {
                        assert(walked.nested());
                        assert forall|l: int|
                            0 <= l < self.loop_tree.loops() implies ((#[trigger] self.loop_tree.parent_of(
                            l,
                        )) matches Some(p) ==> p.index != l && self.dominators.dominated_by(
                            self.loop_tree.head_of(l) as int,
                            self.loop_tree.head_of(p.index as int) as int,
                        )) by {
                            assert(self.loop_tree.parent_of(l) == walked.loop_tree.parent_of(l));
                            assert(self.loop_tree.head_of(l) == walked.loop_tree.head_of(l));
                            if walked.loop_tree.parent_of(l) is Some {
                                let p = walked.loop_tree.parent_of(l)->Some_0;
                                assert(self.loop_tree.head_of(p.index as int) == walked.loop_tree.head_of(
                                    p.index as int,
                                ));
                            }
                        }
                    }
                    // the head of this loop has the heads of all loops of the set above it
                    assert forall|x: LoopId| #[trigger] set@.contains(x) implies self.dominators.dominated_by(
                        self.loop_tree.head_of(loop_id.index as int) as int,
                        self.loop_tree.head_of(x.index as int) as int,
                    ) by {
                        assert(self.loop_tree.head_of(loop_id.index as int) == finished.loop_tree.head_of(
                            loop_id.index as int,
                        ));
                        assert(self.loop_tree.head_of(x.index as int) == finished.loop_tree.head_of(
                            x.index as int,
                        ));
                    }
                    // the node lies on one cycle with the head of its loop
                    assert(walked.open_loops(set@, node as int));
                    assert(set@.contains(loop_id));
                    let h = walked.loop_tree.head_of(loop_id.index as int);
                    assert(walked.state[h as int] is InProgress);
                    assert(reaches(graph, h as int, node as int));
                    assert(self.sound()) by {
                        assert(finished.sound());
                        assert forall|n: int|
                            0 <= n < self.loop_tree.nodes() implies ((#[trigger] self.loop_tree.id_of(
                            n,
                        )) matches Some(l) ==> on_one_cycle(
                            graph,
                            self.loop_tree.head_of(l.index as int) as int,
                            n,
                        )) by {
                            if n != node {
                                assert(self.loop_tree.id_of(n) == finished.loop_tree.id_of(n));
                                if finished.loop_tree.id_of(n) is Some {
                                    let l = finished.loop_tree.id_of(n)->Some_0;
                                    assert(self.loop_tree.head_of(l.index as int) == finished.loop_tree.head_of(
                                        l.index as int,
                                    ));
                                }
                            }
                        }
                        assert forall|l: int|
                            0 <= l < self.loop_tree.loops() implies ((#[trigger] self.loop_tree.parent_of(
                            l,
                        )) matches Some(p) ==> p.index != l && on_one_cycle(
                            graph,
                            self.loop_tree.head_of(p.index as int) as int,
                            self.loop_tree.head_of(l) as int,
                        )) by {
                            assert(self.loop_tree.parent_of(l) == finished.loop_tree.parent_of(l));
                            assert(self.loop_tree.head_of(l) == finished.loop_tree.head_of(l));
                            if finished.loop_tree.parent_of(l) is Some {
                                let p = finished.loop_tree.parent_of(l)->Some_0;
                                assert(self.loop_tree.head_of(p.index as int) == finished.loop_tree.head_of(
                                    p.index as int,
                                ));
                            }
                        }
                        assert forall|l: int| 0 <= l < self.loop_tree.loops() implies closes_cycle(
                            graph,
                            #[trigger] self.loop_tree.head_of(l) as int,
                        ) by {
                            assert(self.loop_tree.head_of(l) == finished.loop_tree.head_of(l));
                        }
                        assert forall|l: int|
                            0 <= l < self.loop_tree.loops() implies (self.state[#[trigger] self.loop_tree.head_of(
                            l,
                        ) as int] matches NodeState::InProgress(x) ==> x == Some(LoopId { index: l as usize }))
                            && !(self.state[self.loop_tree.head_of(l) as int] is NotYetStarted) by {
                            assert(self.loop_tree.head_of(l) == finished.loop_tree.head_of(l));
                        }
                        assert forall|n: int|
                            0 <= n < self.state.len() implies ((#[trigger] self.state[n]) matches NodeState::InProgress(
                            Some(l),
                        ) ==> self.loop_tree.head_of(l.index as int) == n) by {
                            if self.state[n] is InProgress {
                                assert(finished.state[n] == self.state[n]);
                            }
                        }
                    }
                }
                if node == loop_head {
                    let rest = set_without(&set, loop_id);
                    proof {
                        // the other loops have other heads, which are still in progress
                        assert forall|x: LoopId| #[trigger] rest@.contains(x) implies x.index
                            < self.loop_tree.loops() && self.state[self.loop_tree.head_of(
                            x.index as int,
                        ) as int] is InProgress && reaches(
                            graph,
                            node as int,
                            self.loop_tree.head_of(x.index as int) as int,
                        ) && reaches(graph, self.loop_tree.head_of(x.index as int) as int, node as int) by {
                            assert(set@.contains(x));
                            let hx = walked.loop_tree.head_of(x.index as int);
                            assert(walked.state[hx as int] is InProgress);
                            assert(walked.sound());
                            if hx == node {
                                assert(walked.state[walked.loop_tree.head_of(x.index as int) as int] is InProgress);
                                assert(walked.state[walked.loop_tree.head_of(loop_id.index as int) as int] is InProgress);
                            }
                            assert(self.state[hx as int] == walked.state[hx as int]);
                        }
                        assert(self.open_loops(rest@, node as int));
                    }
                    match self.innermost(&rest) {
                        None => None,
                        Some(parent_loop_id) => {
                            let ghost labelled = *self;
                            self.loop_tree.set_parent(loop_id, parent_loop_id);
                            proof {
                                assert(self.nested()) by {
                                    assert(labelled.nested());
                                    assert forall|l: int|
                                        0 <= l < self.loop_tree.loops() implies ((
                                    #[trigger] self.loop_tree.parent_of(l)) matches Some(p) ==> p.index != l
                                        && self.dominators.dominated_by(
                                        self.loop_tree.head_of(l) as int,
                                        self.loop_tree.head_of(p.index as int) as int,
                                    )) by {
                                        assert(self.loop_tree.head_of(l) == labelled.loop_tree.head_of(l));
                                        if l != loop_id.index {
                                            assert(self.loop_tree.parent_of(l) == labelled.loop_tree.parent_of(l));
                                            if labelled.loop_tree.parent_of(l) is Some {
                                                let p = labelled.loop_tree.parent_of(l)->Some_0;
                                                assert(self.loop_tree.head_of(p.index as int)
                                                    == labelled.loop_tree.head_of(p.index as int));
                                            }
                                        } else if parent_loop_id is Some {
                                            let p = parent_loop_id->Some_0;
                                            assert(rest@.contains(p));
                                            assert(set@.contains(p));
                                            assert(self.loop_tree.head_of(p.index as int)
                                                == labelled.loop_tree.head_of(p.index as int));
                                        }
                                    }
                                }
                                assert(self.sound()) by {
                                    assert(labelled.sound());
                                    assert forall|n: int|
                                        0 <= n < self.loop_tree.nodes() implies ((#[trigger] self.loop_tree.id_of(
                                        n,
                                    )) matches Some(l) ==> on_one_cycle(
                                        graph,
                                        self.loop_tree.head_of(l.index as int) as int,
                                        n,
                                    )) by {
                                        assert(self.loop_tree.id_of(n) == labelled.loop_tree.id_of(n));
                                        if labelled.loop_tree.id_of(n) is Some {
                                            let l = labelled.loop_tree.id_of(n)->Some_0;
                                            assert(self.loop_tree.head_of(l.index as int)
                                                == labelled.loop_tree.head_of(l.index as int));
                                        }
                                    }
                                    assert forall|l: int|
                                        0 <= l < self.loop_tree.loops() implies ((
                                    #[trigger] self.loop_tree.parent_of(l)) matches Some(p) ==> p.index != l
                                        && on_one_cycle(
                                        graph,
                                        self.loop_tree.head_of(p.index as int) as int,
                                        self.loop_tree.head_of(l) as int,
                                    )) by {
                                        assert(self.loop_tree.head_of(l) == labelled.loop_tree.head_of(l));
                                        if l != loop_id.index {
                                            assert(self.loop_tree.parent_of(l) == labelled.loop_tree.parent_of(l));
                                            if labelled.loop_tree.parent_of(l) is Some {
                                                let p = labelled.loop_tree.parent_of(l)->Some_0;
                                                assert(self.loop_tree.head_of(p.index as int)
                                                    == labelled.loop_tree.head_of(p.index as int));
                                            }
                                        } else if parent_loop_id is Some {
                                            let p = parent_loop_id->Some_0;
                                            assert(rest@.contains(p));
                                            assert(self.loop_tree.head_of(p.index as int)
                                                == labelled.loop_tree.head_of(p.index as int));
                                        }
                                    }
                                    assert forall|l: int| 0 <= l < self.loop_tree.loops() implies closes_cycle(
                                        graph,
                                        #[trigger] self.loop_tree.head_of(l) as int,
                                    ) by {
                                        assert(self.loop_tree.head_of(l) == labelled.loop_tree.head_of(l));
                                    }
                                    assert forall|l: int|
                                        0 <= l < self.loop_tree.loops() implies (self.state[#[trigger] self.loop_tree.head_of(
                                        l,
                                    ) as int] matches NodeState::InProgress(x) ==> x == Some(
                                        LoopId { index: l as usize },
                                    )) && !(self.state[self.loop_tree.head_of(l) as int] is NotYetStarted) by {
                                        assert(self.loop_tree.head_of(l) == labelled.loop_tree.head_of(l));
                                    }
                                    assert forall|n: int|
                                        0 <= n < self.state.len() implies ((#[trigger] self.state[n]) matches NodeState::InProgress(
                                        Some(l),
                                    ) ==> self.loop_tree.head_of(l.index as int) == n) by {
                                        if self.state[n] is InProgress {
                                            assert(labelled.state[n] == self.state[n]);
                                        }
                                    }
                                }
                                assert(self.open_loops(rest@, node as int)) by {
                                    assert forall|x: LoopId| #[trigger] rest@.contains(x) implies x.index
                                        < self.loop_tree.loops() && self.state[self.loop_tree.head_of(
                                        x.index as int,
                                    ) as int] is InProgress && reaches(
                                        self.graph,
                                        node as int,
                                        self.loop_tree.head_of(x.index as int) as int,
                                    ) by {
                                        assert(labelled.open_loops(rest@, node as int));
                                        assert(self.loop_tree.head_of(x.index as int) == labelled.loop_tree.head_of(
                                            x.index as int,
                                        ));
                                    }
                                }
                            }
                            Some(rest)
                        },
                    }
                } else {
                    // a head whose own loop is not its innermost loop
                    if own.is_some() {
                        return None;
                    }
                    proof {
                        assert(self.open_loops(set@, node as int)) by {
                            assert forall|x: LoopId| #[trigger] set@.contains(x) implies x.index
                                < self.loop_tree.loops() && self.state[self.loop_tree.head_of(
                                x.index as int,
                            ) as int] is InProgress && reaches(
                                self.graph,
                                node as int,
                                self.loop_tree.head_of(x.index as int) as int,
                            ) by {
                                assert(walked.open_loops(set@, node as int));
                                assert(walked.sound());
                                let hx = walked.loop_tree.head_of(x.index as int);
                                assert(walked.state[hx as int] is InProgress);
                                assert(self.state[hx as int] == walked.state[hx as int]);
                            }
                        }
                    }
                    Some(set)
                }
            },
        }
    }

    /// Second walk: records the exits of every loop.
    fn exit_walk(&mut self, node: usize)
        requires
            old(self).wf(),
            old(self).exit_phase(),
            node < old(self).state.len(),
            old(self).state[node as int] is FinishedHeadWalk,
            old(self).loop_tree.exits_hold(old(self).graph),
            old(self).nested(),
            old(self).loop_tree.heads_distinct(),
        ensures
            final(self).loop_tree.wf(),
            final(self).loop_tree.nodes() == old(self).loop_tree.nodes(),
            final(self).loop_tree.same_shape(&old(self).loop_tree),
            final(self).loop_tree.exits_hold(old(self).graph),
            final(self).model() == exit_walk_model(old(self).graph, old(self).model(), node),
    {
        let graph: &'walk G = self.graph;
        let ghost goal = exit_walk_model(graph, self.model(), node);
        let ghost mut fuel: nat = graph.node_count() + 1;
        let mut stack: Vec<usize> = Vec::new();
        stack.push(node);
        proof {
            graph.lemma_edges();
            lemma_count_mark(queued_flags(self.state@), node as int);
        }
        self.state.set(node, NodeState::EnqueuedExitWalk);
        proof {
            assert(queued_flags(self.state@) =~= queued_flags(old(self).state@).update(
                node as int,
                true,
            ));
            lemma_count_bound(queued_flags(self.state@));
            assert(stack@ =~= seq![node]);
        }
        while stack.len() > 0
            invariant
                goal == exit_model(graph, self.model(), stack@, fuel),
                count_false(queued_flags(self.state@)) + stack.len() <= fuel,
                self.nested(),
                self.loop_tree.heads_distinct(),
                graph == self.graph,
                self.wf(),
                self.exit_phase(),
                self.state.len() == old(self).state.len(),
                self.loop_tree.nodes() == old(self).loop_tree.nodes(),
                self.loop_tree.same_shape(&old(self).loop_tree),
                self.loop_tree.exits_hold(graph),
                forall|i: int| 0 <= i < stack.len() ==> #[trigger] stack[i] < self.state.len(),
                forall|i: int| 0 <= i < stack.len() ==> !(self.state[#[trigger] stack[i] as int] is NotYetStarted),
            decreases count_false(queued_flags(self.state@)) + stack.len(),
        {
            let ghost stack_top = stack@;
            let ghost taken = self.model();
            let node = stack.pop().unwrap();
            proof {
                assert(stack@ =~= stack_top.drop_last());
                assert(taken.tree.ids[node as int] == self.loop_tree.id_of(node as int));
                assert(stack_top[stack_top.len() - 1] == node);
                assert forall|i: int| 0 <= i < stack.len() implies #[trigger] stack[i]
                    < self.state.len() && !(self.state[stack[i] as int] is NotYetStarted) by {
                    assert(stack[i] == stack_top[i]);
                }
            }
            let successors = graph.successors(node);
            let ghost state_before = self.state@;
            if let Some(loop_id) = self.loop_tree.loop_id(node) {
                let mut k: usize = 0;
                while k < successors.len()
                    invariant
                        self.loop_tree.model() == node_exits(taken.tree, loop_id, successors@, k as int),
                        self.nested(),
                        self.loop_tree.heads_distinct(),
                        graph == self.graph,
                        self.wf(),
                        self.exit_phase(),
                        self.state.len() == old(self).state.len(),
                        self.loop_tree.nodes() == old(self).loop_tree.nodes(),
                        self.loop_tree.same_shape(&old(self).loop_tree),
                        self.loop_tree.exits_hold(graph),
                        forall|i: int| 0 <= i < successors.len() ==> successors[i] < graph.node_count(),
                        loop_id.index < self.loop_tree.loops(),
                        k <= successors.len(),
                        self.state@ == state_before,
                        node < self.loop_tree.nodes(),
                        successors@ == graph.succs(node as int),
                        self.loop_tree.id_of(node as int) == Some(loop_id),
                    decreases successors.len() - k,
                {
                    let ghost before = self.loop_tree;
                    proof {
                        assert(successors@.contains(successors@[k as int]));
                        assert(has_edge(graph, node as int, successors@[k as int] as int));
                    }
                    self.update_loop_exit(loop_id, successors[k], Ghost(node as int));
                    proof {
                        assert(self.loop_tree.same_shape(&before));
                    }
                    k += 1;
                }
            }
            let mut k: usize = 0;
            let ghost mut pushed: int = 0;
            let ghost stack_before = stack@;
            let ghost count_before = count_false(queued_flags(self.state@));
            let ghost tree_mid = self.loop_tree.model();
            proof {
                assert(successors@.len() == graph.succs(node as int).len());
                assert(tree_mid == match taken.tree.ids[node as int] {
                    Some(l) => node_exits(taken.tree, l, graph.succs(node as int), graph.succs(node as int).len() as int),
                    None => taken.tree,
                });
            }
            while k < successors.len()
                invariant
                    self.loop_tree.model() == tree_mid,
                    (self.state@, stack@) == enqueued(state_before, stack_before, successors@, k as int),
                    self.nested(),
                    self.loop_tree.heads_distinct(),
                    graph == self.graph,
                    self.wf(),
                    self.exit_phase(),
                    node < self.state.len(),
                    !(self.state[node as int] is NotYetStarted),
                    self.state.len() == old(self).state.len(),
                    self.loop_tree.nodes() == old(self).loop_tree.nodes(),
                    self.loop_tree.same_shape(&old(self).loop_tree),
                    self.loop_tree.exits_hold(graph),
                    successors@ == graph.succs(node as int),
                    forall|i: int| 0 <= i < successors.len() ==> successors[i] < graph.node_count(),
                    k <= successors.len(),
                    forall|i: int| 0 <= i < stack.len() ==> #[trigger] stack[i] < self.state.len(),
                    forall|i: int| 0 <= i < stack.len() ==> !(self.state[#[trigger] stack[i] as int] is NotYetStarted),
                    stack.len() == stack_before.len() + pushed,
                    count_false(queued_flags(self.state@)) + pushed == count_before,
                decreases successors.len() - k,
            {
                let successor = successors[k];
                match self.state[successor] {
                    NodeState::NotYetStarted => {
                        proof {
                            assert(!(self.state[graph.succs(node as int)[k as int] as int] is NotYetStarted));
                        }
                        unreached()
                    },
                    NodeState::InProgress(_) => {
                        unreached()
                    },
                    NodeState::FinishedHeadWalk => {
                        stack.push(successor);
                        let ghost before = self.state@;
                        let ghost before_walk = *self;
                        proof {
                            lemma_count_mark(queued_flags(self.state@), successor as int);
                        }
                        self.state.set(successor, NodeState::EnqueuedExitWalk);
                        proof {
                            assert(queued_flags(self.state@) =~= queued_flags(before).update(
                                successor as int,
                                true,
                            ));
                            pushed = pushed + 1;
                            assert forall|n: int|
                                0 <= n < self.state.len() implies !((#[trigger] self.state[n]) is InProgress) by {
                                if n != successor {
                                    assert(self.state[n] == before[n]);
                                }
                            }
                            assert forall|n: int, q: int|
                                0 <= n < self.state.len() && !(self.state[n] is NotYetStarted) && 0 <= q
                                    < self.graph.succs(n).len() implies !(self.state[#[trigger] self.graph.succs(n)[q] as int] is NotYetStarted) by {
                                graph.lemma_edges();
                                assert(before_walk.exit_phase());
                                assert(!(before_walk.state[n] is NotYetStarted));
                                let t = before_walk.graph.succs(n)[q] as int;
                                assert(!(before_walk.state[t] is NotYetStarted));
                            }
                            self.lemma_wf_states(&before_walk);
                            assert forall|i: int| 0 <= i < stack.len() implies !(self.state[#[trigger] stack[i] as int] is NotYetStarted) by {
                                if i < stack.len() - 1 {
                                    assert(!(before[stack[i] as int] is NotYetStarted));
                                }
                            }
                        }
                    },
                    NodeState::EnqueuedExitWalk => {},
                }
                k += 1;
            }
            proof {
                assert(fuel > 0);
                assert(exit_model(graph, taken, stack_top, fuel) == exit_model(
                    graph,
                    self.model(),
                    stack@,
                    (fuel - 1) as nat,
                ));
                fuel = (fuel - 1) as nat;
            }
        }
    }

    fn promote_to_loop_head(&mut self, node: usize) -> (loop_id: LoopId)
        requires
            old(self).wf(),
            old(self).head_phase(),
            node < old(self).state.len(),
            old(self).state[node as int] == NodeState::InProgress(None),
            old(self).sound(),
            old(self).nested(),
            closes_cycle(old(self).graph, node as int),
        ensures
            final(self).wf(),
            final(self).head_phase(),
            final(self).sound(),
            final(self).nested(),
            final(self).loop_tree.head_of(loop_id.index as int) == node,
            final(self).model() == promoted(old(self).model(), node as int),
            loop_id.index == old(self).loop_tree.loops(),
            forall|l: int|
                0 <= l < old(self).loop_tree.loops() ==> final(self).loop_tree.head_of(l) == old(self).loop_tree.head_of(l),
            final(self).same_inputs(old(self)),
            loop_id.index < final(self).loop_tree.loops(),
            final(self).loop_tree.loops() == old(self).loop_tree.loops() + 1,
            final(self).loop_tree.nodes() == old(self).loop_tree.nodes(),
            final(self).state@ == old(self).state@.update(
                node as int,
                NodeState::InProgress(Some(loop_id)),
            ),
    {
        let loop_id = self.loop_tree.new_loop(node);
        self.state.set(node, NodeState::InProgress(Some(loop_id)));
        proof {
            assert(self.nested()) by {
                assert forall|l: int| 0 <= l < self.loop_tree.loops() implies ((#[trigger] self.loop_tree.parent_of(
                    l,
                )) matches Some(p) ==> p.index != l && self.dominators.dominated_by(
                    self.loop_tree.head_of(l) as int,
                    self.loop_tree.head_of(p.index as int) as int,
                )) by {
                    if l < old(self).loop_tree.loops() {
                        assert(self.loop_tree.parent_of(l) == old(self).loop_tree.parent_of(l));
                        assert(self.loop_tree.head_of(l) == old(self).loop_tree.head_of(l));
                        if old(self).loop_tree.parent_of(l) is Some {
                            let p = old(self).loop_tree.parent_of(l)->Some_0;
                            assert(self.loop_tree.head_of(p.index as int) == old(self).loop_tree.head_of(
                                p.index as int,
                            ));
                        }
                    }
                }
            }
            self.graph.lemma_edges();
            assert forall|n: int|
                0 <= n < self.state.len() implies ((#[trigger] self.state[n]) matches NodeState::InProgress(
                Some(l),
            ) ==> l.index < self.loop_tree.loops()) by {
                if n != node {
                    assert(self.state[n] == old(self).state[n]);
                }
            }
            assert forall|n: int|
                0 <= n < self.state.len() && !((#[trigger] self.state[n]) is NotYetStarted) implies reaches(
                self.graph,
                self.graph.entry() as int,
                n,
            ) by {
                assert(!(old(self).state[n] is NotYetStarted));
            }
            assert forall|l: int| 0 <= l < self.loop_tree.loops() implies reaches(
                self.graph,
                self.graph.entry() as int,
                #[trigger] self.loop_tree.head_of(l) as int,
            ) by {
                if l < old(self).loop_tree.loops() {
                    assert(self.loop_tree.head_of(l) == old(self).loop_tree.head_of(l));
                } else {
                    assert(!(old(self).state[node as int] is NotYetStarted));
                }
            }
            assert forall|n: int, k: int|
                0 <= n < self.state.len() && self.state[n] is FinishedHeadWalk && 0 <= k
                    < self.graph.succs(n).len() implies !(self.state[#[trigger] self.graph.succs(n)[k] as int] is NotYetStarted) by {
                assert(self.graph == old(self).graph);
                assert(n != node);
                assert(old(self).state[n] is FinishedHeadWalk);
                let s = old(self).graph.succs(n)[k] as int;
                assert(!(old(self).state[s] is NotYetStarted));
                if s != node {
                    assert(self.state[s] == old(self).state[s]);
                }
            }
            assert forall|n: int| 0 <= n < self.state.len() implies !((#[trigger] self.state[n]) is EnqueuedExitWalk) by {
                if n != node {
                    assert(self.state[n] == old(self).state[n]);
                }
            }
            assert(self.sound()) by {
                assert(old(self).sound());
                assert forall|l: int| 0 <= l < old(self).loop_tree.loops() implies old(self).loop_tree.head_of(l)
                    != node by {
                    let h = old(self).loop_tree.head_of(l);
                    if h == node {
                        assert(old(self).state[old(self).loop_tree.head_of(l) as int] is InProgress);
                    }
                }
                assert forall|l: int| 0 <= l < self.loop_tree.loops() implies closes_cycle(
                    self.graph,
                    #[trigger] self.loop_tree.head_of(l) as int,
                ) by {
                    if l < old(self).loop_tree.loops() {
                        assert(self.loop_tree.head_of(l) == old(self).loop_tree.head_of(l));
                    }
                }
                assert forall|n: int|
                    0 <= n < self.loop_tree.nodes() implies ((#[trigger] self.loop_tree.id_of(n)) matches Some(
                    l,
                ) ==> on_one_cycle(self.graph, self.loop_tree.head_of(l.index as int) as int, n)) by {
                    assert(self.loop_tree.id_of(n) == old(self).loop_tree.id_of(n));
                    if old(self).loop_tree.id_of(n) is Some {
                        let l = old(self).loop_tree.id_of(n)->Some_0;
                        assert(self.loop_tree.head_of(l.index as int) == old(self).loop_tree.head_of(
                            l.index as int,
                        ));
                    }
                }
                assert forall|l: int|
                    0 <= l < self.loop_tree.loops() implies ((#[trigger] self.loop_tree.parent_of(l)) matches Some(
                    p,
                ) ==> p.index != l && on_one_cycle(
                    self.graph,
                    self.loop_tree.head_of(p.index as int) as int,
                    self.loop_tree.head_of(l) as int,
                )) by {
                    if l < old(self).loop_tree.loops() {
                        assert(self.loop_tree.parent_of(l) == old(self).loop_tree.parent_of(l));
                        assert(self.loop_tree.head_of(l) == old(self).loop_tree.head_of(l));
                        if old(self).loop_tree.parent_of(l) is Some {
                            let p = old(self).loop_tree.parent_of(l)->Some_0;
                            assert(self.loop_tree.head_of(p.index as int) == old(self).loop_tree.head_of(
                                p.index as int,
                            ));
                        }
                    }
                }
                assert forall|n: int|
                    0 <= n < self.state.len() implies ((#[trigger] self.state[n]) matches NodeState::InProgress(
                    Some(l),
                ) ==> self.loop_tree.head_of(l.index as int) == n) by {
                    if n != node {
                        assert(self.state[n] == old(self).state[n]);
                        match old(self).state[n] {
                            NodeState::InProgress(Some(l)) => {
                                assert(self.loop_tree.head_of(l.index as int) == old(self).loop_tree.head_of(
                                    l.index as int,
                                ));
                            },
                            _ => {},
                        }
                    }
                }
                assert forall|l: int|
                    0 <= l < self.loop_tree.loops() implies (self.state[#[trigger] self.loop_tree.head_of(
                    l,
                ) as int] matches NodeState::InProgress(x) ==> x == Some(LoopId { index: l as usize })) && !(
                self.state[self.loop_tree.head_of(l) as int] is NotYetStarted) by {
                    if l < old(self).loop_tree.loops() {
                        let h = old(self).loop_tree.head_of(l);
                        assert(self.loop_tree.head_of(l) == h);
                        assert(h != node);
                        assert(self.state[h as int] == old(self).state[h as int]);
                    }
                }
            }
        }
        loop_id
    }

    /// The loop of `set` whose head all the other heads dominate. The inner
    /// `None` for an empty set, the outer where two heads do not dominate one
    /// another.
    fn innermost(&self, set: &Vec<LoopId>) -> (r: Option<Option<LoopId>>)
        requires
            self.wf(),
            forall|x: LoopId| set@.contains(x) ==> x.index < self.loop_tree.loops(),
        ensures
            r == innermost_of(self.dominators, self.loop_tree.model().heads, set@, set@.len() as int),
            r matches Some(Some(l)) ==> set@.contains(l),
            r matches Some(None) ==> set@.len() == 0,
            r matches Some(Some(l)) ==> forall|x: LoopId|
                #[trigger] set@.contains(x) ==> self.dominators.dominated_by(
                    self.loop_tree.head_of(l.index as int) as int,
                    self.loop_tree.head_of(x.index as int) as int,
                ),
    {
        let mut innermost: Option<LoopId> = None;
        let mut i: usize = 0;
        let ghost heads = self.loop_tree.model().heads;
        while i < set.len()
            invariant
                self.wf(),
                i <= set.len(),
                heads == self.loop_tree.model().heads,
                forall|x: LoopId| set@.contains(x) ==> x.index < self.loop_tree.loops(),
                innermost matches Some(l) ==> set@.contains(l),
                innermost is None ==> i == 0,
                innermost_of(self.dominators, heads, set@, i as int) == Some(innermost),
                innermost matches Some(l) ==> forall|q: int|
                    0 <= q < i ==> self.dominators.dominated_by(
                        self.loop_tree.head_of(l.index as int) as int,
                        self.loop_tree.head_of((#[trigger] set@[q]).index as int) as int,
                    ),
            decreases set.len() - i,
        {
            let loop_id1 = set[i];
            assert(set@.contains(loop_id1));
            let ghost before = innermost;
            proof {
                let h1 = self.loop_tree.head_of(loop_id1.index as int) as int;
                assert(reaches(self.graph, self.graph.entry() as int, h1));
                assert(self.dominators.reachable(h1));
                crate::dominators::lemma_on_chain_self(
                    self.dominators.ranks(),
                    self.dominators.idoms(),
                    self.dominators.root(),
                    h1,
                );
            }
            if let Some(loop_id2) = innermost {
                proof {
                    assert(heads[loop_id1.index as int] == self.loop_tree.head_of(loop_id1.index as int));
                    assert(heads[loop_id2.index as int] == self.loop_tree.head_of(loop_id2.index as int));
                }
                match self.is_inner_loop_of(loop_id1, loop_id2) {
                    None => {
                        proof {
                            lemma_innermost_none(self.dominators, heads, set@, i + 1, set@.len() as int);
                        }
                        return None;
                    },
                    Some(inner) => {
                        if inner {
                            innermost = Some(loop_id1);
                            proof {
                                let h1 = self.loop_tree.head_of(loop_id1.index as int) as int;
                                let h2 = self.loop_tree.head_of(loop_id2.index as int) as int;
                                assert forall|q: int| 0 <= q < i implies self.dominators.dominated_by(
                                    h1,
                                    self.loop_tree.head_of((#[trigger] set@[q]).index as int) as int,
                                ) by {
                                    crate::dominators::lemma_chain_trans(
                                        self.dominators.ranks(),
                                        self.dominators.idoms(),
                                        self.dominators.root(),
                                        h1,
                                        h2,
                                        self.loop_tree.head_of(set@[q].index as int) as int,
                                    );
                                }
                            }
                        }
                    },
                }
            } else {
                innermost = Some(loop_id1);
            }
            i += 1;
        }
        proof {
            if innermost is Some {
                let l = innermost->Some_0;
                assert forall|x: LoopId| #[trigger] set@.contains(x) implies self.dominators.dominated_by(
                    self.loop_tree.head_of(l.index as int) as int,
                    self.loop_tree.head_of(x.index as int) as int,
                ) by {
                    let q = choose|q: int| 0 <= q < set@.len() && set@[q] == x;
                    assert(self.dominators.dominated_by(
                        self.loop_tree.head_of(l.index as int) as int,
                        self.loop_tree.head_of(set@[q].index as int) as int,
                    ));
                }
            }
        }
        Some(innermost)
    }

    /// Whether the head of `l2` dominates the head of `l1`. `None` where
    /// neither head dominates the other.
    fn is_inner_loop_of(&self, l1: LoopId, l2: LoopId) -> (r: Option<bool>)
        requires
            self.wf(),
            l1.index < self.loop_tree.loops(),
            l2.index < self.loop_tree.loops(),
        ensures
            r == {
                let h1 = self.loop_tree.head_of(l1.index as int) as int;
                let h2 = self.loop_tree.head_of(l2.index as int) as int;
                if h1 != h2 && self.dominators.dominated_by(h1, h2) {
                    Some(true)
                } else if h1 != h2 && self.dominators.dominated_by(h2, h1) {
                    Some(false)
                } else {
                    None
                }
            },
    {
        let h1 = self.loop_tree.loop_head(l1);
        let h2 = self.loop_tree.loop_head(l2);
        proof {
            assert(reaches(self.graph, self.graph.entry() as int, self.loop_tree.head_of(l1.index as int) as int));
            assert(reaches(self.graph, self.graph.entry() as int, self.loop_tree.head_of(l2.index as int) as int));
            assert(self.loop_tree.head_of(l1.index as int) < self.loop_tree.nodes());
            assert(self.loop_tree.head_of(l2.index as int) < self.loop_tree.nodes());
        }
        if h1 == h2 {
            None
        } else if self.dominators.is_dominated_by(h1, h2) {
            Some(true)
        } else if self.dominators.is_dominated_by(h2, h1) {
            Some(false)
        } else {
            None
        }
    }

    /// A node of loop `loop_id` has the successor `successor`. Where the
    /// successor lies in a loop around `loop_id`, or in no loop, it is an
    /// exit of `loop_id` and of the loops around it up to that loop. A chain
    /// of parents is followed for no more steps than there are loops.
    fn update_loop_exit(&mut self, loop_id: LoopId, successor: usize, Ghost(from): Ghost<int>)
        requires
            old(self).wf(),
            loop_id.index < old(self).loop_tree.loops(),
            successor < old(self).state.len(),
            0 <= from < old(self).loop_tree.nodes(),
            old(self).loop_tree.id_of(from) == Some(loop_id),
            has_edge(old(self).graph, from, successor as int),
            old(self).loop_tree.exits_hold(old(self).graph),
            old(self).nested(),
            old(self).loop_tree.heads_distinct(),
        ensures
            final(self).wf(),
            final(self).same_inputs(old(self)),
            final(self).state@ == old(self).state@,
            final(self).loop_tree.same_shape(&old(self).loop_tree),
            final(self).loop_tree.exits_hold(old(self).graph),
            old(self).exit_phase() ==> final(self).exit_phase(),
            final(self).loop_tree.model() == exit_updated(old(self).loop_tree.model(), loop_id, successor),
            final(self).nested(),
            final(self).loop_tree.heads_distinct(),
    {
        let ghost graph = self.graph;
        let ghost t0 = self.loop_tree.model();
        let count = self.loop_tree.loop_infos_len();
        proof {
            assert(t0.heads.len() == count);
            assert(t0.ids[successor as int] == self.loop_tree.id_of(successor as int));
            assert(t0.parents[loop_id.index as int] == self.loop_tree.parent_of(loop_id.index as int));
        }
        match self.loop_tree.loop_id(successor) {
            Some(successor_loop_id) => {
                let mut found: bool = false;
                let mut distance: usize = 0;
                let mut cursor: Option<LoopId> = self.loop_tree.parent(loop_id);
                let mut steps: usize = 0;
                while steps < count && !found && cursor.is_some()
                    invariant
                        self.wf(),
                        *self == *old(self),
                        t0 == self.loop_tree.model(),
                        count == self.loop_tree.loops(),
                        steps <= count,
                        cursor matches Some(c) ==> c.index < self.loop_tree.loops(),
                        found_above(
                            t0.parents,
                            t0.parents[loop_id.index as int],
                            successor_loop_id,
                            count as nat,
                            1,
                        ) == if found {
                            Some(distance as nat)
                        } else {
                            found_above(
                                t0.parents,
                                cursor,
                                successor_loop_id,
                                (count - steps) as nat,
                                (steps + 1) as nat,
                            )
                        },
                        !found ==> cursor == self.loop_tree.nth_parent(loop_id, (steps + 1) as nat),
                        found ==> 1 <= distance <= count && self.loop_tree.nth_parent(
                            loop_id,
                            distance as nat,
                        ) == Some(successor_loop_id),
                    decreases count - steps,
                {
                    let c = cursor.unwrap();
                    proof {
                        assert(t0.parents[c.index as int] == self.loop_tree.parent_of(c.index as int));
                    }
                    steps += 1;
                    if c == successor_loop_id {
                        found = true;
                        distance = steps;
                    } else {
                        cursor = self.loop_tree.parent(c);
                    }
                }
                if found {
                    let mut current = loop_id;
                    let mut left: usize = distance;
                    let ghost mut up: nat = 0;
                    let ghost goal = exits_pushed(t0, Some(loop_id), successor, distance as nat, Some(successor_loop_id));
                    proof {
                        assert(exit_updated(t0, loop_id, successor) == goal);
                    }
                    while current != successor_loop_id && left > 0
                        invariant
                            old(self).wf(),
                            self.wf(),
                            self.same_inputs(old(self)),
                            graph == self.graph,
                            self.state@ == old(self).state@,
                            self.loop_tree.same_shape(&old(self).loop_tree),
                            self.loop_tree.exits_hold(graph),
                            goal == exits_pushed(
                                self.loop_tree.model(),
                                Some(current),
                                successor,
                                left as nat,
                                Some(successor_loop_id),
                            ),
                            successor < self.state.len(),
                            current.index < self.loop_tree.loops(),
                            self.loop_tree.nth_parent(current, left as nat) == Some(successor_loop_id),
                            self.loop_tree.nth_parent(loop_id, up) == Some(current),
                            self.nested(),
                            self.loop_tree.heads_distinct(),
                            successor_loop_id.index < self.loop_tree.loops(),
                            0 <= from < self.loop_tree.nodes(),
                            self.loop_tree.id_of(from) == Some(loop_id),
                            self.loop_tree.id_of(successor as int) == Some(successor_loop_id),
                            has_edge(graph, from, successor as int),
                        decreases left,
                    {
                        let ghost before = self.loop_tree;
                        proof {
                            assert(before.model().parents[current.index as int] == before.parent_of(
                                current.index as int,
                            ));
                            // the loop of the successor lies around this loop, not within it
                            self.lemma_heads_reached();
                            before.lemma_parents_rise(graph, self.dominators, current, left as nat);
                            assert forall|j: nat| #[trigger]
                                before.nth_parent(successor_loop_id, j) != Some(current) by {
                                if j >= 1 {
                                    before.lemma_parents_rise(graph, self.dominators, successor_loop_id, j);
                                }
                            }
                        }
                        self.loop_tree.push_loop_exit(current, successor);
                        proof {
                            self.loop_tree.lemma_nested_same_shape(&before, self.dominators, graph);
                            self.lemma_wf_kept(old(self));
                            self.loop_tree.lemma_same_parents(&before, current, left as nat);
                            lemma_nth_parent_first(&self.loop_tree, current, left as nat);
                            self.lemma_exit_added(&before, current, successor, from, loop_id, up);
                            self.loop_tree.lemma_same_parents(&before, loop_id, up);
                        }
                        current = self.loop_tree.parent(current).unwrap();
                        left -= 1;
                        proof {
                            up = up + 1;
                        }
                    }
                }
            },
            None => {
                let mut p: Option<LoopId> = Some(loop_id);
                let mut steps: usize = 0;
                let ghost goal = exits_pushed(t0, Some(loop_id), successor, count as nat, None);
                proof {
                    assert(exit_updated(t0, loop_id, successor) == goal);
                }
                while steps < count && p.is_some()
                    invariant
                        goal == exits_pushed(
                            self.loop_tree.model(),
                            p,
                            successor,
                            (count - steps) as nat,
                            None,
                        ),
                        old(self).wf(),
                        self.wf(),
                        self.same_inputs(old(self)),
                        graph == self.graph,
                        self.state@ == old(self).state@,
                        self.loop_tree.same_shape(&old(self).loop_tree),
                        self.loop_tree.exits_hold(graph),
                        successor < self.state.len(),
                        count == self.loop_tree.loops(),
                        steps <= count,
                        p matches Some(l) ==> l.index < self.loop_tree.loops(),
                        p == self.loop_tree.nth_parent(loop_id, steps as nat),
                        self.nested(),
                        self.loop_tree.heads_distinct(),
                        0 <= from < self.loop_tree.nodes(),
                        self.loop_tree.id_of(from) == Some(loop_id),
                        self.loop_tree.id_of(successor as int) is None,
                        has_edge(graph, from, successor as int),
                    decreases count - steps,
                {
                    let l = p.unwrap();
                    let ghost before = self.loop_tree;
                    proof {
                        assert(before.model().parents[l.index as int] == before.parent_of(l.index as int));
                    }
                    self.loop_tree.push_loop_exit(l, successor);
                    proof {
                        self.loop_tree.lemma_nested_same_shape(&before, self.dominators, graph);
                        self.lemma_wf_kept(old(self));
                        self.lemma_exit_added(&before, l, successor, from, loop_id, steps as nat);
                        self.loop_tree.lemma_same_parents(&before, loop_id, steps as nat);
                    }
                    p = self.loop_tree.parent(l);
                    steps += 1;
                }
            },
        }
    }

    /// The entry reaches the head of every loop, and the dominators know
    /// every node that the entry reaches.
    proof fn lemma_heads_reached(&self)
        requires
            self.wf(),
        ensures
            self.loop_tree.heads_reached(self.graph),
            self.dominators.wf(),
            self.graph.wf(),
            self.loop_tree.nodes() == self.graph.node_count(),
            self.loop_tree.wf(),
            forall|n: int|
                0 <= n < self.graph.node_count() && reaches(self.graph, self.graph.entry() as int, n)
                    ==> self.dominators.reachable(n),
    {
    }

    /// An exit that was added where an edge leaves the loop keeps the exits
    /// true of the graph.
    proof fn lemma_exit_added(&self, before: &LoopTree<G>, l: LoopId, s: usize, from: int, inner: LoopId, up: nat)
        requires
            before.wf(),
            before.exits_hold(self.graph),
            self.loop_tree.same_shape(before),
            l.index < before.loops(),
            s < before.nodes(),
            self.loop_tree.exits_of(l.index as int) == before.exits_of(l.index as int).push(s),
            forall|x: int|
                0 <= x < before.loops() && x != l.index ==> self.loop_tree.exits_of(x) == before.exits_of(x),
            0 <= from < before.nodes(),
            before.id_of(from) == Some(inner),
            has_edge(self.graph, from, s as int),
            before.nth_parent(inner, up) == Some(l),
            before.id_of(s as int) != Some(l),
            before.id_of(s as int) is Some ==> forall|j: nat|
                #[trigger] before.nth_parent(before.id_of(s as int)->Some_0, j) != Some(l),
        ensures
            self.loop_tree.exits_hold(self.graph),
    {
        let g = self.graph;
        assert(before.nth_parent(before.id_of(from)->Some_0, up) == Some(LoopId { index: l.index }));
        assert(before.leaves(g, l.index as int, s as int));
        assert forall|x: int, k: int|
            0 <= x < self.loop_tree.loops() && 0 <= k < self.loop_tree.exits_of(x).len() implies self.loop_tree.leaves(
            g,
            x,
            #[trigger] self.loop_tree.exits_of(x)[k] as int,
        ) by {
            let e = self.loop_tree.exits_of(x)[k] as int;
            if x == l.index && k == before.exits_of(x).len() {
                assert(e == s as int);
            } else {
                assert(e == before.exits_of(x)[k] as int);
                assert(before.leaves(g, x, before.exits_of(x)[k] as int));
            }
            self.loop_tree.lemma_leaves_same_shape(before, g, x, e);
        }
    }

    /// When the head walk has come back to a start where nothing was in
    /// progress, nothing is in progress, and the exit walk can begin.
    proof fn lemma_exit_ready(&self, before: &Self)
        requires
            self.wf(),
            self.head_phase(),
            self.state.len() == before.state.len(),
            forall|n: int| 0 <= n < before.state.len() ==> before.state[n] is NotYetStarted,
            forall|n: int|
                0 <= n < before.state.len() ==> ((#[trigger] self.state[n]) is InProgress
                    <==> before.state[n] is InProgress),
        ensures
            self.exit_phase(),
    {
        assert forall|n: int, k: int|
            0 <= n < self.state.len() && !(self.state[n] is NotYetStarted) && 0 <= k
                < self.graph.succs(n).len() implies !(self.state[#[trigger] self.graph.succs(n)[k] as int] is NotYetStarted) by {
            assert(!(self.state[n] is InProgress));
            assert(!(self.state[n] is EnqueuedExitWalk));
            assert(self.state[n] is FinishedHeadWalk);
        }
    }

    /// A walk stays well-formed when a finished node is enqueued.
    proof fn lemma_wf_states(&self, before: &Self)
        requires
            before.wf(),
            self.same_inputs(before),
            self.loop_tree == before.loop_tree,
            self.state.len() == before.state.len(),
            forall|n: int|
                0 <= n < self.state.len() ==> (#[trigger] self.state[n] == before.state[n]
                    || (before.state[n] is FinishedHeadWalk && self.state[n] is EnqueuedExitWalk)),
        ensures
            self.wf(),
    {
        assert forall|n: int|
            0 <= n < self.state.len() && !((#[trigger] self.state[n]) is NotYetStarted) implies reaches(
            self.graph,
            self.graph.entry() as int,
            n,
        ) by {
            assert(!(before.state[n] is NotYetStarted));
        }
        assert forall|n: int|
            0 <= n < self.state.len() implies ((#[trigger] self.state[n]) matches NodeState::InProgress(
            Some(l),
        ) ==> l.index < self.loop_tree.loops()) by {
            if self.state[n] is InProgress {
                assert(self.state[n] == before.state[n]);
            }
        }
    }

    /// A walk stays well-formed when its loop tree changes only in the
    /// exits.
    proof fn lemma_wf_kept(&self, before: &Self)
        requires
            before.wf(),
            self.same_inputs(before),
            self.state@ == before.state@,
            self.loop_tree.wf(),
            self.loop_tree.same_shape(&before.loop_tree),
        ensures
            self.wf(),
    {
        assert forall|l: int| 0 <= l < self.loop_tree.loops() implies reaches(
            self.graph,
            self.graph.entry() as int,
            #[trigger] self.loop_tree.head_of(l) as int,
        ) by {
            assert(self.loop_tree.head_of(l) == before.loop_tree.head_of(l));
        }
        assert forall|n: int|
            0 <= n < self.state.len() implies ((#[trigger] self.state[n]) matches NodeState::InProgress(
            Some(l),
        ) ==> l.index < self.loop_tree.loops()) by {
            assert(self.state[n] == before.state[n]);
        }
    }
}

/// The `k`-th parent of a loop is the `k - 1`-th parent of its parent.
proof fn lemma_nth_parent_first<G: Graph>(t: &LoopTree<G>, l: LoopId, k: nat)
    requires
        k >= 1,
        l.index < t.loops(),
        t.nth_parent(l, k) is Some,
    ensures
        t.parent_of(l.index as int) is Some,
        t.nth_parent(t.parent_of(l.index as int)->Some_0, (k - 1) as nat) == t.nth_parent(l, k),
    decreases k,
{
    let p = t.parent_of(l.index as int);
    if k == 1 {
        assert(t.nth_parent(l, 0) == Some(l));
        assert(t.nth_parent(l, 1) == p);
        assert(t.nth_parent(p->Some_0, 0) == Some(p->Some_0));
    } else {
        let prev = t.nth_parent(l, (k - 1) as nat);
        assert(prev is Some);
        lemma_nth_parent_first(t, l, (k - 1) as nat);
        assert(t.nth_parent(p->Some_0, (k - 2) as nat) == prev);
        assert(t.nth_parent(p->Some_0, (k - 1) as nat) == t.nth_parent(l, k));
    }
}

} // verus!
