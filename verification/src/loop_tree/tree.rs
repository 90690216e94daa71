//! The loop tree itself.

use crate::dominance::dominates;
use crate::dominators::{exact_on, Dominators};
use crate::graph::{closes_cycle, has_edge, on_one_cycle, reaches, Graph};
use crate::node_vec::NodeVec;
use core::marker::PhantomData;
use vstd::prelude::*;

verus! {

#[derive(Copy, Clone, Debug, PartialEq, Eq, Hash, Structural)]
pub struct LoopId {
    pub index: usize,
}

pub struct LoopInfo {
    pub parent: Option<LoopId>,
    pub head: usize,
    pub exits: Vec<usize>,
}

/// What a loop tree holds: for every node its innermost loop, and for
/// every loop its head, the loop around it and its exits.
pub ghost struct TreeModel {
    pub ids: Seq<Option<LoopId>>,
    pub heads: Seq<usize>,
    pub parents: Seq<Option<LoopId>>,
    pub exits: Seq<Seq<usize>>,
}

impl TreeModel {
    /// No loop, and no node in a loop, for `nodes` nodes.
    pub open spec fn empty(nodes: nat) -> TreeModel {
        TreeModel {
            ids: Seq::new(nodes, |n: int| None::<LoopId>),
            heads: Seq::empty(),
            parents: Seq::empty(),
            exits: Seq::empty(),
        }
    }

    /// One more loop, with the head `head`, no parent and no exits.
    pub open spec fn with_loop(self, head: usize) -> TreeModel {
        TreeModel {
            ids: self.ids,
            heads: self.heads.push(head),
            parents: self.parents.push(None),
            exits: self.exits.push(Seq::empty()),
        }
    }

    /// The loop `l` has the parent `p`.
    pub open spec fn with_parent(self, l: int, p: Option<LoopId>) -> TreeModel {
        TreeModel { ids: self.ids, heads: self.heads, parents: self.parents.update(l, p), exits: self.exits }
    }

    /// The node `n` has the innermost loop `id`.
    pub open spec fn with_id(self, n: int, id: Option<LoopId>) -> TreeModel {
        TreeModel { ids: self.ids.update(n, id), heads: self.heads, parents: self.parents, exits: self.exits }
    }

    /// The loop `l` has one more exit, `s`.
    pub open spec fn with_exit(self, l: int, s: usize) -> TreeModel {
        TreeModel {
            ids: self.ids,
            heads: self.heads,
            parents: self.parents,
            exits: self.exits.update(l, self.exits[l].push(s)),
        }
    }
}

pub struct LoopTree<G: Graph> {
    loop_ids: NodeVec<G, Option<LoopId>>,
    loop_infos: Vec<LoopInfo>,
}

impl<G: Graph> LoopTree<G> {
    /// Number of nodes of the graph.
    pub closed spec fn nodes(&self) -> nat {
        self.loop_ids.vec.len() as nat
    }

    /// Number of loops.
    pub closed spec fn loops(&self) -> nat {
        self.loop_infos.len() as nat
    }

    /// The innermost loop that holds `node`, if any.
    pub closed spec fn id_of(&self, node: int) -> Option<LoopId> {
        self.loop_ids.vec[node]
    }

    pub closed spec fn head_of(&self, l: int) -> usize {
        self.loop_infos[l].head
    }

    pub closed spec fn parent_of(&self, l: int) -> Option<LoopId> {
        self.loop_infos[l].parent
    }

    pub closed spec fn exits_of(&self, l: int) -> Seq<usize> {
        self.loop_infos[l].exits@
    }

    /// What the tree holds.
    pub open spec fn model(&self) -> TreeModel {
        TreeModel {
            ids: Seq::new(self.nodes(), |n: int| self.id_of(n)),
            heads: Seq::new(self.loops(), |l: int| self.head_of(l)),
            parents: Seq::new(self.loops(), |l: int| self.parent_of(l)),
            exits: Seq::new(self.loops(), |l: int| self.exits_of(l)),
        }
    }

    /// Every loop that is named exists, and heads and exits are nodes.
    pub open spec fn wf(&self) -> bool {
        &&& forall|n: int|
            0 <= n < self.nodes() ==> ((#[trigger] self.id_of(n)) matches Some(l) ==> l.index
                < self.loops())
        &&& forall|l: int|
            0 <= l < self.loops() ==> ((#[trigger] self.parent_of(l)) matches Some(p) ==> p.index
                < self.loops())
        &&& forall|l: int| 0 <= l < self.loops() ==> #[trigger] self.head_of(l) < self.nodes()
        &&& forall|l: int, k: int|
            0 <= l < self.loops() && 0 <= k < self.exits_of(l).len() ==> #[trigger] self.exits_of(
                l,
            )[k] < self.nodes()
    }

    /// The `k`-th parent of loop `l`: `l` itself for zero.
    pub open spec fn nth_parent(&self, l: LoopId, k: nat) -> Option<LoopId>
        decreases k,
    {
        if k == 0 {
            Some(l)
        } else {
            match self.nth_parent(l, (k - 1) as nat) {
                Some(p) => if p.index < self.loops() {
                    self.parent_of(p.index as int)
                } else {
                    None
                },
                None => None,
            }
        }
    }

    /// What the tree says is true of `g`: at the head of every loop an edge
    /// closes a cycle; every node lies on one cycle with the head of its
    /// loop; the head of every loop lies on one cycle with the head of the
    /// loop around it, which is another loop; and no two loops have the same
    /// head.
    pub open spec fn holds_of(&self, g: &G) -> bool {
        &&& forall|l: int| 0 <= l < self.loops() ==> closes_cycle(g, #[trigger] self.head_of(l) as int)
        &&& forall|n: int|
            0 <= n < self.nodes() ==> ((#[trigger] self.id_of(n)) matches Some(l) ==> on_one_cycle(
                g,
                self.head_of(l.index as int) as int,
                n,
            ))
        &&& forall|l: int|
            0 <= l < self.loops() ==> ((#[trigger] self.parent_of(l)) matches Some(p) ==> p.index != l
                && on_one_cycle(g, self.head_of(p.index as int) as int, self.head_of(l) as int))
        &&& self.heads_distinct()
    }

    /// The head of every loop has, in `d`, the head of the loop around it
    /// on its chain of dominators.
    pub open spec fn nested_by(&self, d: &Dominators<G>) -> bool {
        forall|l: int|
            0 <= l < self.loops() ==> ((#[trigger] self.parent_of(l)) matches Some(p) ==> p.index != l
                && d.dominated_by(self.head_of(l) as int, self.head_of(p.index as int) as int))
    }

    /// The entry reaches the head of every loop.
    pub open spec fn heads_reached(&self, g: &G) -> bool {
        forall|l: int| 0 <= l < self.loops() ==> reaches(g, g.entry() as int, #[trigger] self.head_of(l) as int)
    }

    /// Trees of the same shape are nested alike.
    pub proof fn lemma_nested_same_shape(&self, other: &Self, d: &Dominators<G>, g: &G)
        requires
            other.wf(),
            self.same_shape(other),
        ensures
            other.nested_by(d) ==> self.nested_by(d),
            other.heads_reached(g) ==> self.heads_reached(g),
    {
        if other.nested_by(d) {
            assert forall|l: int| 0 <= l < self.loops() implies ((#[trigger] self.parent_of(l)) matches Some(p)
                ==> p.index != l && d.dominated_by(
                self.head_of(l) as int,
                self.head_of(p.index as int) as int,
            )) by {
                assert(self.parent_of(l) == other.parent_of(l));
                assert(self.head_of(l) == other.head_of(l));
                if other.parent_of(l) is Some {
                    let p = other.parent_of(l)->Some_0;
                    assert(self.head_of(p.index as int) == other.head_of(p.index as int));
                }
            }
        }
        if other.heads_reached(g) {
            assert forall|l: int| 0 <= l < self.loops() implies reaches(
                g,
                g.entry() as int,
                #[trigger] self.head_of(l) as int,
            ) by {
                assert(self.head_of(l) == other.head_of(l));
            }
        }
    }

    /// The head of the loop around a loop dominates the head of the loop:
    /// every walk from the entry to the inner head passes the outer head.
    pub proof fn lemma_outer_head_dominates(&self, g: &G, d: &Dominators<G>, l: int)
        requires
            self.wf(),
            self.nested_by(d),
            self.heads_reached(g),
            exact_on(g, d),
            forall|n: int| 0 <= n < g.node_count() && reaches(g, g.entry() as int, n) ==> d.reachable(n),
            0 <= l < self.loops(),
            g.wf(),
            self.nodes() == g.node_count(),
        ensures
            self.parent_of(l) matches Some(p) ==> dominates(
                g,
                self.head_of(p.index as int) as int,
                self.head_of(l) as int,
            ),
    {
        if self.parent_of(l) is Some {
            let p = self.parent_of(l)->Some_0;
            assert(reaches(g, g.entry() as int, self.head_of(l) as int));
            assert(d.reachable(self.head_of(l) as int));
            assert(d.dominated_by(self.head_of(l) as int, self.head_of(p.index as int) as int));
        }
    }

    /// The chain of the loops around a loop never comes back to a loop: the
    /// heads rank ever higher.
    pub proof fn lemma_parents_rise(&self, g: &G, d: &Dominators<G>, l: LoopId, k: nat)
        requires
            self.wf(),
            self.nested_by(d),
            self.heads_reached(g),
            self.heads_distinct(),
            d.wf(),
            forall|n: int| 0 <= n < g.node_count() && reaches(g, g.entry() as int, n) ==> d.reachable(n),
            g.wf(),
            self.nodes() == g.node_count(),
            l.index < self.loops(),
            k >= 1,
        ensures
            self.nth_parent(l, k) matches Some(a) ==> a.index < self.loops() && d.ranks()[self.head_of(
                a.index as int,
            ) as int] > d.ranks()[self.head_of(l.index as int) as int] && a != l,
        decreases k,
    {
        if self.nth_parent(l, k) is Some {
            let a = self.nth_parent(l, k)->Some_0;
            let before = self.nth_parent(l, (k - 1) as nat)->Some_0;
            if k > 1 {
                self.lemma_parents_rise(g, d, l, (k - 1) as nat);
            }
            assert(before.index < self.loops());
            assert(self.parent_of(before.index as int) == Some(a));
            let hb = self.head_of(before.index as int) as int;
            let ha = self.head_of(a.index as int) as int;
            assert(reaches(g, g.entry() as int, hb));
            assert(d.reachable(hb));
            assert(d.dominated_by(hb, ha));
            crate::dominators::lemma_chain_rank(d.ranks(), d.idoms(), d.root(), hb, ha);
            assert(a.index != before.index);
            assert(ha != hb);
            if d.ranks()[ha] == d.ranks()[hb] {
                crate::dominators::lemma_forest_ranks(d.ranks(), d.idoms(), d.root(), ha, hb);
            }
        }
    }

    /// No two loops have the same head.
    pub open spec fn heads_distinct(&self) -> bool {
        forall|a: int, b: int|
            0 <= a < self.loops() && 0 <= b < self.loops() && a != b ==> #[trigger] self.head_of(a)
                != #[trigger] self.head_of(b)
    }

    /// An edge leaves loop `l` for `s`: it comes from a node of `l` or of a
    /// loop within `l`, and `s` lies neither in `l` nor in a loop within
    /// `l`.
    pub open spec fn leaves(&self, g: &G, l: int, s: int) -> bool {
        &&& self.id_of(s) != Some(LoopId { index: l as usize })
        &&& self.id_of(s) is Some ==> forall|j: nat|
            #[trigger] self.nth_parent(self.id_of(s)->Some_0, j) != Some(LoopId { index: l as usize })
        &&& exists|n: int, j: nat|
            0 <= n < self.nodes() && has_edge(g, n, s) && self.id_of(n) is Some && #[trigger] self.nth_parent(
                self.id_of(n)->Some_0,
                j,
            ) == Some(LoopId { index: l as usize })
    }

    /// An edge leaves every loop for each of its exits.
    pub open spec fn exits_hold(&self, g: &G) -> bool {
        forall|l: int, k: int|
            0 <= l < self.loops() && 0 <= k < self.exits_of(l).len() ==> self.leaves(
                g,
                l,
                #[trigger] self.exits_of(l)[k] as int,
            )
    }

    /// The parents of a loop are the same in two trees of the same shape.
    pub proof fn lemma_same_parents(&self, other: &Self, l: LoopId, k: nat)
        requires
            self.same_shape(other),
        ensures
            self.nth_parent(l, k) == other.nth_parent(l, k),
        decreases k,
    {
        if k > 0 {
            self.lemma_same_parents(other, l, (k - 1) as nat);
        }
    }

    /// What leaves a loop in one tree leaves it in a tree of the same
    /// shape.
    pub proof fn lemma_leaves_same_shape(&self, other: &Self, g: &G, l: int, s: int)
        requires
            self.same_shape(other),
            other.leaves(g, l, s),
            0 <= s < other.nodes(),
        ensures
            self.leaves(g, l, s),
    {
        let (n, j) = choose|n: int, j: nat|
            0 <= n < other.nodes() && has_edge(g, n, s) && other.id_of(n) is Some && #[trigger] other.nth_parent(
                other.id_of(n)->Some_0,
                j,
            ) == Some(LoopId { index: l as usize });
        self.lemma_same_parents(other, other.id_of(n)->Some_0, j);
        assert(self.id_of(n) == other.id_of(n));
        assert(self.nth_parent(self.id_of(n)->Some_0, j) == Some(LoopId { index: l as usize }));
        assert(self.id_of(s) == other.id_of(s));
        if self.id_of(s) is Some {
            assert forall|j: nat| #[trigger]
                self.nth_parent(self.id_of(s)->Some_0, j) != Some(LoopId { index: l as usize }) by {
                self.lemma_same_parents(other, other.id_of(s)->Some_0, j);
                assert(other.nth_parent(other.id_of(s)->Some_0, j) != Some(LoopId { index: l as usize }));
            }
        }
    }

    /// Trees of the same shape say the same.
    pub proof fn lemma_holds_same_shape(&self, other: &Self, g: &G)
        requires
            other.wf(),
            other.holds_of(g),
            self.same_shape(other),
        ensures
            self.holds_of(g),
    {
        assert forall|l: int| 0 <= l < self.loops() implies closes_cycle(g, #[trigger] self.head_of(l) as int) by {
            assert(self.head_of(l) == other.head_of(l));
        }
        assert forall|n: int| 0 <= n < self.nodes() implies ((#[trigger] self.id_of(n)) matches Some(l)
            ==> on_one_cycle(g, self.head_of(l.index as int) as int, n)) by {
            assert(self.id_of(n) == other.id_of(n));
            if other.id_of(n) is Some {
                let l = other.id_of(n)->Some_0;
                assert(self.head_of(l.index as int) == other.head_of(l.index as int));
            }
        }
        assert forall|l: int| 0 <= l < self.loops() implies ((#[trigger] self.parent_of(l)) matches Some(p)
            ==> p.index != l && on_one_cycle(g, self.head_of(p.index as int) as int, self.head_of(l) as int)) by {
            assert(self.parent_of(l) == other.parent_of(l));
            assert(self.head_of(l) == other.head_of(l));
            if other.parent_of(l) is Some {
                let p = other.parent_of(l)->Some_0;
                assert(self.head_of(p.index as int) == other.head_of(p.index as int));
            }
        }
        assert forall|a: int, b: int|
            0 <= a < self.loops() && 0 <= b < self.loops() && a != b implies #[trigger] self.head_of(a)
            != #[trigger] self.head_of(b) by {
            assert(other.head_of(a) != other.head_of(b));
        }
    }

    /// Same loops, heads and parents, and the same loop for every node.
    pub open spec fn same_shape(&self, other: &Self) -> bool {
        &&& self.nodes() == other.nodes()
        &&& self.loops() == other.loops()
        &&& forall|n: int| 0 <= n < self.nodes() ==> self.id_of(n) == other.id_of(n)
        &&& forall|l: int| 0 <= l < self.loops() ==> self.head_of(l) == other.head_of(l)
        &&& forall|l: int| 0 <= l < self.loops() ==> self.parent_of(l) == other.parent_of(l)
    }

    /// A tree without loops for the nodes of `graph`.
    pub fn new(graph: &G) -> (r: Self)
        requires
            graph.wf(),
        ensures
            r.wf(),
            r.nodes() == graph.node_count(),
            r.loops() == 0,
            forall|n: int| 0 <= n < r.nodes() ==> r.id_of(n) is None,
            r.model() == TreeModel::empty(graph.node_count()),
    {
        let num_nodes = graph.num_nodes();
        let mut ids: Vec<Option<LoopId>> = Vec::new();
        let mut i: usize = 0;
        while i < num_nodes
            invariant
                i <= num_nodes,
                ids.len() == i,
                forall|j: int| 0 <= j < i ==> ids[j] is None,
            decreases num_nodes - i,
        {
            ids.push(None);
            i += 1;
        }
        let r = LoopTree { loop_ids: NodeVec { vec: ids, graph: PhantomData }, loop_infos: Vec::new() };
        proof {
            let m = r.model();
            let e = TreeModel::empty(graph.node_count());
            assert(m.ids =~= e.ids);
            assert(m.heads =~= e.heads);
            assert(m.parents =~= e.parents);
            assert(m.exits =~= e.exits);
        }
        r
    }

    /// A new loop with the head `head`, no parent and no exits.
    pub fn new_loop(&mut self, head: usize) -> (id: LoopId)
        requires
            old(self).wf(),
            head < old(self).nodes(),
        ensures
            final(self).wf(),
            id.index == old(self).loops(),
            final(self).loops() == old(self).loops() + 1,
            final(self).nodes() == old(self).nodes(),
            final(self).head_of(id.index as int) == head,
            final(self).parent_of(id.index as int) is None,
            final(self).exits_of(id.index as int).len() == 0,
            forall|n: int| 0 <= n < old(self).nodes() ==> final(self).id_of(n) == old(self).id_of(n),
            forall|l: int|
                0 <= l < old(self).loops() ==> final(self).head_of(l) == old(self).head_of(l)
                    && final(self).parent_of(l) == old(self).parent_of(l) && final(self).exits_of(l)
                    == old(self).exits_of(l),
            final(self).model() == old(self).model().with_loop(head),
    {
        let loop_id = LoopId { index: self.loop_infos.len() };
        self.loop_infos.push(LoopInfo { parent: None, head, exits: Vec::new() });
        proof {
            let m = self.model();
            let e = old(self).model().with_loop(head);
            assert(m.ids =~= e.ids);
            assert(m.heads =~= e.heads);
            assert(m.parents =~= e.parents);
            assert(self.exits_of(loop_id.index as int) =~= Seq::<usize>::empty());
            assert(m.exits =~= e.exits);
            assert forall|l: int| 0 <= l < old(self).loops() implies final(self).head_of(l) == old(self).head_of(l) && final(self).parent_of(l) == old(self).parent_of(l) && final(self).exits_of(l) == old(self).exits_of(l) by {}
            assert forall|l: int, k: int|
                0 <= l < self.loops() && 0 <= k < self.exits_of(l).len() implies #[trigger] self.exits_of(
                l,
            )[k] < self.nodes() by {
                if l < old(self).loops() {
                    assert(old(self).exits_of(l)[k] < old(self).nodes());
                }
            }
            assert forall|l: int| 0 <= l < self.loops() implies ((#[trigger] self.parent_of(
                l,
            )) matches Some(p) ==> p.index < self.loops()) by {
                if l < old(self).loops() {
                    assert(self.parent_of(l) == old(self).parent_of(l));
                }
            }
            assert forall|l: int| 0 <= l < self.loops() implies #[trigger] self.head_of(l)
                < self.nodes() by {
                if l < old(self).loops() {
                    assert(self.head_of(l) == old(self).head_of(l));
                }
            }
            assert forall|n: int| 0 <= n < self.nodes() implies ((#[trigger] self.id_of(
                n,
            )) matches Some(l) ==> l.index < self.loops()) by {
                assert(self.id_of(n) == old(self).id_of(n));
            }
        }
        loop_id
    }

    pub fn set_parent(&mut self, loop_id: LoopId, parent_loop_id: Option<LoopId>)
        requires
            old(self).wf(),
            loop_id.index < old(self).loops(),
            parent_loop_id matches Some(p) ==> p.index < old(self).loops(),
        ensures
            final(self).wf(),
            final(self).nodes() == old(self).nodes(),
            final(self).loops() == old(self).loops(),
            final(self).parent_of(loop_id.index as int) == parent_loop_id,
            forall|n: int| 0 <= n < old(self).nodes() ==> final(self).id_of(n) == old(self).id_of(n),
            forall|l: int| 0 <= l < old(self).loops() ==> final(self).head_of(l) == old(self).head_of(l),
            forall|l: int| 0 <= l < old(self).loops() ==> final(self).exits_of(l) == old(self).exits_of(l),
            forall|l: int|
                0 <= l < old(self).loops() && l != loop_id.index ==> final(self).parent_of(l) == old(self).parent_of(l),
            final(self).model() == old(self).model().with_parent(loop_id.index as int, parent_loop_id),
    {
        self.loop_infos[loop_id.index].parent = parent_loop_id;
        proof {
            let m = self.model();
            let e = old(self).model().with_parent(loop_id.index as int, parent_loop_id);
            assert(m.ids =~= e.ids);
            assert(m.heads =~= e.heads);
            assert(m.parents =~= e.parents);
            assert(m.exits =~= e.exits);
            assert forall|l: int| 0 <= l < old(self).loops() implies final(self).head_of(l) == old(self).head_of(l) && final(self).exits_of(l) == old(self).exits_of(l) by {}
            assert forall|l: int, k: int|
                0 <= l < self.loops() && 0 <= k < self.exits_of(l).len() implies #[trigger] self.exits_of(
                l,
            )[k] < self.nodes() by {
                assert(old(self).exits_of(l)[k] < old(self).nodes());
            }
            assert forall|l: int| 0 <= l < self.loops() implies ((#[trigger] self.parent_of(
                l,
            )) matches Some(p) ==> p.index < self.loops()) by {
                if l != loop_id.index {
                    assert(self.parent_of(l) == old(self).parent_of(l));
                }
            }
            assert forall|l: int| 0 <= l < self.loops() implies #[trigger] self.head_of(l)
                < self.nodes() by {
                assert(self.head_of(l) == old(self).head_of(l));
            }
            assert forall|n: int| 0 <= n < self.nodes() implies ((#[trigger] self.id_of(
                n,
            )) matches Some(l) ==> l.index < self.loops()) by {
                assert(self.id_of(n) == old(self).id_of(n));
            }
        }
    }

    pub fn parent(&self, loop_id: LoopId) -> (r: Option<LoopId>)
        requires
            loop_id.index < self.loops(),
        ensures
            r == self.parent_of(loop_id.index as int),
    {
        self.loop_infos[loop_id.index].parent
    }

    /// Walks from the parent of `loop_id` outwards.
    pub fn parents(&self, loop_id: LoopId) -> (it: Parents<'_, G>)
        requires
            self.wf(),
            loop_id.index < self.loops(),
        ensures
            it.wf(),
            it.tree() == self,
            it.upcoming() == self.parent_of(loop_id.index as int),
    {
        Parents { tree: self, next_loop_id: self.parent(loop_id) }
    }

    pub fn loop_head(&self, loop_id: LoopId) -> (r: usize)
        requires
            loop_id.index < self.loops(),
        ensures
            r == self.head_of(loop_id.index as int),
    {
        self.loop_infos[loop_id.index].head
    }

    /// The head of the innermost loop that holds `node`.
    pub fn loop_head_of_node(&self, node: usize) -> (r: Option<usize>)
        requires
            self.wf(),
            node < self.nodes(),
        ensures
            r == match self.id_of(node as int) {
                Some(l) => Some(self.head_of(l.index as int)),
                None => None,
            },
    {
        match self.loop_id(node) {
            Some(loop_id) => Some(self.loop_head(loop_id)),
            None => None,
        }
    }

    pub fn loop_exits(&self, loop_id: LoopId) -> (r: &Vec<usize>)
        requires
            loop_id.index < self.loops(),
        ensures
            r@ == self.exits_of(loop_id.index as int),
    {
        &self.loop_infos[loop_id.index].exits
    }

    pub fn push_loop_exit(&mut self, loop_id: LoopId, exit: usize)
        requires
            old(self).wf(),
            loop_id.index < old(self).loops(),
            exit < old(self).nodes(),
        ensures
            final(self).wf(),
            final(self).same_shape(old(self)),
            final(self).exits_of(loop_id.index as int) == old(self).exits_of(loop_id.index as int).push(
                exit,
            ),
            forall|l: int|
                0 <= l < old(self).loops() && l != loop_id.index ==> final(self).exits_of(l) == old(self).exits_of(l),
            final(self).model() == old(self).model().with_exit(loop_id.index as int, exit),
    {
        self.loop_infos[loop_id.index].exits.push(exit);
        proof {
            let m = self.model();
            let e = old(self).model().with_exit(loop_id.index as int, exit);
            assert(m.ids =~= e.ids);
            assert(m.heads =~= e.heads);
            assert(m.parents =~= e.parents);
            assert(m.exits =~= e.exits);
            assert forall|l: int| 0 <= l < old(self).loops() implies final(self).head_of(l) == old(self).head_of(l) && final(self).parent_of(l) == old(self).parent_of(l) by {}
            assert forall|l: int, k: int|
                0 <= l < self.loops() && 0 <= k < self.exits_of(l).len() implies #[trigger] self.exits_of(
                l,
            )[k] < self.nodes() by {
                if l != loop_id.index || k < old(self).exits_of(l).len() {
                    assert(old(self).exits_of(l)[k] < old(self).nodes());
                }
            }
            assert forall|l: int| 0 <= l < self.loops() implies ((#[trigger] self.parent_of(
                l,
            )) matches Some(p) ==> p.index < self.loops()) by {
                assert(self.parent_of(l) == old(self).parent_of(l));
            }
            assert forall|l: int| 0 <= l < self.loops() implies #[trigger] self.head_of(l)
                < self.nodes() by {
                assert(self.head_of(l) == old(self).head_of(l));
            }
            assert forall|n: int| 0 <= n < self.nodes() implies ((#[trigger] self.id_of(
                n,
            )) matches Some(l) ==> l.index < self.loops()) by {
                assert(self.id_of(n) == old(self).id_of(n));
            }
        }
    }

    /// Number of loops.
    pub fn loop_infos_len(&self) -> (r: usize)
        ensures
            r == self.loops(),
    {
        self.loop_infos.len()
    }

    pub fn loop_id(&self, node: usize) -> (r: Option<LoopId>)
        requires
            node < self.nodes(),
        ensures
            r == self.id_of(node as int),
    {
        self.loop_ids.vec[node]
    }

    pub fn set_loop_id(&mut self, node: usize, id: Option<LoopId>)
        requires
            old(self).wf(),
            node < old(self).nodes(),
            id matches Some(l) ==> l.index < old(self).loops(),
        ensures
            final(self).wf(),
            final(self).nodes() == old(self).nodes(),
            final(self).loops() == old(self).loops(),
            final(self).id_of(node as int) == id,
            forall|n: int|
                0 <= n < old(self).nodes() && n != node ==> final(self).id_of(n) == old(self).id_of(n),
            forall|l: int|
                0 <= l < old(self).loops() ==> final(self).head_of(l) == old(self).head_of(l)
                    && final(self).parent_of(l) == old(self).parent_of(l) && final(self).exits_of(l)
                    == old(self).exits_of(l),
            final(self).model() == old(self).model().with_id(node as int, id),
    {
        self.loop_ids.vec.set(node, id);
        proof {
            let m = self.model();
            let e = old(self).model().with_id(node as int, id);
            assert(m.ids =~= e.ids);
            assert(m.heads =~= e.heads);
            assert(m.parents =~= e.parents);
            assert(m.exits =~= e.exits);
            assert forall|l: int, k: int|
                0 <= l < self.loops() && 0 <= k < self.exits_of(l).len() implies #[trigger] self.exits_of(
                l,
            )[k] < self.nodes() by {
                assert(old(self).exits_of(l)[k] < old(self).nodes());
            }
            assert forall|l: int| 0 <= l < self.loops() implies ((#[trigger] self.parent_of(
                l,
            )) matches Some(p) ==> p.index < self.loops()) by {
                assert(self.parent_of(l) == old(self).parent_of(l));
            }
            assert forall|l: int| 0 <= l < self.loops() implies #[trigger] self.head_of(l)
                < self.nodes() by {
                assert(self.head_of(l) == old(self).head_of(l));
            }
            assert forall|n: int| 0 <= n < self.nodes() implies ((#[trigger] self.id_of(
                n,
            )) matches Some(l) ==> l.index < self.loops()) by {
                if n != node {
                    assert(self.id_of(n) == old(self).id_of(n));
                }
            }
        }
    }
}

/// A walk from a loop outwards through its parents.
pub struct Parents<'iter, G: Graph> {
    tree: &'iter LoopTree<G>,
    next_loop_id: Option<LoopId>,
}

impl<'iter, G: Graph> Parents<'iter, G> {
    pub closed spec fn wf(&self) -> bool {
        &&& self.tree.wf()
        &&& self.next_loop_id matches Some(l) ==> l.index < self.tree.loops()
    }

    pub closed spec fn tree(&self) -> &LoopTree<G> {
        self.tree
    }

    /// The loop that `next` returns next.
    pub closed spec fn upcoming(&self) -> Option<LoopId> {
        self.next_loop_id
    }

    /// The next loop of the walk, if there is one; the walk goes on with its
    /// parent.
    pub fn next(&mut self) -> (r: Option<LoopId>)
        requires
            old(self).wf(),
        ensures
            final(self).wf(),
            final(self).tree() == old(self).tree(),
            r == old(self).upcoming(),
            r matches Some(l) ==> l.index < old(self).tree().loops() && final(self).upcoming() == old(self).tree().parent_of(l.index as int),
            r is None ==> final(self).upcoming() is None,
    {
        match self.next_loop_id {
            Some(loop_id) => {
                self.next_loop_id = self.tree.parent(loop_id);
                Some(loop_id)
            },
            None => None,
        }
    }
}

} // verus!
