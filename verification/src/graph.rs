//! The capability contract that every graph algorithm of this crate
//! consumes: a fixed number of nodes, numbered from zero, an entry node, and
//! for each node its predecessor and successor lists.

use vstd::prelude::*;

verus! {

pub trait Graph {
    /// The implementor's own validity condition. Every method asks for it.
    spec fn wf(&self) -> bool;

    /// Number of nodes; the nodes are `0 .. node_count()`.
    spec fn node_count(&self) -> nat;

    /// The entry node.
    spec fn entry(&self) -> nat;

    /// The nodes that have an edge into `node`, in the graph's own order.
    spec fn preds(&self, node: int) -> Seq<usize>;

    /// The nodes that `node` has an edge to, in the graph's own order.
    spec fn succs(&self, node: int) -> Seq<usize>;

    /// What every valid graph offers: its lists name nodes of the graph, and
    /// the predecessor lists and the successor lists describe the same edges.
    proof fn lemma_edges(&self)
        requires
            self.wf(),
        ensures
            self.entry() < self.node_count() <= usize::MAX,
            forall|n: int, k: int|
                0 <= n < self.node_count() && 0 <= k < self.succs(n).len() ==> #[trigger] self.succs(
                    n,
                )[k] < self.node_count(),
            forall|n: int, k: int|
                0 <= n < self.node_count() && 0 <= k < self.preds(n).len() ==> #[trigger] self.preds(
                    n,
                )[k] < self.node_count(),
            forall|a: int, b: int|
                0 <= a < self.node_count() && 0 <= b < self.node_count() ==> (self.succs(
                    a,
                ).contains(b as usize) <==> self.preds(b).contains(a as usize)),
    ;

    fn num_nodes(&self) -> (n: usize)
        requires
            self.wf(),
        ensures
            n == self.node_count(),
    ;

    fn start_node(&self) -> (s: usize)
        requires
            self.wf(),
        ensures
            s == self.entry(),
            s < self.node_count(),
    ;

    fn predecessors(&self, node: usize) -> (r: &Vec<usize>)
        requires
            self.wf(),
            node < self.node_count(),
        ensures
            r@ == self.preds(node as int),
            forall|i: int| 0 <= i < r.len() ==> r[i] < self.node_count(),
    ;

    fn successors(&self, node: usize) -> (r: &Vec<usize>)
        requires
            self.wf(),
            node < self.node_count(),
        ensures
            r@ == self.succs(node as int),
            forall|i: int| 0 <= i < r.len() ==> r[i] < self.node_count(),
    ;
}

/// A node index. Graph nodes are plain `usize` values; other index types
/// convert to and from them.
pub trait NodeIndex: Copy {
    spec fn index_of(self) -> nat;

    fn as_usize(self) -> (i: usize)
        ensures
            i == self.index_of(),
    ;
}

impl NodeIndex for usize {
    open spec fn index_of(self) -> nat {
        self as nat
    }

    fn as_usize(self) -> (i: usize) {
        self
    }
}

/// `to` is among the successors of `from`.
pub open spec fn has_edge<G: Graph>(g: &G, from: int, to: int) -> bool {
    &&& 0 <= from < g.node_count()
    &&& 0 <= to < g.node_count()
    &&& g.succs(from).contains(to as usize)
}

/// `from` is among the predecessors of `to`.
pub open spec fn has_back_link<G: Graph>(g: &G, from: int, to: int) -> bool {
    &&& 0 <= from < g.node_count()
    &&& 0 <= to < g.node_count()
    &&& g.preds(to).contains(from as usize)
}

/// In a valid graph the predecessor lists and the successor lists describe
/// the same edges.
pub proof fn lemma_links_agree<G: Graph>(g: &G, a: int, b: int)
    requires
        g.wf(),
    ensures
        has_edge(g, a, b) <==> has_back_link(g, a, b),
{
    g.lemma_edges();
    if has_edge(g, a, b) {
        let k = choose|k: int| 0 <= k < g.succs(a).len() && g.succs(a)[k] == b as usize;
        assert(g.succs(a)[k] < g.node_count());
    }
    if has_back_link(g, a, b) {
        let k = choose|k: int| 0 <= k < g.preds(b).len() && g.preds(b)[k] == a as usize;
        assert(g.preds(b)[k] < g.node_count());
    }
}

/// `walk` is a walk along successor edges: each element has an edge to the
/// next one.
pub open spec fn is_walk<G: Graph>(g: &G, walk: Seq<int>) -> bool {
    &&& walk.len() > 0
    &&& forall|i: int| 0 <= i < walk.len() ==> 0 <= #[trigger] walk[i] < g.node_count()
    &&& forall|i: int| 0 <= i < walk.len() - 1 ==> has_edge(g, #[trigger] walk[i], walk[i + 1])
}

/// There is a walk along successor edges from `from` to `to` (of length
/// zero where the two are the same node).
pub open spec fn reaches<G: Graph>(g: &G, from: int, to: int) -> bool {
    exists|walk: Seq<int>| is_walk(g, walk) && walk[0] == from && walk.last() == to
}

/// A walk to `b` goes on along an edge.
pub proof fn lemma_reach_edge<G: Graph>(g: &G, a: int, b: int, c: int)
    requires
        reaches(g, a, b),
        has_edge(g, b, c),
    ensures
        reaches(g, a, c),
{
    let w = choose|walk: Seq<int>| is_walk(g, walk) && walk[0] == a && walk.last() == b;
    let v = w.push(c);
    assert forall|i: int| 0 <= i < v.len() - 1 implies has_edge(g, #[trigger] v[i], v[i + 1]) by {
        if i < w.len() - 1 {
            assert(has_edge(g, w[i], w[i + 1]));
        }
    }
    assert(is_walk(g, v) && v[0] == a && v.last() == c);
}

/// Every node reaches itself.
pub proof fn lemma_reach_self<G: Graph>(g: &G, a: int)
    requires
        0 <= a < g.node_count(),
    ensures
        reaches(g, a, a),
{
    let w = seq![a];
    assert(is_walk(g, w) && w[0] == a && w.last() == a);
}

/// Two walks, one after the other, are one walk.
pub proof fn lemma_reach_trans<G: Graph>(g: &G, a: int, b: int, c: int)
    requires
        reaches(g, a, b),
        reaches(g, b, c),
    ensures
        reaches(g, a, c),
{
    let first = choose|walk: Seq<int>| is_walk(g, walk) && walk[0] == a && walk.last() == b;
    let second = choose|walk: Seq<int>| is_walk(g, walk) && walk[0] == b && walk.last() == c;
    let walk = first + second.subrange(1, second.len() as int);
    assert forall|i: int| 0 <= i < walk.len() implies 0 <= #[trigger] walk[i] < g.node_count() by {
        if i >= first.len() {
            assert(walk[i] == second[i - first.len() + 1]);
        }
    }
    assert forall|i: int| 0 <= i < walk.len() - 1 implies has_edge(g, #[trigger] walk[i], walk[i + 1]) by {
        if i < first.len() - 1 {
            assert(has_edge(g, first[i], first[i + 1]));
        } else {
            let k = i - first.len() + 1;
            assert(has_edge(g, second[k], second[k + 1]));
            if i == first.len() - 1 {
                assert(walk[i] == first[i]);
            } else {
                assert(walk[i] == second[k]);
            }
            assert(walk[i + 1] == second[k + 1]);
        }
    }
    assert(walk.last() == c) by {
        if second.len() == 1 {
            assert(walk.last() == first.last());
        } else {
            assert(walk[walk.len() - 1] == second[second.len() - 1]);
        }
    }
    assert(is_walk(g, walk) && walk[0] == a && walk.last() == c);
}

/// An edge closes a cycle at `h`: it comes from a node that `h` reaches.
pub open spec fn closes_cycle<G: Graph>(g: &G, h: int) -> bool {
    exists|m: int| reaches(g, h, m) && #[trigger] has_edge(g, m, h)
}

/// `a` and `b` lie on one cycle, or are one node.
pub open spec fn on_one_cycle<G: Graph>(g: &G, a: int, b: int) -> bool {
    reaches(g, a, b) && reaches(g, b, a)
}

} // verus!
