//! Reachability between nodes, computed by propagating rows of an
//! N-by-N bit matrix against the edges until nothing changes.

use crate::bit_set::{words_for, BitSet};
use crate::graph::{has_back_link, has_edge, is_walk, lemma_links_agree, reaches, Graph};
use crate::iterate::{dfs_post_order, node_set, reaches_avoiding, reverse_post_order};
use vstd::prelude::*;

verus! {

/// A walk of `g` from `a` to `b` whose nodes after `a` are all listed in
/// `order`; of length zero only where `a` is listed itself.
pub open spec fn links_to<G: Graph>(g: &G, order: Seq<usize>, a: int, b: int) -> bool {
    exists|walk: Seq<int>| #[trigger]
        is_walk(g, walk) && walk[0] == a && walk.last() == b && listed_walk(order, walk)
}

/// The nodes of `walk` after the first are listed in `order`, and so is
/// the first where it is the only one.
pub open spec fn listed_walk(order: Seq<usize>, walk: Seq<int>) -> bool {
    forall|i: int|
        0 <= i < walk.len() && (i >= 1 || walk.len() == 1) ==> order.contains(
            #[trigger] walk[i] as usize,
        )
}

/// The row of `node` holds `node`, and the row of each of its predecessors
/// holds what the row of `node` holds.
pub open spec fn closed_at<G: Graph>(g: &G, bits: &BitSet<G>, node: int) -> bool {
    &&& bits.has(node, node)
    &&& forall|k: int, b: int|
        0 <= k < g.preds(node).len() && bits.has(node, b) ==> #[trigger] bits.has(
            g.preds(node)[k] as int,
            b,
        )
}

/// Every bit that is set is justified by a walk.
pub open spec fn sound<G: Graph>(g: &G, order: Seq<usize>, bits: &BitSet<G>) -> bool {
    forall|a: int, b: int| #[trigger] bits.has(a, b) ==> links_to(g, order, a, b)
}

proof fn lemma_link_self<G: Graph>(g: &G, order: Seq<usize>, a: int)
    requires
        0 <= a < g.node_count(),
        order.contains(a as usize),
    ensures
        links_to(g, order, a, a),
{
    let w = seq![a];
    assert(is_walk(g, w) && w[0] == a && w.last() == a && listed_walk(order, w));
}

proof fn lemma_link_step<G: Graph>(g: &G, order: Seq<usize>, p: int, a: int, b: int)
    requires
        g.wf(),
        has_back_link(g, p, a),
        order.contains(a as usize),
        links_to(g, order, a, b),
    ensures
        links_to(g, order, p, b),
{
    lemma_links_agree(g, p, a);
    let w = choose|walk: Seq<int>| #[trigger]
        is_walk(g, walk) && walk[0] == a && walk.last() == b && listed_walk(order, walk);
    let v = seq![p] + w;
    assert forall|i: int| 0 <= i < v.len() - 1 implies has_edge(g, #[trigger] v[i], v[i + 1]) by {
        if i > 0 {
            assert(v[i] == w[i - 1]);
            assert(v[i + 1] == w[i - 1 + 1]);
        }
    }
    assert forall|i: int| 0 <= i < v.len() && (i >= 1 || v.len() == 1) implies order.contains(
        #[trigger] v[i] as usize,
    ) by {
        assert(v[i] == w[i - 1]);
        if i - 1 == 0 {
        } else {
            assert(order.contains(w[i - 1] as usize));
        }
    }
    assert(is_walk(g, v) && v[0] == p && v.last() == b && listed_walk(order, v));
}

/// Where every listed node is closed, every walk is matched by a bit.
proof fn lemma_complete<G: Graph>(g: &G, order: Seq<usize>, bits: &BitSet<G>, walk: Seq<int>, from: int)
    requires
        g.wf(),
        forall|j: int| 0 <= j < order.len() ==> #[trigger] order[j] < g.node_count(),
        forall|j: int| 0 <= j < order.len() ==> closed_at(g, bits, #[trigger] order[j] as int),
        is_walk(g, walk),
        listed_walk(order, walk),
        0 <= from < walk.len(),
    ensures
        bits.has(walk[from], walk.last()),
    decreases walk.len() - from,
{
    g.lemma_edges();
    if from == walk.len() - 1 {
        let x = walk[from];
        assert(order.contains(x as usize));
        let j = choose|j: int| 0 <= j < order.len() && order[j] == x as usize;
        assert(closed_at(g, bits, order[j] as int));
    } else {
        lemma_complete(g, order, bits, walk, from + 1);
        let p = walk[from];
        let a = walk[from + 1];
        assert(has_edge(g, p, a));
        lemma_links_agree(g, p, a);
        assert(order.contains(a as usize));
        let j = choose|j: int| 0 <= j < order.len() && order[j] == a as usize;
        assert(closed_at(g, bits, order[j] as int));
        let k = choose|k: int| 0 <= k < g.preds(a).len() && g.preds(a)[k] == p as usize;
        assert(bits.has(g.preds(a)[k] as int, walk.last()));
    }
}

/// Which nodes reach which.
pub struct Reachability<G: Graph> {
    bits: BitSet<G>,
}

impl<G: Graph> Reachability<G> {
    pub closed spec fn wf(&self) -> bool {
        self.bits.wf() && self.bits.width() == self.bits.nodes()
    }

    pub closed spec fn node_count(&self) -> nat {
        self.bits.nodes()
    }

    /// Whether the matrix says that `source` reaches `target`.
    pub closed spec fn can(&self, source: int, target: int) -> bool {
        self.bits.has(source, target)
    }

    fn new(graph: &G) -> (r: Self)
        requires
            graph.wf(),
            graph.node_count() * words_for(graph.node_count()) <= usize::MAX,
        ensures
            r.wf(),
            r.node_count() == graph.node_count(),
            forall|a: int, b: int| !r.can(a, b),
    {
        let num_nodes = graph.num_nodes();
        Reachability { bits: BitSet::new(graph, num_nodes) }
    }

    pub fn can_reach(&self, source: usize, target: usize) -> (r: bool)
        requires
            self.wf(),
            source < self.node_count(),
            target < self.node_count(),
        ensures
            r == self.can(source as int, target as int),
    {
        self.bits.is_set(source, target)
    }
}

/// Reachability among the nodes that the entry of `graph` reaches: from
/// such a node every node that it reaches; from any other node, the nodes
/// that a walk reaches whose nodes after the first are reached by the
/// entry.
pub fn reachable<G: Graph>(graph: &G) -> (r: Reachability<G>)
    requires
        graph.wf(),
        graph.node_count() * words_for(graph.node_count()) <= usize::MAX,
    ensures
        r.wf(),
        r.node_count() == graph.node_count(),
        forall|a: int, b: int|
            0 <= a < graph.node_count() && 0 <= b < graph.node_count() && reaches(
                graph,
                graph.entry() as int,
                a,
            ) ==> (#[trigger] r.can(a, b) <==> reaches(graph, a, b)),
        forall|a: int, b: int|
            0 <= a < graph.node_count() && 0 <= b < graph.node_count() ==> (#[trigger] r.can(a, b) <==> links_to(
                graph,
                dfs_post_order(graph, graph.entry() as int, None).reverse(),
                a,
                b,
            )),
{
    let order = reverse_post_order(graph, graph.start_node());
    proof {
        let po = order@.reverse();
        assert forall|j: int| 0 <= j < order@.len() implies #[trigger] order@[j]
            < graph.node_count() by {
            assert(po[order@.len() - 1 - j] == order@[j]);
        }
    }
    let r = reachable_given_rpo(graph, order.as_slice());
    proof {
        graph.lemma_edges();
        let po = order@.reverse();
        assert forall|a: int, b: int|
            0 <= a < graph.node_count() && 0 <= b < graph.node_count() && reaches(
                graph,
                graph.entry() as int,
                a,
            ) implies (#[trigger] r.can(a, b) <==> reaches(graph, a, b)) by {
            if reaches(graph, a, b) {
                let w = choose|walk: Seq<int>| is_walk(graph, walk) && walk[0] == a && walk.last() == b;
                let v = choose|walk: Seq<int>|
                    is_walk(graph, walk) && walk[0] == graph.entry() as int && walk.last() == a;
                assert forall|i: int| 0 <= i < w.len() implies order@.contains(#[trigger] w[i] as usize) by {
                    let u = v + w.subrange(1, i + 1);
                    assert forall|q: int| 0 <= q < u.len() - 1 implies has_edge(
                        graph,
                        #[trigger] u[q],
                        u[q + 1],
                    ) by {
                        if q < v.len() - 1 {
                            assert(has_edge(graph, v[q], v[q + 1]));
                        } else {
                            assert(has_edge(graph, w[q - v.len() + 1], w[q - v.len() + 1 + 1]));
                        }
                    }
                    assert(is_walk(graph, u) && u[0] == graph.entry() as int && u.last() == w[i]);
                    assert(reaches_avoiding(graph, graph.entry() as int, w[i], None));
                    assert(node_set(po).contains(w[i]));
                    let q = choose|q: int| 0 <= q < po.len() && po[q] == w[i];
                    assert(order@[order@.len() - 1 - q] == w[i] as usize);
                }
                assert(listed_walk(order@, w));
                assert(links_to(graph, order@, a, b));
            }
        }
    }
    r
}

/// Reachability by walks through the nodes listed in `reverse_post_order`.
pub fn reachable_given_rpo<G: Graph>(graph: &G, reverse_post_order: &[usize]) -> (r: Reachability<G>)
    requires
        graph.wf(),
        graph.node_count() * words_for(graph.node_count()) <= usize::MAX,
        forall|j: int|
            0 <= j < reverse_post_order@.len() ==> #[trigger] reverse_post_order@[j]
                < graph.node_count(),
    ensures
        r.wf(),
        r.node_count() == graph.node_count(),
        forall|a: int, b: int|
            0 <= a < graph.node_count() && 0 <= b < graph.node_count() ==> (#[trigger] r.can(a, b)
                <==> links_to(graph, reverse_post_order@, a, b)),
{
    let mut reachability = Reachability::new(graph);
    let ghost order = reverse_post_order@;
    let len = reverse_post_order.len();
    let mut changed = true;
    proof {
        graph.lemma_edges();
        assert forall|a: int, b: int| #[trigger] reachability.bits.has(a, b) implies links_to(
            graph,
            order,
            a,
            b,
        ) by {
            assert(!reachability.can(a, b));
        }
    }
    while changed
        invariant
            graph.wf(),
            order == reverse_post_order@,
            len == order.len(),
            forall|j: int| 0 <= j < order.len() ==> #[trigger] order[j] < graph.node_count(),
            reachability.wf(),
            reachability.node_count() == graph.node_count(),
            sound(graph, order, &reachability.bits),
            !changed ==> forall|j: int|
                0 <= j < len ==> closed_at(graph, &reachability.bits, #[trigger] order[j] as int),
        decreases reachability.bits.slack(), (if changed { 1int } else { 0int }),
    {
        changed = false;
        let ghost old_slack = reachability.bits.slack();
        let mut idx: usize = len;
        while idx > 0
            invariant
                graph.wf(),
                order == reverse_post_order@,
                len == order.len(),
                idx <= len,
                forall|j: int| 0 <= j < order.len() ==> #[trigger] order[j] < graph.node_count(),
                reachability.wf(),
                reachability.node_count() == graph.node_count(),
                sound(graph, order, &reachability.bits),
                reachability.bits.slack() <= old_slack,
                changed ==> reachability.bits.slack() < old_slack,
                !changed ==> forall|j: int|
                    idx <= j < len ==> closed_at(graph, &reachability.bits, #[trigger] order[j] as int),
            decreases idx,
        {
            idx -= 1;
            let node = reverse_post_order[idx];
            let ghost before = reachability.bits;
            let grew = reachability.bits.insert(node, node);
            proof {
                assert(order.contains(node));
                lemma_link_self(graph, order, node as int);
                lemma_kept(graph, order, &before, &reachability.bits, idx as int + 1, grew);
            }
            changed = changed || grew;
            let preds = graph.predecessors(node);
            let mut k: usize = 0;
            while k < preds.len()
                invariant
                    graph.wf(),
                    order == reverse_post_order@,
                    len == order.len(),
                    idx < len,
                    node == order[idx as int],
                    node < graph.node_count(),
                    preds@ == graph.preds(node as int),
                    forall|q: int| 0 <= q < preds.len() ==> preds[q] < graph.node_count(),
                    forall|j: int| 0 <= j < order.len() ==> #[trigger] order[j] < graph.node_count(),
                    k <= preds.len(),
                    reachability.wf(),
                    reachability.node_count() == graph.node_count(),
                    sound(graph, order, &reachability.bits),
                    reachability.bits.slack() <= old_slack,
                    changed ==> reachability.bits.slack() < old_slack,
                    !changed ==> forall|j: int|
                        idx < j < len ==> closed_at(
                            graph,
                            &reachability.bits,
                            #[trigger] order[j] as int,
                        ),
                    !changed ==> reachability.bits.has(node as int, node as int),
                    !changed ==> forall|q: int, b: int|
                        0 <= q < k && reachability.bits.has(node as int, b)
                            ==> #[trigger] reachability.bits.has(preds[q] as int, b),
                decreases preds.len() - k,
            {
                let pred = preds[k];
                let ghost before = reachability.bits;
                let grew = reachability.bits.insert_bits_from(node, pred);
                proof {
                    assert(order.contains(node));
                    assert(graph.preds(node as int).contains(pred));
                    assert forall|a: int, b: int| #[trigger]
                        reachability.bits.has(a, b) implies links_to(graph, order, a, b) by {
                        if !before.has(a, b) {
                            assert(before.has(node as int, b));
                            lemma_link_step(graph, order, pred as int, node as int, b);
                        }
                    }
                    lemma_kept(graph, order, &before, &reachability.bits, idx as int + 1, grew);
                }
                changed = changed || grew;
                k += 1;
            }
        }
    }
    proof {
        assert forall|a: int, b: int|
            0 <= a < graph.node_count() && 0 <= b < graph.node_count() implies (
        #[trigger] reachability.can(a, b) <==> links_to(graph, order, a, b)) by {
            if links_to(graph, order, a, b) {
                let w = choose|walk: Seq<int>| #[trigger]
                    is_walk(graph, walk) && walk[0] == a && walk.last() == b && listed_walk(
                        order,
                        walk,
                    );
                lemma_complete(graph, order, &reachability.bits, w, 0);
            }
        }
    }
    reachability
}

/// Nodes that were closed stay closed where no bit was added.
proof fn lemma_kept<G: Graph>(
    g: &G,
    order: Seq<usize>,
    before: &BitSet<G>,
    after: &BitSet<G>,
    from: int,
    grew: bool,
)
    requires
        !grew ==> forall|n: int, b: int| after.has(n, b) == before.has(n, b),
    ensures
        !grew ==> forall|j: int|
            from <= j < order.len() && closed_at(g, before, #[trigger] order[j] as int) ==> closed_at(
                g,
                after,
                order[j] as int,
            ),
{
}

} // verus!
