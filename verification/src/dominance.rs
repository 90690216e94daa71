//! What it means that one node dominates another, and why the forest of
//! immediate dominators holds every dominator of every node while the
//! passes go on.

use crate::dominators::{
    forest_wf, is_entry_order, lemma_chain_rank, lemma_chain_trans, lemma_forest_node, lemma_forest_ranks,
    lemma_meets_common, lemma_meets_member, lemma_meets_witness, lemma_on_chain_self, meets_first, on_chain, ranked,
    same_rank,
};
use crate::graph::{has_back_link, has_edge, is_walk, lemma_links_agree, reaches, Graph};
use crate::iterate::{reaches_avoiding, walk_avoids};
use vstd::prelude::*;

verus! {

/// Every walk from the entry of `g` to `n` passes `d`.
pub open spec fn dominates<G: Graph>(g: &G, d: int, n: int) -> bool {
    forall|walk: Seq<int>| #[trigger] is_walk(g, walk) && walk[0] == g.entry() && walk.last() == n ==> walk.contains(d)
}

/// `walk` goes from `c` to `n` through nodes that rank no higher than `c`.
pub open spec fn low_walk<G: Graph>(g: &G, ranks: Seq<usize>, c: int, n: int, walk: Seq<int>) -> bool {
    &&& is_walk(g, walk)
    &&& walk[0] == c
    &&& walk.last() == n
    &&& forall|i: int| 0 <= i < walk.len() ==> ranks[#[trigger] walk[i]] <= ranks[c]
}

/// There is a walk from `c` to `n` through nodes that rank no higher than
/// `c`.
pub open spec fn descends<G: Graph>(g: &G, ranks: Seq<usize>, c: int, n: int) -> bool {
    exists|walk: Seq<int>| #[trigger] low_walk(g, ranks, c, n, walk)
}

/// The chain of every node with an immediate dominator holds every node
/// that dominates it.
#[verifier::opaque]
pub open spec fn complete_on<G: Graph>(g: &G, ranks: Seq<usize>, idoms: Seq<Option<usize>>, root: int) -> bool {
    forall|n: int, d: int|
        0 <= n < idoms.len() && idoms[n] is Some && #[trigger] dominates(g, d, n) ==> on_chain(
            ranks,
            idoms,
            root,
            n,
            d,
        )
}

/// From every node of the chain of a node with an immediate dominator a
/// walk leads down to that node.
#[verifier::opaque]
pub open spec fn walks_on<G: Graph>(g: &G, ranks: Seq<usize>, idoms: Seq<Option<usize>>, root: int) -> bool {
    forall|n: int, c: int|
        0 <= n < idoms.len() && idoms[n] is Some && #[trigger] on_chain(ranks, idoms, root, n, c) ==> descends(
            g,
            ranks,
            c,
            n,
        )
}

/// What a complete forest says of one node and one of its dominators.
pub proof fn lemma_complete_at<G: Graph>(
    g: &G,
    ranks: Seq<usize>,
    idoms: Seq<Option<usize>>,
    root: int,
    n: int,
    d: int,
)
    requires
        complete_on(g, ranks, idoms, root),
        0 <= n < idoms.len(),
        idoms[n] is Some,
        dominates(g, d, n),
    ensures
        on_chain(ranks, idoms, root, n, d),
{
    reveal(complete_on);
}

/// What a forest with walks says of one node of one chain.
pub proof fn lemma_walk_at<G: Graph>(g: &G, ranks: Seq<usize>, idoms: Seq<Option<usize>>, root: int, n: int, c: int)
    requires
        walks_on(g, ranks, idoms, root),
        0 <= n < idoms.len(),
        idoms[n] is Some,
        on_chain(ranks, idoms, root, n, c),
    ensures
        descends(g, ranks, c, n),
{
    reveal(walks_on);
}

/// The walk that stays at one node.
proof fn lemma_descends_self<G: Graph>(g: &G, ranks: Seq<usize>, n: int)
    requires
        0 <= n < g.node_count(),
    ensures
        descends(g, ranks, n, n),
{
    let walk = seq![n];
    assert(low_walk(g, ranks, n, n, walk));
}

/// A walk down to `p` goes on along an edge to a node that ranks no higher
/// than its start.
proof fn lemma_descends_step<G: Graph>(g: &G, ranks: Seq<usize>, c: int, p: int, n: int)
    requires
        descends(g, ranks, c, p),
        has_edge(g, p, n),
        ranks[n] <= ranks[c],
    ensures
        descends(g, ranks, c, n),
{
    let walk = choose|walk: Seq<int>| #[trigger] low_walk(g, ranks, c, p, walk);
    let longer = walk.push(n);
    assert forall|i: int| 0 <= i < longer.len() - 1 implies has_edge(g, #[trigger] longer[i], longer[i + 1]) by {
        if i < walk.len() - 1 {
            assert(has_edge(g, walk[i], walk[i + 1]));
        }
    }
    assert(low_walk(g, ranks, c, n, longer));
}

/// Two walks down, one after the other, are one walk down.
proof fn lemma_descends_trans<G: Graph>(g: &G, ranks: Seq<usize>, c: int, m: int, n: int)
    requires
        descends(g, ranks, c, m),
        descends(g, ranks, m, n),
        ranks[m] <= ranks[c],
    ensures
        descends(g, ranks, c, n),
{
    let first = choose|walk: Seq<int>| #[trigger] low_walk(g, ranks, c, m, walk);
    let second = choose|walk: Seq<int>| #[trigger] low_walk(g, ranks, m, n, walk);
    let walk = first + second.subrange(1, second.len() as int);
    assert forall|i: int| 0 <= i < walk.len() implies 0 <= #[trigger] walk[i] < g.node_count() && ranks[walk[i]]
        <= ranks[c] by {
        if i >= first.len() {
            assert(walk[i] == second[i - first.len() + 1]);
        }
    }
    assert forall|i: int| 0 <= i < walk.len() - 1 implies has_edge(g, #[trigger] walk[i], walk[i + 1]) by {
        if i < first.len() - 1 {
            assert(has_edge(g, first[i], first[i + 1]));
        } else {
            let k = i - first.len() + 1;
            assert(has_edge(g, second[k], second[k + 1]));
            if i == first.len() - 1 {
                assert(walk[i] == first[i]);
                assert(first[i] == second[0]);
            } else {
                assert(walk[i] == second[k]);
            }
            assert(walk[i + 1] == second[k + 1]);
        }
    }
    assert(low_walk(g, ranks, c, n, walk));
}

/// What dominates a node and is not that node dominates every predecessor
/// of it.
proof fn lemma_dominates_pred<G: Graph>(g: &G, d: int, p: int, n: int)
    requires
        dominates(g, d, n),
        has_edge(g, p, n),
        d != n,
    ensures
        dominates(g, d, p),
{
    assert forall|walk: Seq<int>| #[trigger]
        is_walk(g, walk) && walk[0] == g.entry() && walk.last() == p implies walk.contains(d) by {
        let longer = walk.push(n);
        assert forall|i: int| 0 <= i < longer.len() - 1 implies has_edge(g, #[trigger] longer[i], longer[i + 1]) by {
            if i < walk.len() - 1 {
                assert(has_edge(g, walk[i], walk[i + 1]));
            }
        }
        assert(is_walk(g, longer));
        assert(longer[0] == walk[0]);
        assert(longer.contains(d));
        let k = choose|k: int| 0 <= k < longer.len() && longer[k] == d;
        assert(walk[k] == d);
    }
}

/// How the chains change when `node` gets the immediate dominator `r`,
/// which ranks above it: a chain through `node` keeps what it held up to
/// `node` and goes on with the chain of `r`; the other chains stay.
pub proof fn lemma_chain_after(
    ranks: Seq<usize>,
    idoms: Seq<Option<usize>>,
    root: int,
    node: int,
    r: usize,
    n: int,
    c: int,
)
    requires
        forest_wf(ranks, idoms, root),
        forest_wf(ranks, idoms.update(node, Some(r)), root),
        0 <= node < idoms.len(),
        node != root,
        r < idoms.len(),
        idoms[r as int] is Some,
        ranks[r as int] > ranks[node],
        0 <= n < idoms.len(),
        idoms.update(node, Some(r))[n] is Some,
    ensures
        on_chain(ranks, idoms.update(node, Some(r)), root, n, c) <==> if on_chain(ranks, idoms, root, n, node) {
            (on_chain(ranks, idoms, root, n, c) && 0 <= c < idoms.len() && ranks[c] <= ranks[node]) || on_chain(
                ranks,
                idoms,
                root,
                r as int,
                c,
            )
        } else {
            on_chain(ranks, idoms, root, n, c)
        },
    decreases usize::MAX - ranks[n],
{
    let after = idoms.update(node, Some(r));
    lemma_forest_node(ranks, after, root, n);
    lemma_on_chain_self(ranks, idoms, root, n);
    if n == node {
        if on_chain(ranks, idoms, root, r as int, node) {
            lemma_chain_rank(ranks, idoms, root, r as int, node);
        }
        lemma_chain_after(ranks, idoms, root, node, r, r as int, c);
        assert(on_chain(ranks, after, root, node, c) <==> (c == node || on_chain(ranks, after, root, r as int, c)))
            by {
            reveal(on_chain);
        }
        if on_chain(ranks, idoms, root, node, c) && 0 <= c < idoms.len() && ranks[c] <= ranks[node] && c != node {
            assert(idoms[node] is Some) by {
                reveal(on_chain);
            }
            lemma_chain_rank(ranks, idoms, root, node, c);
            lemma_forest_ranks(ranks, idoms, root, node, c);
        }
    } else if n == root {
        assert(on_chain(ranks, after, root, n, c) <==> c == n) by {
            reveal(on_chain);
        }
        assert(on_chain(ranks, idoms, root, n, c) <==> c == n) by {
            reveal(on_chain);
        }
        assert(!on_chain(ranks, idoms, root, n, node)) by {
            reveal(on_chain);
        }
    } else {
        let p = idoms[n]->Some_0 as int;
        lemma_forest_node(ranks, idoms, root, n);
        lemma_forest_node(ranks, after, root, p);
        lemma_chain_after(ranks, idoms, root, node, r, p, c);
        assert(on_chain(ranks, after, root, n, c) <==> (c == n || on_chain(ranks, after, root, p, c))) by {
            reveal(on_chain);
        }
        assert(on_chain(ranks, idoms, root, n, c) <==> (c == n || on_chain(ranks, idoms, root, p, c))) by {
            reveal(on_chain);
        }
        assert(on_chain(ranks, idoms, root, n, node) <==> on_chain(ranks, idoms, root, p, node)) by {
            reveal(on_chain);
        }
        if on_chain(ranks, idoms, root, n, node) {
            lemma_chain_rank(ranks, idoms, root, n, node);
        }
    }
}

/// What dominates `node` and is not `node` lies on the chain of the meet
/// `r` of its predecessors.
proof fn lemma_dominator_above<G: Graph>(
    g: &G,
    ranks: Seq<usize>,
    idoms: Seq<Option<usize>>,
    root: int,
    node: int,
    r: usize,
    d: int,
)
    requires
        g.wf(),
        idoms.len() == g.node_count(),
        forest_wf(ranks, idoms, root),
        complete_on(g, ranks, idoms, root),
        0 <= node < idoms.len(),
        meets_first(g.preds(node), g.preds(node).len() as int, ranks, idoms, root, Some(r)),
        dominates(g, d, node),
        d != node,
    ensures
        on_chain(ranks, idoms, root, r as int, d),
{
    let preds = g.preds(node);
    assert forall|j: int| 0 <= j < preds.len() && idoms[#[trigger] preds[j] as int] is Some implies on_chain(
        ranks,
        idoms,
        root,
        preds[j] as int,
        d,
    ) by {
        g.lemma_edges();
        assert(has_back_link(g, preds[j] as int, node));
        lemma_links_agree(g, preds[j] as int, node);
        lemma_dominates_pred(g, d, preds[j] as int, node);
        lemma_complete_at(g, ranks, idoms, root, preds[j] as int, d);
    }
    lemma_meets_common(preds, preds.len() as int, ranks, idoms, root, r, d);
}

/// Giving `node` the meet `r` of its predecessors for its immediate
/// dominator keeps, for every node, a walk down from every node of its
/// chain.
pub proof fn lemma_update_keeps_walks<G: Graph>(
    g: &G,
    ranks: Seq<usize>,
    idoms: Seq<Option<usize>>,
    root: int,
    node: int,
    r: usize,
)
    requires
        g.wf(),
        idoms.len() == g.node_count(),
        ranks.len() == g.node_count(),
        forest_wf(ranks, idoms, root),
        forest_wf(ranks, idoms.update(node, Some(r)), root),
        walks_on(g, ranks, idoms, root),
        0 <= node < idoms.len(),
        node != root,
        r < idoms.len(),
        idoms[r as int] is Some,
        ranks[r as int] > ranks[node],
        meets_first(g.preds(node), g.preds(node).len() as int, ranks, idoms, root, Some(r)),
    ensures
        walks_on(g, ranks, idoms.update(node, Some(r)), root),
{
    let after = idoms.update(node, Some(r));
    let preds = g.preds(node);
    assert forall|n: int, c: int|
        0 <= n < after.len() && after[n] is Some && #[trigger] on_chain(ranks, after, root, n, c) implies descends(
        g,
        ranks,
        c,
        n,
    ) by {
        lemma_chain_after(ranks, idoms, root, node, r, n, c);
        lemma_on_chain_self(ranks, idoms, root, node);
        if on_chain(ranks, idoms, root, n, node) && on_chain(ranks, idoms, root, r as int, c) {
            // down from `c` to a predecessor, on to `node`, and down to `n`
            let j = lemma_meets_witness(preds, preds.len() as int, ranks, idoms, root, r);
            let p = preds[j] as int;
            g.lemma_edges();
            assert(has_back_link(g, p, node));
            lemma_links_agree(g, p, node);
            lemma_meets_member(preds, preds.len() as int, ranks, idoms, root, Some(r), j);
            lemma_chain_trans(ranks, idoms, root, p, r as int, c);
            lemma_walk_at(g, ranks, idoms, root, p, c);
            lemma_chain_rank(ranks, idoms, root, r as int, c);
            lemma_descends_step(g, ranks, c, p, node);
            if n != node {
                assert(idoms[n] is Some);
                lemma_walk_at(g, ranks, idoms, root, n, node);
                lemma_descends_trans(g, ranks, c, node, n);
            }
        } else if n == node {
            if on_chain(ranks, idoms, root, n, c) && 0 <= c < idoms.len() && ranks[c] <= ranks[node] && c != node {
                assert(idoms[node] is Some) by {
                    reveal(on_chain);
                }
                lemma_chain_rank(ranks, idoms, root, node, c);
                lemma_forest_ranks(ranks, idoms, root, node, c);
            }
            lemma_descends_self(g, ranks, node);
        } else {
            assert(idoms[n] is Some);
            lemma_walk_at(g, ranks, idoms, root, n, c);
        }
    }
    reveal(walks_on);
}

/// Giving `node` the meet `r` of its predecessors for its immediate
/// dominator keeps every dominator of every node on the chain of that
/// node.
pub proof fn lemma_update_keeps_complete<G: Graph>(
    g: &G,
    ranks: Seq<usize>,
    idoms: Seq<Option<usize>>,
    root: int,
    node: int,
    r: usize,
)
    requires
        g.wf(),
        root == g.entry(),
        idoms.len() == g.node_count(),
        ranks.len() == g.node_count(),
        forest_wf(ranks, idoms, root),
        forest_wf(ranks, idoms.update(node, Some(r)), root),
        walks_on(g, ranks, idoms, root),
        complete_on(g, ranks, idoms, root),
        0 <= node < idoms.len(),
        node != root,
        r < idoms.len(),
        idoms[r as int] is Some,
        ranks[r as int] > ranks[node],
        meets_first(g.preds(node), g.preds(node).len() as int, ranks, idoms, root, Some(r)),
    ensures
        complete_on(g, ranks, idoms.update(node, Some(r)), root),
{
    let after = idoms.update(node, Some(r));
    assert forall|n: int, d: int|
        0 <= n < after.len() && after[n] is Some && #[trigger] dominates(g, d, n) implies on_chain(
        ranks,
        after,
        root,
        n,
        d,
    ) by {
        lemma_chain_after(ranks, idoms, root, node, r, n, d);
        lemma_on_chain_self(ranks, idoms, root, node);
        if n == node {
            if d != node {
                lemma_dominator_above(g, ranks, idoms, root, node, r, d);
            } else {
                lemma_on_chain_self(ranks, after, root, node);
            }
        } else {
            assert(idoms[n] is Some);
            lemma_complete_at(g, ranks, idoms, root, n, d);
            lemma_chain_rank(ranks, idoms, root, n, d);
            if on_chain(ranks, idoms, root, n, node) && ranks[d] > ranks[node] && !on_chain(
                ranks,
                idoms,
                root,
                r as int,
                d,
            ) {
                // a walk to `node` that avoids `d`, and on down to `n`
                if dominates(g, d, node) {
                    lemma_dominator_above(g, ranks, idoms, root, node, r, d);
                }
                let first = choose|walk: Seq<int>| #[trigger]
                    is_walk(g, walk) && walk[0] == g.entry() && walk.last() == node && !walk.contains(d);
                lemma_walk_at(g, ranks, idoms, root, n, node);
                let second = choose|walk: Seq<int>| #[trigger] low_walk(g, ranks, node, n, walk);
                let walk = first + second.subrange(1, second.len() as int);
                assert forall|i: int| 0 <= i < walk.len() implies 0 <= #[trigger] walk[i] < g.node_count()
                    && walk[i] != d by {
                    if i >= first.len() {
                        assert(walk[i] == second[i - first.len() + 1]);
                        assert(ranks[second[i - first.len() + 1]] <= ranks[node]);
                    } else {
                        assert(walk[i] == first[i]);
                        assert(first.contains(first[i]));
                    }
                }
                assert forall|i: int| 0 <= i < walk.len() - 1 implies has_edge(g, #[trigger] walk[i], walk[i + 1]) by {
                    if i < first.len() - 1 {
                        assert(has_edge(g, first[i], first[i + 1]));
                    } else {
                        let k = i - first.len() + 1;
                        assert(has_edge(g, second[k], second[k + 1]));
                        if i == first.len() - 1 {
                            assert(walk[i] == first[i]);
                            assert(first[i] == second[0]);
                        } else {
                            assert(walk[i] == second[k]);
                        }
                        assert(walk[i + 1] == second[k + 1]);
                    }
                }
                assert(is_walk(g, walk));
                assert(walk[0] == first[0]);
                assert(walk.last() == n) by {
                    if second.len() == 1 {
                        assert(walk.last() == first.last());
                    } else {
                        assert(walk[walk.len() - 1] == second[second.len() - 1]);
                    }
                }
                assert(walk.contains(d));
                let k = choose|k: int| 0 <= k < walk.len() && walk[k] == d;
                assert(walk[k] != d);
            }
        }
    }
    reveal(complete_on);
}

/// Where only the entry has an immediate dominator, itself, the forest
/// holds every dominator and has every walk.
pub proof fn lemma_start_complete<G: Graph>(g: &G, ranks: Seq<usize>, idoms: Seq<Option<usize>>, root: int)
    requires
        g.wf(),
        root == g.entry(),
        idoms.len() == g.node_count(),
        forall|n: int| 0 <= n < idoms.len() && n != root ==> idoms[n] is None,
    ensures
        complete_on(g, ranks, idoms, root),
        walks_on(g, ranks, idoms, root),
{
    g.lemma_edges();
    assert forall|n: int, d: int|
        0 <= n < idoms.len() && idoms[n] is Some && #[trigger] dominates(g, d, n) implies on_chain(
        ranks,
        idoms,
        root,
        n,
        d,
    ) by {
        let walk = seq![root];
        assert(is_walk(g, walk) && walk[0] == g.entry() && walk.last() == n);
        assert(walk.contains(d));
        lemma_on_chain_self(ranks, idoms, root, n);
    }
    assert forall|n: int, c: int|
        0 <= n < idoms.len() && idoms[n] is Some && #[trigger] on_chain(ranks, idoms, root, n, c) implies descends(
        g,
        ranks,
        c,
        n,
    ) by {
        assert(c == n) by {
            reveal(on_chain);
        }
        lemma_descends_self(g, ranks, n);
    }
    reveal(complete_on);
    reveal(walks_on);
}

/// Every node dominates itself.
pub proof fn lemma_dominates_self<G: Graph>(g: &G, n: int)
    ensures
        dominates(g, n, n),
{
    assert forall|walk: Seq<int>| #[trigger]
        is_walk(g, walk) && walk[0] == g.entry() && walk.last() == n implies walk.contains(n) by {
        assert(walk[walk.len() - 1] == n);
    }
}

/// What dominates a dominator of a node dominates the node.
pub proof fn lemma_dominates_trans<G: Graph>(g: &G, x: int, i: int, n: int)
    requires
        dominates(g, x, i),
        dominates(g, i, n),
    ensures
        dominates(g, x, n),
{
    assert forall|walk: Seq<int>| #[trigger]
        is_walk(g, walk) && walk[0] == g.entry() && walk.last() == n implies walk.contains(x) by {
        assert(walk.contains(i));
        let k = choose|k: int| 0 <= k < walk.len() && walk[k] == i;
        let first = walk.subrange(0, k + 1);
        assert forall|q: int| 0 <= q < first.len() - 1 implies has_edge(g, #[trigger] first[q], first[q + 1]) by {
            assert(has_edge(g, walk[q], walk[q + 1]));
        }
        assert(is_walk(g, first) && first[0] == g.entry() && first.last() == i);
        assert(first.contains(x));
        let q = choose|q: int| 0 <= q < first.len() && first[q] == x;
        assert(walk[q] == x);
    }
}

/// A node dominates another if and only if no walk from the entry to the
/// other avoids it.
pub proof fn lemma_dominates_avoid<G: Graph>(g: &G, d: usize, n: int)
    ensures
        dominates(g, d as int, n) <==> !reaches_avoiding(g, g.entry() as int, n, Some(d)),
{
    if reaches_avoiding(g, g.entry() as int, n, Some(d)) {
        let w = choose|walk: Seq<int>|
            is_walk(g, walk) && walk[0] == g.entry() as int && walk.last() == n && walk_avoids(walk, Some(d));
        if w.contains(d as int) {
            let k = choose|k: int| 0 <= k < w.len() && w[k] == d as int;
            assert(w[k] != d);
        }
        assert(is_walk(g, w) && w[0] == g.entry() && w.last() == n && !w.contains(d as int));
    }
    if !dominates(g, d as int, n) {
        let w = choose|walk: Seq<int>| #[trigger]
            is_walk(g, walk) && walk[0] == g.entry() && walk.last() == n && !walk.contains(d as int);
        assert forall|i: int| 0 <= i < w.len() implies #[trigger] w[i] != d by {
            if w[i] == d {
                assert(w.contains(d as int));
            }
        }
        assert(walk_avoids(w, Some(d)));
    }
}

/// `x` is one of the first nodes of `rpo`, up to the one at `i`.
pub open spec fn listed_upto(rpo: Seq<usize>, i: int, x: int) -> bool {
    exists|j: int| 0 <= j <= i && j < rpo.len() && #[trigger] rpo[j] == x
}

/// A walk from the entry to the node at `i` through nodes listed no later.
pub open spec fn early_walk<G: Graph>(g: &G, rpo: Seq<usize>, i: int, walk: Seq<int>) -> bool {
    &&& is_walk(g, walk)
    &&& walk[0] == g.entry()
    &&& walk.last() == rpo[i]
    &&& forall|k: int| 0 <= k < walk.len() ==> listed_upto(rpo, i, #[trigger] walk[k])
}

/// To every node of an entry order a walk leads from the entry through
/// nodes that are listed no later.
pub proof fn lemma_entry_walk<G: Graph>(g: &G, rpo: Seq<usize>, i: int) -> (walk: Seq<int>)
    requires
        g.wf(),
        is_entry_order(g, rpo),
        0 <= i < rpo.len(),
    ensures
        early_walk(g, rpo, i, walk),
    decreases i,
{
    if i == 0 {
        let w = seq![rpo[0] as int];
        assert(listed_upto(rpo, 0, w[0]));
        w
    } else {
        let j = choose|j: int| 0 <= j < i && has_back_link(g, rpo[j] as int, #[trigger] rpo[i] as int);
        lemma_links_agree(g, rpo[j] as int, rpo[i] as int);
        let before = lemma_entry_walk(g, rpo, j);
        let w = before.push(rpo[i] as int);
        assert forall|q: int| 0 <= q < w.len() - 1 implies has_edge(g, #[trigger] w[q], w[q + 1]) by {
            if q < before.len() - 1 {
                assert(has_edge(g, before[q], before[q + 1]));
            }
        }
        assert forall|k: int| 0 <= k < w.len() implies listed_upto(rpo, i, #[trigger] w[k]) by {
            if k < before.len() {
                assert(listed_upto(rpo, j, before[k]));
                let m = choose|m: int| 0 <= m <= j && m < rpo.len() && #[trigger] rpo[m] == before[k];
                assert(rpo[m] == w[k]);
            } else {
                assert(rpo[i] == w[k]);
            }
        }
        w
    }
}

/// What dominates a node of an entry order, and is not that node, is
/// listed before it.
pub proof fn lemma_dominator_listed<G: Graph>(g: &G, rpo: Seq<usize>, i: int, d: int) -> (j: int)
    requires
        g.wf(),
        is_entry_order(g, rpo),
        0 <= i < rpo.len(),
        dominates(g, d, rpo[i] as int),
        d != rpo[i],
    ensures
        0 <= j < i,
        rpo[j] == d,
{
    let w = lemma_entry_walk(g, rpo, i);
    assert(w.contains(d));
    let k = choose|k: int| 0 <= k < w.len() && w[k] == d;
    assert(listed_upto(rpo, i, w[k]));
    choose|j: int| 0 <= j <= i && j < rpo.len() && #[trigger] rpo[j] == d
}

/// The last place of a walk, before `upto`, that holds `x` or `i`.
proof fn lemma_last_hit(w: Seq<int>, x: int, i: int, upto: int) -> (k: int)
    requires
        0 < upto <= w.len(),
        exists|m: int| 0 <= m < upto && (w[m] == x || w[m] == i),
    ensures
        0 <= k < upto,
        w[k] == x || w[k] == i,
        forall|m: int| k < m < upto ==> w[m] != x && w[m] != i,
    decreases upto,
{
    if w[upto - 1] == x || w[upto - 1] == i {
        upto - 1
    } else {
        let m = choose|m: int| 0 <= m < upto && (w[m] == x || w[m] == i);
        assert(m < upto - 1);
        lemma_last_hit(w, x, i, upto - 1)
    }
}

/// A walk to `x` that avoids `i`, and then the end of a walk from its last
/// `x` on, after which no `i` comes, is a walk that avoids `i`.
proof fn lemma_around<G: Graph>(g: &G, first: Seq<int>, w: Seq<int>, k: int, i: int)
    requires
        is_walk(g, first),
        is_walk(g, w),
        0 <= k < w.len(),
        first.last() == w[k],
        !first.contains(i),
        forall|m: int| k <= m < w.len() ==> w[m] != i,
    ensures
        exists|walk: Seq<int>| #[trigger]
            is_walk(g, walk) && walk[0] == first[0] && walk.last() == w.last() && !walk.contains(i),
{
    let walk = first + w.subrange(k + 1, w.len() as int);
    assert forall|q: int| 0 <= q < walk.len() implies 0 <= #[trigger] walk[q] < g.node_count() && walk[q] != i by {
        if q >= first.len() {
            assert(walk[q] == w[q - first.len() + k + 1]);
        } else {
            assert(walk[q] == first[q]);
            assert(first.contains(first[q]));
        }
    }
    assert forall|q: int| 0 <= q < walk.len() - 1 implies has_edge(g, #[trigger] walk[q], walk[q + 1]) by {
        if q < first.len() - 1 {
            assert(has_edge(g, first[q], first[q + 1]));
        } else {
            let m = q - first.len() + k + 1;
            if q == first.len() - 1 {
                assert(walk[q] == first[q]);
                assert(has_edge(g, w[k], w[k + 1]));
            } else {
                assert(walk[q] == w[m]);
                assert(has_edge(g, w[m], w[m + 1]));
            }
            assert(walk[q + 1] == w[m + 1]);
        }
    }
    assert(walk.last() == w.last()) by {
        if k == w.len() - 1 {
            assert(walk.last() == first.last());
        } else {
            assert(walk[walk.len() - 1] == w[w.len() - 1]);
        }
    }
    assert(walk[0] == first[0]);
    if walk.contains(i) {
        let q = choose|q: int| 0 <= q < walk.len() && walk[q] == i;
        assert(walk[q] != i);
    }
    assert(is_walk(g, walk) && walk[0] == first[0] && walk.last() == w.last() && !walk.contains(i));
}

/// Of two nodes that dominate a node that the entry reaches, one dominates
/// the other.
pub proof fn lemma_dominators_comparable<G: Graph>(g: &G, x: int, i: int, n: int)
    requires
        reaches(g, g.entry() as int, n),
        dominates(g, x, n),
        dominates(g, i, n),
    ensures
        dominates(g, x, i) || dominates(g, i, x),
{
    if x == i {
        lemma_dominates_self(g, x);
    } else if !dominates(g, x, i) && !dominates(g, i, x) {
        let a = choose|walk: Seq<int>| #[trigger]
            is_walk(g, walk) && walk[0] == g.entry() && walk.last() == i && !walk.contains(x);
        let b = choose|walk: Seq<int>| #[trigger]
            is_walk(g, walk) && walk[0] == g.entry() && walk.last() == x && !walk.contains(i);
        let w = choose|walk: Seq<int>| is_walk(g, walk) && walk[0] == g.entry() as int && walk.last() == n;
        assert(w.contains(x));
        let m = choose|m: int| 0 <= m < w.len() && w[m] == x;
        let k = lemma_last_hit(w, x, i, w.len() as int);
        if w[k] == x {
            lemma_around(g, b, w, k, i);
            let walk = choose|walk: Seq<int>| #[trigger]
                is_walk(g, walk) && walk[0] == b[0] && walk.last() == w.last() && !walk.contains(i);
            assert(walk.contains(i));
        } else {
            lemma_around(g, a, w, k, x);
            let walk = choose|walk: Seq<int>| #[trigger]
                is_walk(g, walk) && walk[0] == a[0] && walk.last() == w.last() && !walk.contains(x);
            assert(walk.contains(x));
        }
    }
}

/// `b` is the nearest of the nodes that dominate `n` and are not `n`: it is
/// one of them, and none of them ranks lower.
pub open spec fn nearest<G: Graph>(g: &G, ranks: Seq<usize>, n: int, b: int) -> bool {
    &&& b != n
    &&& dominates(g, b, n)
    &&& forall|x: int| x != n && #[trigger] dominates(g, x, n) ==> ranks[b] <= ranks[x]
}

/// In the forest every listed node but the entry has its nearest dominator
/// above it, and no other node has anything above it.
pub open spec fn nearest_forest<G: Graph>(g: &G, rpo: Seq<usize>, ranks: Seq<usize>, idoms: Seq<Option<usize>>) -> bool {
    &&& idoms.len() == g.node_count()
    &&& ranks.len() == g.node_count()
    &&& idoms[g.entry() as int] == Some(g.entry() as usize)
    &&& forall|i: int|
        0 < i < rpo.len() ==> (#[trigger] idoms[rpo[i] as int]) is Some && nearest(
            g,
            ranks,
            rpo[i] as int,
            idoms[rpo[i] as int]->Some_0 as int,
        )
    &&& forall|n: int| 0 <= n < idoms.len() && !rpo.contains(n as usize) ==> (#[trigger] idoms[n]) is None
}

/// A forest of nearest dominators is well-formed.
pub proof fn lemma_nearest_wf<G: Graph>(g: &G, rpo: Seq<usize>, ranks: Seq<usize>, idoms: Seq<Option<usize>>)
    requires
        g.wf(),
        is_entry_order(g, rpo),
        ranked(ranks, rpo),
        nearest_forest(g, rpo, ranks, idoms),
    ensures
        forest_wf(ranks, idoms, g.entry() as int),
{
    g.lemma_edges();
    let root = g.entry() as int;
    assert(rpo[0] == root);
    assert forall|n: int| 0 <= n < idoms.len() && (#[trigger] idoms[n]) is Some implies {
        let d = idoms[n]->Some_0 as int;
        &&& d < idoms.len()
        &&& idoms[d] is Some
        &&& n != root ==> ranks[d] > ranks[n]
    } by {
        assert(rpo.contains(n as usize));
        let i = choose|i: int| 0 <= i < rpo.len() && rpo[i] == n as usize;
        if i > 0 {
            let d = idoms[rpo[i] as int]->Some_0 as int;
            let j = lemma_dominator_listed(g, rpo, i, d);
            assert(ranks[rpo[j] as int] == rpo.len() - 1 - j);
            assert(ranks[rpo[i] as int] == rpo.len() - 1 - i);
            if j > 0 {
                assert(idoms[rpo[j] as int] is Some);
            }
        }
    }
    assert forall|a: int, b: int|
        0 <= a < idoms.len() && 0 <= b < idoms.len() && idoms[a] is Some && idoms[b] is Some
            && #[trigger] same_rank(ranks, a, b) implies a == b by {
        assert(rpo.contains(a as usize));
        assert(rpo.contains(b as usize));
        let i = choose|i: int| 0 <= i < rpo.len() && rpo[i] == a as usize;
        let j = choose|j: int| 0 <= j < rpo.len() && rpo[j] == b as usize;
        assert(ranks[rpo[i] as int] == rpo.len() - 1 - i);
        assert(ranks[rpo[j] as int] == rpo.len() - 1 - j);
    }
    reveal(forest_wf);
}

/// In a forest of nearest dominators the chain of a listed node holds what
/// dominates it, and nothing else.
pub proof fn lemma_nearest_exact<G: Graph>(
    g: &G,
    rpo: Seq<usize>,
    ranks: Seq<usize>,
    idoms: Seq<Option<usize>>,
    i: int,
    x: int,
)
    requires
        g.wf(),
        is_entry_order(g, rpo),
        ranked(ranks, rpo),
        nearest_forest(g, rpo, ranks, idoms),
        forest_wf(ranks, idoms, g.entry() as int),
        0 <= i < rpo.len(),
    ensures
        on_chain(ranks, idoms, g.entry() as int, rpo[i] as int, x) <==> dominates(g, x, rpo[i] as int),
    decreases i,
{
    g.lemma_edges();
    let root = g.entry() as int;
    let n = rpo[i] as int;
    lemma_dominates_self(g, n);
    lemma_on_chain_self(ranks, idoms, root, n);
    if i == 0 {
        assert(on_chain(ranks, idoms, root, n, x) <==> x == n) by {
            reveal(on_chain);
        }
        if dominates(g, x, n) {
            let w = seq![n];
            assert(is_walk(g, w) && w[0] == g.entry() && w.last() == n);
            assert(w.contains(x));
        }
    } else {
        assert(n != root);
        let b = idoms[n]->Some_0 as int;
        lemma_forest_node(ranks, idoms, root, n);
        let j = lemma_dominator_listed(g, rpo, i, b);
        lemma_nearest_exact(g, rpo, ranks, idoms, j, x);
        assert(on_chain(ranks, idoms, root, n, x) <==> (x == n || on_chain(ranks, idoms, root, b, x))) by {
            reveal(on_chain);
        }
        if x != n {
            if dominates(g, x, b) {
                lemma_dominates_trans(g, x, b, n);
            }
            if dominates(g, x, n) && !dominates(g, x, b) {
                let w = lemma_entry_walk(g, rpo, i);
                lemma_dominators_comparable(g, x, b, n);
                assert(dominates(g, b, x));
                if b != x {
                    let q = lemma_dominator_listed(g, rpo, i, x);
                    let p = lemma_dominator_listed(g, rpo, q, b);
                    assert(ranks[rpo[q] as int] == rpo.len() - 1 - q);
                    assert(ranks[rpo[p] as int] == rpo.len() - 1 - p);
                    assert(ranks[b] <= ranks[x]);
                } else {
                    lemma_dominates_self(g, x);
                }
            }
        }
    }
}

} // verus!
