//! Dominators by the iteration of Cooper, Harvey and Kennedy: every node
//! gets an immediate dominator that ranks higher in post-order, and the
//! passes over the reverse post-order are repeated until nothing changes.

use crate::dominance::{
    complete_on, dominates, lemma_complete_at, lemma_dominates_avoid, lemma_nearest_exact, lemma_nearest_wf,
    lemma_start_complete, lemma_update_keeps_complete, lemma_update_keeps_walks, nearest, nearest_forest, walks_on,
};
use crate::graph::{has_back_link, has_edge, is_walk, lemma_links_agree, reaches, Graph};
use crate::iterate::{is_post_order, node_set, post_order_from_to, reverse_post_order};
use crate::node_vec::NodeVec;
use core::marker::PhantomData;
use vstd::prelude::*;

verus! {

/// `rpo` starts at the entry, lists nodes of `g` without repetition, and
/// every later node has a predecessor listed before it.
pub open spec fn is_entry_order<G: Graph>(g: &G, rpo: Seq<usize>) -> bool {
    &&& rpo.len() > 0
    &&& rpo[0] == g.entry()
    &&& forall|i: int, j: int| 0 <= i < j < rpo.len() ==> rpo[i] != rpo[j]
    &&& forall|i: int| 0 <= i < rpo.len() ==> #[trigger] rpo[i] < g.node_count()
    &&& forall|i: int|
        0 < i < rpo.len() ==> exists|j: int|
            0 <= j < i && has_back_link(g, rpo[j] as int, #[trigger] rpo[i] as int)
}

/// A reverse post-order from the entry is an entry order.
pub proof fn lemma_reverse_post_order_is_entry_order<G: Graph>(g: &G, rpo: Seq<usize>)
    requires
        g.wf(),
        rpo.len() > 0,
        is_post_order(g, g.entry() as int, None, rpo.reverse()),
    ensures
        is_entry_order(g, rpo),
{
    let po = rpo.reverse();
    let n = rpo.len() as int;
    assert forall|i: int| 0 <= i < n implies #[trigger] rpo[i] == po[n - 1 - i] by {}
    assert(rpo[0] == po[n - 1]);
    assert forall|i: int, j: int| 0 <= i < j < n implies rpo[i] != rpo[j] by {
        assert(po[n - 1 - j] != po[n - 1 - i]);
    }
    assert forall|i: int| 0 <= i < n implies #[trigger] rpo[i] < g.node_count() by {
        assert(po[n - 1 - i] < g.node_count());
    }
    assert forall|i: int| 0 < i < n implies exists|j: int|
        0 <= j < i && has_back_link(g, rpo[j] as int, #[trigger] rpo[i] as int) by {
        let q = n - 1 - i;
        assert(0 <= q < po.len() - 1);
        let p = choose|p: int| q < p < po.len() && has_edge(g, po[p] as int, #[trigger] po[q] as int);
        lemma_links_agree(g, po[p] as int, po[q] as int);
        assert(rpo[n - 1 - p] == po[p]);
        assert(has_back_link(g, rpo[n - 1 - p] as int, rpo[i] as int));
    }
}

/// The forest of immediate dominators is well-formed: the root is its own
/// immediate dominator, every other node with an immediate dominator ranks
/// below it, and no two such nodes share a rank.
#[verifier::opaque]
pub open spec fn forest_wf(ranks: Seq<usize>, idoms: Seq<Option<usize>>, root: int) -> bool {
    &&& ranks.len() == idoms.len()
    &&& 0 <= root < idoms.len()
    &&& idoms[root] is Some
    &&& idoms[root]->Some_0 == root
    &&& forall|n: int|
        0 <= n < idoms.len() && (#[trigger] idoms[n]) is Some ==> {
            let d = idoms[n]->Some_0 as int;
            &&& d < idoms.len()
            &&& idoms[d] is Some
            &&& n != root ==> ranks[d] > ranks[n]
        }
    &&& forall|a: int, b: int|
        0 <= a < idoms.len() && 0 <= b < idoms.len() && idoms[a] is Some && idoms[b] is Some
            && #[trigger] same_rank(ranks, a, b) ==> a == b
}

/// `a` and `b` have the same rank.
pub open spec fn same_rank(ranks: Seq<usize>, a: int, b: int) -> bool {
    ranks[a] == ranks[b]
}

/// The root of a well-formed forest is its own immediate dominator.
pub proof fn lemma_forest_root(ranks: Seq<usize>, idoms: Seq<Option<usize>>, root: int)
    requires
        forest_wf(ranks, idoms, root),
    ensures
        ranks.len() == idoms.len(),
        0 <= root < idoms.len(),
        idoms[root] is Some,
        idoms[root]->Some_0 == root,
{
    reveal(forest_wf);
}

/// What a well-formed forest says of one node.
pub proof fn lemma_forest_node(ranks: Seq<usize>, idoms: Seq<Option<usize>>, root: int, n: int)
    requires
        forest_wf(ranks, idoms, root),
        0 <= n < idoms.len(),
        idoms[n] is Some,
    ensures
        ranks.len() == idoms.len(),
        0 <= root < idoms.len(),
        idoms[root] is Some,
        idoms[root]->Some_0 == root,
        (idoms[n]->Some_0 as int) < idoms.len(),
        idoms[idoms[n]->Some_0 as int] is Some,
        n != root ==> ranks[idoms[n]->Some_0 as int] > ranks[n],
        n != root ==> climbs(ranks, idoms, root, n),
{
    reveal(forest_wf);
    let d = idoms[n]->Some_0 as int;
    assert(idoms[d] is Some);
}

/// In a well-formed forest two nodes of one rank are one node.
pub proof fn lemma_forest_ranks(ranks: Seq<usize>, idoms: Seq<Option<usize>>, root: int, a: int, b: int)
    requires
        forest_wf(ranks, idoms, root),
        0 <= a < idoms.len(),
        0 <= b < idoms.len(),
        idoms[a] is Some,
        idoms[b] is Some,
        ranks[a] == ranks[b],
    ensures
        a == b,
{
    reveal(forest_wf);
    assert(same_rank(ranks, a, b));
}

/// `n` has an immediate dominator other than itself, by which the walk
/// towards the root goes on.
pub open spec fn climbs(ranks: Seq<usize>, idoms: Seq<Option<usize>>, root: int, n: int) -> bool {
    &&& 0 <= n < idoms.len()
    &&& n != root
    &&& idoms[n] is Some
    &&& (idoms[n]->Some_0 as int) < idoms.len()
    &&& ranks.len() == idoms.len()
    &&& ranks[n] < ranks[idoms[n]->Some_0 as int]
}

/// `d` is `n` or lies above it in the forest.
#[verifier::opaque]
pub open spec fn on_chain(ranks: Seq<usize>, idoms: Seq<Option<usize>>, root: int, n: int, d: int) -> bool
    decreases
        if climbs(ranks, idoms, root, n) {
            usize::MAX - ranks[n]
        } else {
            0
        },
{
    if n == d {
        true
    } else if climbs(ranks, idoms, root, n) {
        on_chain(ranks, idoms, root, idoms[n]->Some_0 as int, d)
    } else {
        false
    }
}

/// `n`, its immediate dominator, and so on up to the root.
pub open spec fn chain(ranks: Seq<usize>, idoms: Seq<Option<usize>>, root: int, n: int) -> Seq<usize>
    decreases
        if climbs(ranks, idoms, root, n) {
            usize::MAX - ranks[n]
        } else {
            0
        },
{
    if climbs(ranks, idoms, root, n) {
        seq![n as usize] + chain(ranks, idoms, root, idoms[n]->Some_0 as int)
    } else {
        seq![n as usize]
    }
}

/// The chain of a node lists exactly what lies on it.
pub proof fn lemma_chain_members(ranks: Seq<usize>, idoms: Seq<Option<usize>>, root: int, n: int, d: int)
    requires
        0 <= n < idoms.len() <= usize::MAX,
        0 <= d <= usize::MAX,
        forest_wf(ranks, idoms, root),
        idoms[n] is Some,
    ensures
        chain(ranks, idoms, root, n).contains(d as usize) <==> on_chain(ranks, idoms, root, n, d),
        chain(ranks, idoms, root, n)[0] == n,
        chain(ranks, idoms, root, n).last() == root,
    decreases usize::MAX - ranks[n],
{
    reveal(on_chain);
    lemma_forest_node(ranks, idoms, root, n);
    let c = chain(ranks, idoms, root, n);
    if climbs(ranks, idoms, root, n) {
        let p = idoms[n]->Some_0 as int;
        let rest = chain(ranks, idoms, root, p);
        lemma_chain_members(ranks, idoms, root, p, d);
        assert(c[0] == n);
        assert(c.last() == rest.last());
        if rest.contains(d as usize) {
            let i = choose|i: int| 0 <= i < rest.len() && rest[i] == d as usize;
            assert(c[i + 1] == d as usize);
        }
        if c.contains(d as usize) {
            let i = choose|i: int| 0 <= i < c.len() && c[i] == d as usize;
            if i > 0 {
                assert(rest[i - 1] == d as usize);
            }
        }
    } else {
        assert(n == root);
        assert(c[0] == n as usize);
        if c.contains(d as usize) {
            let i = choose|i: int| 0 <= i < c.len() && c[i] == d as usize;
        }
    }
}

/// What lies on the chain of `n` has an immediate dominator and ranks no
/// lower than `n`.
pub proof fn lemma_chain_rank(ranks: Seq<usize>, idoms: Seq<Option<usize>>, root: int, n: int, d: int)
    requires
        forest_wf(ranks, idoms, root),
        0 <= n < idoms.len(),
        idoms[n] is Some,
        on_chain(ranks, idoms, root, n, d),
    ensures
        0 <= d < idoms.len(),
        idoms[d] is Some,
        ranks[d] >= ranks[n],
    decreases usize::MAX - ranks[n],
{
    reveal(on_chain);
    lemma_forest_node(ranks, idoms, root, n);
    if n != d {
        lemma_chain_rank(ranks, idoms, root, idoms[n]->Some_0 as int, d);
    }
}

/// The chain of every node with an immediate dominator ends at the root.
pub proof fn lemma_chain_reaches_root(ranks: Seq<usize>, idoms: Seq<Option<usize>>, root: int, n: int)
    requires
        forest_wf(ranks, idoms, root),
        0 <= n < idoms.len(),
        idoms[n] is Some,
    ensures
        on_chain(ranks, idoms, root, n, root),
        ranks[root] >= ranks[n],
    decreases usize::MAX - ranks[n],
{
    reveal(on_chain);
    lemma_forest_node(ranks, idoms, root, n);
    if n != root {
        lemma_chain_reaches_root(ranks, idoms, root, idoms[n]->Some_0 as int);
    }
}

/// What lies above a node of a chain lies on the chain.
pub proof fn lemma_chain_trans(
    ranks: Seq<usize>,
    idoms: Seq<Option<usize>>,
    root: int,
    n: int,
    m: int,
    d: int,
)
    requires
        forest_wf(ranks, idoms, root),
        0 <= n < idoms.len(),
        idoms[n] is Some,
        on_chain(ranks, idoms, root, n, m),
        on_chain(ranks, idoms, root, m, d),
    ensures
        on_chain(ranks, idoms, root, n, d),
    decreases usize::MAX - ranks[n],
{
    reveal(on_chain);
    lemma_forest_node(ranks, idoms, root, n);
    if n != m {
        lemma_chain_trans(ranks, idoms, root, idoms[n]->Some_0 as int, m, d);
    }
}

/// Whatever lies on the chains of both `a0` and `b0` lies on the chains of
/// both `x` and `y`.
#[verifier::opaque]
pub open spec fn common_kept(
    ranks: Seq<usize>,
    idoms: Seq<Option<usize>>,
    root: int,
    a0: int,
    b0: int,
    x: int,
    y: int,
) -> bool {
    forall|c: int|
        on_chain(ranks, idoms, root, a0, c) && on_chain(ranks, idoms, root, b0, c) ==> on_chain(
            ranks,
            idoms,
            root,
            x,
            c,
        ) && on_chain(ranks, idoms, root, y, c)
}

/// Every node lies on its own chain.
pub proof fn lemma_on_chain_self(ranks: Seq<usize>, idoms: Seq<Option<usize>>, root: int, n: int)
    ensures
        on_chain(ranks, idoms, root, n, n),
{
    reveal(on_chain);
}

/// The immediate dominator of a node lies on its chain.
pub proof fn lemma_on_chain_up(ranks: Seq<usize>, idoms: Seq<Option<usize>>, root: int, n: int)
    requires
        forest_wf(ranks, idoms, root),
        0 <= n < idoms.len(),
        idoms[n] is Some,
    ensures
        on_chain(ranks, idoms, root, n, idoms[n]->Some_0 as int),
{
    lemma_forest_node(ranks, idoms, root, n);
    let d = idoms[n]->Some_0 as int;
    lemma_on_chain_self(ranks, idoms, root, d);
    if n != d {
        assert(climbs(ranks, idoms, root, n));
        assert(on_chain(ranks, idoms, root, n, d) == on_chain(ranks, idoms, root, d, d)) by {
            reveal(on_chain);
        }
    }
}

proof fn lemma_common_start(ranks: Seq<usize>, idoms: Seq<Option<usize>>, root: int, a: int, b: int)
    ensures
        common_kept(ranks, idoms, root, a, b, a, b),
{
    reveal(common_kept);
}

/// The lower of two nodes cannot lie on both chains, so the common part
/// survives a step up from it.
proof fn lemma_common_step(
    ranks: Seq<usize>,
    idoms: Seq<Option<usize>>,
    root: int,
    a0: int,
    b0: int,
    x: int,
    y: int,
)
    requires
        forest_wf(ranks, idoms, root),
        0 <= x < idoms.len(),
        0 <= y < idoms.len(),
        idoms[x] is Some,
        idoms[y] is Some,
        ranks[x] < ranks[y],
        common_kept(ranks, idoms, root, a0, b0, x, y),
    ensures
        x != root,
        common_kept(ranks, idoms, root, a0, b0, idoms[x]->Some_0 as int, y),
        common_kept(ranks, idoms, root, b0, a0, y, idoms[x]->Some_0 as int),
{
    reveal(common_kept);
    lemma_chain_reaches_root(ranks, idoms, root, y);
    lemma_forest_node(ranks, idoms, root, x);
    let up = idoms[x]->Some_0 as int;
    assert forall|c: int|
        on_chain(ranks, idoms, root, a0, c) && on_chain(ranks, idoms, root, b0, c) implies on_chain(
        ranks,
        idoms,
        root,
        up,
        c,
    ) by {
        lemma_chain_rank(ranks, idoms, root, y, c);
        reveal(on_chain);
    }
}

proof fn lemma_common_flip(
    ranks: Seq<usize>,
    idoms: Seq<Option<usize>>,
    root: int,
    a0: int,
    b0: int,
    x: int,
    y: int,
)
    requires
        common_kept(ranks, idoms, root, a0, b0, x, y),
    ensures
        common_kept(ranks, idoms, root, b0, a0, y, x),
{
    reveal(common_kept);
}

/// The nearest node that the chains of `node1` and `node2` share.
fn intersect(
    post_order_rank: &Vec<usize>,
    immediate_dominators: &Vec<Option<usize>>,
    Ghost(root): Ghost<int>,
    node1: usize,
    node2: usize,
) -> (r: usize)
    requires
        forest_wf(post_order_rank@, immediate_dominators@, root),
        node1 < immediate_dominators.len(),
        node2 < immediate_dominators.len(),
        immediate_dominators[node1 as int] is Some,
        immediate_dominators[node2 as int] is Some,
    ensures
        r < immediate_dominators.len(),
        immediate_dominators[r as int] is Some,
        is_meet(post_order_rank@, immediate_dominators@, root, node1 as int, node2 as int, r as int),
{
    let ghost ranks = post_order_rank@;
    let ghost idoms = immediate_dominators@;
    let ghost a0 = node1 as int;
    let ghost b0 = node2 as int;
    let mut node1 = node1;
    let mut node2 = node2;
    proof {
        lemma_on_chain_self(ranks, idoms, root, a0);
        lemma_on_chain_self(ranks, idoms, root, b0);
        lemma_common_start(ranks, idoms, root, a0, b0);
    }
    while node1 != node2
        invariant
            ranks == post_order_rank@,
            idoms == immediate_dominators@,
            forest_wf(ranks, idoms, root),
            node1 < idoms.len(),
            node2 < idoms.len(),
            0 <= a0 < idoms.len(),
            0 <= b0 < idoms.len(),
            idoms[a0] is Some,
            idoms[b0] is Some,
            idoms[node1 as int] is Some,
            idoms[node2 as int] is Some,
            on_chain(ranks, idoms, root, a0, node1 as int),
            on_chain(ranks, idoms, root, b0, node2 as int),
            common_kept(ranks, idoms, root, a0, b0, node1 as int, node2 as int),
        decreases 2 * usize::MAX - ranks[node1 as int] - ranks[node2 as int],
    {
        let ghost r1 = ranks[node1 as int];
        let ghost r2 = ranks[node2 as int];
        proof {
            lemma_forest_node(ranks, idoms, root, node1 as int);
            lemma_forest_node(ranks, idoms, root, node2 as int);
            if r1 == r2 {
                lemma_forest_ranks(ranks, idoms, root, node1 as int, node2 as int);
            }
        }
        while post_order_rank[node1] < post_order_rank[node2]
            invariant
                post_order_rank.len() == immediate_dominators.len(),
                r1 != r2,
                ranks[node1 as int] >= r1,
                ranks[node2 as int] == r2,
                ranks == post_order_rank@,
                idoms == immediate_dominators@,
                forest_wf(ranks, idoms, root),
                node1 < idoms.len(),
                node2 < idoms.len(),
                0 <= a0 < idoms.len(),
                0 <= b0 < idoms.len(),
                idoms[a0] is Some,
                idoms[b0] is Some,
                idoms[node1 as int] is Some,
                idoms[node2 as int] is Some,
                on_chain(ranks, idoms, root, a0, node1 as int),
                on_chain(ranks, idoms, root, b0, node2 as int),
                common_kept(ranks, idoms, root, a0, b0, node1 as int, node2 as int),
            decreases usize::MAX - ranks[node1 as int],
        {
            proof {
                lemma_forest_node(ranks, idoms, root, node1 as int);
                lemma_forest_node(ranks, idoms, root, idoms[node1 as int]->Some_0 as int);
                lemma_common_step(ranks, idoms, root, a0, b0, node1 as int, node2 as int);
                lemma_on_chain_up(ranks, idoms, root, node1 as int);
                lemma_chain_trans(
                    ranks,
                    idoms,
                    root,
                    a0,
                    node1 as int,
                    idoms[node1 as int]->Some_0 as int,
                );
            }
            node1 = immediate_dominators[node1].unwrap();
        }
        while post_order_rank[node2] < post_order_rank[node1]
            invariant
                post_order_rank.len() == immediate_dominators.len(),
                r1 != r2,
                ranks[node1 as int] >= r1,
                ranks[node1 as int] >= r2,
                ranks[node2 as int] >= r2,
                ranks == post_order_rank@,
                idoms == immediate_dominators@,
                forest_wf(ranks, idoms, root),
                node1 < idoms.len(),
                node2 < idoms.len(),
                0 <= a0 < idoms.len(),
                0 <= b0 < idoms.len(),
                idoms[a0] is Some,
                idoms[b0] is Some,
                idoms[node1 as int] is Some,
                idoms[node2 as int] is Some,
                on_chain(ranks, idoms, root, a0, node1 as int),
                on_chain(ranks, idoms, root, b0, node2 as int),
                common_kept(ranks, idoms, root, a0, b0, node1 as int, node2 as int),
            decreases usize::MAX - ranks[node2 as int],
        {
            proof {
                lemma_forest_node(ranks, idoms, root, node2 as int);
                lemma_forest_node(ranks, idoms, root, idoms[node2 as int]->Some_0 as int);
                lemma_common_flip(ranks, idoms, root, a0, b0, node1 as int, node2 as int);
                lemma_common_step(ranks, idoms, root, b0, a0, node2 as int, node1 as int);
                lemma_common_flip(
                    ranks,
                    idoms,
                    root,
                    b0,
                    a0,
                    idoms[node2 as int]->Some_0 as int,
                    node1 as int,
                );
                lemma_on_chain_up(ranks, idoms, root, node2 as int);
                lemma_chain_trans(
                    ranks,
                    idoms,
                    root,
                    b0,
                    node2 as int,
                    idoms[node2 as int]->Some_0 as int,
                );
            }
            node2 = immediate_dominators[node2].unwrap();
        }
        proof {
            lemma_forest_node(ranks, idoms, root, node1 as int);
            lemma_forest_node(ranks, idoms, root, node2 as int);
        }
    }
    proof {
        reveal(common_kept);
    }
    node1
}

/// `m` lies on the chains of `a` and of `b`, and whatever lies on both lies
/// on the chain of `m`.
pub open spec fn is_meet(
    ranks: Seq<usize>,
    idoms: Seq<Option<usize>>,
    root: int,
    a: int,
    b: int,
    m: int,
) -> bool {
    &&& on_chain(ranks, idoms, root, a, m)
    &&& on_chain(ranks, idoms, root, b, m)
    &&& forall|c: int|
        on_chain(ranks, idoms, root, a, c) && on_chain(ranks, idoms, root, b, c) ==> on_chain(
            ranks,
            idoms,
            root,
            m,
            c,
        )
}

/// `acc` is the meet of those of the first `k` nodes of `preds` that have
/// an immediate dominator: `None` where there is none, else the nearest node
/// on all their chains.
#[verifier::opaque]
pub open spec fn meets_first(
    preds: Seq<usize>,
    k: int,
    ranks: Seq<usize>,
    idoms: Seq<Option<usize>>,
    root: int,
    acc: Option<usize>,
) -> bool {
    match acc {
        None => forall|j: int|
            0 <= j < k ==> #[trigger] preds[j] < idoms.len() && idoms[preds[j] as int] is None,
        Some(r) => {
            &&& r < idoms.len()
            &&& idoms[r as int] is Some
            &&& forall|j: int| 0 <= j < k ==> #[trigger] preds[j] < idoms.len()
            &&& exists|j: int| 0 <= j < k && idoms[#[trigger] preds[j] as int] is Some
            &&& forall|j: int|
                0 <= j < k && idoms[#[trigger] preds[j] as int] is Some ==> on_chain(
                    ranks,
                    idoms,
                    root,
                    preds[j] as int,
                    r as int,
                )
            &&& forall|c: int|
                (forall|j: int|
                    0 <= j < k && idoms[#[trigger] preds[j] as int] is Some ==> on_chain(
                        ranks,
                        idoms,
                        root,
                        preds[j] as int,
                        c,
                    )) ==> on_chain(ranks, idoms, root, r as int, c)
        },
    }
}

proof fn lemma_meets_none(preds: Seq<usize>, ranks: Seq<usize>, idoms: Seq<Option<usize>>, root: int)
    ensures
        meets_first(preds, 0, ranks, idoms, root, None),
{
    reveal(meets_first);
}

/// One more predecessor folded into the meet.
proof fn lemma_meets_step(
    preds: Seq<usize>,
    k: int,
    ranks: Seq<usize>,
    idoms: Seq<Option<usize>>,
    root: int,
    acc: Option<usize>,
    next: Option<usize>,
)
    requires
        forest_wf(ranks, idoms, root),
        0 <= k < preds.len(),
        preds[k] < idoms.len(),
        meets_first(preds, k, ranks, idoms, root, acc),
        idoms[preds[k] as int] is None ==> next == acc,
        idoms[preds[k] as int] is Some && acc is None ==> next == Some(preds[k]),
        idoms[preds[k] as int] is Some && acc is Some ==> next is Some && is_meet(
            ranks,
            idoms,
            root,
            acc->Some_0 as int,
            preds[k] as int,
            next->Some_0 as int,
        ),
    ensures
        meets_first(preds, k + 1, ranks, idoms, root, next),
{
    reveal(meets_first);
    let p = preds[k] as int;
    if idoms[p] is Some {
        let r = next->Some_0 as int;
        lemma_on_chain_self(ranks, idoms, root, p);
        match acc {
            None => {
                assert forall|c: int|
                    (forall|j: int|
                        0 <= j < k + 1 && idoms[#[trigger] preds[j] as int] is Some ==> on_chain(
                            ranks,
                            idoms,
                            root,
                            preds[j] as int,
                            c,
                        )) implies on_chain(ranks, idoms, root, r, c) by {
                    assert(idoms[preds[k] as int] is Some);
                }
            },
            Some(a) => {
                lemma_chain_rank(ranks, idoms, root, p, r);
                assert forall|j: int|
                    0 <= j < k + 1 && idoms[#[trigger] preds[j] as int] is Some implies on_chain(
                    ranks,
                    idoms,
                    root,
                    preds[j] as int,
                    r,
                ) by {
                    if j < k {
                        lemma_chain_trans(ranks, idoms, root, preds[j] as int, a as int, r);
                    }
                }
                assert forall|c: int|
                    (forall|j: int|
                        0 <= j < k + 1 && idoms[#[trigger] preds[j] as int] is Some ==> on_chain(
                            ranks,
                            idoms,
                            root,
                            preds[j] as int,
                            c,
                        )) implies on_chain(ranks, idoms, root, r, c) by {
                    assert(idoms[preds[k] as int] is Some);
                    assert(on_chain(ranks, idoms, root, p, c));
                    assert forall|j: int|
                        0 <= j < k && idoms[#[trigger] preds[j] as int] is Some implies on_chain(
                        ranks,
                        idoms,
                        root,
                        preds[j] as int,
                        c,
                    ) by {}
                    assert(on_chain(ranks, idoms, root, a as int, c));
                }
                let j0 = choose|j: int| 0 <= j < k && idoms[#[trigger] preds[j] as int] is Some;
                assert(idoms[preds[j0] as int] is Some);
            },
        }
        assert(idoms[preds[k] as int] is Some);
    } else {
        match acc {
            None => {},
            Some(a) => {
                let j0 = choose|j: int| 0 <= j < k && idoms[#[trigger] preds[j] as int] is Some;
                assert(idoms[preds[j0] as int] is Some);
                assert forall|c: int|
                    (forall|j: int|
                        0 <= j < k + 1 && idoms[#[trigger] preds[j] as int] is Some ==> on_chain(
                            ranks,
                            idoms,
                            root,
                            preds[j] as int,
                            c,
                        )) implies on_chain(ranks, idoms, root, a as int, c) by {
                    assert forall|j: int|
                        0 <= j < k && idoms[#[trigger] preds[j] as int] is Some implies on_chain(
                        ranks,
                        idoms,
                        root,
                        preds[j] as int,
                        c,
                    ) by {}
                }
            },
        }
    }
}

/// What a finished meet says of one predecessor.
pub proof fn lemma_meets_member(
    preds: Seq<usize>,
    k: int,
    ranks: Seq<usize>,
    idoms: Seq<Option<usize>>,
    root: int,
    acc: Option<usize>,
    j: int,
)
    requires
        meets_first(preds, k, ranks, idoms, root, acc),
        0 <= j < k,
        preds[j] < idoms.len(),
        idoms[preds[j] as int] is Some,
    ensures
        acc is Some,
        acc->Some_0 < idoms.len(),
        idoms[acc->Some_0 as int] is Some,
        on_chain(ranks, idoms, root, preds[j] as int, acc->Some_0 as int),
{
    reveal(meets_first);
}

/// What lies on the chains of all of the first `k` predecessors that have
/// an immediate dominator lies on the chain of their meet.
pub proof fn lemma_meets_common(
    preds: Seq<usize>,
    k: int,
    ranks: Seq<usize>,
    idoms: Seq<Option<usize>>,
    root: int,
    r: usize,
    c: int,
)
    requires
        meets_first(preds, k, ranks, idoms, root, Some(r)),
        forall|j: int|
            0 <= j < k && idoms[#[trigger] preds[j] as int] is Some ==> on_chain(
                ranks,
                idoms,
                root,
                preds[j] as int,
                c,
            ),
    ensures
        on_chain(ranks, idoms, root, r as int, c),
{
    reveal(meets_first);
}

/// One of the first `k` predecessors has an immediate dominator where they
/// have a meet.
pub proof fn lemma_meets_witness(
    preds: Seq<usize>,
    k: int,
    ranks: Seq<usize>,
    idoms: Seq<Option<usize>>,
    root: int,
    r: usize,
) -> (j: int)
    requires
        meets_first(preds, k, ranks, idoms, root, Some(r)),
    ensures
        0 <= j < k,
        preds[j] < idoms.len(),
        idoms[preds[j] as int] is Some,
{
    reveal(meets_first);
    choose|j: int| 0 <= j < k && idoms[#[trigger] preds[j] as int] is Some
}

/// The meet of two optional nodes: the other where one is missing.
fn intersect_opt(
    post_order_rank: &Vec<usize>,
    immediate_dominators: &Vec<Option<usize>>,
    Ghost(root): Ghost<int>,
    node1: Option<usize>,
    node2: Option<usize>,
) -> (r: Option<usize>)
    requires
        forest_wf(post_order_rank@, immediate_dominators@, root),
        node1 matches Some(n) ==> n < immediate_dominators.len() && immediate_dominators[n as int] is Some,
        node2 matches Some(n) ==> n < immediate_dominators.len() && immediate_dominators[n as int] is Some,
    ensures
        node1 is None ==> r == node2,
        node2 is None ==> r == node1,
        node1 is Some && node2 is Some ==> r is Some && r->Some_0 < immediate_dominators.len()
            && is_meet(
            post_order_rank@,
            immediate_dominators@,
            root,
            node1->Some_0 as int,
            node2->Some_0 as int,
            r->Some_0 as int,
        ),
{
    match (node1, node2) {
        (None, None) => None,
        (Some(n), None) => Some(n),
        (None, Some(n)) => Some(n),
        (Some(n1), Some(n2)) => Some(
            intersect(post_order_rank, immediate_dominators, Ghost(root), n1, n2),
        ),
    }
}

/// Giving `node` the immediate dominator `d`, which ranks above it, keeps
/// the forest well-formed.
pub proof fn lemma_forest_update(ranks: Seq<usize>, idoms: Seq<Option<usize>>, root: int, node: int, d: usize)
    requires
        forest_wf(ranks, idoms, root),
        0 <= node < idoms.len(),
        node != root,
        d < idoms.len(),
        idoms[d as int] is Some,
        ranks[d as int] > ranks[node],
        forall|b: int|
            0 <= b < idoms.len() && (#[trigger] idoms[b]) is Some && ranks[b] == ranks[node] ==> b
                == node,
    ensures
        forest_wf(ranks, idoms.update(node, Some(d)), root),
{
    reveal(forest_wf);
    let after = idoms.update(node, Some(d));
    assert forall|n: int| 0 <= n < after.len() && (#[trigger] after[n]) is Some implies {
        let e = after[n]->Some_0 as int;
        &&& e < after.len()
        &&& after[e] is Some
        &&& n != root ==> ranks[e] > ranks[n]
    } by {
        if n != node {
            assert(idoms[n] is Some);
            let e = idoms[n]->Some_0 as int;
            assert(idoms[e] is Some);
        }
    }
    assert forall|a: int, b: int|
        0 <= a < after.len() && 0 <= b < after.len() && after[a] is Some && after[b] is Some
            && #[trigger] same_rank(ranks, a, b) implies a == b by {
        if a != node && b != node {
            assert(idoms[a] is Some && idoms[b] is Some);
        } else if a == node && b != node {
            assert(idoms[b] is Some);
        } else if b == node && a != node {
            assert(idoms[a] is Some);
        }
    }
}

/// Every node but the root that has an immediate dominator has the meet of
/// its predecessors for it.
pub open spec fn settled_on<G: Graph>(g: &G, ranks: Seq<usize>, idoms: Seq<Option<usize>>, root: int) -> bool {
    forall|n: int|
        0 <= n < idoms.len() && n != root && (#[trigger] idoms[n]) is Some ==> meets_first(
            g.preds(n),
            g.preds(n).len() as int,
            ranks,
            idoms,
            root,
            idoms[n],
        )
}

/// Every node with an immediate dominator is listed in `rpo`.
pub open spec fn some_in_order(idoms: Seq<Option<usize>>, rpo: Seq<usize>) -> bool {
    forall|n: int| 0 <= n < idoms.len() && (#[trigger] idoms[n]) is Some ==> rpo.contains(n as usize)
}

/// The rank of a listed node is its distance from the end of `rpo`.
pub open spec fn ranked(ranks: Seq<usize>, rpo: Seq<usize>) -> bool {
    forall|i: int| 0 <= i < rpo.len() ==> ranks[#[trigger] rpo[i] as int] == rpo.len() - 1 - i
}

/// `rpo` lists every node that the entry of `g` reaches.
pub open spec fn covers<G: Graph>(g: &G, rpo: Seq<usize>) -> bool {
    forall|n: int| 0 <= n < g.node_count() && reaches(g, g.entry() as int, n) ==> rpo.contains(n as usize)
}

/// The forest says what dominates what: a node lies on the chain of a
/// node with an immediate dominator if and only if every walk from the
/// entry to that node passes it.
pub open spec fn exact_on<G: Graph>(g: &G, d: &Dominators<G>) -> bool {
    forall|n: int, x: int| d.reachable(n) ==> (#[trigger] d.dominated_by(n, x) <==> dominates(g, x, n))
}

/// Whether `order` lists `node`.
fn lists(order: &Vec<usize>, node: usize) -> (r: bool)
    ensures
        r == node_set(order@).contains(node as int),
{
    let mut i: usize = 0;
    while i < order.len()
        invariant
            i <= order.len(),
            forall|k: int| 0 <= k < i ==> order@[k] != node,
        decreases order.len() - i,
    {
        if order[i] == node {
            return true;
        }
        i += 1;
    }
    false
}

/// The nearest dominator of every listed node but the entry, found by
/// trying every node: a node dominates another where the entry does not
/// reach the other without it. This is what the passes fall back on where
/// they have not settled.
fn nearest_dominators<G: Graph>(graph: &G, rpo: &[usize], rank: &Vec<usize>) -> (idoms: Vec<Option<usize>>)
    requires
        graph.wf(),
        is_entry_order(graph, rpo@),
        ranked(rank@, rpo@),
        rank@.len() == graph.node_count(),
    ensures
        nearest_forest(graph, rpo@, rank@, idoms@),
{
    let num_nodes = graph.num_nodes();
    let start = graph.start_node();
    proof {
        graph.lemma_edges();
    }
    let mut idoms: Vec<Option<usize>> = Vec::new();
    let mut n: usize = 0;
    while n < num_nodes
        invariant
            n <= num_nodes,
            idoms.len() == n,
            forall|j: int| 0 <= j < n ==> idoms[j] is None,
        decreases num_nodes - n,
    {
        idoms.push(None);
        n += 1;
    }
    idoms.set(start, Some(start));
    let mut i: usize = 1;
    while i < rpo.len()
        invariant
            graph.wf(),
            is_entry_order(graph, rpo@),
            ranked(rank@, rpo@),
            rank@.len() == graph.node_count(),
            num_nodes == graph.node_count(),
            start == graph.entry(),
            start < num_nodes,
            idoms.len() == num_nodes,
            1 <= i <= rpo@.len(),
            idoms@[start as int] == Some(start),
            forall|q: int|
                0 < q < i ==> (#[trigger] idoms@[rpo@[q] as int]) is Some && nearest(
                    graph,
                    rank@,
                    rpo@[q] as int,
                    idoms@[rpo@[q] as int]->Some_0 as int,
                ),
            forall|q: int| i <= q < rpo@.len() ==> (#[trigger] idoms@[rpo@[q] as int]) is None,
            forall|m: int| 0 <= m < idoms@.len() && !rpo@.contains(m as usize) ==> (#[trigger] idoms@[m]) is None,
        decreases rpo@.len() - i,
    {
        let node = rpo[i];
        let mut best: Option<usize> = None;
        let mut d: usize = 0;
        while d < num_nodes
            invariant
                graph.wf(),
                num_nodes == graph.node_count(),
                rank@.len() == graph.node_count(),
                start == graph.entry(),
                start < num_nodes,
                node < num_nodes,
                d <= num_nodes,
                best matches Some(b) ==> b < num_nodes && b != node && dominates(graph, b as int, node as int)
                    && forall|x: int|
                    0 <= x < d && x != node && #[trigger] dominates(graph, x, node as int) ==> rank@[b as int]
                        <= rank@[x],
                best is None ==> forall|x: int|
                    0 <= x < d && x != node ==> !#[trigger] dominates(graph, x, node as int),
            decreases num_nodes - d,
        {
            if d != node {
                let order = post_order_from_to(graph, start, Some(d));
                let found = lists(&order, node);
                proof {
                    lemma_dominates_avoid(graph, d, node as int);
                }
                if !found {
                    match best {
                        None => {
                            best = Some(d);
                        },
                        Some(b) => {
                            if rank[d] < rank[b] {
                                best = Some(d);
                            }
                        },
                    }
                }
            }
            d += 1;
        }
        proof {
            // the entry dominates every node
            assert(rpo@[0] == start);
            assert(rpo@[i as int] != rpo@[0]);
            assert(dominates(graph, start as int, node as int)) by {
                assert forall|walk: Seq<int>| #[trigger]
                    is_walk(graph, walk) && walk[0] == graph.entry() && walk.last() == node as int implies walk.contains(
                    start as int,
                ) by {
                    assert(walk[0] == start as int);
                }
            }
        }
        let b = match best {
            Some(b) => b,
            None => vstd::pervasive::unreached(),
        };
        proof {
            assert forall|x: int| x != node && #[trigger] dominates(graph, x, node as int) implies rank@[b as int]
                <= rank@[x] by {
                let j = crate::dominance::lemma_dominator_listed(graph, rpo@, i as int, x);
                assert(rpo@[j] < graph.node_count());
            }
        }
        let ghost before = idoms@;
        idoms.set(node, Some(b));
        proof {
            assert forall|q: int| 0 < q < i + 1 implies (#[trigger] idoms@[rpo@[q] as int]) is Some && nearest(
                graph,
                rank@,
                rpo@[q] as int,
                idoms@[rpo@[q] as int]->Some_0 as int,
            ) by {
                if q < i {
                    assert(rpo@[q] != rpo@[i as int]);
                    assert(before[rpo@[q] as int] is Some);
                }
            }
            assert forall|q: int| i + 1 <= q < rpo@.len() implies (#[trigger] idoms@[rpo@[q] as int]) is None by {
                assert(rpo@[q] != rpo@[i as int]);
                assert(before[rpo@[q] as int] is None);
            }
            assert forall|m: int| 0 <= m < idoms@.len() && !rpo@.contains(m as usize) implies (
            #[trigger] idoms@[m]) is None by {
                assert(rpo@.contains(rpo@[i as int]));
                assert(before[m] is None);
            }
        }
        i += 1;
    }
    idoms
}

/// The rank of every node listed in `rpo`: its place from the end of the
/// order; zero for the other nodes.
fn post_order_ranks<G: Graph>(graph: &G, rpo: &[usize]) -> (rank: Vec<usize>)
    requires
        graph.wf(),
        is_entry_order(graph, rpo@),
    ensures
        rank@.len() == graph.node_count(),
        ranked(rank@, rpo@),
{
    let num_nodes = graph.num_nodes();
    let len = rpo.len();
    let mut rank: Vec<usize> = Vec::new();
    let mut n: usize = 0;
    while n < num_nodes
        invariant
            n <= num_nodes,
            rank.len() == n,
        decreases num_nodes - n,
    {
        rank.push(0);
        n += 1;
    }
    let mut index: usize = 0;
    while index < len
        invariant
            index <= len,
            len == rpo@.len(),
            is_entry_order(graph, rpo@),
            rank.len() == num_nodes,
            num_nodes == graph.node_count(),
            forall|i: int| len - index <= i < len ==> rank[#[trigger] rpo@[i] as int] == len - 1 - i,
        decreases len - index,
    {
        let node = rpo[len - 1 - index];
        rank.set(node, index);
        proof {
            assert forall|i: int| len - (index + 1) <= i < len implies rank[#[trigger] rpo@[i] as int]
                == len - 1 - i by {
                if i > len - 1 - index {
                    assert(rpo@[i] != rpo@[len - 1 - index]);
                }
            }
        }
        index += 1;
    }
    rank
}

/// The dominators of the nodes that the entry of `graph` reaches, found
/// without the passes: every node gets the nearest of the nodes without
/// which the entry does not reach it. This is what `dominators` falls back
/// on, and gives the same forest.
pub fn dominators_by_search<G: Graph>(graph: &G) -> (d: Dominators<G>)
    requires
        graph.wf(),
    ensures
        d.wf(),
        d.node_count() == graph.node_count(),
        d.root() == graph.entry(),
        forall|n: int|
            0 <= n < graph.node_count() ==> (d.reachable(n) <==> reaches(
                graph,
                graph.entry() as int,
                n,
            )),
        exact_on(graph, &d),
{
    let start_node = graph.start_node();
    let rpo = reverse_post_order(graph, start_node);
    proof {
        lemma_reverse_post_order_is_entry_order(graph, rpo@);
        graph.lemma_edges();
    }
    let rank = post_order_ranks(graph, rpo.as_slice());
    let idoms = nearest_dominators(graph, rpo.as_slice(), &rank);
    proof {
        lemma_nearest_wf(graph, rpo@, rank@, idoms@);
    }
    let d = Dominators {
        post_order_rank: NodeVec { vec: rank, graph: PhantomData },
        immediate_dominators: NodeVec { vec: idoms, graph: PhantomData },
        root: start_node,
        settled: false,
    };
    proof {
        let po = rpo@.reverse();
        assert(rpo@[0] == start_node);
        assert forall|n: int| 0 <= n < graph.node_count() implies (d.reachable(n) <==> rpo@.contains(
            n as usize,
        )) by {
            if rpo@.contains(n as usize) {
                let j = choose|j: int| 0 <= j < rpo@.len() && rpo@[j] == n as usize;
                if j > 0 {
                    assert(idoms@[rpo@[j] as int] is Some);
                }
            }
        }
        assert forall|n: int| 0 <= n < graph.node_count() implies (d.reachable(n) <==> reaches(
            graph,
            graph.entry() as int,
            n,
        )) by {
            if rpo@.contains(n as usize) {
                let i = choose|i: int| 0 <= i < rpo@.len() && rpo@[i] == n as usize;
                assert(po[rpo@.len() - 1 - i] == n as usize);
                assert((n as usize) as int == n);
                assert(node_set(po).contains(n));
            }
            if node_set(po).contains(n) {
                let i = choose|i: int| 0 <= i < po.len() && po[i] == n;
                assert(rpo@[rpo@.len() - 1 - i] == n as usize);
            }
            assert(crate::iterate::reaches_avoiding(graph, graph.entry() as int, n, None) <==> reaches(
                graph,
                graph.entry() as int,
                n,
            ));
        }
        assert forall|n: int, x: int| d.reachable(n) implies (#[trigger] d.dominated_by(n, x) <==> dominates(
            graph,
            x,
            n,
        )) by {
            assert(rpo@.contains(n as usize));
            let i = choose|i: int| 0 <= i < rpo@.len() && rpo@[i] == n as usize;
            lemma_nearest_exact(graph, rpo@, rank@, idoms@, i, x);
        }
    }
    d
}

/// The dominators of the nodes that the entry of `graph` reaches.
pub fn dominators<G: Graph>(graph: &G) -> (d: Dominators<G>)
    requires
        graph.wf(),
    ensures
        d.wf(),
        d.node_count() == graph.node_count(),
        d.root() == graph.entry(),
        forall|n: int|
            0 <= n < graph.node_count() ==> (d.reachable(n) <==> reaches(
                graph,
                graph.entry() as int,
                n,
            )),
        d.settled() ==> settled_on(graph, d.ranks(), d.idoms(), d.root()),
        complete_on(graph, d.ranks(), d.idoms(), d.root()),
        exact_on(graph, &d),
{
    let start_node = graph.start_node();
    let rpo = reverse_post_order(graph, start_node);
    proof {
        lemma_reverse_post_order_is_entry_order(graph, rpo@);
    }
    let d = dominators_given_rpo(graph, rpo.as_slice());
    proof {
        let po = rpo@.reverse();
        graph.lemma_edges();
        assert forall|n: int| 0 <= n < graph.node_count() implies (d.reachable(n) <==> reaches(
            graph,
            graph.entry() as int,
            n,
        )) by {
            if rpo@.contains(n as usize) {
                let i = choose|i: int| 0 <= i < rpo@.len() && rpo@[i] == n as usize;
                assert(po[rpo@.len() - 1 - i] == n as usize);
                assert((n as usize) as int == n);
                assert(node_set(po).contains(n));
            }
            if node_set(po).contains(n) {
                let i = choose|i: int| 0 <= i < po.len() && po[i] == n;
                assert(rpo@[rpo@.len() - 1 - i] == n as usize);
            }
            assert(crate::iterate::reaches_avoiding(graph, graph.entry() as int, n, None) <==> reaches(
                graph,
                graph.entry() as int,
                n,
            ));
        }
        assert(covers(graph, rpo@)) by {
            assert forall|n: int|
                0 <= n < graph.node_count() && reaches(graph, graph.entry() as int, n) implies rpo@.contains(
                n as usize,
            ) by {
                assert(d.reachable(n));
            }
        }
    }
    d
}

/// The dominators of the nodes listed in `rpo`, an order that starts at the
/// entry and lists every other node after one of its predecessors. The
/// passes end when one changes nothing, or after as many passes as the
/// square of the number of nodes, and one; where they have not settled by
/// then, every node gets its nearest dominator by search. Where `rpo` lists
/// every node that the entry reaches, the forest says what dominates
/// what.
pub fn dominators_given_rpo<G: Graph>(graph: &G, rpo: &[usize]) -> (d: Dominators<G>)
    requires
        graph.wf(),
        is_entry_order(graph, rpo@),
    ensures
        d.wf(),
        d.node_count() == graph.node_count(),
        d.root() == graph.entry(),
        forall|n: int|
            0 <= n < graph.node_count() ==> (d.reachable(n) <==> rpo@.contains(n as usize)),
        ranked(d.ranks(), rpo@),
        d.settled() ==> settled_on(graph, d.ranks(), d.idoms(), d.root()),
        complete_on(graph, d.ranks(), d.idoms(), d.root()),
        covers(graph, rpo@) ==> exact_on(graph, &d),
{
    let start_node = graph.start_node();
    let num_nodes = graph.num_nodes();
    let len = rpo.len();
    proof {
        graph.lemma_edges();
    }
    let mut rank: Vec<usize> = Vec::new();
    let mut idoms: Vec<Option<usize>> = Vec::new();
    let mut n: usize = 0;
    while n < num_nodes
        invariant
            n <= num_nodes,
            rank.len() == n,
            idoms.len() == n,
            forall|j: int| 0 <= j < n ==> rank[j] == 0,
            forall|j: int| 0 <= j < n ==> idoms[j] is None,
        decreases num_nodes - n,
    {
        rank.push(0);
        idoms.push(None);
        n += 1;
    }
    let mut index: usize = 0;
    while index < len
        invariant
            index <= len,
            len == rpo@.len(),
            is_entry_order(graph, rpo@),
            rank.len() == num_nodes,
            num_nodes == graph.node_count(),
            forall|i: int| len - index <= i < len ==> rank[#[trigger] rpo@[i] as int] == len - 1 - i,
        decreases len - index,
    {
        let node = rpo[len - 1 - index];
        rank.set(node, index);
        proof {
            assert forall|i: int| len - (index + 1) <= i < len implies rank[#[trigger] rpo@[i] as int]
                == len - 1 - i by {
                if i > len - 1 - index {
                    assert(rpo@[i] != rpo@[len - 1 - index]);
                }
            }
        }
        index += 1;
    }
    idoms.set(start_node, Some(start_node));
    proof {
        reveal(forest_wf);
        assert forall|a: int, b: int|
            0 <= a < idoms@.len() && 0 <= b < idoms@.len() && idoms@[a] is Some && idoms@[b] is Some
                && #[trigger] same_rank(rank@, a, b) implies a == b by {}
        assert(rpo@[0] == start_node);
        lemma_start_complete(graph, rank@, idoms@, start_node as int);
    }
    let mut rounds: usize = if num_nodes <= 65535 {
        assert(num_nodes * num_nodes <= 65535 * 65535) by (nonlinear_arith)
            requires
                num_nodes <= 65535,
        ;
        num_nodes * num_nodes + 1
    } else {
        usize::MAX
    };
    let ghost rounds0 = rounds;
    let mut changed = true;
    while changed && rounds > 0
        invariant
            graph.wf(),
            is_entry_order(graph, rpo@),
            len == rpo@.len(),
            num_nodes == graph.node_count(),
            start_node == graph.entry(),
            rank.len() == num_nodes,
            idoms.len() == num_nodes,
            ranked(rank@, rpo@),
            forest_wf(rank@, idoms@, start_node as int),
            complete_on(graph, rank@, idoms@, start_node as int),
            walks_on(graph, rank@, idoms@, start_node as int),
            some_in_order(idoms@, rpo@),
            rounds0 >= 1,
            rounds <= rounds0,
            rounds < rounds0 || changed,
            rounds < rounds0 ==> forall|j: int| 0 <= j < len ==> idoms@[#[trigger] rpo@[j] as int] is Some,
            !changed ==> settled_on(graph, rank@, idoms@, start_node as int),
        decreases rounds,
    {
        changed = false;
        rounds -= 1;
        let mut i: usize = 1;
        proof {
            lemma_forest_root(rank@, idoms@, start_node as int);
            assert(rpo@[0] == start_node);
        }
        while i < len
            invariant
                graph.wf(),
                is_entry_order(graph, rpo@),
                len == rpo@.len(),
                num_nodes == graph.node_count(),
                start_node == graph.entry(),
                rank.len() == num_nodes,
                idoms.len() == num_nodes,
                ranked(rank@, rpo@),
                forest_wf(rank@, idoms@, start_node as int),
                complete_on(graph, rank@, idoms@, start_node as int),
                walks_on(graph, rank@, idoms@, start_node as int),
                some_in_order(idoms@, rpo@),
                1 <= i <= len,
                forall|j: int| 0 <= j < i ==> idoms@[#[trigger] rpo@[j] as int] is Some,
                !changed ==> forall|j: int|
                    1 <= j < i ==> meets_first(
                        graph.preds(#[trigger] rpo@[j] as int),
                        graph.preds(rpo@[j] as int).len() as int,
                        rank@,
                        idoms@,
                        start_node as int,
                        idoms@[rpo@[j] as int],
                    ),
            decreases len - i,
        {
            let node = rpo[i];
            let preds = graph.predecessors(node);
            let mut new_idom: Option<usize> = None;
            let mut k: usize = 0;
            proof {
                lemma_meets_none(preds@, rank@, idoms@, start_node as int);
            }
            while k < preds.len()
                invariant
                    k <= preds.len(),
                    forall|q: int| 0 <= q < preds.len() ==> preds[q] < num_nodes,
                    rank.len() == num_nodes,
                    idoms.len() == num_nodes,
                    forest_wf(rank@, idoms@, start_node as int),
                    complete_on(graph, rank@, idoms@, start_node as int),
                    walks_on(graph, rank@, idoms@, start_node as int),
                    meets_first(preds@, k as int, rank@, idoms@, start_node as int, new_idom),
                    new_idom matches Some(r) ==> r < num_nodes && idoms@[r as int] is Some,
                decreases preds.len() - k,
            {
                let pred = preds[k];
                let ghost acc = new_idom;
                if idoms[pred].is_some() {
                    new_idom = intersect_opt(&rank, &idoms, Ghost(start_node as int), new_idom, Some(pred));
                    proof {
                        if acc is Some {
                            lemma_is_meet_some(rank@, idoms@, start_node as int, acc->Some_0 as int, pred as int, new_idom->Some_0 as int);
                        }
                    }
                }
                proof {
                    lemma_meets_step(preds@, k as int, rank@, idoms@, start_node as int, acc, new_idom);
                }
                k += 1;
            }
            proof {
                let j = choose|j: int| 0 <= j < i && has_back_link(graph, rpo@[j] as int, rpo@[i as int] as int);
                let q = choose|q: int| 0 <= q < preds@.len() && preds@[q] == rpo@[j];
                assert(idoms@[rpo@[j] as int] is Some);
                lemma_meets_member(preds@, preds@.len() as int, rank@, idoms@, start_node as int, new_idom, q);
                lemma_chain_rank(rank@, idoms@, start_node as int, rpo@[j] as int, new_idom->Some_0 as int);
                assert(rank@[rpo@[j] as int] == len - 1 - j);
                assert(rank@[rpo@[i as int] as int] == len - 1 - i);
            }
            let r = new_idom.unwrap();
            let same = match idoms[node] {
                Some(x) => x == r,
                None => false,
            };
            if !same {
                proof {
                    assert(rpo@[i as int] != rpo@[0]);
                    assert forall|b: int|
                        0 <= b < idoms@.len() && (#[trigger] idoms@[b]) is Some && rank@[b] == rank@[node as int] implies b
                            == node by {
                        assert(rpo@.contains(b as usize));
                        let jb = choose|jb: int| 0 <= jb < rpo@.len() && rpo@[jb] == b as usize;
                        assert(rank@[rpo@[jb] as int] == len - 1 - jb);
                    }
                    lemma_forest_update(rank@, idoms@, start_node as int, node as int, r);
                    lemma_update_keeps_walks(graph, rank@, idoms@, start_node as int, node as int, r);
                    lemma_update_keeps_complete(graph, rank@, idoms@, start_node as int, node as int, r);
                }
                idoms.set(node, Some(r));
                changed = true;
                proof {
                    assert forall|m: int| 0 <= m < idoms@.len() && (#[trigger] idoms@[m]) is Some implies rpo@.contains(
                        m as usize,
                    ) by {
                        if m == node {
                            assert(rpo@[i as int] == m as usize);
                        }
                    }
                }
            }
            i += 1;
        }
        proof {
            if !changed {
                assert forall|m: int|
                    0 <= m < idoms@.len() && m != start_node && (#[trigger] idoms@[m]) is Some implies meets_first(
                    graph.preds(m),
                    graph.preds(m).len() as int,
                    rank@,
                    idoms@,
                    start_node as int,
                    idoms@[m],
                ) by {
                    assert(rpo@.contains(m as usize));
                    let j = choose|j: int| 0 <= j < rpo@.len() && rpo@[j] == m as usize;
                    assert(rpo@[j] as int == m);
                }
            }
        }
    }
    // Where the passes have not settled, every node gets its nearest
    // dominator by trying every node.
    if changed {
        idoms = nearest_dominators(graph, rpo, &rank);
        proof {
            lemma_nearest_wf(graph, rpo@, rank@, idoms@);
            assert(complete_on(graph, rank@, idoms@, start_node as int)) by {
                assert forall|n: int, x: int|
                    0 <= n < idoms@.len() && idoms@[n] is Some && #[trigger] dominates(graph, x, n) implies on_chain(
                    rank@,
                    idoms@,
                    start_node as int,
                    n,
                    x,
                ) by {
                    assert(rpo@.contains(n as usize));
                    let i = choose|i: int| 0 <= i < rpo@.len() && rpo@[i] == n as usize;
                    lemma_nearest_exact(graph, rpo@, rank@, idoms@, i, x);
                }
                reveal(complete_on);
            }
            assert forall|j: int| 0 <= j < len implies idoms@[#[trigger] rpo@[j] as int] is Some by {
                if j == 0 {
                    assert(rpo@[0] == start_node);
                }
            }
        }
    }
    let d = Dominators {
        post_order_rank: NodeVec { vec: rank, graph: PhantomData },
        immediate_dominators: NodeVec { vec: idoms, graph: PhantomData },
        root: start_node,
        settled: !changed,
    };
    proof {
        if covers(graph, rpo@) {
            assert forall|n: int, x: int| d.reachable(n) implies (#[trigger] d.dominated_by(n, x) <==> dominates(
                graph,
                x,
                n,
            )) by {
                if changed {
                    assert(rpo@.contains(n as usize));
                    let i = choose|i: int| 0 <= i < rpo@.len() && rpo@[i] == n as usize;
                    lemma_nearest_exact(graph, rpo@, rank@, idoms@, i, x);
                } else {
                    assert forall|m: int|
                        0 <= m < graph.node_count() && reaches(graph, graph.entry() as int, m) implies d.reachable(
                        m,
                    ) by {
                        assert(rpo@.contains(m as usize));
                        let j = choose|j: int| 0 <= j < rpo@.len() && rpo@[j] == m as usize;
                        assert(idoms@[rpo@[j] as int] is Some);
                    }
                    d.lemma_dominance_exact(graph, n, x);
                }
            }
        }
        assert forall|m: int| 0 <= m < graph.node_count() implies (d.reachable(m) <==> rpo@.contains(
            m as usize,
        )) by {
            if rpo@.contains(m as usize) {
                let j = choose|j: int| 0 <= j < rpo@.len() && rpo@[j] == m as usize;
                assert(idoms@[rpo@[j] as int] is Some);
            }
        }
    }
    d
}

proof fn lemma_is_meet_some(ranks: Seq<usize>, idoms: Seq<Option<usize>>, root: int, a: int, b: int, m: int)
    requires
        forest_wf(ranks, idoms, root),
        0 <= b < idoms.len(),
        idoms[b] is Some,
        is_meet(ranks, idoms, root, a, b, m),
    ensures
        0 <= m < idoms.len(),
        idoms[m] is Some,
{
    lemma_chain_rank(ranks, idoms, root, b, m);
}

/// The immediate dominators of a graph, with the post-order rank by which
/// they were found.
pub struct Dominators<G: Graph> {
    post_order_rank: NodeVec<G, usize>,
    immediate_dominators: NodeVec<G, Option<usize>>,
    root: usize,
    settled: bool,
}

impl<G: Graph> Dominators<G> {
    /// Post-order rank of every node; zero for nodes outside the order.
    pub closed spec fn ranks(&self) -> Seq<usize> {
        self.post_order_rank.vec@
    }

    /// Immediate dominator of every node; `None` for nodes outside the order.
    pub closed spec fn idoms(&self) -> Seq<Option<usize>> {
        self.immediate_dominators.vec@
    }

    /// The node the order started from.
    pub closed spec fn root(&self) -> int {
        self.root as int
    }

    /// Whether the last pass changed nothing.
    pub closed spec fn settled(&self) -> bool {
        self.settled
    }

    pub open spec fn wf(&self) -> bool {
        forest_wf(self.ranks(), self.idoms(), self.root())
    }

    pub open spec fn node_count(&self) -> nat {
        self.idoms().len()
    }

    /// `n` has an immediate dominator.
    pub open spec fn reachable(&self, n: int) -> bool {
        0 <= n < self.idoms().len() && self.idoms()[n] is Some
    }

    /// `d` is `n` or lies above it in the forest of immediate dominators.
    pub open spec fn dominated_by(&self, n: int, d: int) -> bool {
        on_chain(self.ranks(), self.idoms(), self.root(), n, d)
    }

    /// `n`, its immediate dominator, and so on up to the root.
    pub open spec fn chain_of(&self, n: int) -> Seq<usize> {
        chain(self.ranks(), self.idoms(), self.root(), n)
    }

    pub fn is_reachable(&self, node: usize) -> (r: bool)
        requires
            node < self.node_count(),
        ensures
            r == self.reachable(node as int),
    {
        self.immediate_dominators.vec[node].is_some()
    }

    pub fn immediate_dominator(&self, node: usize) -> (d: usize)
        requires
            self.reachable(node as int),
        ensures
            Some(d) == self.idoms()[node as int],
    {
        self.immediate_dominators.vec[node].unwrap()
    }

    /// Whether the passes ended because nothing changed any more.
    pub fn is_settled(&self) -> (r: bool)
        ensures
            r == self.settled(),
    {
        self.settled
    }

    /// Walks from `node` up to the root.
    pub fn dominators(&self, node: usize) -> (it: Iter<'_, G>)
        requires
            self.wf(),
            self.reachable(node as int),
        ensures
            it.wf(),
            it.remaining() == self.chain_of(node as int),
            it.source() == self,
    {
        Iter { dominators: self, node: Some(node) }
    }

    pub fn is_dominated_by(&self, node: usize, dom: usize) -> (r: bool)
        requires
            self.wf(),
            self.reachable(node as int),
        ensures
            r == self.dominated_by(node as int, dom as int),
    {
        let mut it = self.dominators(node);
        proof {
            assert(self.idoms().len() == self.immediate_dominators.vec.len());
            lemma_chain_members(self.ranks(), self.idoms(), self.root(), node as int, dom as int);
        }
        loop
            invariant
                it.wf(),
                it.source() == self,
                self.dominated_by(node as int, dom as int) == it.remaining().contains(dom),
            decreases it.remaining().len(),
        {
            let ghost before = it.remaining();
            match it.next() {
                Some(n) => {
                    if n == dom {
                        assert(before[0] == dom);
                        return true;
                    }
                    proof {
                        if before.contains(dom) {
                            let i = choose|i: int| 0 <= i < before.len() && before[i] == dom;
                            assert(before.drop_first()[i - 1] == dom);
                        }
                        if before.drop_first().contains(dom) {
                            let i = choose|i: int|
                                0 <= i < before.drop_first().len() && before.drop_first()[i] == dom;
                            assert(before[i + 1] == dom);
                        }
                    }
                },
                None => {
                    return false;
                },
            }
        }
    }

    /// The nearest node that dominates both `node1` and `node2`.
    pub fn mutual_dominator(&self, node1: usize, node2: usize) -> (r: usize)
        requires
            self.wf(),
            self.reachable(node1 as int),
            self.reachable(node2 as int),
        ensures
            self.reachable(r as int),
            is_meet(self.ranks(), self.idoms(), self.root(), node1 as int, node2 as int, r as int),
    {
        intersect(
            &self.post_order_rank.vec,
            &self.immediate_dominators.vec,
            Ghost(self.root as int),
            node1,
            node2,
        )
    }

    pub fn all_immediate_dominators(&self) -> (r: &NodeVec<G, Option<usize>>)
        ensures
            r.vec@ == self.idoms(),
    {
        &self.immediate_dominators
    }

    /// For every node, the nodes that it dominates immediately, in rising
    /// order.
    pub open spec fn tree_lists(&self) -> Seq<Seq<usize>> {
        Seq::new(self.node_count(), |d: int| children_upto(self.idoms(), d, self.node_count() as int))
    }

    /// The tree of immediate dominators: under every node the nodes that it
    /// dominates immediately, in rising order.
    pub fn dominator_tree(&self) -> (tree: DominatorTree<G>)
        requires
            self.wf(),
        ensures
            tree.root_node() == self.root(),
            tree.kids().len() == self.node_count(),
            tree.lists() == self.tree_lists(),
            forall|d: int|
                0 <= d < self.node_count() ==> #[trigger] tree.kids()[d]@ == children_upto(
                    self.idoms(),
                    d,
                    self.node_count() as int,
                ),
    {
        let count = self.immediate_dominators.vec.len();
        let mut children: Vec<Vec<usize>> = Vec::new();
        let mut i: usize = 0;
        while i < count
            invariant
                i <= count,
                children.len() == i,
                forall|d: int| 0 <= d < i ==> #[trigger] children[d]@ =~= Seq::<usize>::empty(),
            decreases count - i,
        {
            children.push(Vec::new());
            i += 1;
        }
        let mut root: Option<usize> = None;
        let mut index: usize = 0;
        proof {
            lemma_forest_root(self.ranks(), self.idoms(), self.root());
        }
        while index < count
            invariant
                self.wf(),
                count == self.idoms().len(),
                self.idoms() == self.immediate_dominators.vec@,
                index <= count,
                children.len() == count,
                0 <= self.root() < count,
                self.idoms()[self.root()] is Some,
                self.idoms()[self.root()]->Some_0 == self.root(),
                index > self.root() ==> root == Some(self.root),
                index <= self.root() ==> root is None,
                forall|d: int|
                    0 <= d < count ==> #[trigger] children[d]@ == children_upto(
                        self.idoms(),
                        d,
                        index as int,
                    ),
            decreases count - index,
        {
            let node = index;
            proof {
                if self.idoms()[node as int] is Some {
                    lemma_forest_node(self.ranks(), self.idoms(), self.root(), node as int);
                }
            }
            match self.immediate_dominators.vec[index] {
                None => {},
                Some(immed_dom) => {
                    if node == immed_dom {
                        root = Some(node);
                    } else {
                        children[immed_dom].push(node);
                    }
                },
            }
            index += 1;
        }
        DominatorTree {
            root: root.unwrap(),
            children: NodeVec { vec: children, graph: PhantomData },
        }
    }
}

impl<G: Graph> Dominators<G> {
    /// The root dominates every node that has an immediate dominator.
    pub proof fn lemma_root_dominates(&self, n: int)
        requires
            self.wf(),
            self.reachable(n),
        ensures
            self.dominated_by(n, self.root()),
    {
        lemma_chain_reaches_root(self.ranks(), self.idoms(), self.root(), n);
    }

    /// Every node with an immediate dominator dominates itself, and its
    /// chain of dominators starts with it, ends at the root, and holds
    /// exactly what dominates it.
    pub proof fn lemma_chain_ends_at_root(&self, n: int)
        requires
            self.wf(),
            self.reachable(n),
            self.node_count() <= usize::MAX,
        ensures
            self.dominated_by(n, n),
            self.chain_of(n)[0] == n,
            self.chain_of(n).last() == self.root(),
            forall|d: int|
                0 <= d <= usize::MAX ==> (self.chain_of(n).contains(d as usize) <==> self.dominated_by(
                    n,
                    d,
                )),
    {
        lemma_on_chain_self(self.ranks(), self.idoms(), self.root(), n);
        assert forall|d: int| 0 <= d <= usize::MAX implies (self.chain_of(n).contains(d as usize)
            <==> self.dominated_by(n, d)) by {
            lemma_chain_members(self.ranks(), self.idoms(), self.root(), n, d);
        }
        lemma_chain_members(self.ranks(), self.idoms(), self.root(), n, n);
    }

    /// The immediate dominator of a node other than the root is another
    /// node, dominates the node, and is the nearest such node: whatever else
    /// dominates the node dominates its immediate dominator.
    pub proof fn lemma_immediate_is_nearest(&self, g: &G, n: int, x: int)
        requires
            self.wf(),
            exact_on(g, self),
            self.reachable(n),
            n != self.root(),
        ensures
            self.idoms()[n]->Some_0 != n,
            dominates(g, self.idoms()[n]->Some_0 as int, n),
            x != n && dominates(g, x, n) ==> dominates(g, x, self.idoms()[n]->Some_0 as int),
    {
        let ranks = self.ranks();
        let idoms = self.idoms();
        let root = self.root();
        let i = idoms[n]->Some_0 as int;
        lemma_forest_node(ranks, idoms, root, n);
        lemma_on_chain_up(ranks, idoms, root, n);
        assert(self.dominated_by(n, i));
        assert(self.reachable(i));
        if x != n && dominates(g, x, n) {
            assert(self.dominated_by(n, x));
            assert(on_chain(ranks, idoms, root, i, x)) by {
                reveal(on_chain);
            }
            assert(self.dominated_by(i, x));
        }
    }

    /// Two forests that say what dominates what give every node the same
    /// immediate dominator: the immediate dominators are determined by the
    /// graph.
    pub proof fn lemma_exact_forests_agree(&self, other: &Self, g: &G, n: int)
        requires
            self.wf(),
            other.wf(),
            exact_on(g, self),
            exact_on(g, other),
            self.root() == other.root(),
            self.reachable(n),
            other.reachable(n),
        ensures
            self.idoms()[n] == other.idoms()[n],
    {
        let root = self.root();
        if n == root {
            lemma_forest_root(self.ranks(), self.idoms(), root);
            lemma_forest_root(other.ranks(), other.idoms(), root);
        } else {
            let a = self.idoms()[n]->Some_0 as int;
            let b = other.idoms()[n]->Some_0 as int;
            other.lemma_immediate_is_nearest(g, n, a);
            self.lemma_immediate_is_nearest(g, n, b);
            // each of the two dominates the other
            lemma_forest_node(self.ranks(), self.idoms(), root, n);
            assert(self.reachable(a));
            assert(self.dominated_by(a, b));
            lemma_chain_rank(self.ranks(), self.idoms(), root, a, b);
            assert(self.reachable(b));
            assert(self.dominated_by(b, a));
            lemma_chain_rank(self.ranks(), self.idoms(), root, b, a);
            lemma_forest_ranks(self.ranks(), self.idoms(), root, a, b);
        }
    }

    /// Where the passes have settled, the chain of a node holds what
    /// dominates it and nothing else: `d` is on the chain of `n` if and only
    /// if every walk from the entry to `n` passes `d`.
    pub proof fn lemma_dominance_exact(&self, g: &G, n: int, d: int)
        requires
            g.wf(),
            self.wf(),
            self.node_count() == g.node_count(),
            self.root() == g.entry(),
            settled_on(g, self.ranks(), self.idoms(), self.root()),
            complete_on(g, self.ranks(), self.idoms(), self.root()),
            forall|m: int| 0 <= m < g.node_count() && reaches(g, g.entry() as int, m) ==> self.reachable(m),
            self.reachable(n),
        ensures
            self.dominated_by(n, d) <==> dominates(g, d, n),
    {
        if self.dominated_by(n, d) {
            assert forall|walk: Seq<int>| #[trigger]
                is_walk(g, walk) && walk[0] == g.entry() && walk.last() == n implies walk.contains(d) by {
                self.lemma_dominator_on_every_walk(g, walk, d);
            }
        }
        if dominates(g, d, n) {
            lemma_complete_at(g, self.ranks(), self.idoms(), self.root(), n, d);
        }
    }

    /// Where the passes have settled, what dominates a node lies on every
    /// walk from the entry to that node.
    pub proof fn lemma_dominator_on_every_walk(&self, g: &G, walk: Seq<int>, d: int)
        requires
            g.wf(),
            self.wf(),
            self.node_count() == g.node_count(),
            self.root() == g.entry(),
            settled_on(g, self.ranks(), self.idoms(), self.root()),
            forall|n: int| 0 <= n < g.node_count() && reaches(g, g.entry() as int, n) ==> self.reachable(n),
            is_walk(g, walk),
            walk[0] == g.entry(),
            self.dominated_by(walk.last(), d),
        ensures
            exists|i: int| 0 <= i < walk.len() && walk[i] == d,
        decreases walk.len(),
    {
        let ranks = self.ranks();
        let idoms = self.idoms();
        let root = self.root();
        let n = walk.last();
        assert(walk[walk.len() - 1] == n);
        assert(reaches(g, g.entry() as int, n));
        if n == d {
        } else {
            assert(climbs(ranks, idoms, root, n) && on_chain(ranks, idoms, root, idoms[n]->Some_0 as int, d))
                by {
                reveal(on_chain);
            }
            if walk.len() == 1 {
            } else {
                let shorter = walk.drop_last();
                let p = shorter.last();
                assert(p == walk[walk.len() - 2]);
                assert(has_edge(g, walk[walk.len() - 2], walk[walk.len() - 2 + 1]));
                assert(is_walk(g, shorter)) by {
                    assert forall|i: int| 0 <= i < shorter.len() - 1 implies has_edge(
                        g,
                        #[trigger] shorter[i],
                        shorter[i + 1],
                    ) by {
                        assert(has_edge(g, walk[i], walk[i + 1]));
                    }
                }
                assert(reaches(g, g.entry() as int, p));
                lemma_links_agree(g, p, n);
                g.lemma_edges();
                let k = choose|k: int| 0 <= k < g.preds(n).len() && g.preds(n)[k] == p as usize;
                assert(0 <= p < g.node_count());
                assert(self.reachable(p));
                assert((p as usize) as int == p);
                assert(idoms[n] is Some && n != root);
                assert(meets_first(g.preds(n), g.preds(n).len() as int, ranks, idoms, root, idoms[n]));
                lemma_meets_member(
                    g.preds(n),
                    g.preds(n).len() as int,
                    ranks,
                    idoms,
                    root,
                    idoms[n],
                    k,
                );
                lemma_chain_trans(ranks, idoms, root, p, idoms[n]->Some_0 as int, d);
                self.lemma_dominator_on_every_walk(g, shorter, d);
                let i = choose|i: int| 0 <= i < shorter.len() && shorter[i] == d;
                assert(walk[i] == d);
            }
        }
    }
}

/// The nodes below `upto` whose immediate dominator is `d`, but `d` itself,
/// in rising order.
pub open spec fn children_upto(idoms: Seq<Option<usize>>, d: int, upto: int) -> Seq<usize>
    decreases upto,
{
    if upto <= 0 {
        Seq::empty()
    } else {
        let n = upto - 1;
        let rest = children_upto(idoms, d, n);
        if n < idoms.len() && idoms[n] == Some(d as usize) && n != d {
            rest.push(n as usize)
        } else {
            rest
        }
    }
}

/// A walk from a node up to the root of the forest of immediate dominators.
pub struct Iter<'dom, G: Graph> {
    dominators: &'dom Dominators<G>,
    node: Option<usize>,
}

impl<'dom, G: Graph> Iter<'dom, G> {
    pub closed spec fn wf(&self) -> bool {
        &&& self.dominators.wf()
        &&& self.node matches Some(n) ==> self.dominators.reachable(n as int)
    }

    /// The forest that is walked.
    pub closed spec fn source(&self) -> &Dominators<G> {
        self.dominators
    }

    /// The nodes still to come.
    pub closed spec fn remaining(&self) -> Seq<usize> {
        match self.node {
            Some(n) => self.dominators.chain_of(n as int),
            None => Seq::empty(),
        }
    }

    /// The next node of the walk, if the root has not been passed yet.
    pub fn next(&mut self) -> (r: Option<usize>)
        requires
            old(self).wf(),
        ensures
            final(self).wf(),
            final(self).source() == old(self).source(),
            old(self).remaining().len() == 0 ==> r is None && final(self).remaining().len() == 0,
            old(self).remaining().len() > 0 ==> r == Some(old(self).remaining()[0]) && final(self).remaining() == old(self).remaining().drop_first(),
    {
        if let Some(node) = self.node {
            proof {
                lemma_forest_node(
                    self.dominators.ranks(),
                    self.dominators.idoms(),
                    self.dominators.root(),
                    node as int,
                );
            }
            let dom = self.dominators.immediate_dominator(node);
            if dom == node {
                self.node = None;
            } else {
                self.node = Some(dom);
            }
            proof {
                let c = old(self).remaining();
                if dom == node {
                    assert(c =~= seq![node]);
                    assert(c.drop_first() =~= Seq::<usize>::empty());
                } else {
                    assert(c.drop_first() =~= self.dominators.chain_of(dom as int));
                }
            }
            return Some(node);
        } else {
            return None;
        }
    }
}

/// The outline of the tree below `node`: the node with its depth, then the
/// outlines of its children in their order, each one level deeper; cut
/// off `fuel` levels down.
pub open spec fn tree_outline(kids: Seq<Seq<usize>>, node: int, depth: int, fuel: nat) -> Seq<(usize, usize)>
    decreases fuel, 0int,
{
    if fuel == 0 || !(0 <= node < kids.len()) {
        Seq::empty()
    } else {
        seq![(depth as usize, node as usize)] + list_outline(
            kids,
            kids[node],
            kids[node].len() as int,
            depth + 1,
            (fuel - 1) as nat,
        )
    }
}

/// The outlines of the first `upto` nodes of `list`, one after the other.
pub open spec fn list_outline(kids: Seq<Seq<usize>>, list: Seq<usize>, upto: int, depth: int, fuel: nat) -> Seq<
    (usize, usize),
>
    decreases fuel, upto + 1,
{
    if upto <= 0 || upto > list.len() {
        Seq::empty()
    } else {
        list_outline(kids, list, upto - 1, depth, fuel) + tree_outline(kids, list[upto - 1] as int, depth, fuel)
    }
}

/// The tree of immediate dominators.
pub struct DominatorTree<G: Graph> {
    root: usize,
    children: NodeVec<G, Vec<usize>>,
}

impl<G: Graph> DominatorTree<G> {
    pub closed spec fn root_node(&self) -> int {
        self.root as int
    }

    /// For every node, the nodes that it dominates immediately.
    pub closed spec fn kids(&self) -> Seq<Vec<usize>> {
        self.children.vec@
    }

    pub fn root(&self) -> (r: usize)
        ensures
            r == self.root_node(),
    {
        self.root
    }

    pub fn children(&self, node: usize) -> (r: &Vec<usize>)
        requires
            node < self.kids().len(),
        ensures
            *r == self.kids()[node as int],
    {
        &self.children.vec[node]
    }

    /// For every node, the nodes that it dominates immediately, as plain
    /// lists.
    pub open spec fn lists(&self) -> Seq<Seq<usize>> {
        Seq::new(self.kids().len(), |d: int| self.kids()[d]@)
    }

    /// The outline of the tree: every node with its depth, a node before
    /// its children, the children in their order.
    pub fn outline(&self) -> (r: Vec<(usize, usize)>)
        ensures
            r@ == tree_outline(self.lists(), self.root_node(), 0, self.kids().len()),
    {
        let mut out: Vec<(usize, usize)> = Vec::new();
        self.outline_from(self.root, 0, self.children.vec.len(), &mut out);
        out
    }

    fn outline_from(&self, node: usize, depth: usize, fuel: usize, out: &mut Vec<(usize, usize)>)
        requires
            depth + fuel <= usize::MAX,
        ensures
            final(out)@ == old(out)@ + tree_outline(self.lists(), node as int, depth as int, fuel as nat),
        decreases fuel,
    {
        if fuel == 0 || node >= self.children.vec.len() {
            return ;
        }
        out.push((depth, node));
        let list = &self.children.vec[node];
        let ghost lists = self.lists();
        let mut i: usize = 0;
        while i < list.len()
            invariant
                i <= list.len(),
                fuel > 0,
                depth + fuel <= usize::MAX,
                lists == self.lists(),
                node < lists.len(),
                list@ == lists[node as int],
                out@ == old(out)@ + seq![(depth, node)] + list_outline(
                    lists,
                    list@,
                    i as int,
                    depth + 1,
                    (fuel - 1) as nat,
                ),
            decreases list.len() - i,
        {
            self.outline_from(list[i], depth + 1, fuel - 1, out);
            i += 1;
        }
    }
}

} // verus!
