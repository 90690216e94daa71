//! Depth-first orders: post-order from a node, optionally stopping at a
//! barrier node, and its reversal.

use crate::graph::{has_edge, is_walk, Graph};
use vstd::prelude::*;

verus! {

/// Number of `false` entries of `s`.
pub open spec fn count_false(s: Seq<bool>) -> nat
    decreases s.len(),
{
    if s.len() == 0 {
        0
    } else {
        count_false(s.drop_last()) + if s.last() {
            0nat
        } else {
            1nat
        }
    }
}

/// Marking an unmarked place leaves one unmarked place less.
pub proof fn lemma_count_mark(s: Seq<bool>, i: int)
    requires
        0 <= i < s.len(),
        !s[i],
    ensures
        count_false(s.update(i, true)) + 1 == count_false(s),
    decreases s.len(),
{
    let t = s.update(i, true);
    if i == s.len() - 1 {
        assert(t.drop_last() =~= s.drop_last());
    } else {
        lemma_count_mark(s.drop_last(), i);
        assert(t.drop_last() =~= s.drop_last().update(i, true));
    }
}

/// Where marks are only added, no more places are unmarked than before.
pub proof fn lemma_count_mono(a: Seq<bool>, b: Seq<bool>)
    requires
        a.len() == b.len(),
        forall|i: int| 0 <= i < a.len() && a[i] ==> b[i],
    ensures
        count_false(b) <= count_false(a),
    decreases a.len(),
{
    if a.len() > 0 {
        lemma_count_mono(a.drop_last(), b.drop_last());
    }
}

/// A walk of `g` from `from` to `to` that stays inside `allowed`.
pub open spec fn reaches_in<G: Graph>(g: &G, from: int, to: int, allowed: Set<int>) -> bool {
    exists|walk: Seq<int>|
        is_walk(g, walk) && walk[0] == from && walk.last() == to && forall|i: int|
            0 <= i < walk.len() ==> allowed.contains(#[trigger] walk[i])
}

/// No node of `walk` is the barrier.
pub open spec fn walk_avoids(walk: Seq<int>, barrier: Option<usize>) -> bool {
    match barrier {
        None => true,
        Some(e) => forall|i: int| 0 <= i < walk.len() ==> #[trigger] walk[i] != e,
    }
}

/// A walk of `g` from `from` to `to` that never touches the barrier.
pub open spec fn reaches_avoiding<G: Graph>(g: &G, from: int, to: int, barrier: Option<usize>) -> bool {
    exists|walk: Seq<int>|
        is_walk(g, walk) && walk[0] == from && walk.last() == to && walk_avoids(walk, barrier)
}

/// The nodes of `s`, as a set.
pub open spec fn node_set(s: Seq<usize>) -> Set<int> {
    Set::new(|x: int| exists|i: int| 0 <= i < s.len() && s[i] == x)
}

/// Every element of `done` is a node, is marked, occurs once, and has all
/// its successors marked.
pub open spec fn walk_inv<G: Graph>(g: &G, done: Seq<usize>, marks: Seq<bool>) -> bool {
    &&& marks.len() == g.node_count()
    &&& forall|i: int, j: int| 0 <= i < j < done.len() ==> done[i] != done[j]
    &&& forall|i: int| 0 <= i < done.len() ==> #[trigger] done[i] < g.node_count() && marks[done[i] as int]
    &&& forall|i: int, k: int|
        0 <= i < done.len() && 0 <= k < g.succs(done[i] as int).len() ==> marks[#[trigger] g.succs(
            done[i] as int,
        )[k] as int]
}

/// Every element of `order` from `from` on, but the last, has an edge from
/// a later element.
pub open spec fn found_from_later<G: Graph>(g: &G, order: Seq<usize>, from: int) -> bool {
    forall|i: int|
        from <= i < order.len() - 1 ==> exists|j: int|
            i < j < order.len() && has_edge(g, order[j] as int, #[trigger] order[i] as int)
}

proof fn lemma_reach_step<G: Graph>(g: &G, a: int, b: int, to: int, small: Set<int>, big: Set<int>)
    requires
        has_edge(g, a, b),
        reaches_in(g, b, to, small),
        big.contains(a),
        forall|x: int| small.contains(x) ==> big.contains(x),
    ensures
        reaches_in(g, a, to, big),
{
    let w = choose|walk: Seq<int>|
        is_walk(g, walk) && walk[0] == b && walk.last() == to && forall|i: int|
            0 <= i < walk.len() ==> small.contains(#[trigger] walk[i]);
    let v = seq![a] + w;
    assert forall|i: int| 0 <= i < v.len() - 1 implies has_edge(g, #[trigger] v[i], v[i + 1]) by {
        if i > 0 {
            assert(v[i] == w[i - 1]);
            assert(v[i + 1] == w[i - 1 + 1]);
        }
    }
    assert forall|i: int| 0 <= i < v.len() implies big.contains(#[trigger] v[i]) by {
        if i > 0 {
            assert(v[i] == w[i - 1]);
        }
    }
    assert(is_walk(g, v) && v[0] == a && v.last() == to);
}

proof fn lemma_reach_self<G: Graph>(g: &G, a: int, allowed: Set<int>)
    requires
        0 <= a < g.node_count(),
        allowed.contains(a),
    ensures
        reaches_in(g, a, a, allowed),
{
    let v = seq![a];
    assert(is_walk(g, v) && v[0] == a && v.last() == a);
}

/// The marks `marks`, and a mark on every node of `nodes`.
pub open spec fn marked_with(marks: Seq<bool>, nodes: Seq<usize>) -> Seq<bool> {
    Seq::new(marks.len(), |x: int| marks[x] || node_set(nodes).contains(x))
}

/// What the depth-first walk from `node` lists when the nodes of `marks`
/// are marked: nothing where `node` is marked; else what the walks from its
/// successors list, taken in their order with what was listed before
/// marked, and then `node`. `fuel` bounds the depth of the walk.
pub open spec fn walk_order<G: Graph>(g: &G, node: int, marks: Seq<bool>, fuel: nat) -> Seq<usize>
    decreases fuel, 0int,
{
    if fuel == 0 || !(0 <= node < marks.len()) || marks[node] {
        Seq::empty()
    } else {
        walk_list(
            g,
            g.succs(node),
            g.succs(node).len() as int,
            marks.update(node, true),
            (fuel - 1) as nat,
        ).push(node as usize)
    }
}

/// What the walks from the first `upto` nodes of `list` list, one after
/// the other.
pub open spec fn walk_list<G: Graph>(g: &G, list: Seq<usize>, upto: int, marks: Seq<bool>, fuel: nat) -> Seq<usize>
    decreases fuel, upto + 1,
{
    if upto <= 0 || upto > list.len() {
        Seq::empty()
    } else {
        let done = walk_list(g, list, upto - 1, marks, fuel);
        done + walk_order(g, list[upto - 1] as int, marked_with(marks, done), fuel)
    }
}

/// The depth-first post-order from `start` in which the successors of
/// every node are taken in the order of its list, and the barrier is never
/// entered.
pub open spec fn dfs_post_order<G: Graph>(g: &G, start: int, barrier: Option<usize>) -> Seq<usize> {
    walk_order(g, start, Seq::new(g.node_count(), |x: int| barrier == Some(x as usize)), g.node_count())
}

/// No more places are unmarked than there are places.
pub proof fn lemma_count_bound(s: Seq<bool>)
    ensures
        count_false(s) <= s.len(),
    decreases s.len(),
{
    if s.len() > 0 {
        lemma_count_bound(s.drop_last());
    }
}

/// Visits `node` and what can be reached from it through unmarked nodes,
/// appending each node to `result` when all its successors are done.
fn post_order_walk<G: Graph>(
    graph: &G,
    node: usize,
    result: &mut Vec<usize>,
    visited: &mut Vec<bool>,
    Ghost(fuel): Ghost<nat>,
)
    requires
        graph.wf(),
        node < graph.node_count(),
        walk_inv(graph, old(result)@, old(visited)@),
        count_false(old(visited)@) <= fuel,
    ensures
        final(result)@ == old(result)@ + walk_order(graph, node as int, old(visited)@, fuel),
        walk_inv(graph, final(result)@, final(visited)@),
        final(result)@.len() >= old(result)@.len(),
        final(result)@.subrange(0, old(result)@.len() as int) == old(result)@,
        final(visited)[node as int],
        forall|x: int|
            0 <= x < graph.node_count() ==> (#[trigger] final(visited)[x] == (old(visited)[x]
                || node_set(final(result)@.subrange(old(result)@.len() as int, final(result)@.len() as int)).contains(x))),
        old(visited)[node as int] ==> final(result)@ == old(result)@,
        !old(visited)[node as int] ==> final(result)@.len() > old(result)@.len() && final(result)@.last() == node,
        found_from_later(graph, final(result)@, old(result)@.len() as int),
        forall|i: int|
            old(result)@.len() <= i < final(result)@.len() ==> !old(visited)[#[trigger] final(result)@[i] as int],
        forall|i: int|
            old(result)@.len() <= i < final(result)@.len() ==> reaches_in(
                graph,
                node as int,
                #[trigger] final(result)@[i] as int,
                node_set(final(result)@.subrange(old(result)@.len() as int, final(result)@.len() as int)),
            ),
    decreases count_false(old(visited)@),
{
    if visited[node] {
        proof {
            assert(final(result)@.subrange(0, old(result)@.len() as int) =~= old(result)@);
            assert(result@ =~= old(result)@ + walk_order(graph, node as int, old(visited)@, fuel));
        }
        return ;
    }
    let ghost base = result@.len() as int;
    proof {
        graph.lemma_edges();
        lemma_count_mark(visited@, node as int);
    }
    visited.set(node, true);
    let ghost marked = visited@;
    proof {
        assert(marked.len() == graph.node_count());
        assert forall|i: int| 0 <= i < result@.len() implies #[trigger] result@[i]
            < graph.node_count() && visited[result@[i] as int] by {
            assert(old(visited)[result@[i] as int]);
        }
        assert forall|i: int, q: int|
            0 <= i < result@.len() && 0 <= q < graph.succs(result@[i] as int).len() implies visited[#[trigger] graph.succs(
            result@[i] as int,
        )[q] as int] by {
            assert(old(visited)[graph.succs(result@[i] as int)[q] as int]);
        }
        assert(result@.subrange(0, base) =~= old(result)@);
        assert(result@.subrange(base, result@.len() as int) =~= Seq::<usize>::empty());
        assert(fuel > 0);
    }
    let ghost rest = (fuel - 1) as nat;
    let successors = graph.successors(node);
    let mut k: usize = 0;
    while k < successors.len()
        invariant
            graph.wf(),
            node < graph.node_count(),
            successors@ == graph.succs(node as int),
            forall|i: int| 0 <= i < successors.len() ==> successors[i] < graph.node_count(),
            k <= successors.len(),
            base == old(result)@.len(),
            old(visited)@.len() == graph.node_count(),
            marked.len() == graph.node_count(),
            marked == old(visited)@.update(node as int, true),
            !old(visited)[node as int],
            count_false(marked) < count_false(old(visited)@),
            count_false(old(visited)@) <= fuel,
            rest == fuel - 1,
            result@.subrange(base, result@.len() as int) == walk_list(graph, successors@, k as int, marked, rest),
            walk_inv(graph, result@, visited@),
            result@.len() >= base,
            result@.subrange(0, base) == old(result)@,
            visited[node as int],
            forall|x: int|
                0 <= x < graph.node_count() ==> (#[trigger] visited[x] == (marked[x] || node_set(
                    result@.subrange(base, result@.len() as int),
                ).contains(x))),
            forall|i: int| base <= i < result@.len() ==> !marked[#[trigger] result@[i] as int],
            forall|i: int| 0 <= i < k ==> visited[#[trigger] successors[i] as int],
            forall|i: int|
                base <= i < result@.len() ==> exists|j: int|
                    i < j < result@.len() && has_edge(graph, result@[j] as int, #[trigger] result@[i] as int)
                    || has_edge(graph, node as int, result@[i] as int),
            forall|i: int|
                base <= i < result@.len() ==> reaches_in(
                    graph,
                    node as int,
                    #[trigger] result@[i] as int,
                    node_set(result@.subrange(base, result@.len() as int)).insert(node as int),
                ),
        decreases successors.len() - k,
    {
        let successor = successors[k];
        let ghost before = result@;
        let ghost marks_before = visited@;
        proof {
            lemma_count_mono(marked, visited@);
            assert(successors@.contains(successor));
            assert(has_edge(graph, node as int, successor as int));
        }
        post_order_walk(graph, successor, result, visited, Ghost(rest));
        proof {
            let done = before.subrange(base, before.len() as int);
            assert(marks_before =~= marked_with(marked, done));
            assert(result@.subrange(base, result@.len() as int) =~= done + walk_order(
                graph,
                successor as int,
                marks_before,
                rest,
            ));
            let delta = result@.subrange(before.len() as int, result@.len() as int);
            let all_new = result@.subrange(base, result@.len() as int);
            let old_new = before.subrange(base, before.len() as int);
            assert(forall|i: int| 0 <= i < before.len() ==> result@[i] == result@.subrange(0, before.len() as int)[i]);
            assert(result@.subrange(0, base) =~= old(result)@);
            assert forall|x: int| node_set(all_new).contains(x) <==> (node_set(old_new).contains(x)
                || node_set(delta).contains(x)) by {
                if node_set(old_new).contains(x) {
                    let i = choose|i: int| 0 <= i < old_new.len() && old_new[i] == x;
                    assert(all_new[i] == x);
                }
                if node_set(delta).contains(x) {
                    let i = choose|i: int| 0 <= i < delta.len() && delta[i] == x;
                    assert(all_new[i + before.len() - base] == x);
                }
                if node_set(all_new).contains(x) {
                    let i = choose|i: int| 0 <= i < all_new.len() && all_new[i] == x;
                    if i < before.len() - base {
                        assert(old_new[i] == x);
                    } else {
                        assert(delta[i - (before.len() - base)] == x);
                    }
                }
            }
            assert forall|i: int| base <= i < result@.len() implies !marked[#[trigger] result@[i] as int] by {
                if i < before.len() {
                    assert(result@[i] == before[i]);
                } else {
                    assert(!marks_before[result@[i] as int]);
                }
            }
            assert forall|i: int| 0 <= i < k + 1 implies visited[#[trigger] successors[i] as int] by {
                if i < k {
                    assert(marks_before[successors[i] as int]);
                }
            }
            assert forall|i: int| base <= i < result@.len() implies exists|j: int|
                i < j < result@.len() && has_edge(graph, result@[j] as int, #[trigger] result@[i] as int)
                || has_edge(graph, node as int, result@[i] as int) by {
                if i < before.len() {
                    assert(result@[i] == before[i]);
                    if !has_edge(graph, node as int, before[i] as int) {
                        let j = choose|j: int|
                            i < j < before.len() && has_edge(graph, before[j] as int, before[i] as int);
                        assert(result@[j] == before[j]);
                    }
                } else if i == result@.len() - 1 {
                    assert(!marks_before[successor as int]);
                } else {
                }
            }
            assert forall|i: int| base <= i < result@.len() implies reaches_in(
                graph,
                node as int,
                #[trigger] result@[i] as int,
                node_set(all_new).insert(node as int),
            ) by {
                if i < before.len() {
                    assert(result@[i] == before[i]);
                    let w = choose|walk: Seq<int>|
                        is_walk(graph, walk) && walk[0] == node as int && walk.last() == before[i] as int
                            && forall|q: int|
                            0 <= q < walk.len() ==> node_set(old_new).insert(node as int).contains(
                                #[trigger] walk[q],
                            );
                    assert forall|q: int| 0 <= q < w.len() implies node_set(all_new).insert(
                        node as int,
                    ).contains(#[trigger] w[q]) by {
                        assert(node_set(old_new).insert(node as int).contains(w[q]));
                    }
                } else {
                    lemma_reach_step(
                        graph,
                        node as int,
                        successor as int,
                        result@[i] as int,
                        node_set(delta),
                        node_set(all_new).insert(node as int),
                    );
                }
            }
        }
        k += 1;
    }
    proof {
        let all_new = result@.subrange(base, result@.len() as int);
        assert(node_set(all_new).contains(node as int) ==> false) by {
            if node_set(all_new).contains(node as int) {
                let i = choose|i: int| 0 <= i < all_new.len() && all_new[i] == node as int;
                assert(result@[i + base] == node);
                assert(marked[node as int]);
            }
        }
    }
    let ghost before = result@;
    result.push(node);
    proof {
        assert(successors@.len() == graph.succs(node as int).len());
        assert(result@ =~= old(result)@ + before.subrange(base, before.len() as int).push(node));
        let r = result@;
        let delta = r.subrange(base, r.len() as int);
        let old_new = before.subrange(base, before.len() as int);
        assert(r.subrange(0, base) =~= old(result)@);
        assert forall|x: int| node_set(delta).contains(x) <==> (node_set(old_new).contains(x) || x
            == node) by {
            if node_set(old_new).contains(x) {
                let i = choose|i: int| 0 <= i < old_new.len() && old_new[i] == x;
                assert(delta[i] == x);
            }
            if x == node {
                assert(delta[delta.len() - 1] == x);
            }
            if node_set(delta).contains(x) {
                let i = choose|i: int| 0 <= i < delta.len() && delta[i] == x;
                if i < old_new.len() {
                    assert(old_new[i] == x);
                }
            }
        }
        assert forall|i: int, j: int| 0 <= i < j < r.len() implies r[i] != r[j] by {
            if j == r.len() - 1 {
                if i < base {
                    assert(r[i] == old(result)@[i]);
                    assert(old(visited)[old(result)@[i] as int]);
                } else {
                    assert(!marked[before[i] as int]);
                }
            } else {
                assert(r[i] == before[i] && r[j] == before[j]);
            }
        }
        assert forall|i: int| 0 <= i < r.len() implies #[trigger] r[i] < graph.node_count()
            && visited[r[i] as int] by {
            if i < r.len() - 1 {
                assert(r[i] == before[i]);
            }
        }
        assert forall|i: int, q: int|
            0 <= i < r.len() && 0 <= q < graph.succs(r[i] as int).len() implies visited[#[trigger] graph.succs(
            r[i] as int,
        )[q] as int] by {
            if i < r.len() - 1 {
                assert(r[i] == before[i]);
            } else {
                assert(visited[successors[q] as int]);
            }
        }
        assert forall|i: int| base <= i < r.len() - 1 implies exists|j: int|
            i < j < r.len() && has_edge(graph, r[j] as int, #[trigger] r[i] as int) by {
            assert(r[i] == before[i]);
            if has_edge(graph, node as int, before[i] as int) {
                assert(r[r.len() - 1] == node);
            } else {
                let j = choose|j: int|
                    i < j < before.len() && has_edge(graph, before[j] as int, before[i] as int);
                assert(r[j] == before[j]);
            }
        }
        assert forall|i: int| base <= i < r.len() implies !old(visited)[#[trigger] r[i] as int] by {
            if i < r.len() - 1 {
                assert(r[i] == before[i]);
                assert(!marked[before[i] as int]);
            }
        }
        assert forall|i: int| base <= i < r.len() implies reaches_in(
            graph,
            node as int,
            #[trigger] r[i] as int,
            node_set(delta),
        ) by {
            if i < r.len() - 1 {
                assert(r[i] == before[i]);
                let w = choose|walk: Seq<int>|
                    is_walk(graph, walk) && walk[0] == node as int && walk.last() == before[i] as int
                        && forall|q: int|
                        0 <= q < walk.len() ==> node_set(old_new).insert(node as int).contains(
                            #[trigger] walk[q],
                        );
                assert forall|q: int| 0 <= q < w.len() implies node_set(delta).contains(
                    #[trigger] w[q],
                ) by {
                    assert(node_set(old_new).insert(node as int).contains(w[q]));
                }
            } else {
                lemma_reach_self(graph, node as int, node_set(delta));
            }
        }
    }
}

/// `order` is a depth-first post-order of what `start` reaches without
/// touching the barrier: it lists exactly those nodes, each once; every node
/// but the last was found from a node listed after it; the last is `start`.
pub open spec fn is_post_order<G: Graph>(
    g: &G,
    start: int,
    barrier: Option<usize>,
    order: Seq<usize>,
) -> bool {
    &&& forall|i: int, j: int| 0 <= i < j < order.len() ==> order[i] != order[j]
    &&& forall|i: int| 0 <= i < order.len() ==> #[trigger] order[i] < g.node_count()
    &&& forall|x: int|
        0 <= x < g.node_count() ==> (node_set(order).contains(x) <==> reaches_avoiding(
            g,
            start,
            x,
            barrier,
        ))
    &&& found_from_later(g, order, 0)
    &&& order.len() > 0 ==> order.last() == start
}

/// A walk from a listed node that avoids the barrier stays among the listed
/// nodes, when each listed node has all its successors marked and only the
/// barrier and the listed nodes are marked.
proof fn lemma_walk_stays<G: Graph>(
    g: &G,
    order: Seq<usize>,
    marks: Seq<bool>,
    barrier: Option<usize>,
    walk: Seq<int>,
    upto: int,
)
    requires
        g.wf(),
        walk_inv(g, order, marks),
        forall|x: int|
            0 <= x < g.node_count() ==> (#[trigger] marks[x] == (barrier == Some(x as usize)
                || node_set(order).contains(x))),
        is_walk(g, walk),
        walk_avoids(walk, barrier),
        node_set(order).contains(walk[0]),
        0 <= upto < walk.len(),
    ensures
        node_set(order).contains(walk[upto]),
    decreases upto,
{
    if upto > 0 {
        lemma_walk_stays(g, order, marks, barrier, walk, upto - 1);
        let a = walk[upto - 1];
        let b = walk[upto];
        assert(has_edge(g, a, walk[upto - 1 + 1]));
        let i = choose|i: int| 0 <= i < order.len() && order[i] == a;
        let k = choose|k: int| 0 <= k < g.succs(a).len() && g.succs(a)[k] == b as usize;
        g.lemma_edges();
        assert(0 <= b < g.node_count());
        assert(order[i] as int == a);
        assert(marks[g.succs(order[i] as int)[k] as int]);
        assert((b as usize) as int == b);
        assert(marks[b]);
        if let Some(e) = barrier {
            assert(walk[upto] != e);
        }
    }
}

/// The nodes that `start_node` reaches without touching `end_node`, in
/// depth-first post-order. With `end_node` equal to `start_node` the order is
/// empty.
pub fn post_order_from_to<G: Graph>(graph: &G, start_node: usize, end_node: Option<usize>) -> (result:
    Vec<usize>)
    requires
        graph.wf(),
        start_node < graph.node_count(),
        end_node matches Some(e) ==> e < graph.node_count(),
    ensures
        result@ == dfs_post_order(graph, start_node as int, end_node),
        is_post_order(graph, start_node as int, end_node, result@),
{
    let num_nodes = graph.num_nodes();
    let mut visited: Vec<bool> = Vec::new();
    let mut i: usize = 0;
    while i < num_nodes
        invariant
            i <= num_nodes,
            visited.len() == i,
            forall|j: int| 0 <= j < i ==> !visited[j],
        decreases num_nodes - i,
    {
        visited.push(false);
        i += 1;
    }
    let mut result: Vec<usize> = Vec::new();
    if let Some(end_node) = end_node {
        visited.set(end_node, true);
    }
    let ghost marks0 = visited@;
    proof {
        lemma_count_bound(marks0);
        assert(marks0 =~= Seq::new(graph.node_count(), |x: int| end_node == Some(x as usize)));
    }
    post_order_walk(graph, start_node, &mut result, &mut visited, Ghost(graph.node_count()));
    proof {
        assert(result@ =~= dfs_post_order(graph, start_node as int, end_node));
        let order = result@;
        assert(order.subrange(0, order.len() as int) =~= order);
        assert forall|x: int| 0 <= x < graph.node_count() implies (#[trigger] visited[x] == (
        end_node == Some(x as usize) || node_set(order).contains(x))) by {
            assert(marks0[x] == (end_node == Some(x as usize)));
        }
        assert forall|x: int| 0 <= x < graph.node_count() implies (node_set(order).contains(x)
            <==> reaches_avoiding(graph, start_node as int, x, end_node)) by {
            if node_set(order).contains(x) {
                let i = choose|i: int| 0 <= i < order.len() && order[i] == x;
                let w = choose|walk: Seq<int>|
                    is_walk(graph, walk) && walk[0] == start_node as int && walk.last() == order[i] as int
                        && forall|q: int|
                        0 <= q < walk.len() ==> node_set(order).contains(#[trigger] walk[q]);
                if let Some(e) = end_node {
                    assert forall|q: int| 0 <= q < w.len() implies #[trigger] w[q] != e by {
                        assert(node_set(order).contains(w[q]));
                        let j = choose|j: int| 0 <= j < order.len() && order[j] == w[q];
                        assert(!marks0[order[j] as int]);
                    }
                }
                assert(walk_avoids(w, end_node));
            }
            if reaches_avoiding(graph, start_node as int, x, end_node) {
                let w = choose|walk: Seq<int>|
                    is_walk(graph, walk) && walk[0] == start_node as int && walk.last() == x
                        && walk_avoids(walk, end_node);
                assert(w[0] != end_node->Some_0 || end_node is None);
                assert(!marks0[start_node as int]);
                assert(order.last() == start_node);
                assert(node_set(order).contains(w[0]));
                lemma_walk_stays(graph, order, visited@, end_node, w, w.len() - 1);
            }
        }
    }
    result
}

/// The nodes that `start_node` reaches, in depth-first post-order.
pub fn post_order_from<G: Graph>(graph: &G, start_node: usize) -> (result: Vec<usize>)
    requires
        graph.wf(),
        start_node < graph.node_count(),
    ensures
        result@ == dfs_post_order(graph, start_node as int, None),
        is_post_order(graph, start_node as int, None, result@),
{
    post_order_from_to(graph, start_node, None)
}

/// Same as `post_order_from`.
pub fn post_order<G: Graph>(graph: &G, start_node: usize) -> (result: Vec<usize>)
    requires
        graph.wf(),
        start_node < graph.node_count(),
    ensures
        result@ == dfs_post_order(graph, start_node as int, None),
        is_post_order(graph, start_node as int, None, result@),
{
    post_order_from(graph, start_node)
}

/// The nodes that `start_node` reaches, in reverse depth-first post-order:
/// `start_node` first.
pub fn reverse_post_order<G: Graph>(graph: &G, start_node: usize) -> (result: Vec<usize>)
    requires
        graph.wf(),
        start_node < graph.node_count(),
    ensures
        result@ == dfs_post_order(graph, start_node as int, None).reverse(),
        is_post_order(graph, start_node as int, None, result@.reverse()),
        result@.len() > 0,
        result@[0] == start_node,
{
    let order = post_order_from(graph, start_node);
    let mut vec: Vec<usize> = Vec::new();
    let mut i: usize = order.len();
    while i > 0
        invariant
            i <= order.len(),
            vec.len() == order.len() - i,
            forall|j: int| 0 <= j < vec.len() ==> vec[j] == order[order.len() - 1 - j],
        decreases i,
    {
        i -= 1;
        vec.push(order[i]);
    }
    proof {
        assert(vec@.reverse() =~= order@);
        assert(vec@ =~= order@.reverse());
        let w = seq![start_node as int];
        assert(is_walk(graph, w) && w[0] == start_node as int && w.last() == start_node as int);
        assert(reaches_avoiding(graph, start_node as int, start_node as int, None));
        assert(node_set(order@).contains(start_node as int));
    }
    vec
}

} // verus!
