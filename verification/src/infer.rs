//! Region inference: region variables whose values are sets of points, and
//! outlives constraints that make a variable hold what another one holds
//! along the control flow that leaves a point.

use crate::env::{Environment, Point};

use crate::func_graph::{last_region, lemma_last_region_bound, BasicBlockIndex};
use crate::graph::Graph;
use crate::region::Region;
use crate::repr::RegionName;
use vstd::prelude::*;

verus! {

/// The points of block `block` with an action index below `upto`.
pub open spec fn block_points(block: usize, upto: int) -> Seq<Point>
    decreases upto,
{
    if upto <= 0 {
        Seq::empty()
    } else {
        block_points(block, upto - 1).push(
            Point { block: BasicBlockIndex { index: block }, action: (upto - 1) as usize },
        )
    }
}

/// The points of the first `upto` blocks.
pub open spec fn graph_points(env: &Environment, upto: int) -> Seq<Point>
    decreases upto,
{
    if upto <= 0 {
        Seq::empty()
    } else {
        graph_points(env, upto - 1) + block_points(
            (upto - 1) as usize,
            env.graph.actions_of(upto - 1).len() as int + 1,
        )
    }
}

/// All the points of the graph.
pub open spec fn universe(env: &Environment) -> Set<Point> {
    graph_points(env, env.graph.node_count() as int).to_set()
}

proof fn lemma_block_points(block: usize, upto: int, action: int)
    requires
        0 <= action < upto,
    ensures
        block_points(block, upto).contains(
            Point { block: BasicBlockIndex { index: block }, action: action as usize },
        ),
    decreases upto,
{
    let s = block_points(block, upto);
    if action == upto - 1 {
        assert(s[s.len() - 1] == Point {
            block: BasicBlockIndex { index: block },
            action: action as usize,
        });
    } else {
        lemma_block_points(block, upto - 1, action);
        let t = block_points(block, upto - 1);
        let p = Point { block: BasicBlockIndex { index: block }, action: action as usize };
        let i = choose|i: int| 0 <= i < t.len() && t[i] == p;
        assert(s[i] == p);
    }
}

proof fn lemma_graph_points(env: &Environment, upto: int, p: Point)
    requires
        env.is_point(p),
        p.block.index < upto <= env.graph.node_count() <= usize::MAX,
    ensures
        graph_points(env, upto).contains(p),
    decreases upto,
{
    let all = graph_points(env, upto);
    let before = graph_points(env, upto - 1);
    let row = block_points((upto - 1) as usize, env.graph.actions_of(upto - 1).len() as int + 1);
    if p.block.index == upto - 1 {
        lemma_block_points(
            (upto - 1) as usize,
            env.graph.actions_of(upto - 1).len() as int + 1,
            p.action as int,
        );
        let i = choose|i: int| 0 <= i < row.len() && row[i] == p;
        assert(all[before.len() + i] == p);
    } else {
        lemma_graph_points(env, upto - 1, p);
        let i = choose|i: int| 0 <= i < before.len() && before[i] == p;
        assert(all[i] == p);
    }
}

/// The universe is finite and holds every point of the graph.
pub proof fn lemma_universe(env: &Environment)
    requires
        env.wf(),
    ensures
        universe(env).finite(),
        forall|p: Point| env.is_point(p) ==> #[trigger] universe(env).contains(p),
{
    vstd::seq_lib::seq_to_set_is_finite(graph_points(env, env.graph.node_count() as int));
    env.graph.lemma_edges();
    assert forall|p: Point| env.is_point(p) implies #[trigger] universe(env).contains(p) by {
        lemma_graph_points(env, env.graph.node_count() as int, p);
    }
}

/// `walk` follows the control flow from point to point.
pub open spec fn is_point_walk(env: &Environment, walk: Seq<Point>) -> bool {
    &&& walk.len() > 0
    &&& forall|i: int| 0 <= i < walk.len() ==> env.is_point(#[trigger] walk[i])
    &&& forall|i: int|
        0 <= i < walk.len() - 1 ==> env.next_points(#[trigger] walk[i]).contains(walk[i + 1])
}

/// Control flows from `p` to `q` through points of `within` alone, both
/// ends included.
pub open spec fn flows_to(env: &Environment, p: Point, within: Set<Point>, q: Point) -> bool {
    exists|walk: Seq<Point>| #[trigger]
        is_point_walk(env, walk) && walk[0] == p && walk.last() == q && forall|i: int|
            0 <= i < walk.len() ==> within.contains(#[trigger] walk[i])
}

/// No point follows `p`.
pub open spec fn is_sink(env: &Environment, p: Point) -> bool {
    env.next_points(p).len() == 0
}

/// The first point of the block that stands for the end of the region
/// named by declaration `j`.
pub open spec fn end_point_of(env: &Environment, j: int) -> Point {
    let regions = env.graph.func().regions@;
    Point {
        block: BasicBlockIndex {
            index: (env.graph.code_count() + last_region(
                regions,
                regions[j].name,
                regions.len() as int,
            )->Some_0) as usize,
        },
        action: 0,
    }
}

/// The first points of the blocks that stand for the ends of the first
/// `upto` free regions.
pub open spec fn region_ends(env: &Environment, upto: int) -> Set<Point> {
    Set::new(|q: Point| exists|j: int| 0 <= j < upto && q == #[trigger] end_point_of(env, j))
}

/// Control reaches the end of the function from `p` through points of
/// `within` alone.
pub open spec fn sinks(env: &Environment, p: Point, within: Set<Point>) -> bool {
    exists|s: Point| #[trigger] flows_to(env, p, within, s) && is_sink(env, s)
}

/// What a constraint at `p` carries over from `within`: the points that
/// control flows to from `p` through `within`, and the ends of all free
/// regions where that flow reaches the end of the function.
pub open spec fn carried(env: &Environment, p: Point, within: Set<Point>) -> Set<Point> {
    Set::new(
        |q: Point|
            flows_to(env, p, within, q) || (sinks(env, p, within) && region_ends(
                env,
                env.graph.func().regions@.len() as int,
            ).contains(q)),
    )
}

proof fn lemma_flow_start(env: &Environment, p: Point, within: Set<Point>)
    requires
        env.is_point(p),
        within.contains(p),
    ensures
        flows_to(env, p, within, p),
{
    let w = seq![p];
    assert(is_point_walk(env, w) && w[0] == p && w.last() == p);
}

proof fn lemma_flow_step(env: &Environment, p: Point, within: Set<Point>, v: Point, q: Point)
    requires
        flows_to(env, p, within, v),
        env.next_points(v).contains(q),
        env.is_point(q),
        within.contains(q),
    ensures
        flows_to(env, p, within, q),
{
    let w = choose|walk: Seq<Point>| #[trigger]
        is_point_walk(env, walk) && walk[0] == p && walk.last() == v && forall|i: int|
            0 <= i < walk.len() ==> within.contains(#[trigger] walk[i]);
    let u = w.push(q);
    assert forall|i: int| 0 <= i < u.len() - 1 implies env.next_points(#[trigger] u[i]).contains(
        u[i + 1],
    ) by {
        if i < w.len() - 1 {
            assert(env.next_points(w[i]).contains(w[i + 1]));
        }
    }
    assert forall|i: int| 0 <= i < u.len() implies within.contains(#[trigger] u[i]) by {
        if i < w.len() {
            assert(within.contains(w[i]));
        }
    }
    assert forall|i: int| 0 <= i < u.len() implies env.is_point(#[trigger] u[i]) by {
        if i < w.len() {
            assert(env.is_point(w[i]));
        }
    }
    assert(is_point_walk(env, u) && u[0] == p && u.last() == q);
}

/// Control flows no further through a smaller set.
pub proof fn lemma_flow_mono(env: &Environment, p: Point, small: Set<Point>, big: Set<Point>, q: Point)
    requires
        small.subset_of(big),
        flows_to(env, p, small, q),
    ensures
        flows_to(env, p, big, q),
{
    let w = choose|walk: Seq<Point>| #[trigger]
        is_point_walk(env, walk) && walk[0] == p && walk.last() == q && forall|i: int|
            0 <= i < walk.len() ==> small.contains(#[trigger] walk[i]);
    assert forall|i: int| 0 <= i < w.len() implies big.contains(#[trigger] w[i]) by {
        assert(small.contains(w[i]));
    }
}

/// What is carried from a smaller set is carried from a bigger one.
pub proof fn lemma_carried_mono(env: &Environment, p: Point, small: Set<Point>, big: Set<Point>)
    requires
        small.subset_of(big),
    ensures
        carried(env, p, small).subset_of(carried(env, p, big)),
{
    assert forall|q: Point| carried(env, p, small).contains(q) implies carried(env, p, big).contains(
        q,
    ) by {
        if flows_to(env, p, small, q) {
            lemma_flow_mono(env, p, small, big, q);
        } else {
            let s = choose|s: Point| #[trigger] flows_to(env, p, small, s) && is_sink(env, s);
            lemma_flow_mono(env, p, small, big, s);
        }
    }
}

/// A set that holds the start, where that lies in `within`, and with each
/// of its points what follows it in `within`, holds all that control flows
/// to.
proof fn lemma_flow_closed(
    env: &Environment,
    p: Point,
    within: Set<Point>,
    seen: Set<Point>,
    walk: Seq<Point>,
    upto: int,
)
    requires
        within.contains(p) ==> seen.contains(p),
        forall|v: Point, j: int|
            seen.contains(v) && 0 <= j < env.next_points(v).len() && within.contains(
                #[trigger] env.next_points(v)[j],
            ) ==> seen.contains(env.next_points(v)[j]),
        is_point_walk(env, walk),
        walk[0] == p,
        forall|i: int| 0 <= i < walk.len() ==> within.contains(#[trigger] walk[i]),
        0 <= upto < walk.len(),
    ensures
        seen.contains(walk[upto]),
    decreases upto,
{
    if upto > 0 {
        lemma_flow_closed(env, p, within, seen, walk, upto - 1);
        let v = walk[upto - 1];
        assert(env.next_points(v).contains(walk[upto - 1 + 1]));
        let j = choose|j: int| 0 <= j < env.next_points(v).len() && env.next_points(v)[j] == walk[upto];
        assert(within.contains(walk[upto]));
    } else {
        assert(within.contains(walk[0]));
    }
}

/// The ends of regions are points of the graph.
pub proof fn lemma_end_points(env: &Environment, j: int)
    requires
        env.wf(),
        0 <= j < env.graph.func().regions@.len(),
    ensures
        env.is_point(end_point_of(env, j)),
        last_region(
            env.graph.func().regions@,
            env.graph.func().regions@[j].name,
            env.graph.func().regions@.len() as int,
        ) is Some,
{
    let regions = env.graph.func().regions@;
    lemma_last_region_bound(regions, regions[j].name, regions.len() as int);
    env.graph.lemma_layout();
    env.graph.lemma_edges();
    let k = last_region(regions, regions[j].name, regions.len() as int)->Some_0;
    assert(env.graph.end_actions()[k]@.len() == 1);
}

/// What is carried are points of the graph.
pub proof fn lemma_carried_points(env: &Environment, p: Point, within: Set<Point>)
    requires
        env.wf(),
    ensures
        forall|q: Point| carried(env, p, within).contains(q) ==> env.is_point(q),
{
    assert forall|q: Point| carried(env, p, within).contains(q) implies env.is_point(q) by {
        if flows_to(env, p, within, q) {
            let w = choose|walk: Seq<Point>| #[trigger]
                is_point_walk(env, walk) && walk[0] == p && walk.last() == q && forall|i: int|
                    0 <= i < walk.len() ==> within.contains(#[trigger] walk[i]);
            assert(env.is_point(w[w.len() - 1]));
        } else {
            let j = choose|j: int|
                0 <= j < env.graph.func().regions@.len() && q == #[trigger] end_point_of(env, j);
            lemma_end_points(env, j);
        }
    }
}

/// Copies to `to_region` what a constraint at `start_point` carries over
/// from `from_region`; tells whether a point was added.
fn copy(env: &Environment, from_region: &Region, to_region: &mut Region, start_point: Point) -> (changed:
    bool)
    requires
        env.wf(),
        env.is_point(start_point),
    ensures
        final(to_region).set() == old(to_region).set().union(
            carried(env, start_point, from_region.set()),
        ),
        changed == !carried(env, start_point, from_region.set()).subset_of(old(to_region).set()),
{
    let mut changed = false;
    let mut stack: Vec<Point> = Vec::new();
    let mut visited = Region::new();
    stack.push(start_point);
    let ghost within = from_region.set();
    let ghost target = old(to_region).set();
    let ghost all = universe(env);
    let ghost ends = region_ends(env, env.graph.func().regions@.len() as int);
    let ghost mut sunk = false;
    proof {
        lemma_universe(env);
        assert(stack@[0] == start_point);
        assert(to_region.set() =~= target.union(visited.set()));
    }
    while stack.len() > 0
        invariant
            env.wf(),
            env.is_point(start_point),
            within == from_region.set(),
            target == old(to_region).set(),
            all == universe(env),
            all.finite(),
            ends == region_ends(env, env.graph.func().regions@.len() as int),
            forall|p: Point| env.is_point(p) ==> #[trigger] all.contains(p),
            forall|k: int| 0 <= k < stack@.len() ==> env.is_point(#[trigger] stack@[k]),
            forall|k: int|
                0 <= k < stack@.len() ==> (#[trigger] stack@[k] == start_point || exists|v: Point|
                    visited.set().contains(v) && #[trigger] env.next_points(v).contains(stack@[k])),
            forall|v: Point| visited.set().contains(v) ==> flows_to(env, start_point, within, v),
            within.contains(start_point) ==> (visited.set().contains(start_point) || stack@.contains(
                start_point,
            )),
            forall|v: Point, j: int|
                visited.set().contains(v) && 0 <= j < env.next_points(v).len() && within.contains(
                    #[trigger] env.next_points(v)[j],
                ) ==> (visited.set().contains(env.next_points(v)[j]) || stack@.contains(
                    env.next_points(v)[j],
                )),
            sunk == exists|v: Point| visited.set().contains(v) && #[trigger] is_sink(env, v),
            to_region.set() == if sunk {
                target.union(visited.set()).union(ends)
            } else {
                target.union(visited.set())
            },
            changed == !to_region.set().subset_of(target),
        decreases all.difference(visited.set()).len(), stack@.len(),
    {
        let ghost stack_before = stack@;
        let ghost seen = visited.set();
        let ghost held = to_region.set();
        let p = stack.pop().unwrap();
        proof {
            assert(stack_before[stack_before.len() - 1] == p);
            assert forall|q: Point| stack_before.contains(q) && q != p implies stack@.contains(q) by {
                let k = choose|k: int| 0 <= k < stack_before.len() && stack_before[k] == q;
                assert(stack@[k] == q);
            }
            assert forall|k: int| 0 <= k < stack@.len() implies env.is_point(#[trigger] stack@[k]) && (
            stack@[k] == start_point || exists|v: Point|
                visited.set().contains(v) && #[trigger] env.next_points(v).contains(stack@[k])) by {
                assert(stack@[k] == stack_before[k]);
            }
        }
        if from_region.contains(p) {
            let fresh = visited.add_point(p);
            if fresh {
                proof {
                    all.lemma_set_insert_diff_decreases(seen, p);
                    if p == start_point {
                        lemma_flow_start(env, start_point, within);
                    } else {
                        let v = choose|v: Point|
                            seen.contains(v) && #[trigger] env.next_points(v).contains(p);
                        lemma_flow_step(env, start_point, within, v, p);
                    }
                }
                let added = to_region.add_point(p);
                changed = changed || added;
                let successor_points = env.successor_points(p);
                if successor_points.len() == 0 {
                    let regions = env.graph.free_regions();
                    let ghost held2 = to_region.set();
                    let mut j: usize = 0;
                    while j < regions.len()
                        invariant
                            env.wf(),
                            *regions == env.graph.func().regions,
                            j <= regions.len(),
                            target == old(to_region).set(),
                            held2.subset_of(to_region.set()),
                            target.subset_of(to_region.set()),
                            to_region.set() == held2.union(region_ends(env, j as int)),
                            changed == !to_region.set().subset_of(target),
                        decreases regions.len() - j,
                    {
                        proof {
                            lemma_end_points(env, j as int);
                        }
                        let ghost before = to_region.set();
                        match env.graph.skolemized_end(regions[j].name) {
                            None => {},
                            Some(block) => {
                                let skolemized_end_point = Point { block, action: 0 };
                                assert(skolemized_end_point == end_point_of(env, j as int));
                                let added = to_region.add_point(skolemized_end_point);
                                proof {
                                    if added {
                                        assert(to_region.set().contains(skolemized_end_point));
                                        assert(!target.contains(skolemized_end_point));
                                    } else {
                                        assert(to_region.set() =~= before);
                                    }
                                    if !before.subset_of(target) {
                                        let q = choose|q: Point| before.contains(q) && !target.contains(q);
                                        assert(to_region.set().contains(q));
                                    }
                                }
                                changed = changed || added;
                            },
                        }
                        proof {
                            assert forall|q: Point| to_region.set().contains(q) <==> held2.union(
                                region_ends(env, j as int + 1),
                            ).contains(q) by {
                                if region_ends(env, j as int + 1).contains(q) {
                                    let i = choose|i: int|
                                        0 <= i < j + 1 && q == #[trigger] end_point_of(env, i);
                                    if i < j {
                                        assert(region_ends(env, j as int).contains(q));
                                    }
                                }
                                if region_ends(env, j as int).contains(q) {
                                    let i = choose|i: int| 0 <= i < j && q == #[trigger] end_point_of(env, i);
                                    assert(0 <= i < j + 1);
                                }
                                if q == end_point_of(env, j as int) {
                                    assert(region_ends(env, j as int + 1).contains(q));
                                }
                            }
                            assert(to_region.set() =~= held2.union(region_ends(env, j as int + 1)));
                        }
                        j += 1;
                    }
                    proof {
                        assert(is_sink(env, p));
                        sunk = true;
                    }
                } else {
                    let mut i: usize = 0;
                    let ghost base = stack@;
                    while i < successor_points.len()
                        invariant
                            i <= successor_points.len(),
                            stack@ == base + successor_points@.subrange(0, i as int),
                        decreases successor_points.len() - i,
                    {
                        stack.push(successor_points[i]);
                        proof {
                            assert(successor_points@.subrange(0, i as int + 1) =~= successor_points@.subrange(
                                0,
                                i as int,
                            ).push(successor_points@[i as int]));
                            assert(stack@ =~= base + successor_points@.subrange(0, i as int + 1));
                        }
                        i += 1;
                    }
                    proof {
                        assert(successor_points@.subrange(0, successor_points@.len() as int)
                            =~= successor_points@);
                        assert(!is_sink(env, p));
                    }
                }
                proof {
                    let now = visited.set();
                    assert forall|k: int| 0 <= k < stack@.len() implies env.is_point(#[trigger] stack@[k]) && (
                    stack@[k] == start_point || exists|v: Point|
                        now.contains(v) && #[trigger] env.next_points(v).contains(stack@[k])) by {
                        if k < stack_before.len() - 1 {
                            assert(stack@[k] == stack_before[k]);
                            if stack_before[k] != start_point {
                                let v = choose|v: Point|
                                    seen.contains(v) && #[trigger] env.next_points(v).contains(
                                        stack_before[k],
                                    );
                                assert(now.contains(v));
                            }
                        } else {
                            let i = k - (stack_before.len() - 1);
                            assert(stack@[k] == successor_points@[i]);
                            assert(env.next_points(p).contains(stack@[k]));
                            assert(now.contains(p));
                        }
                    }
                    assert forall|q: Point| stack_before.contains(q) && q != p implies stack@.contains(
                        q,
                    ) by {
                        let k = choose|k: int| 0 <= k < stack_before.len() && stack_before[k] == q;
                        assert(stack@[k] == q);
                    }
                    assert forall|v: Point, j: int|
                        now.contains(v) && 0 <= j < env.next_points(v).len() && within.contains(
                            #[trigger] env.next_points(v)[j],
                        ) implies (now.contains(env.next_points(v)[j]) || stack@.contains(
                        env.next_points(v)[j],
                    )) by {
                        let q = env.next_points(v)[j];
                        if v == p {
                            if successor_points@.len() > 0 {
                                assert(stack@[stack_before.len() - 1 + j] == q);
                            }
                        } else {
                            assert(seen.contains(v));
                        }
                    }
                    assert forall|v: Point| now.contains(v) implies flows_to(env, start_point, within, v) by {
                        if v != p {
                            assert(seen.contains(v));
                        }
                    }
                    if exists|v: Point| now.contains(v) && #[trigger] is_sink(env, v) {
                        let v = choose|v: Point| now.contains(v) && #[trigger] is_sink(env, v);
                        if v != p {
                            assert(seen.contains(v));
                        }
                    }
                    assert(to_region.set() =~= if sunk {
                        target.union(now).union(ends)
                    } else {
                        target.union(now)
                    });
                }
            } else {
                proof {
                    assert(visited.set() =~= seen);
                }
            }
        } else {
            proof {
                assert(visited.set() =~= seen);
            }
        }
    }
    proof {
        let seen = visited.set();
        let flow = carried(env, start_point, within);
        assert forall|q: Point| flows_to(env, start_point, within, q) implies seen.contains(q) by {
            let w = choose|walk: Seq<Point>| #[trigger]
                is_point_walk(env, walk) && walk[0] == start_point && walk.last() == q && forall|i: int|
                    0 <= i < walk.len() ==> within.contains(#[trigger] walk[i]);
            assert(within.contains(w[0]));
            assert forall|v: Point, j: int|
                seen.contains(v) && 0 <= j < env.next_points(v).len() && within.contains(
                    #[trigger] env.next_points(v)[j],
                ) implies seen.contains(env.next_points(v)[j]) by {
                assert(!stack@.contains(env.next_points(v)[j]));
            }
            assert(!stack@.contains(start_point));
            lemma_flow_closed(env, start_point, within, seen, w, w.len() - 1);
        }
        assert(sunk == sinks(env, start_point, within)) by {
            if sunk {
                let v = choose|v: Point| seen.contains(v) && #[trigger] is_sink(env, v);
                assert(flows_to(env, start_point, within, v));
            }
            if sinks(env, start_point, within) {
                let s = choose|s: Point| #[trigger] flows_to(env, start_point, within, s) && is_sink(env, s);
                assert(seen.contains(s));
            }
        }
        assert(to_region.set() =~= target.union(flow));
        if changed {
            let q = choose|q: Point| to_region.set().contains(q) && !target.contains(q);
            assert(flow.contains(q));
        }
    }
    changed
}

/// Inference errors occur when the constraints would force a capped region
/// to grow.
#[derive(Copy, Clone, Debug)]
pub struct InferenceError {
    /// Due to a constraint at this point...
    pub constraint_point: Point,
    /// ...this capped region exceeded its cap.
    pub name: RegionName,
}

/// What is known of one inference variable.
pub struct VarDefinition {
    pub name: RegionName,
    /// The current value of the variable.
    pub value: Region,
    /// A capped variable should no longer have to grow. If it does, that
    /// is an error.
    pub capped: bool,
}

#[derive(Copy, Clone, Debug, PartialEq, Eq, Hash, Structural)]
pub struct RegionVariable {
    pub index: usize,
}

#[derive(Copy, Clone, Debug, PartialEq, Eq, Hash, Structural)]
pub struct Constraint {
    pub sub: RegionVariable,
    pub sup: RegionVariable,
    pub point: Point,
}

pub struct InferenceContext {
    definitions: Vec<VarDefinition>,
    constraints: Vec<Constraint>,
    errors: Vec<InferenceError>,
}

/// The state of the passes of the solver: the values of the variables, the
/// errors so far, and whether the pass at hand has made anything grow.
pub ghost struct SolveState {
    pub values: Seq<Set<Point>>,
    pub errors: Seq<InferenceError>,
    pub changed: bool,
}

/// The point before `p` in its block; `p` itself for the first.
pub open spec fn point_before(p: Point) -> Point {
    if p.action > 0 {
        Point { block: p.block, action: (p.action - 1) as usize }
    } else {
        p
    }
}

/// Every variable holds in `big` what it holds in `small`.
pub open spec fn below(small: Seq<Set<Point>>, big: Seq<Set<Point>>) -> bool {
    &&& small.len() == big.len()
    &&& forall|i: int| 0 <= i < small.len() ==> (#[trigger] small[i]).subset_of(big[i])
}

/// In `values` every constraint is met: the greater variable holds what the
/// constraint carries over from the smaller one.
pub open spec fn all_met(env: &Environment, constraints: Seq<Constraint>, values: Seq<Set<Point>>) -> bool {
    forall|k: int|
        0 <= k < constraints.len() ==> is_met(env, #[trigger] constraints[k], values)
}

/// The constraint `c` is met in `values`.
pub open spec fn is_met(env: &Environment, c: Constraint, values: Seq<Set<Point>>) -> bool {
    carried(env, c.point, values[c.sub.index as int]).subset_of(values[c.sup.index as int])
}

/// `values` is the least assignment above `start` that meets every
/// constraint.
pub open spec fn is_least_solution(
    env: &Environment,
    constraints: Seq<Constraint>,
    start: Seq<Set<Point>>,
    values: Seq<Set<Point>>,
) -> bool {
    &&& below(start, values)
    &&& all_met(env, constraints, values)
    &&& forall|other: Seq<Set<Point>>|
        below(start, other) && #[trigger] all_met(env, constraints, other) ==> below(values, other)
}

/// There is one least solution: whatever order the constraints are applied
/// in, the values that are inferred are the same.
pub proof fn lemma_least_solution_unique(
    env: &Environment,
    constraints: Seq<Constraint>,
    start: Seq<Set<Point>>,
    a: Seq<Set<Point>>,
    b: Seq<Set<Point>>,
)
    requires
        is_least_solution(env, constraints, start, a),
        is_least_solution(env, constraints, start, b),
    ensures
        a == b,
{
    assert(below(a, b));
    assert(below(b, a));
    assert forall|i: int| 0 <= i < a.len() implies a[i] == b[i] by {
        assert(a[i].subset_of(b[i]));
        assert(b[i].subset_of(a[i]));
        assert(a[i] =~= b[i]);
    }
    assert(a =~= b);
}

/// The sum over all variables of the number of points of `all` that the
/// variable lacks.
pub open spec fn missing(values: Seq<Set<Point>>, all: Set<Point>) -> nat
    decreases values.len(),
{
    if values.len() == 0 {
        0
    } else {
        missing(values.drop_last(), all) + all.difference(values.last()).len()
    }
}

proof fn lemma_missing_update(values: Seq<Set<Point>>, all: Set<Point>, i: int, grown: Set<Point>)
    requires
        all.finite(),
        0 <= i < values.len(),
        values[i].subset_of(grown),
    ensures
        missing(values.update(i, grown), all) <= missing(values, all),
        (exists|q: Point| all.contains(q) && grown.contains(q) && !values[i].contains(q)) ==> missing(
            values.update(i, grown),
            all,
        ) < missing(values, all),
    decreases values.len(),
{
    let after = values.update(i, grown);
    if i == values.len() - 1 {
        assert(after.drop_last() =~= values.drop_last());
        vstd::set_lib::lemma_len_subset(all.difference(grown), all.difference(values[i]));
        if exists|q: Point| all.contains(q) && grown.contains(q) && !values[i].contains(q) {
            let q = choose|q: Point| all.contains(q) && grown.contains(q) && !values[i].contains(q);
            all.difference(grown).lemma_subset_not_in_lt(all.difference(values[i]), q);
        }
    } else {
        lemma_missing_update(values.drop_last(), all, i, grown);
        assert(after.drop_last() =~= values.drop_last().update(i, grown));
    }
}

/// `values` lies below every assignment above `start` that meets every
/// constraint.
#[verifier::opaque]
pub open spec fn least_so_far(
    env: &Environment,
    constraints: Seq<Constraint>,
    start: Seq<Set<Point>>,
    values: Seq<Set<Point>>,
) -> bool {
    forall|other: Seq<Set<Point>>|
        below(start, other) && #[trigger] all_met(env, constraints, other) ==> below(values, other)
}

/// What lies below every solution still does when a variable takes in what
/// one of the constraints carries over to it.
proof fn lemma_least_kept(
    env: &Environment,
    constraints: Seq<Constraint>,
    start: Seq<Set<Point>>,
    values: Seq<Set<Point>>,
    k: int,
    grown: Set<Point>,
)
    requires
        0 <= k < constraints.len(),
        constraints[k].sub.index < values.len(),
        constraints[k].sup.index < values.len(),
        grown == values[constraints[k].sup.index as int].union(
            carried(env, constraints[k].point, values[constraints[k].sub.index as int]),
        ),
        least_so_far(env, constraints, start, values),
    ensures
        least_so_far(env, constraints, start, values.update(constraints[k].sup.index as int, grown)),
{
    reveal(least_so_far);
    let c = constraints[k];
    let after = values.update(c.sup.index as int, grown);
    assert forall|other: Seq<Set<Point>>|
        below(start, other) && #[trigger] all_met(env, constraints, other) implies below(after, other) by {
        assert(below(values, other));
        assert(is_met(env, constraints[k], other));
        assert(values[c.sub.index as int].subset_of(other[c.sub.index as int]));
        lemma_carried_mono(env, c.point, values[c.sub.index as int], other[c.sub.index as int]);
        assert forall|i: int| 0 <= i < after.len() implies (#[trigger] after[i]).subset_of(other[i]) by {
            assert(values[i].subset_of(other[i]));
        }
    }
}

impl InferenceContext {
    /// Number of variables.
    pub closed spec fn vars(&self) -> nat {
        self.definitions@.len()
    }

    /// The value of variable `v`.
    pub closed spec fn value(&self, v: int) -> Set<Point> {
        self.definitions@[v].value.set()
    }

    /// The values of all variables.
    pub open spec fn values(&self) -> Seq<Set<Point>> {
        Seq::new(self.vars(), |v: int| self.value(v))
    }

    pub closed spec fn name_of(&self, v: int) -> RegionName {
        self.definitions@[v].name
    }

    pub closed spec fn is_capped(&self, v: int) -> bool {
        self.definitions@[v].capped
    }

    pub closed spec fn constraint_list(&self) -> Seq<Constraint> {
        self.constraints@
    }

    /// The errors recorded and not yet handed out.
    pub closed spec fn error_list(&self) -> Seq<InferenceError> {
        self.errors@
    }

    /// Every constraint speaks of variables that exist.
    pub open spec fn wf(&self) -> bool {
        forall|k: int|
            0 <= k < self.constraint_list().len() ==> (#[trigger] self.constraint_list()[k]).sub.index
                < self.vars() && self.constraint_list()[k].sup.index < self.vars()
    }

    /// Names, caps and constraints are those of `other`.
    pub open spec fn same_frame(&self, other: &Self) -> bool {
        &&& self.vars() == other.vars()
        &&& self.constraint_list() == other.constraint_list()
        &&& forall|v: int|
            0 <= v < self.vars() ==> self.name_of(v) == other.name_of(v) && self.is_capped(v)
                == other.is_capped(v)
    }

    pub fn new() -> (r: Self)
        ensures
            r.wf(),
            r.vars() == 0,
            r.constraint_list().len() == 0,
            r.error_list().len() == 0,
    {
        InferenceContext { definitions: Vec::new(), constraints: Vec::new(), errors: Vec::new() }
    }

    /// A new variable for the region `name`, with no points and no cap.
    pub fn add_var(&mut self, name: RegionName) -> (v: RegionVariable)
        requires
            old(self).wf(),
        ensures
            final(self).wf(),
            v.index == old(self).vars(),
            final(self).vars() == old(self).vars() + 1,
            final(self).value(v.index as int) == Set::<Point>::empty(),
            final(self).name_of(v.index as int) == name,
            !final(self).is_capped(v.index as int),
            forall|i: int|
                0 <= i < old(self).vars() ==> final(self).value(i) == old(self).value(i) && final(self).name_of(i) == old(self).name_of(i) && final(self).is_capped(i) == old(self).is_capped(i),
            final(self).constraint_list() == old(self).constraint_list(),
            final(self).error_list() == old(self).error_list(),
    {
        let index = self.definitions.len();
        self.definitions.push(VarDefinition { name, value: Region::new(), capped: false });
        proof {
            assert forall|k: int| 0 <= k < self.constraint_list().len() implies (
            #[trigger] self.constraint_list()[k]).sub.index < self.vars() && self.constraint_list()[k].sup.index
                < self.vars() by {
                assert(self.constraint_list()[k] == old(self).constraint_list()[k]);
            }
        }
        RegionVariable { index }
    }

    /// From now on, growth of `v` is an error.
    pub fn cap_var(&mut self, v: RegionVariable)
        requires
            old(self).wf(),
            v.index < old(self).vars(),
        ensures
            final(self).wf(),
            final(self).vars() == old(self).vars(),
            final(self).is_capped(v.index as int),
            forall|i: int|
                0 <= i < old(self).vars() ==> final(self).value(i) == old(self).value(i) && final(self).name_of(i) == old(self).name_of(i) && (i != v.index ==> final(self).is_capped(i)
                    == old(self).is_capped(i)),
            final(self).constraint_list() == old(self).constraint_list(),
            final(self).error_list() == old(self).error_list(),
    {
        self.definitions[v.index].capped = true;
        proof {
            assert forall|k: int| 0 <= k < self.constraint_list().len() implies (
            #[trigger] self.constraint_list()[k]).sub.index < self.vars() && self.constraint_list()[k].sup.index
                < self.vars() by {
                assert(self.constraint_list()[k] == old(self).constraint_list()[k]);
            }
        }
    }

    /// Adds `point` to the value of `v`. Where that makes a capped variable
    /// grow, an error at `point` is recorded.
    pub fn add_live_point(&mut self, v: RegionVariable, point: Point)
        requires
            old(self).wf(),
            v.index < old(self).vars(),
        ensures
            final(self).wf(),
            final(self).same_frame(old(self)),
            final(self).value(v.index as int) == old(self).value(v.index as int).insert(point),
            forall|i: int|
                0 <= i < old(self).vars() && i != v.index ==> final(self).value(i) == old(self).value(i),
            final(self).error_list() == if old(self).is_capped(v.index as int) && !old(self).value(
                v.index as int,
            ).contains(point) {
                old(self).error_list().push(
                    InferenceError { constraint_point: point, name: old(self).name_of(v.index as int) },
                )
            } else {
                old(self).error_list()
            },
    {
        let added = self.definitions[v.index].value.add_point(point);
        if added {
            if self.definitions[v.index].capped {
                let name = self.definitions[v.index].name;
                self.errors.push(InferenceError { constraint_point: point, name });
            }
        }
        proof {
            assert forall|k: int| 0 <= k < self.constraint_list().len() implies (
            #[trigger] self.constraint_list()[k]).sub.index < self.vars() && self.constraint_list()[k].sup.index
                < self.vars() by {
                assert(self.constraint_list()[k] == old(self).constraint_list()[k]);
            }
        }
    }

    /// Records that from `point` on `sup` holds what `sub` holds, along the
    /// control flow.
    pub fn add_outlives(&mut self, sup: RegionVariable, sub: RegionVariable, point: Point)
        requires
            old(self).wf(),
            sup.index < old(self).vars(),
            sub.index < old(self).vars(),
        ensures
            final(self).wf(),
            final(self).vars() == old(self).vars(),
            final(self).constraint_list() == old(self).constraint_list().push(
                Constraint { sub, sup, point },
            ),
            forall|i: int|
                0 <= i < old(self).vars() ==> final(self).value(i) == old(self).value(i) && final(self).name_of(i) == old(self).name_of(i) && final(self).is_capped(i) == old(self).is_capped(i),
            final(self).error_list() == old(self).error_list(),
    {
        self.constraints.push(Constraint { sub, sup, point });
        proof {
            assert forall|k: int| 0 <= k < self.constraint_list().len() implies (
            #[trigger] self.constraint_list()[k]).sub.index < self.vars() && self.constraint_list()[k].sup.index
                < self.vars() by {
                if k < old(self).constraint_list().len() {
                    assert(self.constraint_list()[k] == old(self).constraint_list()[k]);
                }
            }
        }
    }

    pub fn region(&self, v: RegionVariable) -> (r: &Region)
        requires
            v.index < self.vars(),
        ensures
            r.set() == self.value(v.index as int),
    {
        &self.definitions[v.index].value
    }

    /// The name of the region that `v` stands for.
    pub fn name(&self, v: RegionVariable) -> (r: RegionName)
        requires
            v.index < self.vars(),
        ensures
            r == self.name_of(v.index as int),
    {
        self.definitions[v.index].name
    }

    /// Variable `v` holds a point now that it did not hold in `before`.
    pub open spec fn has_grown(&self, before: &Self, v: int) -> bool {
        !self.value(v).subset_of(before.value(v))
    }

    /// The error `e` reports the growth of a capped variable through one of
    /// the constraints: it bears the name of the variable and the point
    /// before the point of the constraint.
    pub open spec fn reports_growth(&self, before: &Self, e: InferenceError) -> bool {
        exists|k: int|
            0 <= k < before.constraint_list().len() && {
                let c = #[trigger] before.constraint_list()[k];
                &&& before.is_capped(c.sup.index as int)
                &&& e.name == before.name_of(c.sup.index as int)
                &&& e.constraint_point == point_before(c.point)
                &&& self.has_grown(before, c.sup.index as int)
            }
    }

    /// Every error from the `first` on reports the growth of a capped
    /// variable since `before`.
    #[verifier::opaque]
    pub open spec fn errors_sound(&self, before: &Self, first: int) -> bool {
        forall|i: int|
            first <= i < self.error_list().len() ==> self.reports_growth(
                before,
                #[trigger] self.error_list()[i],
            )
    }

    /// For every capped variable that has grown since `before` there is an
    /// error, from the `first` on, that bears its name.
    #[verifier::opaque]
    pub open spec fn errors_complete(&self, before: &Self, first: int) -> bool {
        forall|v: int|
            0 <= v < self.vars() && self.is_capped(v) && #[trigger] self.has_grown(before, v)
                ==> exists|i: int|
                first <= i < self.error_list().len() && (#[trigger] self.error_list()[i]).name
                    == self.name_of(v)
    }

    /// `self` is what `before` becomes when constraint `k` is applied: the
    /// greater variable takes in what the constraint carries over, and where
    /// that makes a capped variable grow, an error is recorded.
    pub open spec fn follows(&self, before: &Self, env: &Environment, k: int, grew: bool) -> bool {
        let c = before.constraint_list()[k];
        &&& self.same_frame(before)
        &&& self.values() == before.values().update(
            c.sup.index as int,
            before.value(c.sup.index as int).union(
                carried(env, c.point, before.value(c.sub.index as int)),
            ),
        )
        &&& grew == !carried(env, c.point, before.value(c.sub.index as int)).subset_of(
            before.value(c.sup.index as int),
        )
        &&& self.error_list() == if grew && before.is_capped(c.sup.index as int) {
            before.error_list().push(
                InferenceError {
                    constraint_point: point_before(c.point),
                    name: before.name_of(c.sup.index as int),
                },
            )
        } else {
            before.error_list()
        }
    }

    /// What one application of constraint `k` of `self` makes of the state
    /// `st`: the greater variable takes in what the constraint carries over;
    /// where that makes a capped variable grow, an error is added; and the
    /// state remembers that something has grown.
    pub open spec fn applied(&self, env: &Environment, st: SolveState, k: int) -> SolveState {
        let c = self.constraint_list()[k];
        let sup = c.sup.index as int;
        let flow = carried(env, c.point, st.values[c.sub.index as int]);
        let grew = !flow.subset_of(st.values[sup]);
        SolveState {
            values: st.values.update(sup, st.values[sup].union(flow)),
            errors: if grew && self.is_capped(sup) {
                st.errors.push(InferenceError { constraint_point: point_before(c.point), name: self.name_of(sup) })
            } else {
                st.errors
            },
            changed: st.changed || grew,
        }
    }

    /// One pass over the first `upto` constraints, in their order.
    pub open spec fn pass(&self, env: &Environment, st: SolveState, upto: int) -> SolveState
        decreases upto,
    {
        if upto <= 0 || upto > self.constraint_list().len() {
            st
        } else {
            self.applied(env, self.pass(env, st, upto - 1), upto - 1)
        }
    }

    /// Passes over all constraints, until one changes nothing; `fuel` bounds
    /// their number.
    pub open spec fn passes(&self, env: &Environment, values: Seq<Set<Point>>, errors: Seq<InferenceError>, fuel: nat) -> (
        Seq<Set<Point>>,
        Seq<InferenceError>,
    )
        decreases fuel,
    {
        if fuel == 0 {
            (values, errors)
        } else {
            let st = self.pass(
                env,
                SolveState { values, errors, changed: false },
                self.constraint_list().len() as int,
            );
            if st.changed {
                self.passes(env, st.values, st.errors, (fuel - 1) as nat)
            } else {
                (st.values, st.errors)
            }
        }
    }

    /// Within `fuel` passes one pass changes nothing.
    pub open spec fn converges(&self, env: &Environment, values: Seq<Set<Point>>, errors: Seq<InferenceError>, fuel: nat) -> bool
        decreases fuel,
    {
        fuel > 0 && {
            let st = self.pass(
                env,
                SolveState { values, errors, changed: false },
                self.constraint_list().len() as int,
            );
            !st.changed || self.converges(env, st.values, st.errors, (fuel - 1) as nat)
        }
    }

    /// What solving makes of the values and of the errors: the passes from
    /// the values and errors at hand, as many as it takes.
    pub open spec fn solved(&self, env: &Environment) -> (Seq<Set<Point>>, Seq<InferenceError>) {
        self.passes(env, self.values(), self.error_list(), missing(self.values(), universe(env)) + 1)
    }

    /// Applies constraint `k` once.
    fn absorb(&mut self, env: &Environment, k: usize) -> (grew: bool)
        requires
            old(self).wf(),
            env.wf(),
            k < old(self).constraint_list().len(),
            env.is_point(old(self).constraint_list()[k as int].point),
        ensures
            final(self).wf(),
            final(self).follows(old(self), env, k as int, grew),
    {
        let constraint = self.constraints[k];
        let sub = self.definitions[constraint.sub.index].value.dup();
        let grew = copy(
            env,
            &sub,
            &mut self.definitions[constraint.sup.index].value,
            constraint.point,
        );
        if grew {
            if self.definitions[constraint.sup.index].capped {
                let action = if constraint.point.action > 0 {
                    constraint.point.action - 1
                } else {
                    0
                };
                let p = Point { block: constraint.point.block, action };
                let name = self.definitions[constraint.sup.index].name;
                self.errors.push(InferenceError { constraint_point: p, name });
            }
        }
        proof {
            assert(self.values() =~= old(self).values().update(
                constraint.sup.index as int,
                old(self).value(constraint.sup.index as int).union(
                    carried(env, constraint.point, old(self).value(constraint.sub.index as int)),
                ),
            ));
            assert forall|q: int| 0 <= q < self.constraint_list().len() implies (
            #[trigger] self.constraint_list()[q]).sub.index < self.vars() && self.constraint_list()[q].sup.index
                < self.vars() by {
                assert(self.constraint_list()[q] == old(self).constraint_list()[q]);
            }
        }
        grew
    }

    /// What applying a constraint does to the values.
    proof fn lemma_values_grow(&self, before: &Self, env: &Environment, k: int, grew: bool)
        requires
            before.wf(),
            0 <= k < before.constraint_list().len(),
            self.follows(before, env, k, grew),
        ensures
            forall|v: int| 0 <= v < self.vars() ==> #[trigger] before.value(v).subset_of(self.value(v)),
            forall|v: int|
                0 <= v < self.vars() && (v != before.constraint_list()[k].sup.index || !grew)
                    ==> #[trigger] self.value(v) == before.value(v),
            grew ==> !self.value(before.constraint_list()[k].sup.index as int).subset_of(
                before.value(before.constraint_list()[k].sup.index as int),
            ),
    {
        let c = before.constraint_list()[k];
        let sup = c.sup.index as int;
        let flow = carried(env, c.point, before.value(c.sub.index as int));
        assert forall|v: int| 0 <= v < self.vars() implies #[trigger] before.value(v).subset_of(
            self.value(v),
        ) && ((v != sup || !grew) ==> self.value(v) == before.value(v)) by {
            assert(self.values()[v] == self.value(v));
            assert(before.values()[v] == before.value(v));
            if v == sup && !grew {
                assert(before.value(sup).union(flow) =~= before.value(sup));
            }
        }
        if grew {
            let q = choose|q: Point| flow.contains(q) && !before.value(sup).contains(q);
            assert(self.values()[sup] == self.value(sup));
            assert(self.value(sup).contains(q));
        }
        assert forall|v: int| 0 <= v < self.vars() && (v != sup || !grew) implies #[trigger] self.value(
            v,
        ) == before.value(v) by {
            assert(before.value(v).subset_of(self.value(v)));
        }
    }

    /// What applying a constraint does to the errors.
    proof fn lemma_errors_follow(&self, before: &Self, env: &Environment, k: int, grew: bool, i: int)
        requires
            self.follows(before, env, k, grew),
            0 <= i < before.error_list().len(),
        ensures
            i < self.error_list().len(),
            self.error_list()[i] == before.error_list()[i],
            self.error_list().len() > before.error_list().len() ==> grew && before.is_capped(
                before.constraint_list()[k].sup.index as int,
            ) && self.error_list().last() == (InferenceError {
                constraint_point: point_before(before.constraint_list()[k].point),
                name: before.name_of(before.constraint_list()[k].sup.index as int),
            }),
    {
    }

    /// Growth since `origin` is not undone.
    proof fn lemma_growth_kept(&self, before: &Self, origin: &Self, v: int)
        requires
            before.value(v).subset_of(self.value(v)),
            before.has_grown(origin, v),
        ensures
            self.has_grown(origin, v),
    {
        let q = choose|q: Point| before.value(v).contains(q) && !origin.value(v).contains(q);
        assert(self.value(v).contains(q));
    }

    /// The errors stay sound when a constraint is applied.
    proof fn lemma_errors_sound_kept(
        &self,
        before: &Self,
        origin: &Self,
        env: &Environment,
        k: int,
        grew: bool,
        first: int,
    )
        requires
            before.wf(),
            before.same_frame(origin),
            0 <= k < before.constraint_list().len(),
            self.follows(before, env, k, grew),
            below(origin.values(), before.values()),
            0 <= first <= before.error_list().len(),
            before.errors_sound(origin, first),
        ensures
            self.errors_sound(origin, first),
    {
        reveal(InferenceContext::errors_sound);
        self.lemma_values_grow(before, env, k, grew);
        let c = before.constraint_list()[k];
        let sup = c.sup.index as int;
        let count = before.error_list().len() as int;
        assert forall|i: int| first <= i < self.error_list().len() implies self.reports_growth(
            origin,
            #[trigger] self.error_list()[i],
        ) by {
            let e = self.error_list()[i];
            if i < count {
                self.lemma_errors_follow(before, env, k, grew, i);
                assert(e == before.error_list()[i]);
                assert(before.reports_growth(origin, before.error_list()[i]));
                let j = choose|j: int|
                    0 <= j < origin.constraint_list().len() && {
                        let d = #[trigger] origin.constraint_list()[j];
                        &&& origin.is_capped(d.sup.index as int)
                        &&& e.name == origin.name_of(d.sup.index as int)
                        &&& e.constraint_point == point_before(d.point)
                        &&& before.has_grown(origin, d.sup.index as int)
                    };
                let d = origin.constraint_list()[j];
                assert(before.constraint_list()[j] == d);
                self.lemma_growth_kept(before, origin, d.sup.index as int);
            } else {
                assert(grew && before.is_capped(sup));
                assert(origin.constraint_list()[k] == c);
                assert(origin.values()[sup].subset_of(before.values()[sup]));
                assert(before.values()[sup] == before.value(sup));
                assert(origin.values()[sup] == origin.value(sup));
                let q = choose|q: Point| self.value(sup).contains(q) && !before.value(sup).contains(q);
                assert(!origin.value(sup).contains(q));
                assert(self.has_grown(origin, sup));
            }
        }
    }

    /// The errors stay complete when a constraint is applied.
    proof fn lemma_errors_complete_kept(
        &self,
        before: &Self,
        origin: &Self,
        env: &Environment,
        k: int,
        grew: bool,
        first: int,
    )
        requires
            before.wf(),
            before.same_frame(origin),
            0 <= k < before.constraint_list().len(),
            self.follows(before, env, k, grew),
            0 <= first <= before.error_list().len(),
            before.errors_complete(origin, first),
        ensures
            self.errors_complete(origin, first),
    {
        reveal(InferenceContext::errors_complete);
        self.lemma_values_grow(before, env, k, grew);
        let c = before.constraint_list()[k];
        let sup = c.sup.index as int;
        assert forall|v: int|
            0 <= v < self.vars() && self.is_capped(v) && #[trigger] self.has_grown(
                origin,
                v,
            ) implies exists|i: int|
            first <= i < self.error_list().len() && (#[trigger] self.error_list()[i]).name
                == self.name_of(v) by {
            if v == sup && grew {
                assert(self.error_list()[self.error_list().len() - 1].name == self.name_of(v));
            } else {
                assert(self.value(v) == before.value(v));
                assert(before.has_grown(origin, v));
                let i = choose|i: int|
                    first <= i < before.error_list().len() && (#[trigger] before.error_list()[i]).name
                        == before.name_of(v);
                self.lemma_errors_follow(before, env, k, grew, i);
                assert(self.error_list()[i] == before.error_list()[i]);
            }
        }
    }

    /// What was below stays below when a constraint is applied.
    proof fn lemma_below_kept(&self, before: &Self, origin: &Self, env: &Environment, k: int, grew: bool)
        requires
            before.wf(),
            before.same_frame(origin),
            0 <= k < before.constraint_list().len(),
            self.follows(before, env, k, grew),
            below(origin.values(), before.values()),
        ensures
            below(origin.values(), self.values()),
    {
        self.lemma_values_grow(before, env, k, grew);
        assert forall|i: int| 0 <= i < origin.vars() implies (#[trigger] origin.values()[i]).subset_of(
            self.values()[i],
        ) by {
            assert(origin.values()[i].subset_of(before.values()[i]));
            assert(before.value(i).subset_of(self.value(i)));
        }
    }

    /// Adds points to the variables until every constraint is met, and hands
    /// out the errors: those recorded before, and one for each time that a
    /// constraint made a capped variable grow.
    pub fn solve(&mut self, env: &Environment) -> (errors: Vec<InferenceError>)
        requires
            old(self).wf(),
            env.wf(),
            forall|k: int|
                0 <= k < old(self).constraint_list().len() ==> env.is_point(
                    (#[trigger] old(self).constraint_list()[k]).point,
                ),
        ensures
            final(self).wf(),
            final(self).same_frame(old(self)),
            is_least_solution(
                env,
                old(self).constraint_list(),
                old(self).values(),
                final(self).values(),
            ),
            final(self).error_list().len() == 0,
            (final(self).values(), errors@) == old(self).solved(env),
            old(self).converges(
                env,
                old(self).values(),
                old(self).error_list(),
                missing(old(self).values(), universe(env)) + 1,
            ),
            errors@.len() >= old(self).error_list().len(),
            errors@.subrange(0, old(self).error_list().len() as int) == old(self).error_list(),
            forall|i: int|
                old(self).error_list().len() <= i < errors@.len() ==> final(self).reports_growth(
                    old(self),
                    #[trigger] errors@[i],
                ),
            forall|v: int|
                0 <= v < old(self).vars() && old(self).is_capped(v) && #[trigger] final(self).has_grown(
                    old(self),
                    v,
                ) ==> exists|i: int|
                    old(self).error_list().len() <= i < errors@.len() && (#[trigger] errors@[i]).name
                        == old(self).name_of(v),
    {
        let ghost all = universe(env);
        let ghost start = self.values();
        let ghost first = old(self).error_list().len() as int;
        let ghost goal = old(self).solved(env);
        let ghost mut fuel: nat = missing(self.values(), all) + 1;
        let ghost settles = old(self).converges(env, self.values(), self.error_list(), fuel);
        let mut changed = true;
        proof {
            lemma_universe(env);
            assert(self.errors@.subrange(0, first) =~= old(self).error_list());
            reveal(InferenceContext::errors_sound);
            reveal(InferenceContext::errors_complete);
            reveal(least_so_far);
            assert forall|v: int| 0 <= v < self.vars() implies !self.has_grown(old(self), v) by {}
        }
        while changed
            invariant
                env.wf(),
                self.wf(),
                self.same_frame(old(self)),
                all == universe(env),
                all.finite(),
                forall|p: Point| env.is_point(p) ==> #[trigger] all.contains(p),
                forall|k: int|
                    0 <= k < self.constraint_list().len() ==> env.is_point(
                        (#[trigger] self.constraint_list()[k]).point,
                    ),
                start == old(self).values(),
                first == old(self).error_list().len(),
                below(start, self.values()),
                least_so_far(env, self.constraint_list(), start, self.values()),
                !changed ==> all_met(env, self.constraint_list(), self.values()),
                self.error_list().len() >= first,
                self.error_list().subrange(0, first) == old(self).error_list(),
                self.errors_sound(old(self), first),
                self.errors_complete(old(self), first),
                changed ==> missing(self.values(), all) < fuel,
                settles == if changed {
                    old(self).converges(env, self.values(), self.error_list(), fuel)
                } else {
                    true
                },
                goal == if changed {
                    old(self).passes(env, self.values(), self.error_list(), fuel)
                } else {
                    (self.values(), self.error_list())
                },
            decreases missing(self.values(), all), (if changed { 1int } else { 0int }),
        {
            changed = false;
            let ghost round_start = missing(self.values(), all);
            let ghost round = SolveState { values: self.values(), errors: self.error_list(), changed: false };
            let mut k: usize = 0;
            while k < self.constraints.len()
                invariant
                    env.wf(),
                    self.wf(),
                    self.same_frame(old(self)),
                    all == universe(env),
                    all.finite(),
                    forall|p: Point| env.is_point(p) ==> #[trigger] all.contains(p),
                    forall|k: int|
                        0 <= k < self.constraint_list().len() ==> env.is_point(
                            (#[trigger] self.constraint_list()[k]).point,
                        ),
                    start == old(self).values(),
                    first == old(self).error_list().len(),
                    k <= self.constraints.len(),
                    below(start, self.values()),
                    least_so_far(env, self.constraint_list(), start, self.values()),
                    !changed ==> forall|j: int|
                        0 <= j < k ==> is_met(env, #[trigger] self.constraint_list()[j], self.values()),
                    missing(self.values(), all) <= round_start,
                    changed ==> missing(self.values(), all) < round_start,
                    self.error_list().len() >= first,
                    self.error_list().subrange(0, first) == old(self).error_list(),
                    self.errors_sound(old(self), first),
                    self.errors_complete(old(self), first),
                    round_start < fuel,
                    settles == old(self).converges(env, round.values, round.errors, fuel),
                    goal == old(self).passes(env, round.values, round.errors, fuel),
                    round.changed == false,
                    (SolveState { values: self.values(), errors: self.error_list(), changed }) == old(self).pass(
                        env,
                        round,
                        k as int,
                    ),
                decreases self.constraints.len() - k,
            {
                let ghost before = *self;
                let grew = self.absorb(env, k);
                proof {
                    assert(old(self).applied(
                        env,
                        SolveState { values: before.values(), errors: before.error_list(), changed },
                        k as int,
                    ) == (SolveState { values: self.values(), errors: self.error_list(), changed: changed || grew }));
                    let c = before.constraint_list()[k as int];
                    let sup = c.sup.index as int;
                    let values = before.values();
                    let flow = carried(env, c.point, before.value(c.sub.index as int));
                    let grown = before.value(sup).union(flow);
                    assert(values[sup] == before.value(sup));
                    assert(values[c.sub.index as int] == before.value(c.sub.index as int));
                    self.lemma_errors_sound_kept(&before, old(self), env, k as int, grew, first);
                    self.lemma_errors_complete_kept(&before, old(self), env, k as int, grew, first);
                    self.lemma_below_kept(&before, old(self), env, k as int, grew);
                    lemma_carried_points(env, c.point, before.value(c.sub.index as int));
                    if grew {
                        let q = choose|q: Point| flow.contains(q) && !values[sup].contains(q);
                        assert(all.contains(q) && grown.contains(q));
                    } else {
                        assert(grown =~= values[sup]);
                        assert(self.values() =~= values);
                        if !changed {
                            assert forall|j: int| 0 <= j < k + 1 implies is_met(
                                env,
                                #[trigger] self.constraint_list()[j],
                                self.values(),
                            ) by {
                                if j < k {
                                    assert(is_met(env, before.constraint_list()[j], values));
                                }
                            }
                        }
                    }
                    lemma_missing_update(values, all, sup, grown);
                    lemma_least_kept(env, before.constraint_list(), start, values, k as int, grown);
                    assert(self.error_list().subrange(0, first) =~= before.error_list().subrange(0, first));
                }
                if grew {
                    changed = true;
                }
                k += 1;
            }
            proof {
                fuel = (fuel - 1) as nat;
            }
        }
        let mut out: Vec<InferenceError> = Vec::new();
        let ghost done = *self;
        core::mem::swap(&mut self.errors, &mut out);
        proof {
            reveal(InferenceContext::errors_sound);
            reveal(InferenceContext::errors_complete);
            reveal(least_so_far);
            assert(self.values() =~= done.values());
            assert(out@ == done.errors@);
            assert forall|v: int| 0 <= v < self.vars() implies (self.has_grown(old(self), v)
                == done.has_grown(old(self), v)) by {
                assert(self.value(v) == done.value(v));
            }
            assert forall|i: int| first <= i < out@.len() implies self.reports_growth(
                old(self),
                #[trigger] out@[i],
            ) by {
                let e = out@[i];
                assert(done.reports_growth(old(self), done.error_list()[i]));
                let j = choose|j: int|
                    0 <= j < old(self).constraint_list().len() && {
                        let c = #[trigger] old(self).constraint_list()[j];
                        &&& old(self).is_capped(c.sup.index as int)
                        &&& e.name == old(self).name_of(c.sup.index as int)
                        &&& e.constraint_point == point_before(c.point)
                        &&& done.has_grown(old(self), c.sup.index as int)
                    };
                assert(self.has_grown(old(self), old(self).constraint_list()[j].sup.index as int));
            }
            assert forall|v: int|
                0 <= v < old(self).vars() && old(self).is_capped(v) && #[trigger] self.has_grown(
                    old(self),
                    v,
                ) implies exists|i: int|
                first <= i < out@.len() && (#[trigger] out@[i]).name == old(self).name_of(v) by {
                assert(done.has_grown(old(self), v));
                let i = choose|i: int|
                    first <= i < done.error_list().len() && (#[trigger] done.error_list()[i]).name
                        == done.name_of(v);
                assert(out@[i] == done.error_list()[i]);
            }
            assert forall|k: int| 0 <= k < self.constraint_list().len() implies (
            #[trigger] self.constraint_list()[k]).sub.index < self.vars() && self.constraint_list()[k].sup.index
                < self.vars() by {
                assert(self.constraint_list()[k] == done.constraint_list()[k]);
            }
        }
        out
    }

    /// Number of variables.
    pub fn num_vars(&self) -> (r: usize)
        ensures
            r == self.vars(),
    {
        self.definitions.len()
    }
}

} // verus!
