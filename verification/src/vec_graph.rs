//! A graph held as adjacency lists, built from a list of edges.

use crate::graph::Graph;
use vstd::prelude::*;

verus! {

/// The targets of the edges of `edges` that leave `node`, in order.
pub open spec fn targets_of(edges: Seq<(usize, usize)>, node: int) -> Seq<usize>
    decreases edges.len(),
{
    if edges.len() == 0 {
        Seq::empty()
    } else if edges.last().0 == node {
        targets_of(edges.drop_last(), node).push(edges.last().1)
    } else {
        targets_of(edges.drop_last(), node)
    }
}

/// The sources of the edges of `edges` that enter `node`, in order.
pub open spec fn sources_of(edges: Seq<(usize, usize)>, node: int) -> Seq<usize>
    decreases edges.len(),
{
    if edges.len() == 0 {
        Seq::empty()
    } else if edges.last().1 == node {
        sources_of(edges.drop_last(), node).push(edges.last().0)
    } else {
        sources_of(edges.drop_last(), node)
    }
}

/// One more than the largest node that `start` and `edges` name.
pub open spec fn nodes_named(start: int, edges: Seq<(usize, usize)>) -> int
    decreases edges.len(),
{
    if edges.len() == 0 {
        start + 1
    } else {
        let rest = nodes_named(start, edges.drop_last());
        let a = edges.last().0 + 1;
        let b = edges.last().1 + 1;
        if rest >= a && rest >= b {
            rest
        } else if a >= b {
            a
        } else {
            b
        }
    }
}

pub struct VecGraph {
    num_nodes: usize,
    start_node: usize,
    successors: Vec<Vec<usize>>,
    predecessors: Vec<Vec<usize>>,
}

impl VecGraph {
    /// The graph with the edges `edges`, entered at `start_node`. Its nodes
    /// run from zero to the largest node named.
    pub fn new(start_node: usize, edges: &[(usize, usize)]) -> (g: Self)
        requires
            start_node < usize::MAX,
            forall|i: int| 0 <= i < edges@.len() ==> edges@[i].0 < usize::MAX && edges@[i].1 < usize::MAX,
        ensures
            g.wf(),
            g.node_count() == nodes_named(start_node as int, edges@),
            g.entry() == start_node,
            forall|n: int| 0 <= n < g.node_count() ==> g.succs(n) == targets_of(edges@, n),
            forall|n: int| 0 <= n < g.node_count() ==> g.preds(n) == sources_of(edges@, n),
    {
        let mut num_nodes: usize = start_node + 1;
        let mut i: usize = 0;
        while i < edges.len()
            invariant
                i <= edges@.len(),
                forall|i: int| 0 <= i < edges@.len() ==> edges@[i].0 < usize::MAX && edges@[i].1 < usize::MAX,
                num_nodes == nodes_named(start_node as int, edges@.take(i as int)),
                start_node < num_nodes,
                forall|j: int| 0 <= j < i ==> edges@[j].0 < num_nodes && edges@[j].1 < num_nodes,
            decreases edges@.len() - i,
        {
            let (source, target) = edges[i];
            proof {
                assert(edges@.take(i as int + 1).drop_last() =~= edges@.take(i as int));
            }
            if source + 1 > num_nodes {
                num_nodes = source + 1;
            }
            if target + 1 > num_nodes {
                num_nodes = target + 1;
            }
            i += 1;
        }
        proof {
            assert(edges@.take(edges@.len() as int) =~= edges@);
        }
        Self::from_edges(num_nodes, start_node, edges)
    }

    /// The graph with the nodes `0 .. num_nodes` and the edges `edges`,
    /// entered at `start_node`.
    pub fn from_edges(num_nodes: usize, start_node: usize, edges: &[(usize, usize)]) -> (g: Self)
        requires
            start_node < num_nodes,
            forall|i: int| 0 <= i < edges@.len() ==> edges@[i].0 < num_nodes && edges@[i].1 < num_nodes,
        ensures
            g.wf(),
            g.node_count() == num_nodes,
            g.entry() == start_node,
            forall|n: int| 0 <= n < g.node_count() ==> g.succs(n) == targets_of(edges@, n),
            forall|n: int| 0 <= n < g.node_count() ==> g.preds(n) == sources_of(edges@, n),
    {
        let mut successors: Vec<Vec<usize>> = Vec::new();
        let mut predecessors: Vec<Vec<usize>> = Vec::new();
        let mut n: usize = 0;
        while n < num_nodes
            invariant
                n <= num_nodes,
                successors.len() == n,
                predecessors.len() == n,
                forall|k: int| 0 <= k < n ==> successors[k]@ =~= Seq::<usize>::empty(),
                forall|k: int| 0 <= k < n ==> predecessors[k]@ =~= Seq::<usize>::empty(),
            decreases num_nodes - n,
        {
            successors.push(Vec::new());
            predecessors.push(Vec::new());
            n += 1;
        }
        let mut i: usize = 0;
        while i < edges.len()
            invariant
                i <= edges@.len(),
                successors.len() == num_nodes,
                predecessors.len() == num_nodes,
                forall|j: int| 0 <= j < edges@.len() ==> edges@[j].0 < num_nodes && edges@[j].1 < num_nodes,
                forall|k: int| 0 <= k < num_nodes ==> #[trigger] successors[k]@ == targets_of(edges@.take(i as int), k),
                forall|k: int| 0 <= k < num_nodes ==> #[trigger] predecessors[k]@ == sources_of(edges@.take(i as int), k),
            decreases edges@.len() - i,
        {
            let (source, target) = edges[i];
            proof {
                assert(edges@.take(i as int + 1).drop_last() =~= edges@.take(i as int));
            }
            successors[source].push(target);
            predecessors[target].push(source);
            i += 1;
        }
        proof {
            assert(edges@.take(edges@.len() as int) =~= edges@);
        }
        let g = VecGraph { num_nodes, start_node, successors, predecessors };
        proof {
            assert forall|n: int, j: int| 0 <= n < num_nodes && 0 <= j < g.successors[n].len() implies g.successors[n][j] < num_nodes by {
                lemma_targets_bounded(edges@, n, num_nodes as int);
            }
            assert forall|n: int, j: int| 0 <= n < num_nodes && 0 <= j < g.predecessors[n].len() implies g.predecessors[n][j] < num_nodes by {
                lemma_sources_bounded(edges@, n, num_nodes as int);
            }
            assert forall|a: int, b: int| 0 <= a < num_nodes && 0 <= b < num_nodes implies (
            g.successors[a]@.contains(b as usize) <==> g.predecessors[b]@.contains(a as usize)) by {
                lemma_targets_has(edges@, a, b as usize);
                lemma_sources_has(edges@, b, a as usize);
            }
        }
        g
    }
}

/// The targets of the edges from a node are below every bound that the
/// targets of all edges are below.
pub proof fn lemma_targets_bounded(edges: Seq<(usize, usize)>, node: int, bound: int)
    requires
        forall|j: int| 0 <= j < edges.len() ==> edges[j].1 < bound,
    ensures
        forall|j: int|
            0 <= j < targets_of(edges, node).len() ==> #[trigger] targets_of(edges, node)[j] < bound,
    decreases edges.len(),
{
    if edges.len() > 0 {
        lemma_targets_bounded(edges.drop_last(), node, bound);
        let rest = targets_of(edges.drop_last(), node);
        assert forall|j: int| 0 <= j < targets_of(edges, node).len() implies #[trigger] targets_of(
            edges,
            node,
        )[j] < bound by {
            if j < rest.len() {
                assert(targets_of(edges, node)[j] == rest[j]);
            }
        }
    }
}

/// The sources of the edges to a node are below every bound that the
/// sources of all edges are below.
pub proof fn lemma_sources_bounded(edges: Seq<(usize, usize)>, node: int, bound: int)
    requires
        forall|j: int| 0 <= j < edges.len() ==> edges[j].0 < bound,
    ensures
        forall|j: int|
            0 <= j < sources_of(edges, node).len() ==> #[trigger] sources_of(edges, node)[j] < bound,
    decreases edges.len(),
{
    if edges.len() > 0 {
        lemma_sources_bounded(edges.drop_last(), node, bound);
        let rest = sources_of(edges.drop_last(), node);
        assert forall|j: int| 0 <= j < sources_of(edges, node).len() implies #[trigger] sources_of(
            edges,
            node,
        )[j] < bound by {
            if j < rest.len() {
                assert(sources_of(edges, node)[j] == rest[j]);
            }
        }
    }
}

/// `target` is among the targets of `node` exactly when the pair is an edge.
pub proof fn lemma_targets_has(edges: Seq<(usize, usize)>, node: int, target: usize)
    ensures
        targets_of(edges, node).contains(target) <==> exists|k: int|
            0 <= k < edges.len() && (#[trigger] edges[k]).0 == node && edges[k].1 == target,
    decreases edges.len(),
{
    if edges.len() > 0 {
        let rest = edges.drop_last();
        lemma_targets_has(rest, node, target);
        let t = targets_of(edges, node);
        let tr = targets_of(rest, node);
        if tr.contains(target) {
            let i = choose|i: int| 0 <= i < tr.len() && tr[i] == target;
            assert(t[i] == target);
            let k = choose|k: int|
                0 <= k < rest.len() && (#[trigger] rest[k]).0 == node && rest[k].1 == target;
            assert(edges[k] == rest[k]);
        }
        if edges.last().0 == node && edges.last().1 == target {
            assert(t[t.len() - 1] == target);
        }
        if t.contains(target) {
            let i = choose|i: int| 0 <= i < t.len() && t[i] == target;
            if i < tr.len() {
                assert(tr[i] == target);
            }
        }
        if exists|k: int|
            0 <= k < edges.len() && (#[trigger] edges[k]).0 == node && edges[k].1 == target {
            let k = choose|k: int|
                0 <= k < edges.len() && (#[trigger] edges[k]).0 == node && edges[k].1 == target;
            if k < rest.len() {
                assert(rest[k] == edges[k]);
            }
        }
    }
}

/// `source` is among the sources of `node` exactly when the pair is an edge.
pub proof fn lemma_sources_has(edges: Seq<(usize, usize)>, node: int, source: usize)
    ensures
        sources_of(edges, node).contains(source) <==> exists|k: int|
            0 <= k < edges.len() && (#[trigger] edges[k]).0 == source && edges[k].1 == node,
    decreases edges.len(),
{
    if edges.len() > 0 {
        let rest = edges.drop_last();
        lemma_sources_has(rest, node, source);
        let t = sources_of(edges, node);
        let tr = sources_of(rest, node);
        if tr.contains(source) {
            let i = choose|i: int| 0 <= i < tr.len() && tr[i] == source;
            assert(t[i] == source);
            let k = choose|k: int|
                0 <= k < rest.len() && (#[trigger] rest[k]).0 == source && rest[k].1 == node;
            assert(edges[k] == rest[k]);
        }
        if edges.last().1 == node && edges.last().0 == source {
            assert(t[t.len() - 1] == source);
        }
        if t.contains(source) {
            let i = choose|i: int| 0 <= i < t.len() && t[i] == source;
            if i < tr.len() {
                assert(tr[i] == source);
            }
        }
        if exists|k: int|
            0 <= k < edges.len() && (#[trigger] edges[k]).0 == source && edges[k].1 == node {
            let k = choose|k: int|
                0 <= k < edges.len() && (#[trigger] edges[k]).0 == source && edges[k].1 == node;
            if k < rest.len() {
                assert(rest[k] == edges[k]);
            }
        }
    }
}

impl Graph for VecGraph {
    closed spec fn wf(&self) -> bool {
        &&& self.start_node < self.num_nodes
        &&& self.successors.len() == self.num_nodes
        &&& self.predecessors.len() == self.num_nodes
        &&& forall|n: int, j: int|
            0 <= n < self.num_nodes && 0 <= j < self.successors[n].len() ==> self.successors[n][j]
                < self.num_nodes
        &&& forall|n: int, j: int|
            0 <= n < self.num_nodes && 0 <= j < self.predecessors[n].len()
                ==> self.predecessors[n][j] < self.num_nodes
        &&& forall|a: int, b: int|
            0 <= a < self.num_nodes && 0 <= b < self.num_nodes ==> (self.successors[a]@.contains(
                b as usize,
            ) <==> self.predecessors[b]@.contains(a as usize))
    }

    proof fn lemma_edges(&self) {
        assert forall|n: int, k: int|
            0 <= n < self.node_count() && 0 <= k < self.succs(n).len() implies #[trigger] self.succs(
            n,
        )[k] < self.node_count() by {
            assert(self.successors[n][k] < self.num_nodes);
        }
        assert forall|n: int, k: int|
            0 <= n < self.node_count() && 0 <= k < self.preds(n).len() implies #[trigger] self.preds(
            n,
        )[k] < self.node_count() by {
            assert(self.predecessors[n][k] < self.num_nodes);
        }
    }

    closed spec fn node_count(&self) -> nat {
        self.num_nodes as nat
    }

    closed spec fn entry(&self) -> nat {
        self.start_node as nat
    }

    closed spec fn preds(&self, node: int) -> Seq<usize> {
        self.predecessors[node]@
    }

    closed spec fn succs(&self, node: int) -> Seq<usize> {
        self.successors[node]@
    }

    fn num_nodes(&self) -> (n: usize) {
        self.num_nodes
    }

    fn start_node(&self) -> (s: usize) {
        self.start_node
    }

    fn predecessors(&self, node: usize) -> (r: &Vec<usize>) {
        &self.predecessors[node]
    }

    fn successors(&self, node: usize) -> (r: &Vec<usize>) {
        &self.successors[node]
    }
}

} // verus!
