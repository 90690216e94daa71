//! The control-flow graph of a function: its blocks, followed by one
//! synthetic block for the end of every free region. A block without
//! declared successors flows into the ends of the regions that end first,
//! and the end of a region flows into the ends of the regions that outlive
//! it.

use crate::bit_set::{fits, words_for};
use crate::errors::StructuralError;
use crate::graph::{has_edge, is_walk, Graph, NodeIndex};
use crate::reachable::{links_to, listed_walk, reachable_given_rpo};
use crate::repr::{
    Action, ActionKind, Assertion, BasicBlock, BasicBlockData as BlockDecl, Func, RegionDecl,
    RegionName, StructDecl, VariableDecl,
};
use crate::vec_graph::{lemma_targets_has, sources_of, targets_of, VecGraph};
use vstd::prelude::*;

verus! {

#[derive(Copy, Clone, Debug, PartialEq, Eq, Hash, Structural)]
pub struct BasicBlockIndex {
    pub index: usize,
}

impl NodeIndex for BasicBlockIndex {
    open spec fn index_of(self) -> nat {
        self.index as nat
    }

    fn as_usize(self) -> (i: usize) {
        self.index
    }
}

impl BasicBlockIndex {
    pub fn from_usize(v: usize) -> (r: Self)
        ensures
            r.index == v,
    {
        BasicBlockIndex { index: v }
    }
}

#[derive(Copy, Clone, Debug)]
pub enum BasicBlockKind {
    Code(BasicBlock),
    SkolemizedEnd(RegionName),
}

#[derive(Copy, Clone, Debug)]
pub enum BasicBlockData<'a> {
    Code(&'a BlockDecl),
    SkolemizedEnd(&'a Vec<Action>),
}

impl<'a> BasicBlockData<'a> {
    pub open spec fn action_list(self) -> Seq<Action> {
        match self {
            BasicBlockData::Code(d) => d.actions@,
            BasicBlockData::SkolemizedEnd(actions) => actions@,
        }
    }

    pub fn actions(self) -> (r: &'a Vec<Action>)
        ensures
            r@ == self.action_list(),
    {
        match self {
            BasicBlockData::Code(d) => &d.actions,
            BasicBlockData::SkolemizedEnd(actions) => actions,
        }
    }
}

/// Index of the last of the first `upto` blocks that bears the name `name`.
pub open spec fn last_block(data: Seq<BlockDecl>, name: BasicBlock, upto: int) -> Option<int>
    decreases upto,
{
    if upto <= 0 || upto > data.len() {
        None
    } else if data[upto - 1].name == name {
        Some(upto - 1)
    } else {
        last_block(data, name, upto - 1)
    }
}

/// Index of the last of the first `upto` regions that bears the name `name`.
pub open spec fn last_region(regions: Seq<RegionDecl>, name: RegionName, upto: int) -> Option<int>
    decreases upto,
{
    if upto <= 0 || upto > regions.len() {
        None
    } else if regions[upto - 1].name == name {
        Some(upto - 1)
    } else {
        last_region(regions, name, upto - 1)
    }
}

/// The block found for a name is one of the first `upto` and bears that
/// name.
pub proof fn lemma_last_block_bound(data: Seq<BlockDecl>, name: BasicBlock, upto: int)
    ensures
        last_block(data, name, upto) matches Some(i) ==> 0 <= i < upto && i < data.len() && data[i].name
            == name,
    decreases upto,
{
    if !(upto <= 0 || upto > data.len()) && data[upto - 1].name != name {
        lemma_last_block_bound(data, name, upto - 1);
    }
}

/// The region found for a name is one of the first `upto` and bears that
/// name.
pub proof fn lemma_last_region_bound(regions: Seq<RegionDecl>, name: RegionName, upto: int)
    requires
        upto <= regions.len(),
    ensures
        last_region(regions, name, upto) matches Some(i) ==> 0 <= i < upto && i < regions.len()
            && regions[i].name == name,
        last_region(regions, name, upto) is None ==> forall|j: int|
            0 <= j < upto && j < regions.len() ==> regions[j].name != name,
    decreases upto,
{
    if !(upto <= 0 || upto > regions.len()) && regions[upto - 1].name != name {
        lemma_last_region_bound(regions, name, upto - 1);
    }
}

/// One pair for each of the first `upto` clauses of region `a`: where the
/// clause says that `a` outlives `b`, the pair `(b, a)`, for the end of `b`
/// comes first.
pub open spec fn clause_pairs(regions: Seq<RegionDecl>, a: int, upto: int) -> Result<
    Seq<(usize, usize)>,
    StructuralError,
>
    decreases upto,
{
    if upto <= 0 || upto > regions[a].outlives.len() {
        Ok(Seq::empty())
    } else {
        match clause_pairs(regions, a, upto - 1) {
            Err(e) => Err(e),
            Ok(done) => match last_region(regions, regions[a].outlives[upto - 1], regions.len() as int) {
                None => Err(StructuralError::UndeclaredRegion),
                Some(b) => Ok(done.push((b as usize, a as usize))),
            },
        }
    }
}

/// The pairs of the clauses of the first `upto` regions.
pub open spec fn outlives_pairs(regions: Seq<RegionDecl>, upto: int) -> Result<
    Seq<(usize, usize)>,
    StructuralError,
>
    decreases upto,
{
    if upto <= 0 || upto > regions.len() {
        Ok(Seq::empty())
    } else {
        match outlives_pairs(regions, upto - 1) {
            Err(e) => Err(e),
            Ok(done) => match clause_pairs(
                regions,
                upto - 1,
                regions[upto - 1].outlives.len() as int,
            ) {
                Err(e) => Err(e),
                Ok(more) => Ok(done + more),
            },
        }
    }
}

/// Each element of `walk` is paired with the next.
pub open spec fn pair_walk(pairs: Seq<(usize, usize)>, walk: Seq<int>) -> bool {
    &&& walk.len() > 0
    &&& forall|i: int|
        0 <= i < walk.len() - 1 ==> exists|k: int|
            0 <= k < pairs.len() && pairs[k].0 == #[trigger] walk[i] && pairs[k].1 == walk[i + 1]
}

/// The end of region `a` is followed, directly or by way of others, by the
/// end of region `b`.
pub open spec fn ends_before(pairs: Seq<(usize, usize)>, a: int, b: int) -> bool {
    exists|walk: Seq<int>| #[trigger] pair_walk(pairs, walk) && walk[0] == a && walk.last() == b
}

/// Region `r` ends first: whatever ends before it lies on a cycle with it,
/// and it is the first declared region of that cycle.
pub open spec fn is_root(pairs: Seq<(usize, usize)>, count: int, r: int) -> bool {
    &&& forall|x: int| 0 <= x < count && #[trigger] ends_before(pairs, x, r) ==> ends_before(pairs, r, x)
    &&& forall|x: int| 0 <= x < r ==> !(#[trigger] ends_before(pairs, x, r) && ends_before(pairs, r, x))
}

/// The regions below `upto` that end first, in rising order.
pub open spec fn roots_upto(pairs: Seq<(usize, usize)>, count: int, upto: int) -> Seq<usize>
    decreases upto,
{
    if upto <= 0 {
        Seq::empty()
    } else if is_root(pairs, count, upto - 1) {
        roots_upto(pairs, count, upto - 1).push((upto - 1) as usize)
    } else {
        roots_upto(pairs, count, upto - 1)
    }
}

/// The edges from block `b` to its first `upto` declared successors.
pub open spec fn successor_edges(data: Seq<BlockDecl>, b: int, upto: int) -> Result<
    Seq<(usize, usize)>,
    StructuralError,
>
    decreases upto,
{
    if upto <= 0 || upto > data[b].successors.len() {
        Ok(Seq::empty())
    } else {
        match successor_edges(data, b, upto - 1) {
            Err(e) => Err(e),
            Ok(done) => match last_block(data, data[b].successors[upto - 1], data.len() as int) {
                None => Err(StructuralError::UndeclaredBlock),
                Some(s) => Ok(done.push((b as usize, s as usize))),
            },
        }
    }
}

/// The edges from block `b` to the ends of the regions `roots`.
pub open spec fn root_edges(b: int, code_count: int, roots: Seq<usize>) -> Seq<(usize, usize)> {
    Seq::new(roots.len(), |i: int| (b as usize, (code_count + roots[i]) as usize))
}

/// The edges that leave the first `upto` blocks: to the declared successors,
/// or, where there are none, to the ends of the regions `roots`.
pub open spec fn code_edges(data: Seq<BlockDecl>, roots: Seq<usize>, upto: int) -> Result<
    Seq<(usize, usize)>,
    StructuralError,
>
    decreases upto,
{
    if upto <= 0 || upto > data.len() {
        Ok(Seq::empty())
    } else {
        match code_edges(data, roots, upto - 1) {
            Err(e) => Err(e),
            Ok(done) => if data[upto - 1].successors.len() == 0 {
                Ok(done + root_edges(upto - 1, data.len() as int, roots))
            } else {
                match successor_edges(data, upto - 1, data[upto - 1].successors.len() as int) {
                    Err(e) => Err(e),
                    Ok(more) => Ok(done + more),
                }
            },
        }
    }
}

/// The edges between the ends of regions.
pub open spec fn end_edges(pairs: Seq<(usize, usize)>, code_count: int) -> Seq<(usize, usize)> {
    Seq::new(
        pairs.len(),
        |i: int| ((code_count + pairs[i].0) as usize, (code_count + pairs[i].1) as usize),
    )
}

/// All the edges of the graph of `func`.
pub open spec fn edges_of(func: Func) -> Result<Seq<(usize, usize)>, StructuralError> {
    match outlives_pairs(func.regions@, func.regions@.len() as int) {
        Err(e) => Err(e),
        Ok(pairs) => match code_edges(
            func.data@,
            roots_upto(pairs, func.regions@.len() as int, func.regions@.len() as int),
            func.data@.len() as int,
        ) {
            Err(e) => Err(e),
            Ok(edges) => Ok(edges + end_edges(pairs, func.data@.len() as int)),
        },
    }
}

/// The blocks and the bit matrix of the regions can be counted in a `usize`.
pub open spec fn graph_fits(func: Func) -> bool {
    &&& func.data@.len() + func.regions@.len() <= usize::MAX
    &&& func.regions@.len() * words_for(func.regions@.len()) <= usize::MAX
}

/// What building the graph of `func` with the entry named `start` gives:
/// the first of these that applies. `TooLarge` where the graph does not
/// fit; the error of the edges; `UndeclaredBlock` where no block bears the
/// name `start`; else the edges and the index of the entry.
pub open spec fn graph_of(func: Func, start: BasicBlock) -> Result<(Seq<(usize, usize)>, int), StructuralError> {
    if !graph_fits(func) {
        Err(StructuralError::TooLarge)
    } else {
        match edges_of(func) {
            Err(e) => Err(e),
            Ok(edges) => match last_block(func.data@, start, func.data@.len() as int) {
                None => Err(StructuralError::UndeclaredBlock),
                Some(s) => Ok((edges, s)),
            },
        }
    }
}

pub struct FuncGraph {
    func: Func,
    start_block: BasicBlockIndex,
    blocks: Vec<BasicBlockKind>,
    graph: VecGraph,
    skolemized_end_actions: Vec<Vec<Action>>,
}

impl FuncGraph {
    /// The function that the graph was built from.
    pub closed spec fn func(&self) -> Func {
        self.func
    }

    /// What each block stands for.
    pub closed spec fn kinds(&self) -> Seq<BasicBlockKind> {
        self.blocks@
    }

    /// The action lists of the blocks that stand for the ends of regions.
    pub closed spec fn end_actions(&self) -> Seq<Vec<Action>> {
        self.skolemized_end_actions@
    }

    /// Number of blocks that the function declares.
    pub open spec fn code_count(&self) -> nat {
        self.func().data@.len()
    }

    /// The actions of block `b`.
    pub open spec fn actions_of(&self, b: int) -> Seq<Action> {
        if b < self.code_count() {
            self.func().data@[b].actions@
        } else {
            self.end_actions()[b - self.code_count()]@
        }
    }

    /// The blocks of the function come first, then one block for every free
    /// region, which holds the one action that ends the region.
    pub open spec fn layout_ok(&self) -> bool {
        &&& self.node_count() == self.code_count() + self.func().regions@.len()
        &&& self.kinds().len() == self.node_count()
        &&& self.end_actions().len() == self.func().regions@.len()
        &&& forall|b: int|
            0 <= b < self.code_count() ==> #[trigger] self.kinds()[b] == BasicBlockKind::Code(
                self.func().data@[b].name,
            )
        &&& forall|j: int|
            0 <= j < self.func().regions@.len() ==> #[trigger] self.kinds()[self.code_count() + j]
                == BasicBlockKind::SkolemizedEnd(self.func().regions@[j].name)
        &&& forall|j: int|
            0 <= j < self.func().regions@.len() ==> {
                let actions = #[trigger] self.end_actions()[j]@;
                &&& actions.len() == 1
                &&& actions[0].kind == ActionKind::SkolemizedEnd(self.func().regions@[j].name)
                &&& actions[0].should_have_error is None
            }
    }

    /// The graph is what `graph_of` says for its function and the entry
    /// named `start`.
    pub open spec fn built_from(&self, func: Func, start: BasicBlock) -> bool {
        &&& self.wf()
        &&& self.func() == func
        &&& graph_of(func, start) matches Ok((edges, s))
        &&& self.entry() == s
        &&& forall|n: int| 0 <= n < self.node_count() ==> self.succs(n) == targets_of(edges, n)
        &&& forall|n: int| 0 <= n < self.node_count() ==> self.preds(n) == sources_of(edges, n)
    }

    /// What block `index` stands for.
    pub fn block_kind(&self, index: BasicBlockIndex) -> (r: BasicBlockKind)
        requires
            self.wf(),
            index.index < self.node_count(),
        ensures
            r == self.kinds()[index.index as int],
    {
        self.blocks[index.index]
    }

    pub fn free_regions(&self) -> (r: &Vec<RegionDecl>)
        ensures
            *r == self.func().regions,
    {
        &self.func.regions
    }

    pub fn decls(&self) -> (r: &Vec<VariableDecl>)
        ensures
            *r == self.func().decls,
    {
        &self.func.decls
    }

    pub fn assertions(&self) -> (r: &Vec<Assertion>)
        ensures
            *r == self.func().assertions,
    {
        &self.func.assertions
    }

    pub fn struct_decls(&self) -> (r: &Vec<StructDecl>)
        ensures
            *r == self.func().structs,
    {
        &self.func.structs
    }

    /// The block that bears the name `name`: the last, where several do.
    pub fn block(&self, name: BasicBlock) -> (r: Option<BasicBlockIndex>)
        requires
            self.wf(),
        ensures
            match r {
                Some(b) => last_block(self.func().data@, name, self.code_count() as int) == Some(
                    b.index as int,
                ) && b.index < self.code_count(),
                None => last_block(self.func().data@, name, self.code_count() as int) is None,
            },
    {
        match find_block(&self.func.data, name) {
            Some(i) => Some(BasicBlockIndex { index: i }),
            None => None,
        }
    }

    /// The block that stands for the end of the region `name`.
    pub fn skolemized_end(&self, name: RegionName) -> (r: Option<BasicBlockIndex>)
        requires
            self.wf(),
        ensures
            match r {
                Some(b) => last_region(
                    self.func().regions@,
                    name,
                    self.func().regions@.len() as int,
                ) == Some(b.index - self.code_count()) && self.code_count() <= b.index
                    < self.node_count(),
                None => last_region(self.func().regions@, name, self.func().regions@.len() as int) is None,
            },
    {
        proof {
            self.graph.lemma_edges();
        }
        match find_region(&self.func.regions, name) {
            Some(j) => Some(BasicBlockIndex { index: self.func.data.len() + j }),
            None => None,
        }
    }

    pub fn block_data(&self, index: BasicBlockIndex) -> (r: BasicBlockData<'_>)
        requires
            self.wf(),
            index.index < self.node_count(),
        ensures
            r.action_list() == self.actions_of(index.index as int),
            index.index < self.code_count() ==> r == BasicBlockData::Code(
                &self.func().data@[index.index as int],
            ),
            index.index >= self.code_count() ==> r is SkolemizedEnd,
    {
        if index.index < self.func.data.len() {
            BasicBlockData::Code(&self.func.data[index.index])
        } else {
            BasicBlockData::SkolemizedEnd(
                &self.skolemized_end_actions[index.index - self.func.data.len()],
            )
        }
    }

    /// `r` is what building the graph of `func` with the entry named
    /// `start` gives.
    pub open spec fn answers(r: Result<Self, StructuralError>, func: Func, start: BasicBlock) -> bool {
        match r {
            Ok(g) => g.built_from(func, start),
            Err(e) => graph_of(func, start) == Err::<(Seq<(usize, usize)>, int), StructuralError>(e),
        }
    }

    /// The graph of `func`, entered at the block named `START`: what
    /// `with_start` gives for the symbol that the interner hands out for
    /// that name.
    pub fn new(func: Func) -> (r: Result<Self, StructuralError>)
        ensures
            exists|start: BasicBlock| #[trigger] Self::answers(r, func, start),
    {
        let start = BasicBlock::start();
        Self::with_start(func, start)
    }

    /// The graph of `func`, entered at the block named `start`.
    pub fn with_start(func: Func, start: BasicBlock) -> (r: Result<Self, StructuralError>)
        ensures
            Self::answers(r, func, start),
    {
        let code_count = func.data.len();
        let region_count = func.regions.len();
        let num_nodes = match code_count.checked_add(region_count) {
            None => {
                return Err(StructuralError::TooLarge);
            },
            Some(n) => n,
        };
        if !fits(region_count, region_count) {
            return Err(StructuralError::TooLarge);
        }
        let pairs = match region_pairs(&func.regions) {
            Err(e) => {
                return Err(e);
            },
            Ok(pairs) => pairs,
        };
        let roots = outlives_roots(&pairs, region_count);
        let mut edges = match block_edges(&func.data, &roots) {
            Err(e) => {
                return Err(e);
            },
            Ok(edges) => edges,
        };
        let ghost code_part = edges@;
        let mut i: usize = 0;
        while i < pairs.len()
            invariant
                i <= pairs.len(),
                num_nodes == code_count + region_count,
                forall|k: int| 0 <= k < pairs.len() ==> pairs[k].0 < region_count && pairs[k].1 < region_count,
                forall|k: int| 0 <= k < edges.len() ==> edges[k].0 < num_nodes && edges[k].1 < num_nodes,
                edges@ == code_part + end_edges(pairs@, code_count as int).subrange(0, i as int),
            decreases pairs.len() - i,
        {
            let (sub, sup) = pairs[i];
            edges.push((code_count + sub, code_count + sup));
            proof {
                let all = end_edges(pairs@, code_count as int);
                assert(all.subrange(0, i as int + 1) =~= all.subrange(0, i as int).push(all[i as int]));
                assert(edges@ =~= code_part + all.subrange(0, i as int + 1));
            }
            i += 1;
        }
        proof {
            let all = end_edges(pairs@, code_count as int);
            assert(all.subrange(0, pairs.len() as int) =~= all);
        }
        let start_index = match find_block(&func.data, start) {
            None => {
                return Err(StructuralError::UndeclaredBlock);
            },
            Some(s) => s,
        };
        let graph = VecGraph::from_edges(num_nodes, start_index, edges.as_slice());
        let mut blocks: Vec<BasicBlockKind> = Vec::new();
        let mut b: usize = 0;
        while b < code_count
            invariant
                b <= code_count,
                code_count == func.data.len(),
                blocks.len() == b,
                forall|k: int| 0 <= k < b ==> #[trigger] blocks[k] == BasicBlockKind::Code(func.data[k].name),
            decreases code_count - b,
        {
            blocks.push(BasicBlockKind::Code(func.data[b].name));
            b += 1;
        }
        let mut ends: Vec<Vec<Action>> = Vec::new();
        let mut j: usize = 0;
        while j < region_count
            invariant
                j <= region_count,
                code_count == func.data.len(),
                region_count == func.regions.len(),
                blocks.len() == code_count + j,
                ends.len() == j,
                forall|k: int| 0 <= k < code_count ==> #[trigger] blocks[k] == BasicBlockKind::Code(func.data[k].name),
                forall|k: int|
                    0 <= k < j ==> #[trigger] blocks[code_count + k] == BasicBlockKind::SkolemizedEnd(
                        func.regions[k].name,
                    ),
                forall|k: int|
                    0 <= k < j ==> {
                        let actions = #[trigger] ends[k]@;
                        &&& actions.len() == 1
                        &&& actions[0].kind == ActionKind::SkolemizedEnd(func.regions[k].name)
                        &&& actions[0].should_have_error is None
                    },
            decreases region_count - j,
        {
            let name = func.regions[j].name;
            blocks.push(BasicBlockKind::SkolemizedEnd(name));
            let mut actions: Vec<Action> = Vec::new();
            actions.push(Action { kind: ActionKind::SkolemizedEnd(name), should_have_error: None });
            ends.push(actions);
            j += 1;
        }
        Ok(
            FuncGraph {
                func,
                start_block: BasicBlockIndex { index: start_index },
                blocks,
                graph,
                skolemized_end_actions: ends,
            },
        )
    }
}

/// The last block that bears the name `name`.
pub fn find_block(data: &Vec<BlockDecl>, name: BasicBlock) -> (r: Option<usize>)
    ensures
        match r {
            Some(i) => last_block(data@, name, data@.len() as int) == Some(i as int) && i < data.len(),
            None => last_block(data@, name, data@.len() as int) is None,
        },
{
    let mut i: usize = data.len();
    while i > 0
        invariant
            i <= data.len(),
            last_block(data@, name, data@.len() as int) == last_block(data@, name, i as int),
        decreases i,
    {
        i -= 1;
        if data[i].name.same(name) {
            return Some(i);
        }
    }
    None
}

/// The last region that bears the name `name`.
pub fn find_region(regions: &Vec<RegionDecl>, name: RegionName) -> (r: Option<usize>)
    ensures
        match r {
            Some(i) => last_region(regions@, name, regions@.len() as int) == Some(i as int) && i
                < regions.len(),
            None => last_region(regions@, name, regions@.len() as int) is None,
        },
{
    let mut i: usize = regions.len();
    while i > 0
        invariant
            i <= regions.len(),
            last_region(regions@, name, regions@.len() as int) == last_region(regions@, name, i as int),
        decreases i,
    {
        i -= 1;
        if regions[i].name.same(name) {
            return Some(i);
        }
    }
    None
}

/// The pairs of all the outlives clauses.
fn region_pairs(regions: &Vec<RegionDecl>) -> (r: Result<Vec<(usize, usize)>, StructuralError>)
    ensures
        match r {
            Ok(pairs) => outlives_pairs(regions@, regions@.len() as int) == Ok::<
                Seq<(usize, usize)>,
                StructuralError,
            >(pairs@) && forall|k: int|
                0 <= k < pairs.len() ==> pairs[k].0 < regions.len() && pairs[k].1 < regions.len(),
            Err(e) => outlives_pairs(regions@, regions@.len() as int) == Err::<
                Seq<(usize, usize)>,
                StructuralError,
            >(e),
        },
{
    let mut pairs: Vec<(usize, usize)> = Vec::new();
    let mut a: usize = 0;
    while a < regions.len()
        invariant
            a <= regions.len(),
            outlives_pairs(regions@, a as int) == Ok::<Seq<(usize, usize)>, StructuralError>(pairs@),
            forall|k: int| 0 <= k < pairs.len() ==> pairs[k].0 < regions.len() && pairs[k].1 < regions.len(),
        decreases regions.len() - a,
    {
        let ghost before = pairs@;
        let ghost mut done: Seq<(usize, usize)> = Seq::empty();
        let clauses = &regions[a].outlives;
        let mut c: usize = 0;
        proof {
            assert(pairs@ =~= before + done);
        }
        while c < clauses.len()
            invariant
                a < regions.len(),
                c <= clauses.len(),
                *clauses == regions[a as int].outlives,
                outlives_pairs(regions@, a as int) == Ok::<Seq<(usize, usize)>, StructuralError>(before),
                clause_pairs(regions@, a as int, c as int) == Ok::<Seq<(usize, usize)>, StructuralError>(
                    done,
                ),
                pairs@ == before + done,
                forall|k: int| 0 <= k < pairs.len() ==> pairs[k].0 < regions.len() && pairs[k].1 < regions.len(),
            decreases clauses.len() - c,
        {
            match find_region(regions, clauses[c]) {
                None => {
                    proof {
                        assert(clause_pairs(regions@, a as int, c as int + 1) == Err::<
                            Seq<(usize, usize)>,
                            StructuralError,
                        >(StructuralError::UndeclaredRegion));
                        lemma_clause_err(regions@, a as int, c as int + 1, clauses.len() as int);
                        assert(outlives_pairs(regions@, a as int + 1) == Err::<
                            Seq<(usize, usize)>,
                            StructuralError,
                        >(StructuralError::UndeclaredRegion));
                        lemma_pairs_err(regions@, a as int + 1, regions@.len() as int);
                    }
                    return Err(StructuralError::UndeclaredRegion);
                },
                Some(b) => {
                    pairs.push((b, a));
                    proof {
                        assert(pairs@ =~= before + done.push((b, a)));
                        done = done.push((b, a));
                    }
                },
            }
            c += 1;
        }
        a += 1;
    }
    Ok(pairs)
}

proof fn lemma_pairs_ok(regions: Seq<RegionDecl>, at: int, upto: int)
    requires
        0 < at <= upto <= regions.len(),
        outlives_pairs(regions, upto) is Ok,
    ensures
        outlives_pairs(regions, at) is Ok,
        clause_pairs(regions, at - 1, regions[at - 1].outlives.len() as int) is Ok,
    decreases upto - at,
{
    if at < upto {
        lemma_pairs_ok(regions, at, upto - 1);
    }
}

proof fn lemma_clauses_ok(regions: Seq<RegionDecl>, a: int, at: int, upto: int)
    requires
        0 < at <= upto <= regions[a].outlives.len(),
        clause_pairs(regions, a, upto) is Ok,
    ensures
        clause_pairs(regions, a, at) is Ok,
        last_region(regions, regions[a].outlives[at - 1], regions.len() as int) is Some,
    decreases upto - at,
{
    if at < upto {
        lemma_clauses_ok(regions, a, at, upto - 1);
    }
}

proof fn lemma_clause_err(regions: Seq<RegionDecl>, a: int, at: int, upto: int)
    requires
        0 < at <= upto <= regions[a].outlives.len(),
        clause_pairs(regions, a, at) is Err,
    ensures
        clause_pairs(regions, a, upto) == clause_pairs(regions, a, at),
    decreases upto - at,
{
    if at < upto {
        lemma_clause_err(regions, a, at, upto - 1);
    }
}

proof fn lemma_pairs_err(regions: Seq<RegionDecl>, at: int, upto: int)
    requires
        0 < at <= upto <= regions.len(),
        outlives_pairs(regions, at) is Err,
    ensures
        outlives_pairs(regions, upto) == outlives_pairs(regions, at),
    decreases upto - at,
{
    if at < upto {
        lemma_pairs_err(regions, at, upto - 1);
    }
}

proof fn lemma_successor_err(data: Seq<BlockDecl>, b: int, at: int, upto: int)
    requires
        0 < at <= upto <= data[b].successors.len(),
        successor_edges(data, b, at) is Err,
    ensures
        successor_edges(data, b, upto) == successor_edges(data, b, at),
    decreases upto - at,
{
    if at < upto {
        lemma_successor_err(data, b, at, upto - 1);
    }
}

proof fn lemma_code_err(data: Seq<BlockDecl>, roots: Seq<usize>, at: int, upto: int)
    requires
        0 < at <= upto <= data.len(),
        code_edges(data, roots, at) is Err,
    ensures
        code_edges(data, roots, upto) == code_edges(data, roots, at),
    decreases upto - at,
{
    if at < upto {
        lemma_code_err(data, roots, at, upto - 1);
    }
}

/// The edges that leave the blocks of the function.
fn block_edges(data: &Vec<BlockDecl>, roots: &Vec<usize>) -> (r: Result<
    Vec<(usize, usize)>,
    StructuralError,
>)
    requires
        forall|k: int| 0 <= k < roots.len() ==> data.len() + roots[k] <= usize::MAX,
    ensures
        match r {
            Ok(edges) => code_edges(data@, roots@, data@.len() as int) == Ok::<
                Seq<(usize, usize)>,
                StructuralError,
            >(edges@) && forall|k: int|
                0 <= k < edges.len() ==> edges[k].0 < data.len() && (edges[k].1 < data.len() || exists|q: int|
                    0 <= q < roots.len() && edges[k].1 == data.len() + roots[q]),
            Err(e) => code_edges(data@, roots@, data@.len() as int) == Err::<
                Seq<(usize, usize)>,
                StructuralError,
            >(e),
        },
{
    let mut edges: Vec<(usize, usize)> = Vec::new();
    let mut b: usize = 0;
    while b < data.len()
        invariant
            b <= data.len(),
            forall|k: int| 0 <= k < roots.len() ==> data.len() + roots[k] <= usize::MAX,
            code_edges(data@, roots@, b as int) == Ok::<Seq<(usize, usize)>, StructuralError>(edges@),
            forall|k: int|
                0 <= k < edges.len() ==> edges[k].0 < data.len() && (edges[k].1 < data.len() || exists|q: int|
                    0 <= q < roots.len() && edges[k].1 == data.len() + roots[q]),
        decreases data.len() - b,
    {
        let ghost before = edges@;
        let successors = &data[b].successors;
        if successors.len() == 0 {
            let mut q: usize = 0;
            while q < roots.len()
                invariant
                    b < data.len(),
                    q <= roots.len(),
                    forall|k: int| 0 <= k < roots.len() ==> data.len() + roots[k] <= usize::MAX,
                    edges@ == before + root_edges(b as int, data@.len() as int, roots@).subrange(
                        0,
                        q as int,
                    ),
                    forall|k: int|
                        0 <= k < edges.len() ==> edges[k].0 < data.len() && (edges[k].1 < data.len()
                            || exists|q: int| 0 <= q < roots.len() && edges[k].1 == data.len() + roots[q]),
                decreases roots.len() - q,
            {
                edges.push((b, data.len() + roots[q]));
                proof {
                    let all = root_edges(b as int, data@.len() as int, roots@);
                    assert(all.subrange(0, q as int + 1) =~= all.subrange(0, q as int).push(all[q as int]));
                    assert(edges@ =~= before + all.subrange(0, q as int + 1));
                }
                q += 1;
            }
            proof {
                let all = root_edges(b as int, data@.len() as int, roots@);
                assert(all.subrange(0, roots.len() as int) =~= all);
            }
        } else {
            let mut s: usize = 0;
            let ghost mut done: Seq<(usize, usize)> = Seq::empty();
            proof {
                assert(edges@ =~= before + done);
            }
            while s < successors.len()
                invariant
                    b < data.len(),
                    s <= successors.len(),
                    successors.len() > 0,
                    *successors == data[b as int].successors,
                    code_edges(data@, roots@, b as int) == Ok::<Seq<(usize, usize)>, StructuralError>(
                        before,
                    ),
                    successor_edges(data@, b as int, s as int) == Ok::<
                        Seq<(usize, usize)>,
                        StructuralError,
                    >(done),
                    edges@ == before + done,
                    forall|k: int|
                        0 <= k < edges.len() ==> edges[k].0 < data.len() && (edges[k].1 < data.len()
                            || exists|q: int| 0 <= q < roots.len() && edges[k].1 == data.len() + roots[q]),
                decreases successors.len() - s,
            {
                match find_block(data, successors[s]) {
                    None => {
                        proof {
                            assert(successor_edges(data@, b as int, s as int + 1) == Err::<
                                Seq<(usize, usize)>,
                                StructuralError,
                            >(StructuralError::UndeclaredBlock));
                            lemma_successor_err(data@, b as int, s as int + 1, successors.len() as int);
                            assert(code_edges(data@, roots@, b as int + 1) == Err::<
                                Seq<(usize, usize)>,
                                StructuralError,
                            >(StructuralError::UndeclaredBlock));
                            lemma_code_err(data@, roots@, b as int + 1, data@.len() as int);
                        }
                        return Err(StructuralError::UndeclaredBlock);
                    },
                    Some(t) => {
                        edges.push((b, t));
                        proof {
                            assert(edges@ =~= before + done.push((b, t)));
                            done = done.push((b, t));
                        }
                    },
                }
                s += 1;
            }
        }
        b += 1;
    }
    Ok(edges)
}

/// The regions that end first, in rising order.
fn outlives_roots(pairs: &Vec<(usize, usize)>, count: usize) -> (roots: Vec<usize>)
    requires
        count * words_for(count as nat) <= usize::MAX,
        forall|k: int| 0 <= k < pairs.len() ==> pairs[k].0 < count && pairs[k].1 < count,
    ensures
        roots@ == roots_upto(pairs@, count as int, count as int),
        forall|k: int| 0 <= k < roots.len() ==> roots[k] < count,
{
    let mut roots: Vec<usize> = Vec::new();
    if count == 0 {
        return roots;
    }
    let graph = VecGraph::from_edges(count, 0, pairs.as_slice());
    let mut order: Vec<usize> = Vec::new();
    let mut n: usize = 0;
    while n < count
        invariant
            n <= count,
            order.len() == n,
            forall|k: int| 0 <= k < n ==> order[k] == k,
        decreases count - n,
    {
        order.push(n);
        n += 1;
    }
    let reach = reachable_given_rpo(&graph, order.as_slice());
    proof {
        assert forall|a: int, b: int| 0 <= a < count && 0 <= b < count implies (reach.can(a, b)
            <==> ends_before(pairs@, a, b)) by {
            lemma_reach_is_ends_before(&graph, pairs@, order@, a, b);
        }
    }
    let mut r: usize = 0;
    while r < count
        invariant
            r <= count,
            count > 0,
            reach.wf(),
            reach.node_count() == count,
            forall|a: int, b: int|
                0 <= a < count && 0 <= b < count ==> (#[trigger] reach.can(a, b) <==> ends_before(
                    pairs@,
                    a,
                    b,
                )),
            roots@ == roots_upto(pairs@, count as int, r as int),
            forall|k: int| 0 <= k < roots.len() ==> roots[k] < count,
        decreases count - r,
    {
        let mut is_root = true;
        let mut x: usize = 0;
        while x < count
            invariant
                x <= count,
                r < count,
                reach.wf(),
                reach.node_count() == count,
                forall|a: int, b: int|
                    0 <= a < count && 0 <= b < count ==> (#[trigger] reach.can(a, b) <==> ends_before(
                        pairs@,
                        a,
                        b,
                    )),
                is_root == ((forall|y: int|
                    0 <= y < x && #[trigger] ends_before(pairs@, y, r as int) ==> ends_before(
                        pairs@,
                        r as int,
                        y,
                    )) && (forall|y: int|
                    0 <= y < x && y < r ==> !(#[trigger] ends_before(pairs@, y, r as int) && ends_before(
                        pairs@,
                        r as int,
                        y,
                    )))),
            decreases count - x,
        {
            let comes_before = reach.can_reach(x, r);
            let comes_after = reach.can_reach(r, x);
            proof {
                assert(reach.can(x as int, r as int) <==> ends_before(pairs@, x as int, r as int));
                assert(reach.can(r as int, x as int) <==> ends_before(pairs@, r as int, x as int));
            }
            if comes_before && !comes_after {
                is_root = false;
            }
            if x < r && comes_before && comes_after {
                is_root = false;
            }
            x += 1;
        }
        if is_root {
            roots.push(r);
        }
        r += 1;
    }
    roots
}

/// In the graph of the pairs, with every node listed, the bit matrix says
/// which end comes before which.
proof fn lemma_reach_is_ends_before(
    g: &VecGraph,
    pairs: Seq<(usize, usize)>,
    order: Seq<usize>,
    a: int,
    b: int,
)
    requires
        g.wf(),
        0 <= a < g.node_count(),
        0 <= b < g.node_count(),
        forall|n: int| 0 <= n < g.node_count() ==> g.succs(n) == targets_of(pairs, n),
        forall|k: int| 0 <= k < pairs.len() ==> pairs[k].0 < g.node_count() && pairs[k].1 < g.node_count(),
        order.len() == g.node_count(),
        forall|k: int| 0 <= k < order.len() ==> order[k] == k,
    ensures
        links_to(g, order, a, b) <==> ends_before(pairs, a, b),
{
    g.lemma_edges();
    if links_to(g, order, a, b) {
        let w = choose|walk: Seq<int>| #[trigger]
            is_walk(g, walk) && walk[0] == a && walk.last() == b && listed_walk(order, walk);
        assert forall|i: int| 0 <= i < w.len() - 1 implies exists|k: int|
            0 <= k < pairs.len() && pairs[k].0 == #[trigger] w[i] && pairs[k].1 == w[i + 1] by {
            assert(has_edge(g, w[i], w[i + 1]));
            lemma_targets_has(pairs, w[i], w[i + 1] as usize);
        }
        assert(pair_walk(pairs, w));
    }
    if ends_before(pairs, a, b) {
        let w = choose|walk: Seq<int>| #[trigger] pair_walk(pairs, walk) && walk[0] == a && walk.last() == b;
        assert forall|i: int| 0 <= i < w.len() implies 0 <= #[trigger] w[i] < g.node_count() by {
            if i < w.len() - 1 {
                let k = choose|k: int| 0 <= k < pairs.len() && pairs[k].0 == w[i] && pairs[k].1 == w[i + 1];
            } else if i > 0 {
                let k = choose|k: int|
                    0 <= k < pairs.len() && pairs[k].0 == w[i - 1] && pairs[k].1 == w[i - 1 + 1];
            }
        }
        assert forall|i: int| 0 <= i < w.len() - 1 implies has_edge(g, #[trigger] w[i], w[i + 1]) by {
            let k = choose|k: int| 0 <= k < pairs.len() && pairs[k].0 == w[i] && pairs[k].1 == w[i + 1];
            lemma_targets_has(pairs, w[i], w[i + 1] as usize);
            assert(0 <= w[i + 1] < g.node_count());
        }
        assert forall|i: int| 0 <= i < w.len() && (i >= 1 || w.len() == 1) implies order.contains(
            #[trigger] w[i] as usize,
        ) by {
            assert(order[w[i]] == w[i] as usize);
        }
        assert(is_walk(g, w) && listed_walk(order, w));
    }
}

impl Graph for FuncGraph {
    closed spec fn wf(&self) -> bool {
        &&& self.graph.wf()
        &&& self.graph.node_count() == self.func.data@.len() + self.func.regions@.len()
        &&& self.start_block.index == self.graph.entry()
        &&& self.layout_ok()
        &&& outlives_pairs(self.func.regions@, self.func.regions@.len() as int) is Ok
    }

    closed spec fn node_count(&self) -> nat {
        self.graph.node_count()
    }

    closed spec fn entry(&self) -> nat {
        self.graph.entry()
    }

    closed spec fn preds(&self, node: int) -> Seq<usize> {
        self.graph.preds(node)
    }

    closed spec fn succs(&self, node: int) -> Seq<usize> {
        self.graph.succs(node)
    }

    proof fn lemma_edges(&self) {
        self.graph.lemma_edges();
    }

    fn num_nodes(&self) -> (n: usize) {
        self.graph.num_nodes()
    }

    fn start_node(&self) -> (s: usize) {
        proof {
            self.graph.lemma_edges();
        }
        self.start_block.index
    }

    fn predecessors(&self, node: usize) -> (r: &Vec<usize>) {
        self.graph.predecessors(node)
    }

    fn successors(&self, node: usize) -> (r: &Vec<usize>) {
        self.graph.successors(node)
    }
}

impl FuncGraph {
    /// What a valid graph says of its layout, and of the outlives clauses:
    /// each names a declared region.
    pub proof fn lemma_layout(&self)
        requires
            self.wf(),
        ensures
            self.layout_ok(),
            outlives_pairs(self.func().regions@, self.func().regions@.len() as int) is Ok,
    {
    }

    /// In a valid graph every outlives clause names a declared region.
    pub proof fn lemma_clause_declared(&self, a: int, c: int)
        requires
            self.wf(),
            0 <= a < self.func().regions@.len(),
            0 <= c < self.func().regions@[a].outlives@.len(),
        ensures
            last_region(
                self.func().regions@,
                self.func().regions@[a].outlives@[c],
                self.func().regions@.len() as int,
            ) is Some,
    {
        let regions = self.func().regions@;
        lemma_pairs_ok(regions, a + 1, regions.len() as int);
        lemma_clauses_ok(regions, a, c + 1, regions[a].outlives@.len() as int);
    }
}

} // verus!
