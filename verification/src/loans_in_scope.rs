//! Loans in scope: for every point, which borrows are in scope there. A
//! loan comes into scope after its borrow, and goes out of scope where its
//! region ends or where the path that was borrowed is overwritten.

use crate::bit_set::{fits, words_for, BitBuf, BitSet};
use crate::env::{Environment, Point};
use crate::errors::StructuralError;
use crate::func_graph::{BasicBlockIndex, FuncGraph};
use crate::graph::Graph;
use crate::liveness::{buf_set, exit_of, sets_below};
use crate::region::Region;
use crate::regionck::RegionCheck;
use crate::repr::{is_prefix_of, Action, ActionKind, BorrowKind, Path, RegionName};
use vstd::prelude::*;

verus! {

pub struct Loan<'cx> {
    pub point: Point,
    pub path: &'cx Path,
    pub kind: BorrowKind,
    pub region: &'cx Region,
}

/// What a loan is: where it was made, of what path, of which kind, and for
/// which points.
pub ghost struct LoanModel {
    pub point: Point,
    pub path: Path,
    pub kind: BorrowKind,
    pub region: Set<Point>,
}

impl<'cx> View for Loan<'cx> {
    type V = LoanModel;

    open spec fn view(&self) -> LoanModel {
        LoanModel { point: self.point, path: *self.path, kind: self.kind, region: self.region.set() }
    }
}

/// What a list of loans is.
pub open spec fn loan_models(loans: Seq<Loan>) -> Seq<LoanModel> {
    Seq::new(loans.len(), |i: int| loans[i]@)
}

/// The path that the action overwrites, if any.
pub open spec fn overwritten(kind: ActionKind) -> Option<Path> {
    match kind {
        ActionKind::Borrow(p, _, _, _) => Some(*p),
        ActionKind::Init(a, _) => Some(*a),
        ActionKind::Assign(a, _) => Some(*a),
        _ => None,
    }
}

pub trait Overwrites {
    spec fn kind_of(&self) -> ActionKind;

    /// Returns path that this action overwrites, if any.
    fn overwrites(&self) -> (r: Option<&Path>)
        ensures
            match r {
                Some(p) => overwritten(self.kind_of()) == Some(*p),
                None => overwritten(self.kind_of()) is None,
            },
    ;
}

impl Overwrites for Action {
    open spec fn kind_of(&self) -> ActionKind {
        self.kind
    }

    fn overwrites(&self) -> (r: Option<&Path>) {
        match &self.kind {
            ActionKind::Borrow(p, _, _, _) => Some(p),
            ActionKind::Init(a, _) => Some(a),
            ActionKind::Assign(a, _) => Some(a),
            ActionKind::Constraint(_) => None,
            ActionKind::Use(_) => None,
            ActionKind::Drop(_) => None,
            ActionKind::Noop => None,
            ActionKind::StorageDead(_) => None,
            ActionKind::SkolemizedEnd(_) => None,
        }
    }
}

/// A borrow as the program states it.
pub ghost struct Borrow {
    pub point: Point,
    pub path: Path,
    pub kind: BorrowKind,
    pub region: RegionName,
}

/// The borrows among the first `upto` actions of block `b`.
pub open spec fn block_borrows(actions: Seq<Action>, b: int, upto: int) -> Seq<Borrow>
    decreases upto,
{
    if upto <= 0 || upto > actions.len() {
        Seq::empty()
    } else {
        match actions[upto - 1].kind {
            ActionKind::Borrow(_, region, kind, path) => block_borrows(actions, b, upto - 1).push(
                Borrow {
                    point: Point {
                        block: BasicBlockIndex { index: b as usize },
                        action: (upto - 1) as usize,
                    },
                    path: *path,
                    kind,
                    region,
                },
            ),
            _ => block_borrows(actions, b, upto - 1),
        }
    }
}

/// The borrows of the first `upto` blocks of the reverse post-order.
pub open spec fn all_borrows(env: &Environment, upto: int) -> Seq<Borrow>
    decreases upto,
{
    if upto <= 0 {
        Seq::empty()
    } else {
        let b = env.reverse_post_order@[upto - 1] as int;
        all_borrows(env, upto - 1) + block_borrows(
            env.graph.actions_of(b),
            b,
            env.graph.actions_of(b).len() as int,
        )
    }
}

/// The borrows found so far are the first of all the borrows.
pub proof fn lemma_borrows_grow(env: &Environment, idx: int, upto_action: int, upto: int)
    requires
        0 <= idx < upto <= env.reverse_post_order@.len(),
        0 <= upto_action <= env.graph.actions_of(env.reverse_post_order@[idx] as int).len(),
    ensures
        ({
            let b = env.reverse_post_order@[idx] as int;
            let found = all_borrows(env, idx) + block_borrows(env.graph.actions_of(b), b, upto_action);
            let all = all_borrows(env, upto);
            found.len() <= all.len() && forall|i: int| 0 <= i < found.len() ==> found[i] == all[i]
        }),
    decreases upto - idx, env.graph.actions_of(env.reverse_post_order@[idx] as int).len() - upto_action,
{
    let b = env.reverse_post_order@[idx] as int;
    let actions = env.graph.actions_of(b);
    if upto_action < actions.len() {
        lemma_borrows_grow(env, idx, upto_action + 1, upto);
        let found = all_borrows(env, idx) + block_borrows(actions, b, upto_action);
        let next = all_borrows(env, idx) + block_borrows(actions, b, upto_action + 1);
        assert(found.len() <= next.len() && forall|i: int| 0 <= i < found.len() ==> found[i] == next[i]);
    } else if idx + 1 < upto {
        let c = env.reverse_post_order@[idx + 1] as int;
        lemma_borrows_grow(env, idx + 1, 0, upto);
        assert(all_borrows(env, idx + 1) + block_borrows(env.graph.actions_of(c), c, 0) =~= all_borrows(
            env,
            idx + 1,
        ));
    } else {
    }
}

/// The loans of `set` whose region holds `p`.
pub open spec fn in_region(loans: Seq<LoanModel>, set: Set<int>, p: Point) -> Set<int> {
    Set::new(|l: int| set.contains(l) && 0 <= l < loans.len() && loans[l].region.contains(p))
}

/// The action cancels loan `l`: it overwrites a prefix of the borrowed
/// path.
pub open spec fn cancels(loans: Seq<LoanModel>, kind: ActionKind, l: int) -> bool {
    overwritten(kind) matches Some(target) && is_prefix_of(target, loans[l].path)
}

/// The loans in scope after the action at `p`, given those in scope before
/// it: those, and the loan made at `p`, less those that the action cancels.
pub open spec fn after_action(loans: Seq<LoanModel>, kind: ActionKind, p: Point, before: Set<int>) -> Set<int> {
    Set::new(
        |l: int|
            0 <= l < loans.len() && (before.contains(l) || loans[l].point == p) && !cancels(
                loans,
                kind,
                l,
            ),
    )
}

/// The loans in scope at point `i` of block `b`, given those that enter the
/// block.
pub open spec fn scope_at(loans: Seq<LoanModel>, actions: Seq<Action>, b: int, i: int, entry: Set<int>) -> Set<int>
    decreases i,
{
    if i <= 0 || i > actions.len() {
        in_region(loans, entry, Point { block: BasicBlockIndex { index: b as usize }, action: 0 })
    } else {
        in_region(
            loans,
            after_action(
                loans,
                actions[i - 1].kind,
                Point { block: BasicBlockIndex { index: b as usize }, action: (i - 1) as usize },
                scope_at(loans, actions, b, i - 1, entry),
            ),
            Point { block: BasicBlockIndex { index: b as usize }, action: i as usize },
        )
    }
}

/// More loans are in scope where more enter the block.
pub proof fn lemma_scope_mono(
    loans: Seq<LoanModel>,
    actions: Seq<Action>,
    b: int,
    i: int,
    small: Set<int>,
    big: Set<int>,
)
    requires
        small.subset_of(big),
    ensures
        scope_at(loans, actions, b, i, small).subset_of(scope_at(loans, actions, b, i, big)),
    decreases i,
{
    if !(i <= 0 || i > actions.len()) {
        lemma_scope_mono(loans, actions, b, i - 1, small, big);
    }
}

/// A loan in scope at a point holds the point in its region.
pub proof fn lemma_in_scope_in_region(loans: Seq<LoanModel>, actions: Seq<Action>, b: int, i: int, entry: Set<int>, l: int)
    requires
        0 <= i <= actions.len(),
        scope_at(loans, actions, b, i, entry).contains(l),
    ensures
        0 <= l < loans.len(),
        loans[l].region.contains(
            Point { block: BasicBlockIndex { index: b as usize }, action: i as usize },
        ),
{
}

/// Where a loan is in scope at point `j` of a block although action `k`
/// before that point overwrites a prefix of the borrowed path, the loan was
/// made in the block after that action: no overwriting action lies between
/// the borrow and a point where its loan is in scope.
pub proof fn lemma_in_scope_not_overwritten(
    loans: Seq<LoanModel>,
    actions: Seq<Action>,
    b: int,
    j: int,
    entry: Set<int>,
    l: int,
    k: int,
)
    requires
        0 <= k < j <= actions.len() <= usize::MAX,
        0 <= b <= usize::MAX,
        scope_at(loans, actions, b, j, entry).contains(l),
        cancels(loans, actions[k].kind, l),
    ensures
        loans[l].point.block.index == b,
        k < loans[l].point.action < j,
    decreases j,
{
    let before = scope_at(loans, actions, b, j - 1, entry);
    let p = Point { block: BasicBlockIndex { index: b as usize }, action: (j - 1) as usize };
    assert(after_action(loans, actions[j - 1].kind, p, before).contains(l));
    if k == j - 1 {
        assert(false);
    } else {
        if before.contains(l) {
            lemma_in_scope_not_overwritten(loans, actions, b, j - 1, entry, l, k);
        } else {
            assert(loans[l].point == p);
        }
    }
}

/// A loan whose region is empty is in scope nowhere.
pub proof fn lemma_empty_region_out_of_scope(
    loans: Seq<LoanModel>,
    actions: Seq<Action>,
    b: int,
    i: int,
    entry: Set<int>,
    l: int,
)
    requires
        0 <= l < loans.len(),
        loans[l].region == Set::<Point>::empty(),
    ensures
        !scope_at(loans, actions, b, i, entry).contains(l),
{
}

/// What is in scope before the loans whose region has ended are dropped at
/// point `i` of block `b`.
pub open spec fn pre_scope(loans: Seq<LoanModel>, actions: Seq<Action>, b: int, i: int, entry: Set<int>) -> Set<int> {
    if i <= 0 || i > actions.len() {
        entry
    } else {
        after_action(
            loans,
            actions[i - 1].kind,
            Point { block: BasicBlockIndex { index: b as usize }, action: (i - 1) as usize },
            scope_at(loans, actions, b, i - 1, entry),
        )
    }
}

/// The loans in scope at the end of block `b`, given what is in scope at
/// the end of every block.
pub open spec fn scope_out(env: &Environment, loans: Seq<LoanModel>, sets: Seq<Set<int>>, b: int) -> Set<int> {
    scope_at(
        loans,
        env.graph.actions_of(b),
        b,
        env.graph.actions_of(b).len() as int,
        exit_of(env, sets, b),
    )
}

/// At the end of every block of the reverse post-order, `sets` holds what
/// the block leaves in scope of what its successors hand to it.
pub open spec fn is_scope_solution(env: &Environment, loans: Seq<LoanModel>, sets: Seq<Set<int>>) -> bool {
    &&& sets.len() == env.graph.node_count()
    &&& forall|i: int|
        0 <= i < env.reverse_post_order@.len() ==> scope_out(
            env,
            loans,
            sets,
            #[trigger] env.reverse_post_order@[i] as int,
        ).subset_of(sets[env.reverse_post_order@[i] as int])
}

/// `sets` lies below every solution.
#[verifier::opaque]
pub open spec fn least_scope(env: &Environment, loans: Seq<LoanModel>, sets: Seq<Set<int>>) -> bool {
    forall|other: Seq<Set<int>>| #[trigger] is_scope_solution(env, loans, other) ==> sets_below(sets, other)
}

/// There is one least solution: the loans in scope are determined by the
/// function and the regions of its loans.
pub proof fn lemma_scope_unique(env: &Environment, loans: Seq<LoanModel>, a: Seq<Set<int>>, b: Seq<Set<int>>)
    requires
        is_scope_solution(env, loans, a),
        least_scope(env, loans, a),
        is_scope_solution(env, loans, b),
        least_scope(env, loans, b),
    ensures
        a == b,
{
    reveal(least_scope);
    assert(sets_below(a, b));
    assert(sets_below(b, a));
    assert forall|i: int| 0 <= i < a.len() implies a[i] == b[i] by {
        assert(a[i].subset_of(b[i]));
        assert(b[i].subset_of(a[i]));
        assert(a[i] =~= b[i]);
    }
    assert(a =~= b);
}

/// What is in scope at one point.
pub struct ScopeFact {
    pub point: Point,
    /// The index of the action at the point; `None` for the terminator.
    pub action: Option<usize>,
    /// The loans in scope on entry to the point, by their indices.
    pub loans: BitBuf,
}

/// The fact speaks of a point of the graph, names the action at that
/// point, and holds `capacity` bits.
pub open spec fn scope_fact_ok(env: &Environment, capacity: nat, fact: &ScopeFact) -> bool {
    &&& env.is_point(fact.point)
    &&& fact.loans.capacity() == capacity
    &&& fact.action == if fact.point.action < env.graph.actions_of(fact.point.block.index as int).len() {
        Some(fact.point.action)
    } else {
        None::<usize>
    }
}

/// The facts of block `b`: one for each action, in order, then one for the
/// terminator.
pub open spec fn block_scopes(env: &Environment, loans: Seq<LoanModel>, sets: Seq<Set<int>>, b: int) -> Seq<
    (Point, Set<int>),
> {
    Seq::new(
        env.graph.actions_of(b).len() + 1,
        |i: int|
            (
                Point { block: BasicBlockIndex { index: b as usize }, action: i as usize },
                scope_at(loans, env.graph.actions_of(b), b, i, exit_of(env, sets, b)),
            ),
    )
}

/// The facts of the first `upto` blocks of the reverse post-order.
pub open spec fn walk_scopes(env: &Environment, loans: Seq<LoanModel>, sets: Seq<Set<int>>, upto: int) -> Seq<
    (Point, Set<int>),
>
    decreases upto,
{
    if upto <= 0 {
        Seq::empty()
    } else {
        walk_scopes(env, loans, sets, upto - 1) + block_scopes(
            env,
            loans,
            sets,
            env.reverse_post_order@[upto - 1] as int,
        )
    }
}

/// What a list of facts says.
pub open spec fn scopes_view(facts: Seq<ScopeFact>) -> Seq<(Point, Set<int>)> {
    Seq::new(facts.len(), |i: int| (facts[i].point, buf_set(&facts[i].loans)))
}

/// What lies below every solution still does when a block takes in what it
/// leaves in scope.
proof fn lemma_least_scope_kept(
    env: &Environment,
    loans: Seq<LoanModel>,
    sets: Seq<Set<int>>,
    b: int,
    found: Set<int>,
)
    requires
        env.wf(),
        sets.len() == env.graph.node_count(),
        env.reverse_post_order@.contains(b as usize),
        0 <= b < env.graph.node_count(),
        found == scope_out(env, loans, sets, b),
        least_scope(env, loans, sets),
    ensures
        least_scope(env, loans, sets.update(b, sets[b].union(found))),
{
    reveal(least_scope);
    let after = sets.update(b, sets[b].union(found));
    assert forall|other: Seq<Set<int>>| #[trigger] is_scope_solution(env, loans, other) implies sets_below(
        after,
        other,
    ) by {
        assert(sets_below(sets, other));
        env.graph.lemma_edges();
        assert forall|bit: int| exit_of(env, sets, b).contains(bit) implies exit_of(env, other, b).contains(
            bit,
        ) by {
            let k = choose|k: int|
                0 <= k < env.graph.succs(b).len() && sets[#[trigger] env.graph.succs(b)[k] as int].contains(bit);
            assert(sets[env.graph.succs(b)[k] as int].subset_of(other[env.graph.succs(b)[k] as int]));
        }
        lemma_scope_mono(
            loans,
            env.graph.actions_of(b),
            b,
            env.graph.actions_of(b).len() as int,
            exit_of(env, sets, b),
            exit_of(env, other, b),
        );
        let i = choose|i: int| 0 <= i < env.reverse_post_order@.len() && env.reverse_post_order@[i] == b as usize;
        assert(scope_out(env, loans, other, env.reverse_post_order@[i] as int).subset_of(
            other[env.reverse_post_order@[i] as int],
        ));
        assert forall|c: int| 0 <= c < after.len() implies (#[trigger] after[c]).subset_of(other[c]) by {
            assert(sets[c].subset_of(other[c]));
        }
    }
}

/// The loans are those of the borrows, each with the value of its region.
pub open spec fn loans_match(loans: Seq<LoanModel>, borrows: Seq<Borrow>, regionck: &RegionCheck) -> bool {
    &&& loans.len() == borrows.len()
    &&& forall|i: int|
        0 <= i < loans.len() ==> {
            &&& (#[trigger] loans[i]).point == borrows[i].point
            &&& loans[i].path == borrows[i].path
            &&& loans[i].kind == borrows[i].kind
            &&& regionck.value_of(borrows[i].region) == Some(loans[i].region)
        }
}

/// The bit set of the loans in scope, with a bit for every borrow at every
/// block, can be counted in a `usize`.
pub open spec fn loans_fit(env: &Environment) -> bool {
    env.graph.node_count() * words_for(all_borrows(env, env.reverse_post_order@.len() as int).len()) <= usize::MAX
}

/// A variable was made for the region of every borrow.
pub open spec fn regions_known(borrows: Seq<Borrow>, regionck: &RegionCheck) -> bool {
    forall|i: int| 0 <= i < borrows.len() ==> regionck.value_of((#[trigger] borrows[i]).region) is Some
}

pub struct LoansInScope<'cx> {
    env: &'cx Environment<'cx>,
    loans: Vec<Loan<'cx>>,
    loans_in_scope_after_block: BitSet<FuncGraph>,
}

impl<'cx> LoansInScope<'cx> {
    pub closed spec fn env(&self) -> &'cx Environment<'cx> {
        self.env
    }

    /// The loans, in the order of their bits.
    pub closed spec fn loans(&self) -> Seq<LoanModel> {
        loan_models(self.loans@)
    }

    /// The loans in scope at the end of block `b`.
    pub closed spec fn scope_after(&self, b: int) -> Set<int> {
        Set::new(|bit: int| self.loans_in_scope_after_block.has(b, bit))
    }

    /// The loans in scope at the end of every block.
    pub open spec fn scope_sets(&self) -> Seq<Set<int>> {
        Seq::new(self.env().graph.node_count(), |b: int| self.scope_after(b))
    }

    /// Number of bit positions in the set of every point.
    pub closed spec fn capacity(&self) -> nat {
        self.loans_in_scope_after_block.capacity()
    }

    pub closed spec fn wf(&self) -> bool {
        &&& self.env.wf()
        &&& self.loans_in_scope_after_block.wf()
        &&& self.loans_in_scope_after_block.nodes() == self.env.graph.node_count()
        &&& self.loans_in_scope_after_block.width() == self.loans@.len()
        &&& forall|b: int, bit: int|
            #[trigger] self.loans_in_scope_after_block.has(b, bit) ==> bit < self.loans@.len()
        &&& forall|l: int| 0 <= l < self.loans@.len() ==> self.env.is_point((#[trigger] self.loans@[l]).point)
    }

    /// The loans of the function and where they are in scope.
    /// `UndeclaredRegion` where no variable was made for the region of a
    /// borrow; else `TooLarge` where the bits cannot be counted in a
    /// `usize`.
    pub fn new(regionck: &'cx RegionCheck<'cx>) -> (r: Result<Self, StructuralError>)
        requires
            regionck.wf(),
        ensures
            match r {
                Ok(l) => {
                    &&& l.wf()
                    &&& l.env() == regionck.environment()
                    &&& loans_match(
                        l.loans(),
                        all_borrows(l.env(), l.env().reverse_post_order@.len() as int),
                        regionck,
                    )
                    &&& is_scope_solution(l.env(), l.loans(), l.scope_sets())
                    &&& least_scope(l.env(), l.loans(), l.scope_sets())
                    &&& loans_fit(l.env())
                },
                Err(e) => {
                    let env = regionck.environment();
                    let borrows = all_borrows(env, env.reverse_post_order@.len() as int);
                    ||| e == StructuralError::UndeclaredRegion && !regions_known(borrows, regionck)
                    ||| e == StructuralError::TooLarge && regions_known(borrows, regionck)
                        && env.graph.node_count() * words_for(borrows.len()) > usize::MAX
                },
            },
    {
        let env = regionck.env();
        // Collect the full set of loans; these are just the set of `&foo`
        // expressions.
        let mut loans: Vec<Loan<'cx>> = Vec::new();
        let mut idx: usize = 0;
        proof {
            assert(loan_models(loans@) =~= Seq::<LoanModel>::empty());
        }
        while idx < env.reverse_post_order.len()
            invariant
                regionck.wf(),
                env == regionck.environment(),
                env.wf(),
                idx <= env.reverse_post_order@.len(),
                loans_match(loan_models(loans@), all_borrows(env, idx as int), regionck),
                forall|l: int| 0 <= l < loans@.len() ==> env.is_point((#[trigger] loans@[l]).point),
            decreases env.reverse_post_order@.len() - idx,
        {
            let block = env.reverse_post_order[idx];
            proof {
                assert(env.reverse_post_order@[idx as int] < env.graph.node_count());
            }
            let actions = env.graph.block_data(BasicBlockIndex { index: block }).actions();
            let ghost done = all_borrows(env, idx as int);
            let mut index: usize = 0;
            proof {
                assert(done + block_borrows(actions@, block as int, 0) =~= done);
            }
            while index < actions.len()
                invariant
                    regionck.wf(),
                    env == regionck.environment(),
                    env.wf(),
                    idx < env.reverse_post_order@.len(),
                    block == env.reverse_post_order@[idx as int],
                    block < env.graph.node_count(),
                    actions@ == env.graph.actions_of(block as int),
                    done == all_borrows(env, idx as int),
                    index <= actions.len(),
                    loans_match(
                        loan_models(loans@),
                        done + block_borrows(actions@, block as int, index as int),
                        regionck,
                    ),
                    forall|l: int| 0 <= l < loans@.len() ==> env.is_point((#[trigger] loans@[l]).point),
                decreases actions.len() - index,
            {
                let ghost before = loan_models(loans@);
                let ghost borrows = done + block_borrows(actions@, block as int, index as int);
                match &actions[index].kind {
                    ActionKind::Borrow(_, region, kind, path) => {
                        let point = Point { block: BasicBlockIndex { index: block }, action: index };
                        let ghost borrow = Borrow { point, path: **path, kind: *kind, region: *region };
                        proof {
                            assert(block_borrows(actions@, block as int, index as int + 1) == block_borrows(
                                actions@,
                                block as int,
                                index as int,
                            ).push(borrow));
                            assert(done + block_borrows(actions@, block as int, index as int + 1)
                                =~= borrows.push(borrow));
                        }
                        match regionck.region(*region) {
                            None => {
                                proof {
                                    let upto = env.reverse_post_order@.len() as int;
                                    lemma_borrows_grow(env, idx as int, index as int + 1, upto);
                                    let all = all_borrows(env, upto);
                                    assert(all[borrows.len() as int] == borrow);
                                }
                                return Err(StructuralError::UndeclaredRegion);
                            },
                            Some(value) => {
                                loans.push(Loan { point, region: value, kind: *kind, path: &**path });
                                proof {
                                    assert(loan_models(loans@) =~= before.push(loans@[loans@.len() - 1]@));
                                    assert forall|l: int| 0 <= l < loans@.len() implies env.is_point(
                                        (#[trigger] loans@[l]).point,
                                    ) by {}
                                }
                            },
                        }
                    },
                    _ => {
                        proof {
                            assert(block_borrows(actions@, block as int, index as int + 1) == block_borrows(
                                actions@,
                                block as int,
                                index as int,
                            ));
                        }
                    },
                }
                index += 1;
            }
            idx += 1;
        }
        // Get a bit set with the set of in-scope loans at each point in the
        // graph. These correspond to the set of loans in scope at the end
        // of the block.
        let num_nodes = env.graph.num_nodes();
        proof {
            let borrows = all_borrows(env, env.reverse_post_order@.len() as int);
            assert(loan_models(loans@).len() == borrows.len());
            assert forall|i: int| 0 <= i < borrows.len() implies regionck.value_of(
                (#[trigger] borrows[i]).region,
            ) is Some by {
                assert(regionck.value_of(borrows[i].region) == Some(loan_models(loans@)[i].region));
            }
        }
        if !fits(num_nodes, loans.len()) {
            return Err(StructuralError::TooLarge);
        }
        let loans_in_scope_after_block = BitSet::new(env.graph, loans.len());
        // iterate until fixed point
        let mut this = LoansInScope { env, loans, loans_in_scope_after_block };
        this.compute();
        Ok(this)
    }

    /// Follows the loans through `block` from its first action to its
    /// terminator, and leaves in `buf` what is in scope at the end. With
    /// `record`, the facts of the block are appended to `out`.
    fn simulate_block(&self, buf: &mut BitBuf, block: usize, record: bool, out: &mut Vec<ScopeFact>)
        requires
            self.wf(),
            block < self.env.graph.node_count(),
            old(buf).capacity() == self.loans_in_scope_after_block.capacity(),
        ensures
            final(buf).capacity() == old(buf).capacity(),
            buf_set(final(buf)) == scope_out(self.env, self.loans(), self.scope_sets(), block as int),
            record ==> scopes_view(final(out)@) == scopes_view(old(out)@) + block_scopes(
                self.env,
                self.loans(),
                self.scope_sets(),
                block as int,
            ),
            !record ==> final(out)@ == old(out)@,
            final(out)@.len() >= old(out)@.len(),
            forall|i: int| 0 <= i < old(out)@.len() ==> final(out)@[i] == old(out)@[i],
            forall|i: int|
                old(out)@.len() <= i < final(out)@.len() ==> scope_fact_ok(
                    self.env,
                    self.loans_in_scope_after_block.capacity(),
                    &#[trigger] final(out)@[i],
                ),
    {
        let env = self.env;
        let ghost sets = self.scope_sets();
        let ghost loans = self.loans();
        let ghost before_out = scopes_view(out@);
        buf.clear();
        let successors = env.graph.successors(block);
        let mut k: usize = 0;
        while k < successors.len()
            invariant
                self.wf(),
                env == self.env,
                sets == self.scope_sets(),
                block < env.graph.node_count(),
                buf.capacity() == self.loans_in_scope_after_block.capacity(),
                successors@ == env.graph.succs(block as int),
                forall|q: int| 0 <= q < successors.len() ==> successors[q] < env.graph.node_count(),
                k <= successors.len(),
                forall|bit: int|
                    #[trigger] buf.has(bit) <==> exists|q: int|
                        0 <= q < k && sets[#[trigger] successors[q] as int].contains(bit),
            decreases successors.len() - k,
        {
            let succ = successors[k];
            let ghost prev = *buf;
            let row = self.loans_in_scope_after_block.bits(succ);
            buf.set_from(row);
            proof {
                assert forall|bit: int|
                    buf.has(bit) == (prev.has(bit) || self.loans_in_scope_after_block.has(succ as int, bit)) by {
                    assert(row.has(bit) == self.loans_in_scope_after_block.has(succ as int, bit));
                    if self.loans_in_scope_after_block.has(succ as int, bit) {
                        self.loans_in_scope_after_block.lemma_has_in_range(succ as int, bit);
                    }
                }
                assert forall|bit: int|
                    sets[succ as int].contains(bit) == self.loans_in_scope_after_block.has(succ as int, bit) by {
                    assert(sets[succ as int] == self.scope_after(succ as int));
                }
                assert forall|bit: int|
                    #[trigger] buf.has(bit) <==> exists|q: int|
                        0 <= q < k + 1 && sets[#[trigger] successors[q] as int].contains(bit) by {
                    if prev.has(bit) {
                        let q = choose|q: int| 0 <= q < k && sets[#[trigger] successors[q] as int].contains(bit);
                        assert(0 <= q < k + 1);
                    }
                    if exists|q: int| 0 <= q < k + 1 && sets[#[trigger] successors[q] as int].contains(bit) {
                        let q = choose|q: int|
                            0 <= q < k + 1 && sets[#[trigger] successors[q] as int].contains(bit);
                        if q < k {
                            assert(prev.has(bit));
                        } else {
                            assert(successors[q] == succ);
                        }
                    }
                    if self.loans_in_scope_after_block.has(succ as int, bit) {
                        assert(0 <= k < k + 1 && sets[successors[k as int] as int].contains(bit));
                    }
                }
            }
            k += 1;
        }
        proof {
            assert(buf_set(buf) =~= exit_of(env, sets, block as int));
        }
        let ghost entry = buf_set(buf);
        let actions = env.graph.block_data(BasicBlockIndex { index: block }).actions();
        let mut index: usize = 0;
        proof {
            let facts = block_scopes(env, loans, sets, block as int);
            assert(before_out =~= before_out + facts.subrange(0, 0));
            assert forall|bit: int| buf.has(bit) implies bit < self.loans@.len() by {
                let q = choose|q: int|
                    0 <= q < successors.len() && sets[#[trigger] successors[q] as int].contains(bit);
                assert(sets[successors[q] as int] == self.scope_after(successors[q] as int));
                assert(self.loans_in_scope_after_block.has(successors[q] as int, bit));
            }
        }
        while index < actions.len()
            invariant
                self.wf(),
                env == self.env,
                sets == self.scope_sets(),
                loans == self.loans(),
                block < env.graph.node_count(),
                actions@ == env.graph.actions_of(block as int),
                buf.capacity() == self.loans_in_scope_after_block.capacity(),
                index <= actions.len(),
                entry == exit_of(env, sets, block as int),
                buf_set(buf) == pre_scope(loans, actions@, block as int, index as int, entry),
                forall|bit: int| buf.has(bit) ==> bit < self.loans@.len(),
                before_out == scopes_view(old(out)@),
                record ==> scopes_view(out@) == before_out + block_scopes(
                    env,
                    loans,
                    sets,
                    block as int,
                ).subrange(0, index as int),
                !record ==> out@ == old(out)@,
                out@.len() >= old(out)@.len(),
                forall|i: int| 0 <= i < old(out)@.len() ==> out@[i] == old(out)@[i],
                forall|i: int|
                    old(out)@.len() <= i < out@.len() ==> scope_fact_ok(
                        env,
                        self.loans_in_scope_after_block.capacity(),
                        &#[trigger] out@[i],
                    ),
            decreases actions.len() - index,
        {
            let action = &actions[index];
            let point = Point { block: BasicBlockIndex { index: block }, action: index };
            let ghost before = buf_set(buf);
            // kill any loans where `point` is not in their region
            self.drop_ended(buf, point);
            proof {
                assert(buf_set(buf) =~= in_region(loans, before, point));
                assert(buf_set(buf) =~= scope_at(loans, actions@, block as int, index as int, entry));
            }
            let ghost emitted = buf_set(buf);
            // what is in scope at the start of the action
            if record {
                let ghost prev_view = scopes_view(out@);
                out.push(ScopeFact { point, action: Some(index), loans: buf.as_slice().to_buf() });
                proof {
                    let facts = block_scopes(env, loans, sets, block as int);
                    assert(buf_set(&out@[out@.len() - 1].loans) =~= emitted);
                    assert(facts[index as int] == (point, emitted));
                    assert(facts.subrange(0, index as int + 1) =~= facts.subrange(0, index as int).push(
                        facts[index as int],
                    ));
                    assert(scopes_view(out@) =~= prev_view.push((point, emitted)));
                    assert(scopes_view(out@) =~= before_out + facts.subrange(0, index as int + 1));
                }
            }
            // bring the loan into scope after the borrow
            self.issue(buf, point);
            // figure out which path is overwritten by this action; this may
            // cancel out some loans
            let ghost issued = *buf;
            match action.overwrites() {
                Some(overwritten_path) => {
                    self.cancel(buf, overwritten_path);
                },
                None => {},
            }
            proof {
                assert forall|l: int| buf_set(buf).contains(l) <==> after_action(
                    loans,
                    action.kind,
                    point,
                    emitted,
                ).contains(l) by {
                    if 0 <= l < self.loans@.len() {
                        assert(issued.has(l) == (emitted.contains(l) || loans[l].point == point));
                    } else {
                        assert(!emitted.contains(l));
                    }
                }
                assert(buf_set(buf) =~= after_action(loans, action.kind, point, emitted));
                assert(buf_set(buf) =~= pre_scope(loans, actions@, block as int, index as int + 1, entry));
            }
            index += 1;
        }
        // final callback for the terminator
        let point = env.end_point(BasicBlockIndex { index: block });
        let ghost before = buf_set(buf);
        self.drop_ended(buf, point);
        proof {
            assert(buf_set(buf) =~= in_region(loans, before, point));
            assert(buf_set(buf) =~= scope_at(loans, actions@, block as int, actions@.len() as int, entry));
        }
        if record {
            let ghost prev_view = scopes_view(out@);
            out.push(ScopeFact { point, action: None, loans: buf.as_slice().to_buf() });
            proof {
                let facts = block_scopes(env, loans, sets, block as int);
                let last = actions@.len() as int;
                assert(buf_set(&out@[out@.len() - 1].loans) =~= buf_set(buf));
                assert(facts[last] == (point, buf_set(buf)));
                assert(facts.subrange(0, last + 1) =~= facts.subrange(0, last).push(facts[last]));
                assert(scopes_view(out@) =~= prev_view.push((point, buf_set(buf))));
                assert(facts.subrange(0, last + 1) =~= facts);
                assert(scopes_view(out@) =~= before_out + facts);
            }
        }
    }

    /// Iterates until a fixed point, computing the loans in scope after
    /// each block terminates.
    fn compute(&mut self)
        requires
            old(self).wf(),
            forall|b: int, bit: int| !old(self).loans_in_scope_after_block.has(b, bit),
        ensures
            final(self).wf(),
            final(self).env == old(self).env,
            final(self).loans@ == old(self).loans@,
            is_scope_solution(final(self).env, final(self).loans(), final(self).scope_sets()),
            least_scope(final(self).env, final(self).loans(), final(self).scope_sets()),
    {
        let env = self.env;
        let mut bits = self.loans_in_scope_after_block.empty_buf();
        let mut unused: Vec<ScopeFact> = Vec::new();
        let mut changed = true;
        let ghost loans = self.loans();
        proof {
            reveal(least_scope);
            assert forall|other: Seq<Set<int>>| #[trigger] is_scope_solution(env, loans, other) implies sets_below(
                self.scope_sets(),
                other,
            ) by {
                assert forall|b: int| 0 <= b < self.scope_sets().len() implies (
                #[trigger] self.scope_sets()[b]).subset_of(other[b]) by {
                    assert(self.scope_sets()[b] =~= Set::<int>::empty());
                }
            }
        }
        while changed
            invariant
                self.wf(),
                env == self.env,
                env == old(self).env,
                self.loans@ == old(self).loans@,
                loans == self.loans(),
                bits.capacity() == self.loans_in_scope_after_block.capacity(),
                least_scope(env, loans, self.scope_sets()),
                !changed ==> is_scope_solution(env, loans, self.scope_sets()),
            decreases self.loans_in_scope_after_block.slack(), (if changed { 1int } else { 0int }),
        {
            changed = false;
            let ghost round_start = self.loans_in_scope_after_block.slack();
            let mut idx: usize = 0;
            while idx < env.reverse_post_order.len()
                invariant
                    self.wf(),
                    env == self.env,
                    env == old(self).env,
                    self.loans@ == old(self).loans@,
                    loans == self.loans(),
                    bits.capacity() == self.loans_in_scope_after_block.capacity(),
                    idx <= env.reverse_post_order@.len(),
                    least_scope(env, loans, self.scope_sets()),
                    !changed ==> forall|j: int|
                        0 <= j < idx ==> scope_out(
                            env,
                            loans,
                            self.scope_sets(),
                            #[trigger] env.reverse_post_order@[j] as int,
                        ).subset_of(self.scope_sets()[env.reverse_post_order@[j] as int]),
                    self.loans_in_scope_after_block.slack() <= round_start,
                    changed ==> self.loans_in_scope_after_block.slack() < round_start,
                decreases env.reverse_post_order@.len() - idx,
            {
                let block = env.reverse_post_order[idx];
                proof {
                    assert(env.reverse_post_order@[idx as int] < env.graph.node_count());
                }
                self.simulate_block(&mut bits, block, false, &mut unused);
                let ghost before = *self;
                let ghost sets = self.scope_sets();
                let ghost found = buf_set(&bits);
                let slice = bits.as_slice();
                let grew = self.loans_in_scope_after_block.insert_bits_from_slice(block, slice);
                proof {
                    assert(self.scope_sets() =~= sets.update(block as int, sets[block as int].union(found))) by {
                        assert forall|b: int| 0 <= b < sets.len() implies self.scope_sets()[b] =~= sets.update(
                            block as int,
                            sets[block as int].union(found),
                        )[b] by {
                            assert(sets[b] == before.scope_after(b));
                        }
                    }
                    lemma_least_scope_kept(env, loans, sets, block as int, found);
                    assert forall|b: int, bit: int|
                        #[trigger] self.loans_in_scope_after_block.has(b, bit) implies bit < self.loans@.len() by {
                        if !before.loans_in_scope_after_block.has(b, bit) {
                            assert(slice.has(bit));
                            assert(found.contains(bit));
                            assert(scope_out(env, loans, sets, block as int).contains(bit));
                        }
                    }
                    if !grew {
                        assert(found.subset_of(sets[block as int])) by {
                            assert forall|bit: int| found.contains(bit) implies sets[block as int].contains(
                                bit,
                            ) by {
                                assert(slice.has(bit));
                                assert(sets[block as int] == before.scope_after(block as int));
                            }
                        }
                        assert(sets[block as int].union(found) =~= sets[block as int]);
                        assert(self.scope_sets() =~= sets);
                    }
                }
                changed = changed || grew;
                idx += 1;
            }
        }
    }

    /// Invokes `callback` with the loans in scope at each point: here, the
    /// list of what the callback would get, block by block in reverse
    /// post-order, in each block from the first action to the terminator.
    pub fn walk(&self) -> (r: Vec<ScopeFact>)
        requires
            self.wf(),
        ensures
            scopes_view(r@) == walk_scopes(
                self.env(),
                self.loans(),
                self.scope_sets(),
                self.env().reverse_post_order@.len() as int,
            ),
            forall|i: int| 0 <= i < r@.len() ==> scope_fact_ok(self.env(), self.capacity(), &#[trigger] r@[i]),
    {
        let env = self.env;
        let mut out: Vec<ScopeFact> = Vec::new();
        let mut bits = self.loans_in_scope_after_block.empty_buf();
        let mut idx: usize = 0;
        proof {
            assert(scopes_view(out@) =~= walk_scopes(env, self.loans(), self.scope_sets(), 0));
        }
        while idx < env.reverse_post_order.len()
            invariant
                self.wf(),
                env == self.env,
                bits.capacity() == self.loans_in_scope_after_block.capacity(),
                idx <= env.reverse_post_order@.len(),
                scopes_view(out@) == walk_scopes(env, self.loans(), self.scope_sets(), idx as int),
                forall|i: int|
                    0 <= i < out@.len() ==> scope_fact_ok(
                        env,
                        self.loans_in_scope_after_block.capacity(),
                        &#[trigger] out@[i],
                    ),
            decreases env.reverse_post_order@.len() - idx,
        {
            let block = env.reverse_post_order[idx];
            proof {
                assert(env.reverse_post_order@[idx as int] < env.graph.node_count());
            }
            let ghost before = out@;
            self.simulate_block(&mut bits, block, true, &mut out);
            proof {
                assert forall|i: int| 0 <= i < out@.len() implies scope_fact_ok(
                    env,
                    self.loans_in_scope_after_block.capacity(),
                    &#[trigger] out@[i],
                ) by {
                    if i < before.len() {
                        assert(out@[i] == before[i]);
                    }
                }
            }
            idx += 1;
        }
        out
    }

    /// The loans, in the order of their bits.
    pub fn all_loans(&self) -> (r: &Vec<Loan<'cx>>)
        requires
            self.wf(),
        ensures
            loan_models(r@) == self.loans(),
            r@.len() <= self.capacity(),
    {
        &self.loans
    }

    /// Drops from `buf` the loans whose region does not hold `point`.
    fn drop_ended(&self, buf: &mut BitBuf, point: Point)
        requires
            self.wf(),
            old(buf).capacity() == self.loans_in_scope_after_block.capacity(),
        ensures
            final(buf).capacity() == old(buf).capacity(),
            forall|l: int|
                0 <= l < self.loans@.len() ==> (#[trigger] final(buf).has(l) == (old(buf).has(l)
                    && self.loans()[l].region.contains(point))),
            forall|l: int| l >= self.loans@.len() ==> #[trigger] final(buf).has(l) == old(buf).has(l),
    {
        let mut i: usize = 0;
        while i < self.loans.len()
            invariant
                self.wf(),
                buf.capacity() == self.loans_in_scope_after_block.capacity(),
                i <= self.loans@.len(),
                forall|l: int|
                    0 <= l < i ==> (#[trigger] buf.has(l) == (old(buf).has(l) && self.loans()[l].region.contains(
                        point,
                    ))),
                forall|l: int| l >= i ==> #[trigger] buf.has(l) == old(buf).has(l),
            decreases self.loans@.len() - i,
        {
            if !self.loans[i].region.contains(point) {
                buf.kill(i);
            }
            i += 1;
        }
    }

    /// Brings into scope the loans that were made at `point`.
    fn issue(&self, buf: &mut BitBuf, point: Point)
        requires
            self.wf(),
            old(buf).capacity() == self.loans_in_scope_after_block.capacity(),
        ensures
            final(buf).capacity() == old(buf).capacity(),
            forall|l: int|
                0 <= l < self.loans@.len() ==> (#[trigger] final(buf).has(l) == (old(buf).has(l)
                    || self.loans()[l].point == point)),
            forall|l: int| l >= self.loans@.len() ==> #[trigger] final(buf).has(l) == old(buf).has(l),
    {
        let mut i: usize = 0;
        while i < self.loans.len()
            invariant
                self.wf(),
                buf.capacity() == self.loans_in_scope_after_block.capacity(),
                i <= self.loans@.len(),
                forall|l: int|
                    0 <= l < i ==> (#[trigger] buf.has(l) == (old(buf).has(l) || self.loans()[l].point == point)),
                forall|l: int| l >= i ==> #[trigger] buf.has(l) == old(buf).has(l),
            decreases self.loans@.len() - i,
        {
            if self.loans[i].point == point {
                buf.set(i);
            }
            i += 1;
        }
    }

    /// Drops from `buf` the loans of paths that a write to `path`
    /// overwrites: when an assignment like `a.b.c = ...` occurs, the loans
    /// for `a.b.c` or some subpath like `a.b.c.d` end, since the path no
    /// longer evaluates to the same thing.
    fn cancel(&self, buf: &mut BitBuf, path: &Path)
        requires
            self.wf(),
            old(buf).capacity() == self.loans_in_scope_after_block.capacity(),
        ensures
            final(buf).capacity() == old(buf).capacity(),
            forall|l: int|
                0 <= l < self.loans@.len() ==> (#[trigger] final(buf).has(l) == (old(buf).has(l)
                    && !is_prefix_of(*path, self.loans()[l].path))),
            forall|l: int| l >= self.loans@.len() ==> #[trigger] final(buf).has(l) == old(buf).has(l),
    {
        let mut i: usize = 0;
        while i < self.loans.len()
            invariant
                self.wf(),
                buf.capacity() == self.loans_in_scope_after_block.capacity(),
                i <= self.loans@.len(),
                forall|l: int|
                    0 <= l < i ==> (#[trigger] buf.has(l) == (old(buf).has(l) && !is_prefix_of(
                        *path,
                        self.loans()[l].path,
                    ))),
                forall|l: int| l >= i ==> #[trigger] buf.has(l) == old(buf).has(l),
            decreases self.loans@.len() - i,
        {
            if path.is_prefix(self.loans[i].path) {
                buf.kill(i);
            }
            i += 1;
        }
    }
}

} // verus!
