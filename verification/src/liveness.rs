//! Liveness: for every block, which variables may still be used or dropped,
//! and which free regions have not ended yet, when control enters it. One
//! bit stands for each of these facts.

use crate::bit_set::{fits, words_for, BitBuf, BitSet, BitSlice};
use crate::env::{find_decl, find_struct, last_decl, last_struct, ty_of_var, Environment, Point};
use crate::errors::StructuralError;
use crate::func_graph::{find_region, last_region, BasicBlockIndex, FuncGraph};
use crate::graph::Graph;
use crate::repr::{
    base_of, param_models, regions_of, Action, ActionKind, ParamModel, Path, Region, RegionDecl,
    RegionName, StructDecl, Ty, TyModel, TyParameter, Variable, VariableDecl,
};
use vstd::prelude::*;

verus! {

#[derive(Copy, Clone, Debug)]
pub enum BitKind {
    /// If this bit is set, the current value of the variable will be
    /// **used** later on.
    VariableUsed(Variable),
    /// If this bit is set, the current value of the variable will be
    /// **dropped** later on.
    VariableDrop(Variable),
    /// If this bit is set, then the given free region will be **used**.
    FreeRegion(RegionName),
}

/// The bit that stands for a later use of `v`.
pub open spec fn used_bit(decls: Seq<VariableDecl>, v: Variable) -> Option<int> {
    last_decl(decls, v, decls.len() as int)
}

/// The bit that stands for a later drop of `v`.
pub open spec fn drop_bit(decls: Seq<VariableDecl>, v: Variable) -> Option<int> {
    match last_decl(decls, v, decls.len() as int) {
        Some(i) => Some(decls.len() + i),
        None => None,
    }
}

/// The bit that stands for the free region `r`.
pub open spec fn region_bit(decls: Seq<VariableDecl>, regions: Seq<RegionDecl>, r: RegionName) -> Option<int> {
    match last_region(regions, r, regions.len() as int) {
        Some(j) => Some(2 * decls.len() + j),
        None => None,
    }
}

/// The variables whose value the action overwrites as a whole.
pub open spec fn defs_of(kind: ActionKind) -> Seq<Variable> {
    match kind {
        ActionKind::Borrow(p, _, _, _) => seq![base_of(*p)],
        ActionKind::Init(a, _) => match *a {
            Path::Var(v) => seq![v],
            Path::Extension(..) => Seq::empty(),
        },
        ActionKind::Assign(a, _) => match *a {
            Path::Var(v) => seq![v],
            Path::Extension(..) => Seq::empty(),
        },
        _ => Seq::empty(),
    }
}

/// The variable that a write to `a` reads: the base of a projection.
pub open spec fn write_use_of(a: Path) -> Seq<Variable> {
    match a {
        Path::Var(_) => Seq::empty(),
        Path::Extension(..) => seq![base_of(a)],
    }
}

/// The variables whose value the action uses.
pub open spec fn uses_of(kind: ActionKind) -> Seq<Variable> {
    match kind {
        ActionKind::Borrow(_, _, _, q) => seq![base_of(*q)],
        ActionKind::Init(a, params) => Seq::new(params@.len(), |i: int| base_of(*params@[i]))
            + write_use_of(*a),
        ActionKind::Assign(a, b) => seq![base_of(*b)] + write_use_of(*a),
        ActionKind::Use(p) => seq![base_of(*p)],
        _ => Seq::empty(),
    }
}

pub trait DefUse {
    spec fn kind_of(&self) -> ActionKind;

    /// Returns (defs, uses), where `defs` contains variables whose current
    /// value is completely overwritten, and `uses` contains variables whose
    /// current value is used. Note that a variable may exist in both sets.
    fn def_use(&self) -> (r: (Vec<Variable>, Vec<Variable>))
        ensures
            r.0@ == defs_of(self.kind_of()),
            r.1@ == uses_of(self.kind_of()),
    ;
}

impl DefUse for Action {
    open spec fn kind_of(&self) -> ActionKind {
        self.kind
    }

    fn def_use(&self) -> (r: (Vec<Variable>, Vec<Variable>)) {
        let mut defs: Vec<Variable> = Vec::new();
        let mut uses: Vec<Variable> = Vec::new();
        match &self.kind {
            ActionKind::Borrow(p, _, _, q) => {
                defs.push(p.base());
                uses.push(q.base());
            },
            ActionKind::Init(a, params) => {
                if let Some(v) = a.write_def() {
                    defs.push(v);
                }
                let mut i: usize = 0;
                while i < params.len()
                    invariant
                        i <= params.len(),
                        uses.len() == i,
                        forall|k: int| 0 <= k < i ==> uses[k] == base_of(*params@[k]),
                    decreases params.len() - i,
                {
                    uses.push(params[i].base());
                    i += 1;
                }
                if let Some(v) = a.write_use() {
                    uses.push(v);
                }
            },
            ActionKind::Assign(a, b) => {
                if let Some(v) = a.write_def() {
                    defs.push(v);
                }
                uses.push(b.base());
                if let Some(v) = a.write_use() {
                    uses.push(v);
                }
            },
            ActionKind::Use(v) => {
                uses.push(v.base());
            },
            ActionKind::Constraint(_) => {},
            ActionKind::Drop(_) => {},
            ActionKind::Noop => {},
            ActionKind::StorageDead(_) => {},
            ActionKind::SkolemizedEnd(_) => {},
        }
        proof {
            assert(defs@ =~= defs_of(self.kind));
            assert(uses@ =~= uses_of(self.kind));
        }
        (defs, uses)
    }
}

/// The action sets the bit `bit`.
pub open spec fn gens(decls: Seq<VariableDecl>, regions: Seq<RegionDecl>, kind: ActionKind, bit: int) -> bool {
    ||| exists|k: int|
        0 <= k < uses_of(kind).len() && used_bit(decls, #[trigger] uses_of(kind)[k]) == Some(bit)
    ||| kind matches ActionKind::Drop(p) && drop_bit(decls, base_of(*p)) == Some(bit)
    ||| kind matches ActionKind::SkolemizedEnd(r) && region_bit(decls, regions, r) == Some(bit)
}

/// The action clears the bit `bit`.
pub open spec fn kills(decls: Seq<VariableDecl>, kind: ActionKind, bit: int) -> bool {
    exists|k: int|
        0 <= k < defs_of(kind).len() && (used_bit(decls, #[trigger] defs_of(kind)[k]) == Some(bit)
            || drop_bit(decls, defs_of(kind)[k]) == Some(bit))
}

/// What is live before the action, given what is live after it.
pub open spec fn live_before(
    decls: Seq<VariableDecl>,
    regions: Seq<RegionDecl>,
    kind: ActionKind,
    after: Set<int>,
) -> Set<int> {
    Set::new(|bit: int| gens(decls, regions, kind, bit) || (after.contains(bit) && !kills(decls, kind, bit)))
}

/// What is live before action `from` of a block with the actions `actions`,
/// given what is live at its end.
pub open spec fn live_from(
    decls: Seq<VariableDecl>,
    regions: Seq<RegionDecl>,
    actions: Seq<Action>,
    from: int,
    exit: Set<int>,
) -> Set<int>
    decreases actions.len() - from,
{
    if from < 0 || from >= actions.len() {
        exit
    } else {
        live_before(decls, regions, actions[from].kind, live_from(decls, regions, actions, from + 1, exit))
    }
}

/// More is live before where more is live after.
pub proof fn lemma_live_from_mono(
    decls: Seq<VariableDecl>,
    regions: Seq<RegionDecl>,
    actions: Seq<Action>,
    from: int,
    small: Set<int>,
    big: Set<int>,
)
    requires
        small.subset_of(big),
    ensures
        live_from(decls, regions, actions, from, small).subset_of(
            live_from(decls, regions, actions, from, big),
        ),
    decreases actions.len() - from,
{
    if !(from < 0 || from >= actions.len()) {
        lemma_live_from_mono(decls, regions, actions, from + 1, small, big);
    }
}

/// Every variable that the action mentions is declared.
pub open spec fn vars_known(decls: Seq<VariableDecl>, kind: ActionKind) -> bool {
    &&& forall|k: int|
        0 <= k < defs_of(kind).len() ==> used_bit(decls, #[trigger] defs_of(kind)[k]) is Some
    &&& forall|k: int|
        0 <= k < uses_of(kind).len() ==> used_bit(decls, #[trigger] uses_of(kind)[k]) is Some
    &&& kind matches ActionKind::Drop(p) ==> used_bit(decls, base_of(*p)) is Some
}

/// The region that the action ends, if it ends one, is declared.
pub open spec fn region_known(regions: Seq<RegionDecl>, kind: ActionKind) -> bool {
    kind matches ActionKind::SkolemizedEnd(r) ==> last_region(regions, r, regions.len() as int) is Some
}

/// What is live at the end of block `b`: what is live on entry to one of
/// its successors.
pub open spec fn exit_of(env: &Environment, sets: Seq<Set<int>>, b: int) -> Set<int> {
    Set::new(
        |bit: int|
            exists|k: int|
                0 <= k < env.graph.succs(b).len() && sets[#[trigger] env.graph.succs(b)[k] as int].contains(
                    bit,
                ),
    )
}

/// What is live before action `from` of block `b`, given what is live on
/// entry to every block.
pub open spec fn live_at(env: &Environment, sets: Seq<Set<int>>, b: int, from: int) -> Set<int> {
    live_from(
        env.decls(),
        env.graph.func().regions@,
        env.graph.actions_of(b),
        from,
        exit_of(env, sets, b),
    )
}

/// On entry to every block of the reverse post-order, `sets` holds what
/// the block and its successors make live.
pub open spec fn is_live_solution(env: &Environment, sets: Seq<Set<int>>) -> bool {
    &&& sets.len() == env.graph.node_count()
    &&& forall|i: int|
        0 <= i < env.reverse_post_order@.len() ==> live_at(
            env,
            sets,
            #[trigger] env.reverse_post_order@[i] as int,
            0,
        ).subset_of(sets[env.reverse_post_order@[i] as int])
}

/// Every set of `small` lies in the set of `big` for the same block.
pub open spec fn sets_below(small: Seq<Set<int>>, big: Seq<Set<int>>) -> bool {
    &&& small.len() == big.len()
    &&& forall|b: int| 0 <= b < small.len() ==> (#[trigger] small[b]).subset_of(big[b])
}

/// `sets` lies below every solution.
#[verifier::opaque]
pub open spec fn least_live(env: &Environment, sets: Seq<Set<int>>) -> bool {
    forall|other: Seq<Set<int>>| #[trigger] is_live_solution(env, other) ==> sets_below(sets, other)
}

/// There is one least solution: the liveness of a function is determined
/// by the function.
pub proof fn lemma_liveness_unique(env: &Environment, a: Seq<Set<int>>, b: Seq<Set<int>>)
    requires
        is_live_solution(env, a),
        least_live(env, a),
        is_live_solution(env, b),
        least_live(env, b),
    ensures
        a == b,
{
    reveal(least_live);
    assert(sets_below(a, b));
    assert(sets_below(b, a));
    assert forall|i: int| 0 <= i < a.len() implies a[i] == b[i] by {
        assert(a[i].subset_of(b[i]));
        assert(b[i].subset_of(a[i]));
        assert(a[i] =~= b[i]);
    }
    assert(a =~= b);
}

/// The function of `with` is the function of `env` with the action `noop`,
/// which does nothing, put at `place` into the block `block`.
pub open spec fn with_noop(env: &Environment, with: &Environment, block: int, place: int, noop: Action) -> bool {
    &&& noop.kind is Noop
    &&& 0 <= place <= env.graph.actions_of(block).len()
    &&& with.decls() == env.decls()
    &&& with.graph.func().regions@ == env.graph.func().regions@
    &&& with.graph.node_count() == env.graph.node_count()
    &&& with.reverse_post_order@ == env.reverse_post_order@
    &&& forall|b: int| #[trigger] with.graph.succs(b) == env.graph.succs(b)
    &&& forall|b: int| b != block ==> #[trigger] with.graph.actions_of(b) == env.graph.actions_of(b)
    &&& with.graph.actions_of(block) == env.graph.actions_of(block).insert(place, noop)
}

/// An action that does nothing, put anywhere into any block, changes
/// nothing of what is live on entry to any block: the two functions have
/// the same solutions, and so the same liveness.
pub proof fn lemma_noop_same_liveness(
    env: &Environment,
    with: &Environment,
    block: int,
    place: int,
    noop: Action,
    sets: Seq<Set<int>>,
)
    requires
        with_noop(env, with, block, place, noop),
    ensures
        is_live_solution(with, sets) == is_live_solution(env, sets),
        least_live(with, sets) == least_live(env, sets),
{
    lemma_noop_same_solutions(env, with, block, place, noop, sets);
    reveal(least_live);
    assert forall|other: Seq<Set<int>>| #[trigger] is_live_solution(env, other) == is_live_solution(with, other) by {
        lemma_noop_same_solutions(env, with, block, place, noop, other);
    }
    if least_live(env, sets) {
        assert forall|other: Seq<Set<int>>| #[trigger] is_live_solution(with, other) implies sets_below(
            sets,
            other,
        ) by {
            assert(is_live_solution(env, other) == is_live_solution(with, other));
        }
    }
    if least_live(with, sets) {
        assert forall|other: Seq<Set<int>>| #[trigger] is_live_solution(env, other) implies sets_below(
            sets,
            other,
        ) by {
            assert(is_live_solution(env, other) == is_live_solution(with, other));
        }
    }
}

/// With an action that does nothing put into a block, the same sets are
/// solutions.
pub proof fn lemma_noop_same_solutions(
    env: &Environment,
    with: &Environment,
    block: int,
    place: int,
    noop: Action,
    sets: Seq<Set<int>>,
)
    requires
        with_noop(env, with, block, place, noop),
    ensures
        is_live_solution(with, sets) == is_live_solution(env, sets),
        forall|b: int| #[trigger] live_at(with, sets, b, 0) == live_at(env, sets, b, 0),
{
    assert forall|b: int| #[trigger] live_at(with, sets, b, 0) == live_at(env, sets, b, 0) by {
        assert(with.graph.succs(b) == env.graph.succs(b));
        assert(exit_of(with, sets, b) =~= exit_of(env, sets, b));
        if b == block {
            lemma_noop_keeps_liveness(
                env.decls(),
                env.graph.func().regions@,
                env.graph.actions_of(block),
                noop,
                place,
                0,
                exit_of(env, sets, b),
            );
        } else {
            assert(with.graph.actions_of(b) == env.graph.actions_of(b));
        }
    }
    if is_live_solution(env, sets) {
        assert forall|i: int| 0 <= i < with.reverse_post_order@.len() implies live_at(
            with,
            sets,
            #[trigger] with.reverse_post_order@[i] as int,
            0,
        ).subset_of(sets[with.reverse_post_order@[i] as int]) by {
            assert(live_at(with, sets, env.reverse_post_order@[i] as int, 0) == live_at(
                env,
                sets,
                env.reverse_post_order@[i] as int,
                0,
            ));
        }
    }
    if is_live_solution(with, sets) {
        assert forall|i: int| 0 <= i < env.reverse_post_order@.len() implies live_at(
            env,
            sets,
            #[trigger] env.reverse_post_order@[i] as int,
            0,
        ).subset_of(sets[env.reverse_post_order@[i] as int]) by {
            assert(live_at(with, sets, with.reverse_post_order@[i] as int, 0) == live_at(
                env,
                sets,
                with.reverse_post_order@[i] as int,
                0,
            ));
        }
    }
}

/// An action that does nothing, put anywhere into a block, changes nothing
/// of what is live before the actions that were there: before those up to
/// the place what was live before them, before those after it what was live
/// before them one place earlier.
pub proof fn lemma_noop_keeps_liveness(
    decls: Seq<VariableDecl>,
    regions: Seq<RegionDecl>,
    actions: Seq<Action>,
    noop: Action,
    place: int,
    from: int,
    exit: Set<int>,
)
    requires
        noop.kind is Noop,
        0 <= place <= actions.len(),
        0 <= from <= actions.len() + 1,
    ensures
        live_from(decls, regions, actions.insert(place, noop), from, exit) == if from <= place {
            live_from(decls, regions, actions, from, exit)
        } else {
            live_from(decls, regions, actions, from - 1, exit)
        },
    decreases actions.len() + 1 - from,
{
    let with = actions.insert(place, noop);
    if from < with.len() {
        lemma_noop_keeps_liveness(decls, regions, actions, noop, place, from + 1, exit);
        let after = live_from(decls, regions, with, from + 1, exit);
        if from == place {
            assert(with[from] == noop);
            assert forall|bit: int| !gens(decls, regions, noop.kind, bit) && !kills(decls, noop.kind, bit) by {
                assert(uses_of(noop.kind).len() == 0);
                assert(defs_of(noop.kind).len() == 0);
            }
            assert(live_before(decls, regions, noop.kind, after) =~= after);
        } else if from < place {
            assert(with[from] == actions[from]);
        } else {
            assert(with[from] == actions[from - 1]);
        }
    }
}

/// More is live at the end of a block where more is live on entry to the
/// blocks.
pub proof fn lemma_live_at_mono(env: &Environment, small: Seq<Set<int>>, big: Seq<Set<int>>, b: int, from: int)
    requires
        env.wf(),
        small.len() == env.graph.node_count(),
        sets_below(small, big),
        0 <= b < env.graph.node_count(),
    ensures
        live_at(env, small, b, from).subset_of(live_at(env, big, b, from)),
{
    env.graph.lemma_edges();
    assert forall|bit: int| exit_of(env, small, b).contains(bit) implies exit_of(env, big, b).contains(
        bit,
    ) by {
        let k = choose|k: int|
            0 <= k < env.graph.succs(b).len() && small[#[trigger] env.graph.succs(b)[k] as int].contains(bit);
        assert(small[env.graph.succs(b)[k] as int].subset_of(big[env.graph.succs(b)[k] as int]));
    }
    lemma_live_from_mono(
        env.decls(),
        env.graph.func().regions@,
        env.graph.actions_of(b),
        from,
        exit_of(env, small, b),
        exit_of(env, big, b),
    );
}

/// What lies below every solution still does when a block takes in what
/// is found live on entry to it.
proof fn lemma_least_live_kept(env: &Environment, sets: Seq<Set<int>>, b: int, found: Set<int>)
    requires
        env.wf(),
        sets.len() == env.graph.node_count(),
        env.reverse_post_order@.contains(b as usize),
        0 <= b < env.graph.node_count(),
        found == live_at(env, sets, b, 0),
        least_live(env, sets),
    ensures
        least_live(env, sets.update(b, sets[b].union(found))),
{
    reveal(least_live);
    let after = sets.update(b, sets[b].union(found));
    assert forall|other: Seq<Set<int>>| #[trigger] is_live_solution(env, other) implies sets_below(
        after,
        other,
    ) by {
        assert(sets_below(sets, other));
        lemma_live_at_mono(env, sets, other, b, 0);
        let i = choose|i: int| 0 <= i < env.reverse_post_order@.len() && env.reverse_post_order@[i] == b as usize;
        env.graph.lemma_edges();
        assert(live_at(env, other, env.reverse_post_order@[i] as int, 0).subset_of(
            other[env.reverse_post_order@[i] as int],
        ));
        assert forall|c: int| 0 <= c < after.len() implies (#[trigger] after[c]).subset_of(other[c]) by {
            assert(sets[c].subset_of(other[c]));
        }
    }
}

/// The actions of the blocks of the reverse post-order mention declared
/// variables alone.
pub open spec fn vars_ok(env: &Environment) -> bool {
    forall|i: int, a: int|
        0 <= i < env.reverse_post_order@.len() && 0 <= a < env.graph.actions_of(
            env.reverse_post_order@[i] as int,
        ).len() ==> vars_known(
            env.decls(),
            (#[trigger] env.graph.actions_of(env.reverse_post_order@[i] as int)[a]).kind,
        )
}

/// The actions of the blocks of the reverse post-order end declared
/// regions alone.
pub open spec fn regions_ok(env: &Environment) -> bool {
    forall|i: int, a: int|
        0 <= i < env.reverse_post_order@.len() && 0 <= a < env.graph.actions_of(
            env.reverse_post_order@[i] as int,
        ).len() ==> region_known(
            env.graph.func().regions@,
            (#[trigger] env.graph.actions_of(env.reverse_post_order@[i] as int)[a]).kind,
        )
}

/// The names of the first `upto` regions of `rs`; an error where one is
/// bound.
pub open spec fn names_of(rs: Seq<Region>, upto: int) -> Result<Set<RegionName>, StructuralError>
    decreases upto,
{
    if upto <= 0 || upto > rs.len() {
        Ok(Set::empty())
    } else {
        match names_of(rs, upto - 1) {
            Err(e) => Err(e),
            Ok(done) => match rs[upto - 1] {
                Region::Free(n) => Ok(done.insert(n)),
                Region::Bound(_) => Err(StructuralError::UnexpectedBound),
            },
        }
    }
}

/// The regions that a use of a value of type `t` may touch: all that occur
/// in the type.
pub open spec fn use_regions(t: TyModel) -> Result<Set<RegionName>, StructuralError> {
    match regions_of(t) {
        Err(e) => Err(e),
        Ok(rs) => names_of(rs, rs.len() as int),
    }
}

/// The regions that the drop of a value of type `t` may touch: none for a
/// reference, and for a structure those of its parameters, but nothing of
/// a parameter that may dangle, be it a region or a type.
pub open spec fn drop_regions(structs: Seq<StructDecl>, t: TyModel) -> Result<
    Set<RegionName>,
    StructuralError,
>
    decreases t, 0int,
{
    match t {
        TyModel::Ref(..) => Ok(Set::empty()),
        TyModel::Unit => Ok(Set::empty()),
        TyModel::Struct(name, params) => match last_struct(structs, name, structs.len() as int) {
            None => Err(StructuralError::UndeclaredStruct),
            Some(s) => if structs[s].parameters@.len() != params.len() {
                Err(StructuralError::WrongArity)
            } else {
                drop_params(structs, structs[s].parameters@, params, params.len() as int)
            },
        },
        TyModel::Bound(_) => Err(StructuralError::UnexpectedBound),
    }
}

/// The regions that the drop may touch through the first `upto`
/// parameters.
pub open spec fn drop_params(
    structs: Seq<StructDecl>,
    decls: Seq<crate::repr::StructParameter>,
    params: Seq<ParamModel>,
    upto: int,
) -> Result<Set<RegionName>, StructuralError>
    decreases params, upto,
{
    if upto <= 0 || upto > params.len() || upto > decls.len() {
        Ok(Set::empty())
    } else {
        match drop_params(structs, decls, params, upto - 1) {
            Err(e) => Err(e),
            Ok(done) => match params[upto - 1] {
                ParamModel::Region(r) => if decls[upto - 1].may_dangle {
                    Ok(done)
                } else {
                    match r {
                        Region::Free(n) => Ok(done.insert(n)),
                        Region::Bound(_) => Err(StructuralError::UnexpectedBound),
                    }
                },
                ParamModel::Ty(t) => if decls[upto - 1].may_dangle {
                    Ok(done)
                } else {
                    match use_regions(*t) {
                        Err(e) => Err(e),
                        Ok(more) => Ok(done.union(more)),
                    }
                },
            },
        }
    }
}

/// The regions that must be live where the bit `bit` is set.
pub open spec fn bit_regions(env: &Environment, bit: int) -> Result<Set<RegionName>, StructuralError> {
    let n = env.decls().len() as int;
    if bit < n {
        match ty_of_var(env.decls(), env.decls()[bit].var) {
            Err(e) => Err(e),
            Ok(t) => use_regions(t),
        }
    } else if bit < 2 * n {
        match ty_of_var(env.decls(), env.decls()[bit - n].var) {
            Err(e) => Err(e),
            Ok(t) => drop_regions(env.structs(), t),
        }
    } else {
        Ok(set![env.graph.func().regions@[bit - 2 * n].name])
    }
}

/// The regions that must be live where the bits `live` are set, among the
/// first `upto` bits.
pub open spec fn live_region_set(env: &Environment, live: Set<int>, upto: int) -> Result<
    Set<RegionName>,
    StructuralError,
>
    decreases upto,
{
    if upto <= 0 {
        Ok(Set::empty())
    } else {
        match live_region_set(env, live, upto - 1) {
            Err(e) => Err(e),
            Ok(done) => if live.contains(upto - 1) {
                match bit_regions(env, upto - 1) {
                    Err(e) => Err(e),
                    Ok(more) => Ok(done.union(more)),
                }
            } else {
                Ok(done)
            },
        }
    }
}

/// An error among the first bits is the error of all.
pub proof fn lemma_live_region_err(env: &Environment, live: Set<int>, at: int, upto: int)
    requires
        0 < at <= upto,
        live_region_set(env, live, at) is Err,
    ensures
        live_region_set(env, live, upto) == live_region_set(env, live, at),
    decreases upto - at,
{
    if at < upto {
        lemma_live_region_err(env, live, at, upto - 1);
    }
}

proof fn lemma_names_err(rs: Seq<Region>, at: int, upto: int)
    requires
        0 < at <= upto <= rs.len(),
        names_of(rs, at) is Err,
    ensures
        names_of(rs, upto) == names_of(rs, at),
    decreases upto - at,
{
    if at < upto {
        lemma_names_err(rs, at, upto - 1);
    }
}

proof fn lemma_drop_params_err(
    structs: Seq<StructDecl>,
    decls: Seq<crate::repr::StructParameter>,
    params: Seq<ParamModel>,
    at: int,
    upto: int,
)
    requires
        0 < at <= upto <= params.len(),
        upto <= decls.len(),
        drop_params(structs, decls, params, at) is Err,
    ensures
        drop_params(structs, decls, params, upto) == drop_params(structs, decls, params, at),
    decreases upto - at,
{
    if at < upto {
        lemma_drop_params_err(structs, decls, params, at, upto - 1);
    }
}

/// Adds `region_name` to `buf` unless it is there.
pub fn use_region(buf: &mut Vec<RegionName>, region_name: RegionName)
    ensures
        final(buf)@.to_set() == old(buf)@.to_set().insert(region_name),
        old(buf)@.no_duplicates() ==> final(buf)@.no_duplicates(),
{
    let mut i: usize = 0;
    while i < buf.len()
        invariant
            i <= buf.len(),
            buf@ == old(buf)@,
            forall|k: int| 0 <= k < i ==> buf@[k] != region_name,
        decreases buf.len() - i,
    {
        if buf[i].same(region_name) {
            proof {
                assert(buf@.to_set().contains(region_name));
                assert(buf@.to_set() =~= buf@.to_set().insert(region_name));
            }
            return ;
        }
        i += 1;
    }
    buf.push(region_name);
    proof {
        if old(buf)@.no_duplicates() {
            assert forall|a: int, b: int| 0 <= a < buf@.len() && 0 <= b < buf@.len() && a != b implies buf@[a]
                != buf@[b] by {
                if a < old(buf)@.len() && b < old(buf)@.len() {
                    assert(old(buf)@[a] != old(buf)@[b]);
                }
            }
        }
        assert forall|x: RegionName| buf@.to_set().contains(x) <==> old(buf)@.to_set().insert(
            region_name,
        ).contains(x) by {
            if old(buf)@.contains(x) {
                let k = choose|k: int| 0 <= k < old(buf)@.len() && old(buf)@[k] == x;
                assert(buf@[k] == x);
            }
            if x == region_name {
                assert(buf@[buf@.len() - 1] == x);
            }
        }
        assert(buf@.to_set() =~= old(buf)@.to_set().insert(region_name));
    }
}

/// Adds to `buf` the regions that a use of a value of type `ty` may touch.
pub fn use_ty(buf: &mut Vec<RegionName>, ty: &Ty) -> (r: Result<(), StructuralError>)
    ensures
        old(buf)@.no_duplicates() ==> final(buf)@.no_duplicates(),
        match r {
            Ok(()) => use_regions(ty@) matches Ok(s) && final(buf)@.to_set() == old(buf)@.to_set().union(s),
            Err(e) => use_regions(ty@) == Err::<Set<RegionName>, StructuralError>(e),
        },
{
    match ty.walk_regions() {
        Err(e) => Err(e),
        Ok(regions) => {
            let mut i: usize = 0;
            let ghost mut done: Set<RegionName> = Set::empty();
            proof {
                assert(buf@.to_set() =~= old(buf)@.to_set().union(done));
            }
            while i < regions.len()
                invariant
                    i <= regions.len(),
                    regions_of(ty@) == Ok::<Seq<Region>, StructuralError>(regions@),
                    names_of(regions@, i as int) == Ok::<Set<RegionName>, StructuralError>(done),
                    buf@.to_set() == old(buf)@.to_set().union(done),
                    old(buf)@.no_duplicates() ==> buf@.no_duplicates(),
                decreases regions.len() - i,
            {
                match regions[i].assert_free() {
                    Err(e) => {
                        proof {
                            assert(names_of(regions@, i as int + 1) == Err::<Set<RegionName>, StructuralError>(e));
                            lemma_names_err(regions@, i as int + 1, regions@.len() as int);
                        }
                        return Err(e);
                    },
                    Ok(name) => {
                        use_region(buf, name);
                        proof {
                            assert(buf@.to_set() =~= old(buf)@.to_set().union(done.insert(name)));
                            done = done.insert(name);
                        }
                    },
                }
                i += 1;
            }
            Ok(())
        },
    }
}

/// Adds to `buf` the regions that the drop of a value of type `ty` may
/// touch.
pub fn drop_ty(structs: &Vec<StructDecl>, buf: &mut Vec<RegionName>, ty: &Ty) -> (r: Result<
    (),
    StructuralError,
>)
    ensures
        old(buf)@.no_duplicates() ==> final(buf)@.no_duplicates(),
        match r {
            Ok(()) => drop_regions(structs@, ty@) matches Ok(s) && final(buf)@.to_set() == old(buf)@.to_set().union(s),
            Err(e) => drop_regions(structs@, ty@) == Err::<Set<RegionName>, StructuralError>(e),
        },
    decreases ty,
{
    match ty {
        Ty::Ref(..) => {
            proof {
                assert(buf@.to_set() =~= buf@.to_set().union(Set::empty()));
            }
            Ok(())
        },
        Ty::Unit => {
            proof {
                assert(buf@.to_set() =~= buf@.to_set().union(Set::empty()));
            }
            Ok(())
        },
        Ty::Struct(struct_name, params) => {
            match find_struct(structs, *struct_name) {
                None => Err(StructuralError::UndeclaredStruct),
                Some(s) => {
                    let struct_decl = &structs[s];
                    let ghost pm = param_models(*params);
                    let ghost dm = struct_decl.parameters@;
                    proof {
                        assert(ty@ == TyModel::Struct(*struct_name, pm));
                        assert(pm.len() == params.len());
                    }
                    if struct_decl.parameters.len() != params.len() {
                        return Err(StructuralError::WrongArity);
                    }
                    proof {
                        assert(drop_regions(structs@, ty@) == drop_params(
                            structs@,
                            dm,
                            pm,
                            params.len() as int,
                        ));
                    }
                    let ghost mut done: Set<RegionName> = Set::empty();
                    let mut i: usize = 0;
                    proof {
                        assert(buf@.to_set() =~= old(buf)@.to_set().union(done));
                    }
                    while i < params.len()
                        invariant
                            i <= params.len(),
                            *ty is Struct,
                            *params == ty->Struct_1,
                            pm == param_models(*params),
                            dm == struct_decl.parameters@,
                            dm.len() == params.len(),
                            pm.len() == params.len(),
                            drop_regions(structs@, ty@) == drop_params(
                                structs@,
                                dm,
                                pm,
                                params.len() as int,
                            ),
                            drop_params(structs@, dm, pm, i as int) == Ok::<Set<RegionName>, StructuralError>(
                                done,
                            ),
                            buf@.to_set() == old(buf)@.to_set().union(done),
                            old(buf)@.no_duplicates() ==> buf@.no_duplicates(),
                        decreases params.len() - i,
                    {
                        let param_decl = &struct_decl.parameters[i];
                        assert(pm[i as int] == params[i as int]@);
                        assert(decreases_to!(*ty => ty->Struct_1));
                        assert(decreases_to!(*params => params[i as int]));
                        let ghost before = buf@.to_set();
                        match &params[i] {
                            TyParameter::Region(region) => {
                                if !param_decl.may_dangle {
                                    match region.assert_free() {
                                        Err(e) => {
                                            proof {
                                                assert(drop_params(structs@, dm, pm, i as int + 1) == Err::<
                                                    Set<RegionName>,
                                                    StructuralError,
                                                >(e));
                                                lemma_drop_params_err(
                                                    structs@,
                                                    dm,
                                                    pm,
                                                    i as int + 1,
                                                    params.len() as int,
                                                );
                                            }
                                            return Err(e);
                                        },
                                        Ok(name) => {
                                            use_region(buf, name);
                                            proof {
                                                assert(buf@.to_set() =~= old(buf)@.to_set().union(
                                                    done.insert(name),
                                                ));
                                                done = done.insert(name);
                                            }
                                        },
                                    }
                                }
                            },
                            TyParameter::Ty(t) => {
                                if !param_decl.may_dangle {
                                    match use_ty(buf, t) {
                                        Err(e) => {
                                            proof {
                                                assert(drop_params(structs@, dm, pm, i as int + 1) == Err::<
                                                    Set<RegionName>,
                                                    StructuralError,
                                                >(e));
                                                lemma_drop_params_err(
                                                    structs@,
                                                    dm,
                                                    pm,
                                                    i as int + 1,
                                                    params.len() as int,
                                                );
                                            }
                                            return Err(e);
                                        },
                                        Ok(()) => {
                                            proof {
                                                let more = use_regions(t@)->Ok_0;
                                                assert(buf@.to_set() =~= old(buf)@.to_set().union(done.union(more)));
                                                done = done.union(more);
                                            }
                                        },
                                    }
                                }
                            },
                        }
                        i += 1;
                    }
                    Ok(())
                },
            }
        },
        Ty::Bound(_) => Err(StructuralError::UnexpectedBound),
    }
}

/// Liveness is not refused: the bits can be counted, and every action
/// mentions declared names alone.
pub open spec fn liveness_accepted(env: &Environment) -> bool {
    liveness_fits(env) && names_error(env, env.reverse_post_order@.len() as int) is None
}

/// Liveness is refused with `e`: `TooLarge` where the bits cannot be
/// counted, else the error of the first action that mentions a name that
/// is not declared.
pub open spec fn liveness_refused(env: &Environment, e: StructuralError) -> bool {
    if !liveness_fits(env) {
        e == StructuralError::TooLarge
    } else {
        names_error(env, env.reverse_post_order@.len() as int) == Some(e)
    }
}

/// The bit set of liveness, with all its bits for every block, can be
/// counted in a `usize`.
pub open spec fn liveness_fits(env: &Environment) -> bool {
    env.graph.node_count() * words_for(bit_count(env) as nat) <= usize::MAX
}

/// The error of an action that mentions a name that is not declared: that
/// of a variable first, then that of the region that it ends.
pub open spec fn action_error(decls: Seq<VariableDecl>, regions: Seq<RegionDecl>, kind: ActionKind) -> Option<
    StructuralError,
> {
    if !vars_known(decls, kind) {
        Some(StructuralError::UndeclaredVariable)
    } else if !region_known(regions, kind) {
        Some(StructuralError::UndeclaredRegion)
    } else {
        None
    }
}

/// The error of the first of the first `upto` actions of block `b` that
/// mentions a name that is not declared.
pub open spec fn block_error(env: &Environment, b: int, upto: int) -> Option<StructuralError>
    decreases upto,
{
    if upto <= 0 || upto > env.graph.actions_of(b).len() {
        None
    } else {
        match block_error(env, b, upto - 1) {
            Some(e) => Some(e),
            None => action_error(env.decls(), env.graph.func().regions@, env.graph.actions_of(b)[upto - 1].kind),
        }
    }
}

/// The error of the first action, in the first `upto` blocks of the
/// reverse post-order, that mentions a name that is not declared.
pub open spec fn names_error(env: &Environment, upto: int) -> Option<StructuralError>
    decreases upto,
{
    if upto <= 0 || upto > env.reverse_post_order@.len() {
        None
    } else {
        match names_error(env, upto - 1) {
            Some(e) => Some(e),
            None => block_error(
                env,
                env.reverse_post_order@[upto - 1] as int,
                env.graph.actions_of(env.reverse_post_order@[upto - 1] as int).len() as int,
            ),
        }
    }
}

/// The first error of a block is the error of the block.
pub proof fn lemma_block_error(env: &Environment, b: int, at: int, upto: int)
    requires
        0 < at <= upto <= env.graph.actions_of(b).len(),
        block_error(env, b, at) is Some,
    ensures
        block_error(env, b, upto) == block_error(env, b, at),
    decreases upto - at,
{
    if at < upto {
        lemma_block_error(env, b, at, upto - 1);
    }
}

/// The first error among the blocks is the error of all.
pub proof fn lemma_names_error(env: &Environment, at: int, upto: int)
    requires
        0 < at <= upto <= env.reverse_post_order@.len(),
        names_error(env, at) is Some,
    ensures
        names_error(env, upto) == names_error(env, at),
    decreases upto - at,
{
    if at < upto {
        lemma_names_error(env, at, upto - 1);
    }
}

/// Checks that the names that the action mentions are declared: the
/// variables first, then the region.
fn check_action(decls: &Vec<VariableDecl>, regions: &Vec<RegionDecl>, action: &Action) -> (r: Result<
    (),
    StructuralError,
>)
    ensures
        match r {
            Ok(()) => action_error(decls@, regions@, action.kind) is None,
            Err(e) => action_error(decls@, regions@, action.kind) == Some(e),
        },
{
    let (def_var, use_var) = action.def_use();
    let mut i: usize = 0;
    while i < def_var.len()
        invariant
            i <= def_var.len(),
            def_var@ == defs_of(action.kind),
            forall|k: int| 0 <= k < i ==> used_bit(decls@, #[trigger] def_var@[k]) is Some,
        decreases def_var.len() - i,
    {
        if find_decl(decls, def_var[i]).is_none() {
            return Err(StructuralError::UndeclaredVariable);
        }
        i += 1;
    }
    let mut j: usize = 0;
    while j < use_var.len()
        invariant
            j <= use_var.len(),
            use_var@ == uses_of(action.kind),
            forall|k: int| 0 <= k < j ==> used_bit(decls@, #[trigger] use_var@[k]) is Some,
        decreases use_var.len() - j,
    {
        if find_decl(decls, use_var[j]).is_none() {
            return Err(StructuralError::UndeclaredVariable);
        }
        j += 1;
    }
    match &action.kind {
        ActionKind::Drop(path) => {
            if find_decl(decls, path.base()).is_none() {
                return Err(StructuralError::UndeclaredVariable);
            }
        },
        ActionKind::SkolemizedEnd(name) => {
            if find_region(regions, *name).is_none() {
                return Err(StructuralError::UndeclaredRegion);
            }
        },
        _ => {},
    }
    Ok(())
}

/// Number of bits: one for the use and one for the drop of every variable,
/// and one for every free region.
pub open spec fn bit_count(env: &Environment) -> int {
    2 * env.decls().len() as int + env.graph.func().regions@.len() as int
}

/// The bits of `buf`, as a set.
pub open spec fn buf_set(buf: &BitBuf) -> Set<int> {
    Set::new(|bit: int| buf.has(bit))
}

/// The bits of `bits`, as a set.
pub open spec fn slice_set(bits: BitSlice) -> Set<int> {
    Set::new(|bit: int| bits.has(bit))
}

/// What is live at one point.
pub struct LiveFact {
    pub point: Point,
    /// The index of the action at the point; `None` for the terminator.
    pub action: Option<usize>,
    /// What is live on entry to the point.
    pub live: BitBuf,
}

/// The fact speaks of a point of the graph, names the action at that
/// point, and holds `capacity` bits.
pub open spec fn fact_ok(env: &Environment, capacity: nat, fact: &LiveFact) -> bool {
    &&& env.is_point(fact.point)
    &&& fact.live.capacity() == capacity
    &&& fact.action == if fact.point.action < env.graph.actions_of(fact.point.block.index as int).len() {
        Some(fact.point.action)
    } else {
        None::<usize>
    }
}

/// The facts of block `b`: first the terminator, then the actions from the
/// last to the first.
pub open spec fn block_facts(env: &Environment, sets: Seq<Set<int>>, b: int) -> Seq<(Point, Set<int>)> {
    Seq::new(
        env.graph.actions_of(b).len() + 1,
        |k: int|
            (
                Point {
                    block: BasicBlockIndex { index: b as usize },
                    action: (env.graph.actions_of(b).len() - k) as usize,
                },
                live_at(env, sets, b, env.graph.actions_of(b).len() - k),
            ),
    )
}

/// The facts of the first `upto` blocks of the reverse post-order.
pub open spec fn walk_facts(env: &Environment, sets: Seq<Set<int>>, upto: int) -> Seq<(Point, Set<int>)>
    decreases upto,
{
    if upto <= 0 {
        Seq::empty()
    } else {
        walk_facts(env, sets, upto - 1) + block_facts(
            env,
            sets,
            env.reverse_post_order@[upto - 1] as int,
        )
    }
}

/// What a list of facts says.
pub open spec fn facts_view(facts: Seq<LiveFact>) -> Seq<(Point, Set<int>)> {
    Seq::new(facts.len(), |i: int| (facts[i].point, buf_set(&facts[i].live)))
}

/// Compute the set of live variables at each point.
pub struct Liveness<'env> {
    env: &'env Environment<'env>,
    bits: Vec<BitKind>,
    liveness: BitSet<FuncGraph>,
}

impl<'env> Liveness<'env> {
    pub closed spec fn env(&self) -> &'env Environment<'env> {
        self.env
    }

    /// What is live on entry to block `b`.
    pub closed spec fn live_in(&self, b: int) -> Set<int> {
        Set::new(|bit: int| self.liveness.has(b, bit))
    }

    /// What is live on entry to every block.
    pub open spec fn live_sets(&self) -> Seq<Set<int>> {
        Seq::new(self.env().graph.node_count(), |b: int| self.live_in(b))
    }

    /// What each bit stands for.
    pub closed spec fn kinds(&self) -> Seq<BitKind> {
        self.bits@
    }

    pub closed spec fn wf(&self) -> bool {
        &&& self.env.wf()
        &&& vars_ok(self.env)
        &&& regions_ok(self.env)
        &&& self.liveness.wf()
        &&& self.liveness.nodes() == self.env.graph.node_count()
        &&& self.liveness.width() == bit_count(self.env)
        &&& self.bits@.len() == bit_count(self.env)
        &&& forall|i: int|
            0 <= i < self.env.decls().len() ==> #[trigger] self.bits@[i] == BitKind::VariableUsed(
                self.env.decls()[i].var,
            )
        &&& forall|i: int|
            0 <= i < self.env.decls().len() ==> #[trigger] self.bits@[self.env.decls().len() + i]
                == BitKind::VariableDrop(self.env.decls()[i].var)
        &&& forall|j: int|
            0 <= j < self.env.graph.func().regions@.len() ==> #[trigger] self.bits@[2
                * self.env.decls().len() + j] == BitKind::FreeRegion(self.env.graph.func().regions@[j].name)
    }

    /// Computes what is live before every action of `block`, from the end
    /// of the block backwards, and leaves in `buf` what is live on entry.
    /// With `record`, the facts of the block are appended to `out`.
    fn simulate_block(&self, buf: &mut BitBuf, block: usize, record: bool, out: &mut Vec<LiveFact>)
        requires
            self.wf(),
            block < self.env.graph.node_count(),
            old(buf).capacity() == self.liveness.capacity(),
            forall|a: int|
                0 <= a < self.env.graph.actions_of(block as int).len() ==> vars_known(
                    self.env.decls(),
                    (#[trigger] self.env.graph.actions_of(block as int)[a]).kind,
                ) && region_known(
                    self.env.graph.func().regions@,
                    self.env.graph.actions_of(block as int)[a].kind,
                ),
        ensures
            final(buf).capacity() == old(buf).capacity(),
            buf_set(final(buf)) == live_at(self.env, self.live_sets(), block as int, 0),
            record ==> facts_view(final(out)@) == facts_view(old(out)@) + block_facts(
                self.env,
                self.live_sets(),
                block as int,
            ),
            !record ==> final(out)@ == old(out)@,
            final(out)@.len() >= old(out)@.len(),
            forall|i: int| 0 <= i < old(out)@.len() ==> final(out)@[i] == old(out)@[i],
            forall|i: int|
                old(out)@.len() <= i < final(out)@.len() ==> fact_ok(
                    self.env,
                    self.liveness.capacity(),
                    &#[trigger] final(out)@[i],
                ) && final(out)@[i].point.block.index == block,
    {
        let env = self.env;
        let ghost sets = self.live_sets();
        let ghost before_out = facts_view(out@);
        buf.clear();
        // everything live in a successor is live at the exit of the block
        let successors = env.graph.successors(block);
        let mut k: usize = 0;
        while k < successors.len()
            invariant
                self.wf(),
                env == self.env,
                sets == self.live_sets(),
                block < env.graph.node_count(),
                buf.capacity() == self.liveness.capacity(),
                successors@ == env.graph.succs(block as int),
                forall|q: int| 0 <= q < successors.len() ==> successors[q] < env.graph.node_count(),
                k <= successors.len(),
                forall|bit: int|
                    #[trigger] buf.has(bit) <==> exists|q: int|
                        0 <= q < k && sets[#[trigger] successors[q] as int].contains(bit),
            decreases successors.len() - k,
        {
            let succ = successors[k];
            let ghost prev = *buf;
            let row = self.liveness.bits(succ);
            buf.set_from(row);
            proof {
                assert forall|bit: int| buf.has(bit) == (prev.has(bit) || self.liveness.has(succ as int, bit)) by {
                    assert(row.has(bit) == self.liveness.has(succ as int, bit));
                    if self.liveness.has(succ as int, bit) {
                        self.liveness.lemma_has_in_range(succ as int, bit);
                    }
                }
                assert forall|bit: int| sets[succ as int].contains(bit) == self.liveness.has(succ as int, bit) by {
                    assert(sets[succ as int] == self.live_in(succ as int));
                }
                assert forall|bit: int|
                    #[trigger] buf.has(bit) <==> exists|q: int|
                        0 <= q < k + 1 && sets[#[trigger] successors[q] as int].contains(bit) by {
                    assert(sets[succ as int] == self.live_in(succ as int));
                    if prev.has(bit) {
                        let q = choose|q: int| 0 <= q < k && sets[#[trigger] successors[q] as int].contains(bit);
                        assert(0 <= q < k + 1);
                    }
                    if exists|q: int| 0 <= q < k + 1 && sets[#[trigger] successors[q] as int].contains(bit) {
                        let q = choose|q: int|
                            0 <= q < k + 1 && sets[#[trigger] successors[q] as int].contains(bit);
                        if q < k {
                            assert(prev.has(bit));
                        } else {
                            assert(successors[q] == succ);
                            assert(self.liveness.has(succ as int, bit));
                        }
                    }
                    if self.liveness.has(succ as int, bit) {
                        assert(0 <= k < k + 1 && sets[successors[k as int] as int].contains(bit));
                    }
                }
            }
            k += 1;
        }
        proof {
            assert(buf_set(buf) =~= exit_of(env, sets, block as int));
        }
        let ghost exit = buf_set(buf);
        let ghost decls = env.decls();
        let ghost regions = env.graph.func().regions@;
        let actions = env.graph.block_data(BasicBlockIndex { index: block }).actions();
        // the terminator
        if record {
            let point = env.end_point(BasicBlockIndex { index: block });
            out.push(LiveFact { point, action: None, live: buf.as_slice().to_buf() });
            proof {
                let facts = block_facts(env, sets, block as int);
                assert(buf_set(&out@[out@.len() - 1].live) =~= buf_set(buf));
                assert(facts_view(out@) =~= before_out + facts.subrange(0, 1));
            }
        } else {
            proof {
                let facts = block_facts(env, sets, block as int);
                assert(before_out =~= before_out + facts.subrange(0, 0));
            }
        }
        // walk backwards through the actions
        let mut index: usize = actions.len();
        while index > 0
            invariant
                self.wf(),
                env == self.env,
                sets == self.live_sets(),
                decls == env.decls(),
                regions == env.graph.func().regions@,
                block < env.graph.node_count(),
                actions@ == env.graph.actions_of(block as int),
                forall|a: int|
                    0 <= a < actions@.len() ==> vars_known(decls, (#[trigger] actions@[a]).kind)
                        && region_known(regions, actions@[a].kind),
                buf.capacity() == self.liveness.capacity(),
                index <= actions.len(),
                exit == exit_of(env, sets, block as int),
                buf_set(buf) == live_from(decls, regions, actions@, index as int, exit),
                before_out == facts_view(old(out)@),
                record ==> facts_view(out@) == before_out + block_facts(env, sets, block as int).subrange(
                    0,
                    actions@.len() - index + 1,
                ),
                !record ==> out@ == old(out)@,
                out@.len() >= old(out)@.len(),
                forall|i: int| 0 <= i < old(out)@.len() ==> out@[i] == old(out)@[i],
                forall|i: int|
                    old(out)@.len() <= i < out@.len() ==> fact_ok(
                        env,
                        self.liveness.capacity(),
                        &#[trigger] out@[i],
                    ) && out@[i].point.block.index == block,
            decreases index,
        {
            index -= 1;
            let action = &actions[index];
            self.step(buf, action);
            if record {
                let point = Point { block: BasicBlockIndex { index: block }, action: index };
                let ghost prev_view = facts_view(out@);
                out.push(LiveFact { point, action: Some(index), live: buf.as_slice().to_buf() });
                proof {
                    let facts = block_facts(env, sets, block as int);
                    let done = actions@.len() - index;
                    assert(buf_set(&out@[out@.len() - 1].live) =~= buf_set(buf));
                    assert(facts[done] == (point, buf_set(buf)));
                    assert(facts.subrange(0, done + 1) =~= facts.subrange(0, done).push(facts[done]));
                    assert(facts_view(out@) =~= prev_view.push((point, buf_set(buf))));
                    assert(facts_view(out@) =~= before_out + facts.subrange(0, done + 1));
                }
            }
        }
        proof {
            let facts = block_facts(env, sets, block as int);
            assert(facts.subrange(0, actions@.len() as int + 1) =~= facts);
        }
    }

    /// Repeats the pass over the blocks until nothing more becomes live.
    fn compute(&mut self)
        requires
            old(self).wf(),
            forall|b: int, bit: int| !old(self).liveness.has(b, bit),
        ensures
            final(self).wf(),
            final(self).env == old(self).env,
            is_live_solution(final(self).env, final(self).live_sets()),
            least_live(final(self).env, final(self).live_sets()),
    {
        let env = self.env;
        let mut bits = self.liveness.empty_buf();
        let mut unused: Vec<LiveFact> = Vec::new();
        let mut changed = true;
        proof {
            reveal(least_live);
            assert forall|other: Seq<Set<int>>| #[trigger] is_live_solution(env, other) implies sets_below(
                self.live_sets(),
                other,
            ) by {
                assert forall|b: int| 0 <= b < self.live_sets().len() implies (
                #[trigger] self.live_sets()[b]).subset_of(other[b]) by {
                    assert(self.live_sets()[b] =~= Set::<int>::empty());
                }
            }
        }
        while changed
            invariant
                self.wf(),
                env == self.env,
                env == old(self).env,
                bits.capacity() == self.liveness.capacity(),
                least_live(env, self.live_sets()),
                !changed ==> is_live_solution(env, self.live_sets()),
            decreases self.liveness.slack(), (if changed { 1int } else { 0int }),
        {
            changed = false;
            let ghost round_start = self.liveness.slack();
            let mut idx: usize = 0;
            while idx < env.reverse_post_order.len()
                invariant
                    self.wf(),
                    env == self.env,
                    env == old(self).env,
                    bits.capacity() == self.liveness.capacity(),
                    idx <= env.reverse_post_order@.len(),
                    least_live(env, self.live_sets()),
                    !changed ==> forall|j: int|
                        0 <= j < idx ==> live_at(
                            env,
                            self.live_sets(),
                            #[trigger] env.reverse_post_order@[j] as int,
                            0,
                        ).subset_of(self.live_sets()[env.reverse_post_order@[j] as int]),
                    self.liveness.slack() <= round_start,
                    changed ==> self.liveness.slack() < round_start,
                decreases env.reverse_post_order@.len() - idx,
            {
                let block = env.reverse_post_order[idx];
                proof {
                    assert(env.reverse_post_order@[idx as int] < env.graph.node_count());
                    assert forall|a: int|
                        0 <= a < env.graph.actions_of(block as int).len() implies vars_known(
                        env.decls(),
                        (#[trigger] env.graph.actions_of(block as int)[a]).kind,
                    ) && region_known(
                        env.graph.func().regions@,
                        env.graph.actions_of(block as int)[a].kind,
                    ) by {
                        assert(vars_known(
                            env.decls(),
                            env.graph.actions_of(env.reverse_post_order@[idx as int] as int)[a].kind,
                        ));
                        assert(region_known(
                            env.graph.func().regions@,
                            env.graph.actions_of(env.reverse_post_order@[idx as int] as int)[a].kind,
                        ));
                    }
                }
                self.simulate_block(&mut bits, block, false, &mut unused);
                let ghost before = *self;
                let ghost sets = self.live_sets();
                let ghost found = buf_set(&bits);
                let slice = bits.as_slice();
                let grew = self.liveness.insert_bits_from_slice(block, slice);
                proof {
                    assert(self.live_sets() =~= sets.update(block as int, sets[block as int].union(found))) by {
                        assert forall|b: int| 0 <= b < sets.len() implies self.live_sets()[b] =~= sets.update(
                            block as int,
                            sets[block as int].union(found),
                        )[b] by {
                            assert(sets[b] == before.live_in(b));
                        }
                    }
                    lemma_least_live_kept(env, sets, block as int, found);
                    if !grew {
                        assert(found.subset_of(sets[block as int])) by {
                            assert forall|bit: int| found.contains(bit) implies sets[block as int].contains(
                                bit,
                            ) by {
                                assert(slice.has(bit));
                                assert(sets[block as int] == before.live_in(block as int));
                            }
                        }
                        assert(sets[block as int].union(found) =~= sets[block as int]);
                        assert(self.live_sets() =~= sets);
                    }
                }
                changed = changed || grew;
                idx += 1;
            }
        }
    }

    /// The liveness of `env`. `TooLarge` where the bits cannot be counted
    /// in a `usize`; else `UndeclaredVariable` or `UndeclaredRegion` where
    /// an action of a block of the reverse post-order mentions a variable, or
    /// ends a region, that is not declared.
    pub fn new(env: &'env Environment<'env>) -> (r: Result<Liveness<'env>, StructuralError>)
        requires
            env.wf(),
        ensures
            match r {
                Ok(l) => {
                    &&& l.wf()
                    &&& l.env() == env
                    &&& is_live_solution(env, l.live_sets())
                    &&& least_live(env, l.live_sets())
                    &&& liveness_accepted(env)
                },
                Err(e) => liveness_refused(env, e),
            },
    {
        let decls = env.graph.decls();
        let regions = env.graph.free_regions();
        let mut bits: Vec<BitKind> = Vec::new();
        let mut i: usize = 0;
        while i < decls.len()
            invariant
                i <= decls.len(),
                bits@.len() == i,
                *decls == env.graph.func().decls,
                forall|k: int| 0 <= k < i ==> #[trigger] bits@[k] == BitKind::VariableUsed(decls@[k].var),
            decreases decls.len() - i,
        {
            bits.push(BitKind::VariableUsed(decls[i].var));
            i += 1;
        }
        let mut i: usize = 0;
        while i < decls.len()
            invariant
                i <= decls.len(),
                bits@.len() == decls.len() + i,
                *decls == env.graph.func().decls,
                forall|k: int|
                    0 <= k < decls.len() ==> #[trigger] bits@[k] == BitKind::VariableUsed(decls@[k].var),
                forall|k: int|
                    0 <= k < i ==> #[trigger] bits@[decls.len() + k] == BitKind::VariableDrop(decls@[k].var),
            decreases decls.len() - i,
        {
            bits.push(BitKind::VariableDrop(decls[i].var));
            i += 1;
        }
        let mut j: usize = 0;
        while j < regions.len()
            invariant
                j <= regions.len(),
                bits@.len() == 2 * decls.len() + j,
                *decls == env.graph.func().decls,
                *regions == env.graph.func().regions,
                forall|k: int|
                    0 <= k < decls.len() ==> #[trigger] bits@[k] == BitKind::VariableUsed(decls@[k].var),
                forall|k: int|
                    0 <= k < decls.len() ==> #[trigger] bits@[decls.len() + k] == BitKind::VariableDrop(
                        decls@[k].var,
                    ),
                forall|k: int|
                    0 <= k < j ==> #[trigger] bits@[2 * decls.len() + k] == BitKind::FreeRegion(
                        regions@[k].name,
                    ),
            decreases regions.len() - j,
        {
            bits.push(BitKind::FreeRegion(regions[j].name));
            j += 1;
        }
        let num_nodes = env.graph.num_nodes();
        if !fits(num_nodes, bits.len()) {
            return Err(StructuralError::TooLarge);
        }
        // every name that the passes will look up must be declared
        let mut idx: usize = 0;
        while idx < env.reverse_post_order.len()
            invariant
                env.wf(),
                *decls == env.graph.func().decls,
                *regions == env.graph.func().regions,
                liveness_fits(env),
                idx <= env.reverse_post_order@.len(),
                names_error(env, idx as int) is None,
                forall|i: int, a: int|
                    0 <= i < idx && 0 <= a < env.graph.actions_of(env.reverse_post_order@[i] as int).len()
                        ==> vars_known(
                        env.decls(),
                        (#[trigger] env.graph.actions_of(env.reverse_post_order@[i] as int)[a]).kind,
                    ) && region_known(
                        env.graph.func().regions@,
                        env.graph.actions_of(env.reverse_post_order@[i] as int)[a].kind,
                    ),
            decreases env.reverse_post_order@.len() - idx,
        {
            let block = env.reverse_post_order[idx];
            let actions = env.graph.block_data(BasicBlockIndex { index: block }).actions();
            let mut a: usize = 0;
            while a < actions.len()
                invariant
                    *decls == env.graph.func().decls,
                    *regions == env.graph.func().regions,
                    liveness_fits(env),
                    idx < env.reverse_post_order@.len(),
                    block == env.reverse_post_order@[idx as int],
                    actions@ == env.graph.actions_of(block as int),
                    a <= actions.len(),
                    names_error(env, idx as int) is None,
                    block_error(env, block as int, a as int) is None,
                    forall|q: int|
                        0 <= q < a ==> vars_known(env.decls(), (#[trigger] actions@[q]).kind) && region_known(
                            env.graph.func().regions@,
                            actions@[q].kind,
                        ),
                decreases actions.len() - a,
            {
                match check_action(decls, regions, &actions[a]) {
                    Err(e) => {
                        proof {
                            assert(actions@[a as int] == env.graph.actions_of(
                                env.reverse_post_order@[idx as int] as int,
                            )[a as int]);
                            assert(block_error(env, block as int, a + 1) == Some(e));
                            lemma_block_error(env, block as int, a + 1, actions@.len() as int);
                            assert(names_error(env, idx + 1) == Some(e));
                            lemma_names_error(env, idx + 1, env.reverse_post_order@.len() as int);
                        }
                        return Err(e);
                    },
                    Ok(()) => {},
                }
                a += 1;
            }
            idx += 1;
        }
        let liveness = BitSet::new(env.graph, bits.len());
        let mut this = Liveness { env, bits, liveness };
        this.compute();
        Ok(this)
    }

    /// Whether `var_name` may still be used when control enters `b`.
    pub fn var_live_on_entry(&self, var_name: Variable, b: BasicBlockIndex) -> (r: Result<bool, StructuralError>)
        requires
            self.wf(),
            b.index < self.env().graph.node_count(),
        ensures
            r == match used_bit(self.env().decls(), var_name) {
                Some(bit) => Ok::<bool, StructuralError>(self.live_in(b.index as int).contains(bit)),
                None => Err(StructuralError::UndeclaredVariable),
            },
    {
        match find_decl(self.env.graph.decls(), var_name) {
            None => Err(StructuralError::UndeclaredVariable),
            Some(bit) => {
                proof {
                    assert(self.bits@.len() == bit_count(self.env));
                }
                let total = self.bits.len();
                Ok(self.liveness.is_set(b.index, bit))
            },
        }
    }

    /// Whether the region `region_name` must be live when control enters
    /// `b`.
    pub fn region_live_on_entry(&self, region_name: RegionName, b: BasicBlockIndex) -> (r: Result<
        bool,
        StructuralError,
    >)
        requires
            self.wf(),
            b.index < self.env().graph.node_count(),
        ensures
            match r {
                Ok(live) => live_region_set(
                    self.env(),
                    self.live_in(b.index as int),
                    bit_count(self.env()),
                ) matches Ok(s) && live == s.contains(region_name),
                Err(e) => live_region_set(self.env(), self.live_in(b.index as int), bit_count(self.env()))
                    == Err::<Set<RegionName>, StructuralError>(e),
            },
    {
        let row = self.liveness.bits(b.index);
        proof {
            assert(slice_set(row) =~= self.live_in(b.index as int));
        }
        match self.regions_set(row) {
            Err(e) => Err(e),
            Ok(set) => {
                let mut i: usize = 0;
                while i < set.len()
                    invariant
                        i <= set.len(),
                        forall|k: int| 0 <= k < i ==> set@[k] != region_name,
                        live_region_set(
                            self.env(),
                            self.live_in(b.index as int),
                            bit_count(self.env()),
                        ) == Ok::<Set<RegionName>, StructuralError>(set@.to_set()),
                    decreases set.len() - i,
                {
                    if set[i].same(region_name) {
                        proof {
                            assert(set@.to_set().contains(set@[i as int]));
                        }
                        return Ok(true);
                    }
                    i += 1;
                }
                proof {
                    if set@.to_set().contains(region_name) {
                        let k = choose|k: int| 0 <= k < set@.len() && set@[k] == region_name;
                    }
                }
                Ok(false)
            },
        }
    }

    /// What `walk` hands out: each point of each block of the order with
    /// what is live on entry to it.
    pub open spec fn facts(&self) -> Seq<(Point, Set<int>)> {
        walk_facts(self.env(), self.live_sets(), self.env().reverse_post_order@.len() as int)
    }

    /// The regions that must be live where the bits `live_bits` are set,
    /// each once.
    pub fn live_regions(&self, live_bits: BitSlice) -> (r: Result<Vec<RegionName>, StructuralError>)
        requires
            self.wf(),
            live_bits.wf(),
            live_bits.capacity() == self.capacity(),
        ensures
            match r {
                Ok(v) => live_region_set(self.env(), slice_set(live_bits), bit_count(self.env())) == Ok::<
                    Set<RegionName>,
                    StructuralError,
                >(v@.to_set()) && v@.no_duplicates(),
                Err(e) => live_region_set(self.env(), slice_set(live_bits), bit_count(self.env())) == Err::<
                    Set<RegionName>,
                    StructuralError,
                >(e),
            },
    {
        self.regions_set(live_bits)
    }

    fn regions_set(&self, live_bits: BitSlice) -> (r: Result<Vec<RegionName>, StructuralError>)
        requires
            self.wf(),
            live_bits.wf(),
            live_bits.capacity() == self.liveness.capacity(),
        ensures
            match r {
                Ok(v) => live_region_set(self.env, slice_set(live_bits), bit_count(self.env)) == Ok::<
                    Set<RegionName>,
                    StructuralError,
                >(v@.to_set()) && v@.no_duplicates(),
                Err(e) => live_region_set(self.env, slice_set(live_bits), bit_count(self.env)) == Err::<
                    Set<RegionName>,
                    StructuralError,
                >(e),
            },
    {
        let env = self.env;
        let structs = env.graph.struct_decls();
        let mut set: Vec<RegionName> = Vec::new();
        let ghost live = slice_set(live_bits);
        let ghost n = env.decls().len() as int;
        let mut index: usize = 0;
        proof {
            assert(set@.to_set() =~= Set::<RegionName>::empty());
        }
        while index < self.bits.len()
            invariant
                self.wf(),
                env == self.env,
                *structs == env.graph.func().structs,
                live_bits.wf(),
                live_bits.capacity() == self.liveness.capacity(),
                live == slice_set(live_bits),
                n == env.decls().len(),
                index <= self.bits@.len(),
                set@.no_duplicates(),
                live_region_set(env, live, index as int) == Ok::<Set<RegionName>, StructuralError>(
                    set@.to_set(),
                ),
            decreases self.bits@.len() - index,
        {
            let ghost before = set@.to_set();
            if live_bits.get(index) {
                let r = match self.bits[index] {
                    BitKind::VariableUsed(v) => {
                        match env.var_ty(v) {
                            Err(e) => Err(e),
                            Ok(var_ty) => use_ty(&mut set, &var_ty),
                        }
                    },
                    BitKind::VariableDrop(v) => {
                        match env.var_ty(v) {
                            Err(e) => Err(e),
                            Ok(var_ty) => drop_ty(structs, &mut set, &var_ty),
                        }
                    },
                    BitKind::FreeRegion(rn) => {
                        use_region(&mut set, rn);
                        proof {
                            assert(set@.to_set() =~= before.union(set![rn]));
                        }
                        Ok(())
                    },
                };
                proof {
                    if index < n {
                        assert(self.bits@[index as int] == BitKind::VariableUsed(env.decls()[index as int].var));
                    } else if index < 2 * n {
                        assert(self.bits@[n + (index - n)] == BitKind::VariableDrop(
                            env.decls()[index - n].var,
                        ));
                    } else {
                        assert(self.bits@[2 * n + (index - 2 * n)] == BitKind::FreeRegion(
                            env.graph.func().regions@[index - 2 * n].name,
                        ));
                    }
                }
                match r {
                    Err(e) => {
                        proof {
                            assert(live_region_set(env, live, index as int + 1) == Err::<
                                Set<RegionName>,
                                StructuralError,
                            >(e));
                            lemma_live_region_err(env, live, index as int + 1, bit_count(env));
                        }
                        return Err(e);
                    },
                    Ok(()) => {},
                }
            }
            index += 1;
        }
        Ok(set)
    }

    /// Invokes callback once for each action with (A) the point of the
    /// action; (B) the action itself and (C) the set of live variables on
    /// entry to the action: here, the list of what the callback would get,
    /// block by block in reverse post-order, in each block from the
    /// terminator backwards.
    pub fn walk(&self) -> (r: Vec<LiveFact>)
        requires
            self.wf(),
        ensures
            facts_view(r@) == walk_facts(
                self.env(),
                self.live_sets(),
                self.env().reverse_post_order@.len() as int,
            ),
            forall|i: int|
                0 <= i < r@.len() ==> fact_ok(self.env(), self.capacity(), &#[trigger] r@[i])
                    && self.env().reverse_post_order@.contains(r@[i].point.block.index),
    {
        let env = self.env;
        let mut out: Vec<LiveFact> = Vec::new();
        let mut bits = self.liveness.empty_buf();
        let mut idx: usize = 0;
        proof {
            assert(facts_view(out@) =~= walk_facts(env, self.live_sets(), 0));
        }
        while idx < env.reverse_post_order.len()
            invariant
                self.wf(),
                env == self.env,
                bits.capacity() == self.liveness.capacity(),
                idx <= env.reverse_post_order@.len(),
                facts_view(out@) == walk_facts(env, self.live_sets(), idx as int),
                forall|i: int|
                    0 <= i < out@.len() ==> fact_ok(env, self.liveness.capacity(), &#[trigger] out@[i])
                        && env.reverse_post_order@.contains(out@[i].point.block.index),
            decreases env.reverse_post_order@.len() - idx,
        {
            let block = env.reverse_post_order[idx];
            proof {
                assert(env.reverse_post_order@[idx as int] < env.graph.node_count());
                assert forall|a: int|
                    0 <= a < env.graph.actions_of(block as int).len() implies vars_known(
                    env.decls(),
                    (#[trigger] env.graph.actions_of(block as int)[a]).kind,
                ) && region_known(env.graph.func().regions@, env.graph.actions_of(block as int)[a].kind) by {
                    assert(vars_known(
                        env.decls(),
                        env.graph.actions_of(env.reverse_post_order@[idx as int] as int)[a].kind,
                    ));
                    assert(region_known(
                        env.graph.func().regions@,
                        env.graph.actions_of(env.reverse_post_order@[idx as int] as int)[a].kind,
                    ));
                }
            }
            let ghost before = out@;
            self.simulate_block(&mut bits, block, true, &mut out);
            proof {
                assert forall|i: int| 0 <= i < out@.len() implies fact_ok(
                    env,
                    self.liveness.capacity(),
                    &#[trigger] out@[i],
                ) && env.reverse_post_order@.contains(out@[i].point.block.index) by {
                    if i < before.len() {
                        assert(out@[i] == before[i]);
                    } else {
                        assert(env.reverse_post_order@[idx as int] == block);
                    }
                }
            }
            idx += 1;
        }
        out
    }

    /// Number of bit positions in the set of every point.
    pub closed spec fn capacity(&self) -> nat {
        self.liveness.capacity()
    }

    /// Applies one action to what is live after it.
    fn step(&self, buf: &mut BitBuf, action: &Action)
        requires
            self.wf(),
            old(buf).capacity() == self.liveness.capacity(),
            vars_known(self.env.decls(), action.kind),
            region_known(self.env.graph.func().regions@, action.kind),
        ensures
            final(buf).capacity() == old(buf).capacity(),
            buf_set(final(buf)) == live_before(
                self.env.decls(),
                self.env.graph.func().regions@,
                action.kind,
                buf_set(old(buf)),
            ),
    {
        let decls = self.env.graph.decls();
        let regions = self.env.graph.free_regions();
        let count = decls.len();
        let (def_var, use_var) = action.def_use();
        let ghost after = buf_set(buf);
        let ghost d = self.env.decls();
        let ghost rs = self.env.graph.func().regions@;
        let total = self.bits.len();
        proof {
            assert(total == 2 * count + regions.len());
            assert(self.liveness.width() == 2 * count + regions.len());
        }
        // anything we write to is no longer live
        let mut i: usize = 0;
        while i < def_var.len()
            invariant
                self.wf(),
                *decls == self.env.graph.func().decls,
                d == self.env.decls(),
                count == decls.len(),
                2 * count <= usize::MAX,
                buf.capacity() == self.liveness.capacity(),
                i <= def_var.len(),
                def_var@ == defs_of(action.kind),
                vars_known(d, action.kind),
                forall|bit: int|
                    #[trigger] buf.has(bit) <==> (after.contains(bit) && !exists|k: int|
                        0 <= k < i && (used_bit(d, #[trigger] def_var@[k]) == Some(bit) || drop_bit(
                            d,
                            def_var@[k],
                        ) == Some(bit))),
            decreases def_var.len() - i,
        {
            let v = def_var[i];
            proof {
                assert(used_bit(d, defs_of(action.kind)[i as int]) is Some);
            }
            match find_decl(decls, v) {
                None => {},
                Some(index) => {
                    let ghost before = buf_set(buf);
                    buf.kill(index);
                    buf.kill(count + index);
                    proof {
                        assert forall|bit: int|
                            #[trigger] buf.has(bit) <==> (after.contains(bit) && !exists|k: int|
                                0 <= k < i + 1 && (used_bit(d, #[trigger] def_var@[k]) == Some(bit)
                                    || drop_bit(d, def_var@[k]) == Some(bit))) by {
                            if exists|k: int|
                                0 <= k < i + 1 && (used_bit(d, #[trigger] def_var@[k]) == Some(bit)
                                    || drop_bit(d, def_var@[k]) == Some(bit)) {
                                let k = choose|k: int|
                                    0 <= k < i + 1 && (used_bit(d, #[trigger] def_var@[k]) == Some(bit)
                                        || drop_bit(d, def_var@[k]) == Some(bit));
                                if k < i {
                                    assert(!before.contains(bit));
                                }
                            }
                            if bit == index || bit == count + index {
                                assert(used_bit(d, def_var@[i as int]) == Some(bit) || drop_bit(
                                    d,
                                    def_var@[i as int],
                                ) == Some(bit));
                            }
                        }
                    }
                },
            }
            i += 1;
        }
        let ghost killed = buf_set(buf);
        // any variables we read from, we make live
        let mut j: usize = 0;
        while j < use_var.len()
            invariant
                self.wf(),
                *decls == self.env.graph.func().decls,
                d == self.env.decls(),
                count == decls.len(),
                buf.capacity() == self.liveness.capacity(),
                j <= use_var.len(),
                use_var@ == uses_of(action.kind),
                vars_known(d, action.kind),
                forall|bit: int|
                    #[trigger] buf.has(bit) <==> (killed.contains(bit) || exists|k: int|
                        0 <= k < j && used_bit(d, #[trigger] use_var@[k]) == Some(bit)),
            decreases use_var.len() - j,
        {
            let v = use_var[j];
            proof {
                assert(used_bit(d, uses_of(action.kind)[j as int]) is Some);
            }
            match find_decl(decls, v) {
                None => {},
                Some(index) => {
                    let ghost before = buf_set(buf);
                    let ghost prev = *buf;
                    buf.set(index);
                    proof {
                        assert forall|bit: int| before.contains(bit) == prev.has(bit) by {}
                        assert forall|bit: int|
                            #[trigger] buf.has(bit) <==> (killed.contains(bit) || exists|k: int|
                                0 <= k < j + 1 && used_bit(d, #[trigger] use_var@[k]) == Some(bit)) by {
                            if exists|k: int| 0 <= k < j + 1 && used_bit(d, #[trigger] use_var@[k]) == Some(bit) {
                                let k = choose|k: int|
                                    0 <= k < j + 1 && used_bit(d, #[trigger] use_var@[k]) == Some(bit);
                                if k < j {
                                    assert(0 <= k < j && used_bit(d, use_var@[k]) == Some(bit));
                                    assert(prev.has(bit));
                                }
                            }
                            if bit == index {
                                assert(used_bit(d, use_var@[j as int]) == Some(bit));
                            }
                            if prev.has(bit) && !killed.contains(bit) {
                                let k = choose|k: int|
                                    0 <= k < j && used_bit(d, #[trigger] use_var@[k]) == Some(bit);
                                assert(0 <= k < j + 1);
                            }
                        }
                    }
                },
            }
            j += 1;
        }
        // some actions are special
        match &action.kind {
            ActionKind::Drop(path) => {
                match find_decl(decls, path.base()) {
                    None => {},
                    Some(index) => {
                        buf.set(count + index);
                    },
                }
            },
            ActionKind::SkolemizedEnd(name) => {
                match find_region(regions, *name) {
                    None => {},
                    Some(index) => {
                        buf.set(2 * count + index);
                    },
                }
            },
            _ => {},
        }
        proof {
            let target = live_before(d, rs, action.kind, after);
            assert forall|bit: int| buf_set(buf).contains(bit) <==> target.contains(bit) by {
                if exists|k: int|
                    0 <= k < defs_of(action.kind).len() && (used_bit(d, #[trigger] defs_of(action.kind)[k])
                        == Some(bit) || drop_bit(d, defs_of(action.kind)[k]) == Some(bit)) {
                    let k = choose|k: int|
                        0 <= k < defs_of(action.kind).len() && (used_bit(
                            d,
                            #[trigger] defs_of(action.kind)[k],
                        ) == Some(bit) || drop_bit(d, defs_of(action.kind)[k]) == Some(bit));
                    assert(used_bit(d, def_var@[k]) == Some(bit) || drop_bit(d, def_var@[k]) == Some(bit));
                }
                if exists|k: int|
                    0 <= k < uses_of(action.kind).len() && used_bit(d, #[trigger] uses_of(action.kind)[k])
                        == Some(bit) {
                    let k = choose|k: int|
                        0 <= k < uses_of(action.kind).len() && used_bit(
                            d,
                            #[trigger] uses_of(action.kind)[k],
                        ) == Some(bit);
                    assert(used_bit(d, use_var@[k]) == Some(bit));
                }
            }
            assert(buf_set(buf) =~= target);
        }
    }
}

} // verus!
