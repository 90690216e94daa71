//! The region check: it gathers the constraints that the actions of the
//! function put on its regions, solves them, and holds the inferred regions
//! against the borrows, the expected errors and the assertions.

use crate::env::{find_struct, last_struct, supports, ty_of_path, Environment, Point};
use crate::errors::{
    expectation_at, reconcile, ErrorReporting, Reconciled, Report, ReportedError, StructuralError,
};
use crate::infer::{Constraint, InferenceContext, RegionVariable};
use crate::borrowck::{borrow_check, check_facts, reports, BorrowError, Conflict};
use crate::func_graph::{
    lemma_last_block_bound,
    lemma_last_region_bound,
    last_block,
    last_region,
    BasicBlockIndex,
};
use crate::graph::Graph;
use crate::infer::{
    all_met, below, carried, end_point_of, is_least_solution, is_met, lemma_end_points, missing, point_before,
    universe, InferenceError,
};
use crate::bit_set::words_for;
use crate::liveness::{
    bit_count,
    buf_set,
    fact_ok,
    facts_view,
    is_live_solution,
    least_live,
    lemma_liveness_unique,
    live_region_set,
    liveness_accepted,
    liveness_refused,
    slice_set,
    used_bit,
    LiveFact,
    Liveness,
};
use crate::loans_in_scope::{
    all_borrows, is_scope_solution, least_scope, lemma_scope_unique, loans_fit, loans_match, regions_known,
    walk_scopes,
    LoanModel, LoansInScope,
};
use crate::region::Region;
use crate::repr::{
    param_models,
    Action,
    ActionKind,
    Assertion,
    Constraint as ReprConstraint,
    ParamModel,
    Path,
    Point as NamedPoint,
    PointName,
    Region as TyRegion,
    RegionDecl,
    RegionLiteral,
    RegionName,
    StructDecl,
    StructParameter,
    Ty,
    TyModel,
    TyParameter,
    Variance,
};
use vstd::pervasive::unreached;
use vstd::prelude::*;

verus! {

/// The variable that the first `upto` entries of `map` give to `name`: that
/// of the last entry for it.
pub open spec fn var_of(map: Seq<(RegionName, RegionVariable)>, name: RegionName, upto: int) -> Option<
    RegionVariable,
>
    decreases upto,
{
    if upto <= 0 || upto > map.len() {
        None
    } else if map[upto - 1].0 == name {
        Some(map[upto - 1].1)
    } else {
        var_of(map, name, upto - 1)
    }
}

/// The variable found for a name stands in one of the first `upto`
/// entries, beside that name.
pub proof fn lemma_var_of_bound(map: Seq<(RegionName, RegionVariable)>, name: RegionName, upto: int)
    ensures
        var_of(map, name, upto) matches Some(v) ==> exists|i: int|
            0 <= i < upto && i < map.len() && #[trigger] map[i] == (name, v),
    decreases upto,
{
    if !(upto <= 0 || upto > map.len()) {
        if map[upto - 1].0 == name {
            assert(map[upto - 1] == (name, map[upto - 1].1));
        } else {
            lemma_var_of_bound(map, name, upto - 1);
        }
    }
}

/// An outlives relation between two named regions: the first holds what
/// the second holds.
pub type Outlives = (RegionName, RegionName);

/// What relating the regions `a` and `b` under `variance` asks for: `a`
/// within `b` for `Co`, `b` within `a` for `Contra`, both for `In`.
pub open spec fn region_relations(variance: Variance, a: RegionName, b: RegionName) -> Seq<Outlives> {
    match variance {
        Variance::Co => seq![(b, a)],
        Variance::Contra => seq![(a, b)],
        Variance::In => seq![(a, b), (b, a)],
    }
}

/// What relating two regions asks for, where both are free.
pub open spec fn free_relations(variance: Variance, a: TyRegion, b: TyRegion) -> Result<
    Seq<Outlives>,
    StructuralError,
> {
    match (a, b) {
        (TyRegion::Free(x), TyRegion::Free(y)) => Ok(region_relations(variance, x, y)),
        _ => Err(StructuralError::UnexpectedBound),
    }
}

/// What relating the types `a` and `b` under `variance` asks for. The types
/// must have the same shape. The region of a reference is related with the
/// variance inverted, its referent with the variance composed with that of
/// the kind of reference, and the parameters of a structure with the
/// variance composed with the declared one.
pub open spec fn ty_relations(structs: Seq<StructDecl>, variance: Variance, a: TyModel, b: TyModel) -> Result<
    Seq<Outlives>,
    StructuralError,
>
    decreases a, 0int,
{
    match (a, b) {
        (TyModel::Ref(r_a, bk_a, t_a), TyModel::Ref(r_b, bk_b, t_b)) => if bk_a != bk_b {
            Err(StructuralError::TypeMismatch)
        } else {
            match free_relations(variance.inverted(), r_a, r_b) {
                Err(e) => Err(e),
                Ok(first) => match ty_relations(
                    structs,
                    variance.composed(bk_a.referent_variance()),
                    *t_a,
                    *t_b,
                ) {
                    Err(e) => Err(e),
                    Ok(rest) => Ok(first + rest),
                },
            }
        },
        (TyModel::Unit, TyModel::Unit) => Ok(Seq::empty()),
        (TyModel::Struct(s_a, ps_a), TyModel::Struct(s_b, ps_b)) => if s_a != s_b {
            Err(StructuralError::TypeMismatch)
        } else {
            match last_struct(structs, s_a, structs.len() as int) {
                None => Err(StructuralError::UndeclaredStruct),
                Some(s) => if ps_a.len() != structs[s].parameters@.len() || ps_b.len()
                    != structs[s].parameters@.len() {
                    Err(StructuralError::WrongArity)
                } else {
                    param_relations(structs, variance, structs[s].parameters@, ps_a, ps_b, ps_a.len() as int)
                },
            }
        },
        _ => Err(StructuralError::TypeMismatch),
    }
}

/// What relating two parameters of the same kind asks for.
pub open spec fn param_relation(structs: Seq<StructDecl>, variance: Variance, a: ParamModel, b: ParamModel) -> Result<
    Seq<Outlives>,
    StructuralError,
>
    decreases a, 1int,
{
    match (a, b) {
        (ParamModel::Ty(t_a), ParamModel::Ty(t_b)) => ty_relations(structs, variance, *t_a, *t_b),
        (ParamModel::Region(r_a), ParamModel::Region(r_b)) => free_relations(variance, r_a, r_b),
        _ => Err(StructuralError::TypeMismatch),
    }
}

/// An error among the first parameters is the error of all.
pub proof fn lemma_param_relations_err(
    structs: Seq<StructDecl>,
    variance: Variance,
    decls: Seq<StructParameter>,
    ps_a: Seq<ParamModel>,
    ps_b: Seq<ParamModel>,
    at: int,
    upto: int,
)
    requires
        0 < at <= upto <= ps_a.len(),
        upto <= ps_b.len(),
        upto <= decls.len(),
        param_relations(structs, variance, decls, ps_a, ps_b, at) is Err,
    ensures
        param_relations(structs, variance, decls, ps_a, ps_b, upto) == param_relations(
            structs,
            variance,
            decls,
            ps_a,
            ps_b,
            at,
        ),
    decreases upto - at,
{
    if at < upto {
        lemma_param_relations_err(structs, variance, decls, ps_a, ps_b, at, upto - 1);
    }
}

/// What relating the first `upto` parameters asks for.
pub open spec fn param_relations(
    structs: Seq<StructDecl>,
    variance: Variance,
    decls: Seq<StructParameter>,
    ps_a: Seq<ParamModel>,
    ps_b: Seq<ParamModel>,
    upto: int,
) -> Result<Seq<Outlives>, StructuralError>
    decreases ps_a, upto,
{
    if upto <= 0 || upto > ps_a.len() || upto > ps_b.len() || upto > decls.len() {
        Ok(Seq::empty())
    } else {
        match param_relations(structs, variance, decls, ps_a, ps_b, upto - 1) {
            Err(e) => Err(e),
            Ok(done) => match param_relation(
                structs,
                variance.composed(decls[upto - 1].variance),
                ps_a[upto - 1],
                ps_b[upto - 1],
            ) {
                Err(e) => Err(e),
                Ok(m) => Ok(done + m),
            },
        }
    }
}

/// The relations `pairs`, as constraints at `point`.
pub open spec fn at_point(pairs: Seq<Outlives>, point: Point) -> Seq<(RegionName, RegionName, Point)> {
    Seq::new(pairs.len(), |i: int| (pairs[i].0, pairs[i].1, point))
}

/// What a borrow for the region `borrow` asks of the regions of the
/// references that its source goes through: for every one of the first
/// `upto` prefixes `*r` of `prefixes`, the region of `r` must outlive the
/// borrow. The list ends at the first prefix that is a variable.
pub open spec fn source_relations(env: &Environment, borrow: RegionName, prefixes: Seq<Path>, upto: int) -> Result<
    Seq<Outlives>,
    StructuralError,
>
    decreases upto,
{
    if upto <= 0 || upto > prefixes.len() {
        Ok(Seq::empty())
    } else {
        match source_relations(env, borrow, prefixes, upto - 1) {
            Err(e) => Err(e),
            Ok(done) => match prefixes[upto - 1] {
                Path::Var(_) => Ok(done),
                Path::Extension(base, f) => match ty_of_path(env.decls(), env.structs(), env.star, *base) {
                    Err(e) => Err(e),
                    Ok(TyModel::Ref(r, _, _)) => if f != env.star {
                        Err(StructuralError::TypeMismatch)
                    } else {
                        match r {
                            TyRegion::Free(name) => Ok(done.push((name, borrow))),
                            TyRegion::Bound(_) => Err(StructuralError::UnexpectedBound),
                        }
                    },
                    Ok(_) => Ok(done),
                },
            },
        }
    }
}

/// The point that a named point stands for: `UndeclaredBlock` where no
/// block bears the name, `UndeclaredRegion` where the end of an undeclared
/// region is named.
pub open spec fn named_point(env: &Environment, p: NamedPoint) -> Result<Point, StructuralError> {
    match p.block {
        PointName::Code(b) => match last_block(env.graph.func().data@, b, env.graph.code_count() as int) {
            None => Err(StructuralError::UndeclaredBlock),
            Some(i) => Ok(Point { block: BasicBlockIndex { index: i as usize }, action: p.action }),
        },
        PointName::SkolemizedEnd(r) => match last_region(
            env.graph.func().regions@,
            r,
            env.graph.func().regions@.len() as int,
        ) {
            None => Err(StructuralError::UndeclaredRegion),
            Some(j) => Ok(
                Point {
                    block: BasicBlockIndex { index: (env.graph.code_count() + j) as usize },
                    action: p.action,
                },
            ),
        },
    }
}

/// The set of the first `upto` points of a region literal.
pub open spec fn literal_set(env: &Environment, points: Seq<NamedPoint>, upto: int) -> Result<
    Set<Point>,
    StructuralError,
>
    decreases upto,
{
    if upto <= 0 || upto > points.len() {
        Ok(Set::empty())
    } else {
        match literal_set(env, points, upto - 1) {
            Err(e) => Err(e),
            Ok(done) => match named_point(env, points[upto - 1]) {
                Err(e) => Err(e),
                Ok(p) => Ok(done.insert(p)),
            },
        }
    }
}

proof fn lemma_literal_err(env: &Environment, points: Seq<NamedPoint>, at: int, upto: int)
    requires
        0 < at <= upto <= points.len(),
        literal_set(env, points, at) is Err,
    ensures
        literal_set(env, points, upto) == literal_set(env, points, at),
    decreases upto - at,
{
    if at < upto {
        lemma_literal_err(env, points, at, upto - 1);
    }
}

/// The block that bears the name `b`.
pub open spec fn named_block(env: &Environment, b: crate::repr::BasicBlock) -> Result<int, StructuralError> {
    match last_block(env.graph.func().data@, b, env.graph.code_count() as int) {
        None => Err(StructuralError::UndeclaredBlock),
        Some(i) => Ok(i),
    }
}

/// Whether the assertion holds of the inferred regions and of the
/// liveness.
pub open spec fn assertion_holds(regionck: &RegionCheck, liveness: &Liveness, assertion: Assertion) -> Result<
    bool,
    StructuralError,
> {
    let env = regionck.environment();
    match assertion {
        Assertion::Eq(name, literal) => match regionck.value_of(name) {
            None => Err(StructuralError::UndeclaredRegion),
            Some(value) => match literal_set(env, literal.points@, literal.points@.len() as int) {
                Err(e) => Err(e),
                Ok(set) => Ok(value == set),
            },
        },
        Assertion::In(name, point) => match regionck.value_of(name) {
            None => Err(StructuralError::UndeclaredRegion),
            Some(value) => match named_point(env, point) {
                Err(e) => Err(e),
                Ok(p) => Ok(value.contains(p)),
            },
        },
        Assertion::NotIn(name, point) => match regionck.value_of(name) {
            None => Err(StructuralError::UndeclaredRegion),
            Some(value) => match named_point(env, point) {
                Err(e) => Err(e),
                Ok(p) => Ok(!value.contains(p)),
            },
        },
        Assertion::Live(var, block) => match named_block(env, block) {
            Err(e) => Err(e),
            Ok(b) => match used_bit(env.decls(), var) {
                None => Err(StructuralError::UndeclaredVariable),
                Some(bit) => Ok(liveness.live_in(b).contains(bit)),
            },
        },
        Assertion::NotLive(var, block) => match named_block(env, block) {
            Err(e) => Err(e),
            Ok(b) => match used_bit(env.decls(), var) {
                None => Err(StructuralError::UndeclaredVariable),
                Some(bit) => Ok(!liveness.live_in(b).contains(bit)),
            },
        },
        Assertion::RegionLive(name, block) => match named_block(env, block) {
            Err(e) => Err(e),
            Ok(b) => match live_region_set(env, liveness.live_in(b), bit_count(env)) {
                Err(e) => Err(e),
                Ok(s) => Ok(s.contains(name)),
            },
        },
        Assertion::RegionNotLive(name, block) => match named_block(env, block) {
            Err(e) => Err(e),
            Ok(b) => match live_region_set(env, liveness.live_in(b), bit_count(env)) {
                Err(e) => Err(e),
                Ok(s) => Ok(!s.contains(name)),
            },
        },
    }
}

/// The indices of those of the first `upto` assertions that do not hold.
pub open spec fn failures(regionck: &RegionCheck, liveness: &Liveness, assertions: Seq<Assertion>, upto: int) -> Result<
    Seq<usize>,
    StructuralError,
>
    decreases upto,
{
    if upto <= 0 || upto > assertions.len() {
        Ok(Seq::empty())
    } else {
        match failures(regionck, liveness, assertions, upto - 1) {
            Err(e) => Err(e),
            Ok(done) => match assertion_holds(regionck, liveness, assertions[upto - 1]) {
                Err(e) => Err(e),
                Ok(true) => Ok(done),
                Ok(false) => Ok(done.push((upto - 1) as usize)),
            },
        }
    }
}

proof fn lemma_failures_err(
    regionck: &RegionCheck,
    liveness: &Liveness,
    assertions: Seq<Assertion>,
    at: int,
    upto: int,
)
    requires
        0 < at <= upto <= assertions.len(),
        failures(regionck, liveness, assertions, at) is Err,
    ensures
        failures(regionck, liveness, assertions, upto) == failures(regionck, liveness, assertions, at),
    decreases upto - at,
{
    if at < upto {
        lemma_failures_err(regionck, liveness, assertions, at, upto - 1);
    }
}

/// The errors are those of the borrow check of the loans of the function,
/// each with the inferred value of its region, against the least
/// assignment of loans in scope.
pub open spec fn borrow_errors_of(env: &Environment, regionck: &RegionCheck, errors: Seq<BorrowError>) -> bool {
    loans_fit(env) && exists|loans: Seq<LoanModel>, sets: Seq<Set<int>>|
        {
            let upto = env.reverse_post_order@.len() as int;
            let facts = walk_scopes(env, loans, sets, upto);
            &&& loans_match(loans, all_borrows(env, upto), regionck)
            &&& is_scope_solution(env, loans, sets)
            &&& #[trigger] least_scope(env, loans, sets)
            &&& check_facts(env, loans, facts, facts.len() as int) matches Ok(cs)
            &&& cs.len() == errors.len()
            &&& forall|i: int| 0 <= i < errors.len() ==> reports(#[trigger] errors[i], loans, cs[i].0, cs[i].1)
        }
}

/// What the region check found.
pub struct Outcome<'env> {
    /// The inferred regions.
    pub regionck: RegionCheck<'env>,
    /// What is live where.
    pub liveness: Liveness<'env>,
    /// The growth of capped regions.
    pub inference_errors: Vec<InferenceError>,
    /// The accesses that conflict with loans.
    pub borrow_errors: Vec<BorrowError>,
    /// The indices of the assertions that do not hold.
    pub failed_assertions: Vec<usize>,
}

/// What the first `upto` actions of block `b` are expected to be refused
/// with: for every action that bears an expectation, its point and the
/// expected text.
pub open spec fn block_expectations(actions: Seq<Action>, b: int, upto: int) -> Seq<Report>
    decreases upto,
{
    if upto <= 0 || upto > actions.len() {
        Seq::empty()
    } else {
        match actions[upto - 1].should_have_error {
            Some(text) => block_expectations(actions, b, upto - 1).push((point_at(b as usize, upto - 1), text@)),
            None => block_expectations(actions, b, upto - 1),
        }
    }
}

/// The expectations of the first `upto` blocks of the reverse post-order.
pub open spec fn expectations(env: &Environment, upto: int) -> Seq<Report>
    decreases upto,
{
    if upto <= 0 {
        Seq::empty()
    } else {
        let b = env.reverse_post_order@[upto - 1] as int;
        expectations(env, upto - 1) + block_expectations(
            env.graph.actions_of(b),
            b,
            env.graph.actions_of(b).len() as int,
        )
    }
}

/// No expectation is made for `point` where every expectation is for
/// another point.
proof fn lemma_not_expected(expected: Seq<Report>, point: Point, from: int)
    requires
        0 <= from,
        forall|k: int| 0 <= k < expected.len() ==> (#[trigger] expected[k]).0 != point,
    ensures
        expectation_at(expected, point, from) is None,
    decreases expected.len() - from,
{
    if from < expected.len() {
        lemma_not_expected(expected, point, from + 1);
    }
}

/// What a check comes to, once its diagnostics have their texts.
#[derive(Debug)]
pub enum Verdict {
    /// No assertion failed, and the errors are those that were expected.
    Passed,
    /// This many assertions failed.
    FailedAssertions(usize),
    /// The errors are not those that were expected: the error that decides.
    Unreconciled(ReportedError),
}

/// The reports of the growth of capped regions: each at the point of the
/// error, with its text.
pub open spec fn growth_reports(errors: Seq<InferenceError>, texts: Seq<String>) -> Seq<Report> {
    Seq::new(errors.len(), |i: int| (errors[i].constraint_point, texts[i]@))
}

/// The reports of the conflicts with loans: each at the point of the
/// access, with its text.
pub open spec fn borrow_reports(errors: Seq<BorrowError>, texts: Seq<String>) -> Seq<Report> {
    Seq::new(errors.len(), |i: int| (errors[i].point, texts[i]@))
}

/// What the outcome comes to: failed assertions decide first; else the
/// errors, those of the solver before those of the borrow check, are held
/// against what the function expects.
pub open spec fn verdict_of(
    env: &Environment,
    out: &Outcome,
    inference_texts: Seq<String>,
    borrow_texts: Seq<String>,
    r: Verdict,
) -> bool {
    let reported = growth_reports(out.inference_errors@, inference_texts) + borrow_reports(
        out.borrow_errors@,
        borrow_texts,
    );
    if out.failed_assertions@.len() > 0 {
        r == Verdict::FailedAssertions(out.failed_assertions@.len() as usize)
    } else {
        match reconcile(reported, expectations(env, env.reverse_post_order@.len() as int), reported.len() as int) {
            Reconciled::Clean => r is Passed,
            Reconciled::Unmatched(i) => r matches Verdict::Unreconciled(e) && 0 <= i < reported.len() && (
            e.point, e.message@) == reported[i],
            Reconciled::Missing(p) => r matches Verdict::Unreconciled(e) && e.point == p && e.message@
                == "no error reported on this point, but we expected one"@,
        }
    }
}

/// Decides what a finished check comes to. The texts are those of the
/// diagnostics of the solver and of the borrow check, one for each error,
/// in their order.
pub fn verdict(env: &Environment, out: &Outcome, inference_texts: &Vec<String>, borrow_texts: &Vec<String>) -> (r:
    Verdict)
    requires
        env.wf(),
        inference_texts@.len() == out.inference_errors@.len(),
        borrow_texts@.len() == out.borrow_errors@.len(),
    ensures
        verdict_of(env, out, inference_texts@, borrow_texts@, r),
{
    if out.failed_assertions.len() > 0 {
        return Verdict::FailedAssertions(out.failed_assertions.len());
    }
    let mut errors = expected_errors(env);
    let ghost first = growth_reports(out.inference_errors@, inference_texts@);
    let ghost second = borrow_reports(out.borrow_errors@, borrow_texts@);
    let mut i: usize = 0;
    proof {
        assert(errors.reported() =~= first.take(0));
    }
    while i < out.inference_errors.len()
        invariant
            i <= out.inference_errors@.len(),
            inference_texts@.len() == out.inference_errors@.len(),
            first == growth_reports(out.inference_errors@, inference_texts@),
            errors.expected() == expectations(env, env.reverse_post_order@.len() as int),
            errors.reported() == first.take(i as int),
        decreases out.inference_errors@.len() - i,
    {
        errors.report_error(out.inference_errors[i].constraint_point, inference_texts[i].clone());
        proof {
            assert(errors.reported() =~= first.take(i + 1));
        }
        i += 1;
    }
    let mut j: usize = 0;
    proof {
        assert(first.take(first.len() as int) =~= first);
        assert(errors.reported() =~= first + second.take(0));
    }
    while j < out.borrow_errors.len()
        invariant
            j <= out.borrow_errors@.len(),
            borrow_texts@.len() == out.borrow_errors@.len(),
            second == borrow_reports(out.borrow_errors@, borrow_texts@),
            errors.expected() == expectations(env, env.reverse_post_order@.len() as int),
            errors.reported() == first + second.take(j as int),
        decreases out.borrow_errors@.len() - j,
    {
        errors.report_error(out.borrow_errors[j].point, borrow_texts[j].clone());
        proof {
            assert(errors.reported() =~= first + second.take(j + 1));
        }
        j += 1;
    }
    proof {
        assert(second.take(second.len() as int) =~= second);
    }
    match errors.reconcile_errors() {
        Ok(()) => Verdict::Passed,
        Err(e) => Verdict::Unreconciled(e),
    }
}

/// The errors that the actions of the function are expected to be refused
/// with, and no reported error yet.
pub fn expected_errors(env: &Environment) -> (r: ErrorReporting)
    requires
        env.wf(),
    ensures
        r.reported().len() == 0,
        r.expected() == expectations(env, env.reverse_post_order@.len() as int),
{
    let mut errors = ErrorReporting::new();
    let mut idx: usize = 0;
    proof {
        assert(errors.expected() =~= expectations(env, 0));
    }
    while idx < env.reverse_post_order.len()
        invariant
            env.wf(),
            idx <= env.reverse_post_order@.len(),
            errors.reported().len() == 0,
            errors.expected() == expectations(env, idx as int),
            forall|k: int|
                0 <= k < errors.expected().len() ==> exists|q: int|
                    0 <= q < idx && env.reverse_post_order@[q] == (#[trigger] errors.expected()[k]).0.block.index,
        decreases env.reverse_post_order@.len() - idx,
    {
        let block = BasicBlockIndex { index: env.reverse_post_order[idx] };
        proof {
            assert(env.reverse_post_order@[idx as int] < env.graph.node_count());
        }
        let actions = env.graph.block_data(block).actions();
        let ghost done = expectations(env, idx as int);
        let mut index: usize = 0;
        proof {
            assert(done + block_expectations(actions@, block.index as int, 0) =~= done);
        }
        while index < actions.len()
            invariant
                env.wf(),
                idx < env.reverse_post_order@.len(),
                block.index == env.reverse_post_order@[idx as int],
                actions@ == env.graph.actions_of(block.index as int),
                done == expectations(env, idx as int),
                index <= actions.len(),
                errors.reported().len() == 0,
                errors.expected() == done + block_expectations(actions@, block.index as int, index as int),
                forall|k: int|
                    0 <= k < errors.expected().len() ==> (exists|q: int|
                        0 <= q < idx && env.reverse_post_order@[q] == (#[trigger] errors.expected()[k]).0.block.index)
                        || (errors.expected()[k].0.block.index == block.index && errors.expected()[k].0.action
                        < index),
            decreases actions.len() - index,
        {
            let point = Point { block, action: index };
            let ghost before = errors.expected();
            match &actions[index].should_have_error {
                Some(expected) => {
                    proof {
                        let po = env.reverse_post_order@.reverse();
                        let n = env.reverse_post_order@.len() as int;
                        assert forall|k: int| 0 <= k < before.len() implies (#[trigger] before[k]).0 != point by {
                            if before[k].0.block.index == block.index && !(before[k].0.action < index) {
                                let q = choose|q: int|
                                    0 <= q < idx && env.reverse_post_order@[q] == before[k].0.block.index;
                                assert(po[n - 1 - q] == env.reverse_post_order@[q]);
                                assert(po[n - 1 - idx] == env.reverse_post_order@[idx as int]);
                            }
                        }
                        lemma_not_expected(before, point, 0);
                    }
                    errors.expect_error(point, expected.as_str());
                    proof {
                        assert(point == point_at(block.index, index as int));
                        assert(errors.expected() =~= done + block_expectations(
                            actions@,
                            block.index as int,
                            index as int + 1,
                        ));
                        assert forall|k: int| 0 <= k < errors.expected().len() implies (exists|q: int|
                            0 <= q < idx && env.reverse_post_order@[q] == (#[trigger] errors.expected()[k]).0.block.index)
                            || (errors.expected()[k].0.block.index == block.index && errors.expected()[k].0.action
                            < index + 1) by {
                            if k < before.len() {
                                assert(errors.expected()[k] == before[k]);
                            }
                        }
                    }
                },
                None => {},
            }
            index += 1;
        }
        proof {
            assert forall|k: int| 0 <= k < errors.expected().len() implies exists|q: int|
                0 <= q < idx + 1 && env.reverse_post_order@[q] == (#[trigger] errors.expected()[k]).0.block.index by {
                if errors.expected()[k].0.block.index == block.index {
                    assert(env.reverse_post_order@[idx as int] == errors.expected()[k].0.block.index);
                } else {
                    let q = choose|q: int|
                        0 <= q < idx && env.reverse_post_order@[q] == errors.expected()[k].0.block.index;
                    assert(0 <= q < idx + 1);
                }
            }
        }
        idx += 1;
    }
    errors
}

/// What every region holds before any constraint is applied.
pub open spec fn starts(env: &Environment, facts: Seq<(Point, Set<int>)>) -> spec_fn(RegionName) -> Set<Point> {
    |name: RegionName| start_points(env, facts, name)
}

/// In `held` every region holds what it holds in `start`, and every
/// constraint is met: its first region holds what it carries over from its
/// second.
pub open spec fn meets(
    env: &Environment,
    constraints: Seq<(RegionName, RegionName, Point)>,
    start: spec_fn(RegionName) -> Set<Point>,
    held: spec_fn(RegionName) -> Set<Point>,
) -> bool {
    &&& forall|n: RegionName| (#[trigger] start(n)).subset_of(held(n))
    &&& forall|k: int|
        0 <= k < constraints.len() ==> carried(env, (#[trigger] constraints[k]).2, held(constraints[k].1)).subset_of(
            held(constraints[k].0),
        )
}

/// `held` is the least of the assignments of points to regions that are
/// above `start` and meet every constraint.
pub open spec fn is_least_assignment(
    env: &Environment,
    constraints: Seq<(RegionName, RegionName, Point)>,
    start: spec_fn(RegionName) -> Set<Point>,
    held: spec_fn(RegionName) -> Set<Point>,
) -> bool {
    &&& meets(env, constraints, start, held)
    &&& forall|other: spec_fn(RegionName) -> Set<Point>| #[trigger]
        meets(env, constraints, start, other) ==> forall|n: RegionName| (#[trigger] held(n)).subset_of(other(n))
}

/// The error `e` reports that a declared free region holds more than it
/// held from the start: it bears the name of the region, which is the
/// first of a constraint, and the point before the point of that
/// constraint.
pub open spec fn reports_free_growth(regionck: &RegionCheck, facts: Seq<(Point, Set<int>)>, e: InferenceError) -> bool {
    let env = regionck.environment();
    exists|k: int|
        0 <= k < regionck.named_constraints().len() && {
            let c = #[trigger] regionck.named_constraints()[k];
            &&& c.0 == e.name
            &&& declared(env).contains(e.name)
            &&& e.constraint_point == point_before(c.2)
            &&& !regionck.holds(e.name).subset_of(start_points(env, facts, e.name))
        }
}

/// Every error of `errors` reports the growth of a declared free region,
/// and every declared free region that has grown has an error.
pub open spec fn growth_reported(
    regionck: &RegionCheck,
    facts: Seq<(Point, Set<int>)>,
    errors: Seq<InferenceError>,
) -> bool {
    let env = regionck.environment();
    &&& forall|i: int| 0 <= i < errors.len() ==> reports_free_growth(regionck, facts, #[trigger] errors[i])
    &&& forall|n: RegionName|
        declared(env).contains(n) && !(#[trigger] regionck.holds(n)).subset_of(start_points(env, facts, n))
            ==> exists|i: int| 0 <= i < errors.len() && (#[trigger] errors[i]).name == n
}

/// `liveness` is the least liveness of the function of `env`.
pub open spec fn is_liveness(env: &Environment, liveness: &Liveness) -> bool {
    &&& liveness.wf()
    &&& liveness.env() == env
    &&& is_live_solution(env, liveness.live_sets())
    &&& least_live(env, liveness.live_sets())
}

/// `regionck` holds the regions that are inferred over `liveness`: its
/// constraints are those of the walk over the liveness, its regions the
/// least assignment above what they hold from the start that meets the
/// constraints, the regions that have a variable are those that are
/// declared, live somewhere or constrained, and the capped variables are
/// those of the declared free regions.
pub open spec fn inferred(env: &Environment, liveness: &Liveness, regionck: &RegionCheck) -> bool {
    let facts = liveness.facts();
    let constraints = regionck.named_constraints();
    &&& regionck.wf()
    &&& regionck.environment() == env
    &&& walk_constraints(env, facts, facts.len() as int) == Ok::<
        Seq<(RegionName, RegionName, Point)>,
        StructuralError,
    >(constraints)
    &&& is_least_assignment(env, constraints, starts(env, facts), regionck.regions())
    &&& forall|n: RegionName| #[trigger] regionck.variable_of(n) is Some <==> mentioned(env, facts, constraints, n)
    &&& forall|i: int|
        0 <= i < regionck.inference().vars() ==> #[trigger] regionck.inference().is_capped(i) == declared(
            env,
        ).contains(regionck.inference().name_of(i))
}

/// The borrow check over the regions of `regionck` is refused with `e`:
/// `UndeclaredRegion` where the region of a borrow has no variable; else
/// `TooLarge` where the loans cannot be counted; else the first error
/// among the accesses.
pub open spec fn borrows_refused(env: &Environment, regionck: &RegionCheck, e: StructuralError) -> bool {
    let upto = env.reverse_post_order@.len() as int;
    let borrows = all_borrows(env, upto);
    ||| e == StructuralError::UndeclaredRegion && !regions_known(borrows, regionck)
    ||| e == StructuralError::TooLarge && regions_known(borrows, regionck) && env.graph.node_count() * words_for(
        borrows.len(),
    ) > usize::MAX
    ||| regions_known(borrows, regionck) && loans_fit(env) && exists|loans: Seq<LoanModel>, sets: Seq<Set<int>>|
        {
            let facts = walk_scopes(env, loans, sets, upto);
            &&& loans_match(loans, borrows, regionck)
            &&& is_scope_solution(env, loans, sets)
            &&& #[trigger] least_scope(env, loans, sets)
            &&& check_facts(env, loans, facts, facts.len() as int) == Err::<
                Seq<(Point, Conflict)>,
                StructuralError,
            >(e)
        }
}

/// With the liveness and the regions at hand, the check is refused with
/// `e`: by the borrow check; else, where the borrow check has its errors,
/// by the assertions.
pub open spec fn last_refused(env: &Environment, liveness: &Liveness, regionck: &RegionCheck, e: StructuralError) -> bool {
    ||| borrows_refused(env, regionck, e)
    ||| (exists|errors: Seq<BorrowError>| #[trigger] borrow_errors_of(env, regionck, errors)) && failures(
        regionck,
        liveness,
        env.graph.func().assertions@,
        env.graph.func().assertions@.len() as int,
    ) == Err::<Seq<usize>, StructuralError>(e)
}

/// With the liveness at hand, the check is refused with `e`: by the first
/// error among the constraints of the walk; else, with the regions that
/// are inferred, by what follows.
pub open spec fn later_refused(env: &Environment, liveness: &Liveness, e: StructuralError) -> bool {
    match walk_constraints(env, liveness.facts(), liveness.facts().len() as int) {
        Err(first) => e == first,
        Ok(_) => exists|regionck: RegionCheck| #[trigger]
            inferred(env, liveness, &regionck) && last_refused(env, liveness, &regionck, e),
    }
}

/// The check of the function of `env` is refused with `e`, at the first
/// of its steps that fails: the liveness, the constraints of the walk over
/// it, the borrow check, the assertions.
pub open spec fn refused(env: &Environment, e: StructuralError) -> bool {
    if !liveness_accepted(env) {
        liveness_refused(env, e)
    } else {
        exists|liveness: Liveness| is_liveness(env, &liveness) && #[trigger] later_refused(env, &liveness, e)
    }
}

/// What the variables of `regionck` hold before any constraint is
/// applied.
pub open spec fn start_values(env: &Environment, facts: Seq<(Point, Set<int>)>, regionck: &RegionCheck) -> Seq<
    Set<Point>,
> {
    Seq::new(
        regionck.inference().vars(),
        |i: int| start_points(env, facts, regionck.inference().name_of(i)),
    )
}

/// The state of the passes of the solver, told by the names of the
/// regions: what every region holds, the errors so far, and whether the
/// pass at hand has made anything grow.
pub ghost struct NamedState {
    pub held: Map<RegionName, Set<Point>>,
    pub errors: Seq<InferenceError>,
    pub changed: bool,
}

/// What one application of the constraint `k` makes of the state: its
/// first region takes in what the constraint carries over from its second;
/// where that makes a region of `caps` grow, an error is added.
pub open spec fn named_applied(
    env: &Environment,
    constraints: Seq<(RegionName, RegionName, Point)>,
    caps: Set<RegionName>,
    st: NamedState,
    k: int,
) -> NamedState {
    let (sup, sub, point) = constraints[k];
    let flow = carried(env, point, st.held[sub]);
    let grew = !flow.subset_of(st.held[sup]);
    NamedState {
        held: st.held.insert(sup, st.held[sup].union(flow)),
        errors: if grew && caps.contains(sup) {
            st.errors.push(InferenceError { constraint_point: point_before(point), name: sup })
        } else {
            st.errors
        },
        changed: st.changed || grew,
    }
}

/// One pass over the first `upto` constraints, in their order.
pub open spec fn named_pass(
    env: &Environment,
    constraints: Seq<(RegionName, RegionName, Point)>,
    caps: Set<RegionName>,
    st: NamedState,
    upto: int,
) -> NamedState
    decreases upto,
{
    if upto <= 0 || upto > constraints.len() {
        st
    } else {
        named_applied(env, constraints, caps, named_pass(env, constraints, caps, st, upto - 1), upto - 1)
    }
}

/// Passes over all constraints until one changes nothing; `fuel` bounds
/// their number.
pub open spec fn named_passes(
    env: &Environment,
    constraints: Seq<(RegionName, RegionName, Point)>,
    caps: Set<RegionName>,
    held: Map<RegionName, Set<Point>>,
    errors: Seq<InferenceError>,
    fuel: nat,
) -> (Map<RegionName, Set<Point>>, Seq<InferenceError>)
    decreases fuel,
{
    if fuel == 0 {
        (held, errors)
    } else {
        let st = named_pass(
            env,
            constraints,
            caps,
            NamedState { held, errors, changed: false },
            constraints.len() as int,
        );
        if st.changed {
            named_passes(env, constraints, caps, st.held, st.errors, (fuel - 1) as nat)
        } else {
            (st.held, st.errors)
        }
    }
}

/// Within `fuel` passes one pass changes nothing.
pub open spec fn named_converges(
    env: &Environment,
    constraints: Seq<(RegionName, RegionName, Point)>,
    caps: Set<RegionName>,
    held: Map<RegionName, Set<Point>>,
    errors: Seq<InferenceError>,
    fuel: nat,
) -> bool
    decreases fuel,
{
    fuel > 0 && {
        let st = named_pass(
            env,
            constraints,
            caps,
            NamedState { held, errors, changed: false },
            constraints.len() as int,
        );
        !st.changed || named_converges(env, constraints, caps, st.held, st.errors, (fuel - 1) as nat)
    }
}

/// Passes that end because one changes nothing give the same, however many
/// more are allowed.
pub proof fn lemma_named_fuel(
    env: &Environment,
    constraints: Seq<(RegionName, RegionName, Point)>,
    caps: Set<RegionName>,
    held: Map<RegionName, Set<Point>>,
    errors: Seq<InferenceError>,
    a: nat,
    b: nat,
)
    requires
        named_converges(env, constraints, caps, held, errors, a),
        named_converges(env, constraints, caps, held, errors, b),
    ensures
        named_passes(env, constraints, caps, held, errors, a) == named_passes(
            env,
            constraints,
            caps,
            held,
            errors,
            b,
        ),
    decreases a,
{
    let st = named_pass(
        env,
        constraints,
        caps,
        NamedState { held, errors, changed: false },
        constraints.len() as int,
    );
    if st.changed {
        lemma_named_fuel(env, constraints, caps, st.held, st.errors, (a - 1) as nat, (b - 1) as nat);
    }
}

/// What every mentioned region holds before any constraint is applied.
pub open spec fn start_map(
    env: &Environment,
    facts: Seq<(Point, Set<int>)>,
    constraints: Seq<(RegionName, RegionName, Point)>,
) -> Map<RegionName, Set<Point>> {
    Map::new(|n: RegionName| mentioned(env, facts, constraints, n), |n: RegionName| start_points(env, facts, n))
}

/// The errors of the growth of capped regions: first those of the
/// seeding, then those of the passes of the solver over the constraints, in
/// their order, from what the regions hold from the start, until a pass
/// changes nothing. Every time a constraint makes a declared free region
/// grow, one error is added.
pub open spec fn growth_errors(
    env: &Environment,
    facts: Seq<(Point, Set<int>)>,
    constraints: Seq<(RegionName, RegionName, Point)>,
) -> Seq<InferenceError> {
    let held = start_map(env, facts, constraints);
    let first = populate_errors(env, env.graph.func().regions@.len() as int);
    let fuel = choose|fuel: nat| named_converges(env, constraints, declared(env), held, first, fuel);
    named_passes(env, constraints, declared(env), held, first, fuel).1
}

/// What a finished check of the function of `env` has found: the least
/// liveness; the regions inferred over it; the errors of the growth of
/// capped regions, which, where no two free regions bear one name, tell the
/// free regions that have grown; the accesses that conflict with a loan in
/// scope; and the assertions that do not hold.
pub open spec fn checked(env: &Environment, out: &Outcome) -> bool {
    let facts = out.liveness.facts();
    &&& liveness_accepted(env)
    &&& is_liveness(env, &out.liveness)
    &&& inferred(env, &out.liveness, &out.regionck)
    &&& names_distinct(env) ==> growth_reported(&out.regionck, facts, out.inference_errors@)
    &&& out.inference_errors@ == growth_errors(env, facts, out.regionck.named_constraints())
    &&& borrow_errors_of(env, &out.regionck, out.borrow_errors@)
    &&& failures(
        &out.regionck,
        &out.liveness,
        env.graph.func().assertions@,
        env.graph.func().assertions@.len() as int,
    ) == Ok::<Seq<usize>, StructuralError>(out.failed_assertions@)
}

/// Checks the regions and the borrows of the function of `env`.
pub fn region_check<'env>(env: &'env Environment<'env>) -> (r: Result<Outcome<'env>, StructuralError>)
    requires
        env.wf(),
    ensures
        match r {
            Ok(out) => checked(env, &out),
            Err(e) => refused(env, e),
        },
{
    let mut ck = RegionCheck::new(env);
    ck.check()
}

/// The check is determined by the function: two finished checks of one
/// function have the same liveness, the same constraints, variables for
/// the same regions, the same points in every region, the same errors of
/// the growth of capped regions, the same conflicts with loans and the same
/// failed assertions.
pub proof fn lemma_check_determined(env: &Environment, a: &Outcome, b: &Outcome)
    requires
        checked(env, a),
        checked(env, b),
    ensures
        a.liveness.live_sets() == b.liveness.live_sets(),
        a.regionck.named_constraints() == b.regionck.named_constraints(),
        forall|n: RegionName| #[trigger] a.regionck.value_of(n) == b.regionck.value_of(n),
        a.inference_errors@ == b.inference_errors@,
        a.borrow_errors@ == b.borrow_errors@,
        a.failed_assertions@ == b.failed_assertions@,
{
    lemma_regions_determined(env, a, b);
    lemma_borrow_errors_determined(env, &a.regionck, &b.regionck, a.borrow_errors@, b.borrow_errors@);
    let assertions = env.graph.func().assertions@;
    lemma_failures_determined(&a.regionck, &a.liveness, &b.regionck, &b.liveness, assertions, assertions.len() as int);
}

/// Two finished checks of one function have the same liveness, the same
/// constraints and the same regions.
proof fn lemma_regions_determined(env: &Environment, a: &Outcome, b: &Outcome)
    requires
        checked(env, a),
        checked(env, b),
    ensures
        a.liveness.live_sets() == b.liveness.live_sets(),
        a.regionck.named_constraints() == b.regionck.named_constraints(),
        forall|n: RegionName| #[trigger] a.regionck.value_of(n) == b.regionck.value_of(n),
{
    lemma_inferred_determined(env, &a.liveness, &a.regionck, &b.liveness, &b.regionck);
}

/// The liveness of a function and the regions that are inferred over it
/// are determined by the function.
pub proof fn lemma_inferred_determined(
    env: &Environment,
    la: &Liveness,
    a: &RegionCheck,
    lb: &Liveness,
    b: &RegionCheck,
)
    requires
        is_liveness(env, la),
        inferred(env, la, a),
        is_liveness(env, lb),
        inferred(env, lb, b),
    ensures
        la.live_sets() == lb.live_sets(),
        a.named_constraints() == b.named_constraints(),
        forall|n: RegionName| #[trigger] a.value_of(n) == b.value_of(n),
{
    lemma_liveness_unique(env, la.live_sets(), lb.live_sets());
    let facts = la.facts();
    let cs = a.named_constraints();
    let start = starts(env, facts);
    assert(meets(env, cs, start, a.regions()));
    assert(meets(env, cs, start, b.regions()));
    assert forall|n: RegionName| #[trigger] a.value_of(n) == b.value_of(n) by {
        let left = a.regions();
        let right = b.regions();
        assert(left(n).subset_of(right(n)));
        assert(right(n).subset_of(left(n)));
        assert(a.holds(n) =~= b.holds(n));
        assert(a.variable_of(n) is Some <==> mentioned(env, facts, cs, n));
        assert(b.variable_of(n) is Some <==> mentioned(env, facts, cs, n));
    }
}

/// The loans of a function are determined by the regions.
proof fn lemma_loans_determined(
    env: &Environment,
    a: &RegionCheck,
    b: &RegionCheck,
    la: Seq<LoanModel>,
    lb: Seq<LoanModel>,
)
    requires
        forall|n: RegionName| #[trigger] a.value_of(n) == b.value_of(n),
        loans_match(la, all_borrows(env, env.reverse_post_order@.len() as int), a),
        loans_match(lb, all_borrows(env, env.reverse_post_order@.len() as int), b),
    ensures
        la == lb,
        regions_known(all_borrows(env, env.reverse_post_order@.len() as int), a),
        regions_known(all_borrows(env, env.reverse_post_order@.len() as int), b),
{
    let borrows = all_borrows(env, env.reverse_post_order@.len() as int);
    assert forall|i: int| 0 <= i < la.len() implies la[i] == lb[i] by {
        assert(a.value_of(borrows[i].region) == b.value_of(borrows[i].region));
        assert(la[i].region == lb[i].region);
    }
    assert(la =~= lb);
    assert forall|i: int| 0 <= i < borrows.len() implies a.value_of((#[trigger] borrows[i]).region) is Some
        && b.value_of(borrows[i].region) is Some by {
        assert(a.value_of(borrows[i].region) == Some(la[i].region));
    }
}

/// Over the same regions the borrow check is not refused where it has its
/// errors.
proof fn lemma_borrow_stage(env: &Environment, a: &RegionCheck, b: &RegionCheck, errors: Seq<BorrowError>, e: StructuralError)
    requires
        forall|n: RegionName| #[trigger] a.value_of(n) == b.value_of(n),
        borrow_errors_of(env, a, errors),
    ensures
        !borrows_refused(env, b, e),
{
    if borrows_refused(env, b, e) {
        let upto = env.reverse_post_order@.len() as int;
        let borrows = all_borrows(env, upto);
        let (la, sa) = choose|loans: Seq<LoanModel>, sets: Seq<Set<int>>|
            {
                let facts = walk_scopes(env, loans, sets, upto);
                &&& loans_match(loans, borrows, a)
                &&& is_scope_solution(env, loans, sets)
                &&& #[trigger] least_scope(env, loans, sets)
                &&& check_facts(env, loans, facts, facts.len() as int) matches Ok(cs)
                &&& cs.len() == errors.len()
                &&& forall|i: int| 0 <= i < errors.len() ==> reports(#[trigger] errors[i], loans, cs[i].0, cs[i].1)
            };
        assert(regions_known(borrows, b)) by {
            assert forall|i: int| 0 <= i < borrows.len() implies b.value_of((#[trigger] borrows[i]).region) is Some by {
                assert(a.value_of(borrows[i].region) == Some(la[i].region));
                assert(a.value_of(borrows[i].region) == b.value_of(borrows[i].region));
            }
        }
        let (lb, sb) = choose|loans: Seq<LoanModel>, sets: Seq<Set<int>>|
            {
                let facts = walk_scopes(env, loans, sets, upto);
                &&& loans_match(loans, borrows, b)
                &&& is_scope_solution(env, loans, sets)
                &&& #[trigger] least_scope(env, loans, sets)
                &&& check_facts(env, loans, facts, facts.len() as int) == Err::<
                    Seq<(Point, Conflict)>,
                    StructuralError,
                >(e)
            };
        lemma_loans_determined(env, a, b, la, lb);
        lemma_scope_unique(env, la, sa, sb);
    }
}

/// Over the same regions the borrow check is refused with one error.
proof fn lemma_borrows_refusal_determined(
    env: &Environment,
    a: &RegionCheck,
    b: &RegionCheck,
    e1: StructuralError,
    e2: StructuralError,
)
    requires
        forall|n: RegionName| #[trigger] a.value_of(n) == b.value_of(n),
        borrows_refused(env, a, e1),
        borrows_refused(env, b, e2),
    ensures
        e1 == e2,
{
    let upto = env.reverse_post_order@.len() as int;
    let borrows = all_borrows(env, upto);
    assert(regions_known(borrows, a) == regions_known(borrows, b)) by {
        if regions_known(borrows, a) {
            assert forall|i: int| 0 <= i < borrows.len() implies b.value_of((#[trigger] borrows[i]).region) is Some by {
                assert(a.value_of(borrows[i].region) == b.value_of(borrows[i].region));
            }
        }
        if regions_known(borrows, b) {
            assert forall|i: int| 0 <= i < borrows.len() implies a.value_of((#[trigger] borrows[i]).region) is Some by {
                assert(a.value_of(borrows[i].region) == b.value_of(borrows[i].region));
            }
        }
    }
    if regions_known(borrows, a) && loans_fit(env) {
        let (la, sa) = choose|loans: Seq<LoanModel>, sets: Seq<Set<int>>|
            {
                let facts = walk_scopes(env, loans, sets, upto);
                &&& loans_match(loans, borrows, a)
                &&& is_scope_solution(env, loans, sets)
                &&& #[trigger] least_scope(env, loans, sets)
                &&& check_facts(env, loans, facts, facts.len() as int) == Err::<
                    Seq<(Point, Conflict)>,
                    StructuralError,
                >(e1)
            };
        let (lb, sb) = choose|loans: Seq<LoanModel>, sets: Seq<Set<int>>|
            {
                let facts = walk_scopes(env, loans, sets, upto);
                &&& loans_match(loans, borrows, b)
                &&& is_scope_solution(env, loans, sets)
                &&& #[trigger] least_scope(env, loans, sets)
                &&& check_facts(env, loans, facts, facts.len() as int) == Err::<
                    Seq<(Point, Conflict)>,
                    StructuralError,
                >(e2)
            };
        lemma_loans_determined(env, a, b, la, lb);
        lemma_scope_unique(env, la, sa, sb);
    }
}

/// With the same liveness and the same regions the check is refused with
/// one error.
proof fn lemma_last_determined(
    env: &Environment,
    la: &Liveness,
    a: &RegionCheck,
    lb: &Liveness,
    b: &RegionCheck,
    e1: StructuralError,
    e2: StructuralError,
)
    requires
        env.wf(),
        is_liveness(env, la),
        inferred(env, la, a),
        is_liveness(env, lb),
        inferred(env, lb, b),
        last_refused(env, la, a, e1),
        last_refused(env, lb, b, e2),
    ensures
        e1 == e2,
{
    lemma_inferred_determined(env, la, a, lb, b);
    let assertions = env.graph.func().assertions@;
    lemma_failures_determined(a, la, b, lb, assertions, assertions.len() as int);
    if borrows_refused(env, a, e1) {
        if borrows_refused(env, b, e2) {
            lemma_borrows_refusal_determined(env, a, b, e1, e2);
        } else {
            let errors = choose|errors: Seq<BorrowError>| #[trigger] borrow_errors_of(env, b, errors);
            lemma_inferred_determined(env, lb, b, la, a);
            lemma_borrow_stage(env, b, a, errors, e1);
        }
    } else if borrows_refused(env, b, e2) {
        let errors = choose|errors: Seq<BorrowError>| #[trigger] borrow_errors_of(env, a, errors);
        lemma_borrow_stage(env, a, b, errors, e2);
    }
}

/// The error with which a check is refused is determined by the function.
pub proof fn lemma_refusal_determined(env: &Environment, e1: StructuralError, e2: StructuralError)
    requires
        env.wf(),
        refused(env, e1),
        refused(env, e2),
    ensures
        e1 == e2,
{
    if liveness_accepted(env) {
        let la = choose|liveness: Liveness| is_liveness(env, &liveness) && #[trigger] later_refused(env, &liveness, e1);
        let lb = choose|liveness: Liveness| is_liveness(env, &liveness) && #[trigger] later_refused(env, &liveness, e2);
        lemma_liveness_unique(env, la.live_sets(), lb.live_sets());
        assert(la.facts() == lb.facts());
        if walk_constraints(env, la.facts(), la.facts().len() as int) is Ok {
            let a = choose|regionck: RegionCheck| #[trigger]
                inferred(env, &la, &regionck) && last_refused(env, &la, &regionck, e1);
            let b = choose|regionck: RegionCheck| #[trigger]
                inferred(env, &lb, &regionck) && last_refused(env, &lb, &regionck, e2);
            lemma_last_determined(env, &la, &a, &lb, &b, e1, e2);
        }
    }
}

/// A check that is finished is not refused: whether a check is finished or
/// refused is determined by the function.
pub proof fn lemma_finished_not_refused(env: &Environment, out: &Outcome, e: StructuralError)
    requires
        env.wf(),
        checked(env, out),
    ensures
        !refused(env, e),
{
    if refused(env, e) {
        let lb = choose|liveness: Liveness| is_liveness(env, &liveness) && #[trigger] later_refused(env, &liveness, e);
        lemma_liveness_unique(env, out.liveness.live_sets(), lb.live_sets());
        assert(out.liveness.facts() == lb.facts());
        let b = choose|regionck: RegionCheck| #[trigger]
            inferred(env, &lb, &regionck) && last_refused(env, &lb, &regionck, e);
        lemma_inferred_determined(env, &out.liveness, &out.regionck, &lb, &b);
        let assertions = env.graph.func().assertions@;
        lemma_failures_determined(&out.regionck, &out.liveness, &b, &lb, assertions, assertions.len() as int);
        if borrows_refused(env, &b, e) {
            lemma_borrow_stage(env, &out.regionck, &b, out.borrow_errors@, e);
        }
    }
}

/// Over the same regions the borrow check finds the same errors.
proof fn lemma_borrow_errors_determined(
    env: &Environment,
    a: &RegionCheck,
    b: &RegionCheck,
    left: Seq<BorrowError>,
    right: Seq<BorrowError>,
)
    requires
        forall|n: RegionName| #[trigger] a.value_of(n) == b.value_of(n),
        borrow_errors_of(env, a, left),
        borrow_errors_of(env, b, right),
    ensures
        left == right,
{
    let upto = env.reverse_post_order@.len() as int;
    let borrows = all_borrows(env, upto);
    let (la, sa) = choose|loans: Seq<LoanModel>, sets: Seq<Set<int>>|
        {
            let facts = walk_scopes(env, loans, sets, upto);
            &&& loans_match(loans, borrows, a)
            &&& is_scope_solution(env, loans, sets)
            &&& #[trigger] least_scope(env, loans, sets)
            &&& check_facts(env, loans, facts, facts.len() as int) matches Ok(cs)
            &&& cs.len() == left.len()
            &&& forall|i: int| 0 <= i < left.len() ==> reports(#[trigger] left[i], loans, cs[i].0, cs[i].1)
        };
    let (lb, sb) = choose|loans: Seq<LoanModel>, sets: Seq<Set<int>>|
        {
            let facts = walk_scopes(env, loans, sets, upto);
            &&& loans_match(loans, borrows, b)
            &&& is_scope_solution(env, loans, sets)
            &&& #[trigger] least_scope(env, loans, sets)
            &&& check_facts(env, loans, facts, facts.len() as int) matches Ok(cs)
            &&& cs.len() == right.len()
            &&& forall|i: int| 0 <= i < right.len() ==> reports(#[trigger] right[i], loans, cs[i].0, cs[i].1)
        };
    assert(la =~= lb) by {
        assert forall|i: int| 0 <= i < la.len() implies la[i] == lb[i] by {
            assert(a.value_of(borrows[i].region) == b.value_of(borrows[i].region));
            assert(la[i].region == lb[i].region);
        }
    }
    lemma_scope_unique(env, la, sa, sb);
    let facts = walk_scopes(env, la, sa, upto);
    let cs = check_facts(env, la, facts, facts.len() as int)->Ok_0;
    assert forall|i: int| 0 <= i < left.len() implies left[i] == right[i] by {
        assert(reports(left[i], la, cs[i].0, cs[i].1));
        assert(reports(right[i], la, cs[i].0, cs[i].1));
    }
    assert(left =~= right);
}

proof fn lemma_same_live_in(env: &Environment, la: &Liveness, lb: &Liveness, block: crate::repr::BasicBlock)
    requires
        env.wf(),
        la.env() == env,
        lb.env() == env,
        la.live_sets() == lb.live_sets(),
    ensures
        named_block(env, block) matches Ok(i) ==> la.live_in(i) == lb.live_in(i),
{
    if named_block(env, block) is Ok {
        let i = named_block(env, block)->Ok_0;
        lemma_last_block_bound(env.graph.func().data@, block, env.graph.code_count() as int);
        env.graph.lemma_layout();
        assert(la.live_sets()[i] == lb.live_sets()[i]);
    }
}

/// Over the same regions and the same liveness the assertions have the
/// same outcome.
proof fn lemma_failures_determined(
    a: &RegionCheck,
    la: &Liveness,
    b: &RegionCheck,
    lb: &Liveness,
    assertions: Seq<Assertion>,
    upto: int,
)
    requires
        a.environment() == b.environment(),
        la.wf(),
        lb.wf(),
        la.env() == a.environment(),
        lb.env() == a.environment(),
        a.environment().wf(),
        la.live_sets() == lb.live_sets(),
        forall|n: RegionName| #[trigger] a.value_of(n) == b.value_of(n),
    ensures
        failures(a, la, assertions, upto) == failures(b, lb, assertions, upto),
    decreases upto,
{
    if 0 < upto <= assertions.len() {
        lemma_failures_determined(a, la, b, lb, assertions, upto - 1);
        let env = a.environment();
        match assertions[upto - 1] {
            Assertion::Eq(name, _) => {
                assert(a.value_of(name) == b.value_of(name));
            },
            Assertion::In(name, _) => {
                assert(a.value_of(name) == b.value_of(name));
            },
            Assertion::NotIn(name, _) => {
                assert(a.value_of(name) == b.value_of(name));
            },
            Assertion::Live(_, block) => {
                lemma_same_live_in(env, la, lb, block);
            },
            Assertion::NotLive(_, block) => {
                lemma_same_live_in(env, la, lb, block);
            },
            Assertion::RegionLive(_, block) => {
                lemma_same_live_in(env, la, lb, block);
            },
            Assertion::RegionNotLive(_, block) => {
                lemma_same_live_in(env, la, lb, block);
            },
        }
    }
}

/// A declared free region holds, whatever its outlives clauses, every
/// point of every block of the reverse post-order and the point that
/// stands for its own end, and its variable is capped.
pub proof fn lemma_free_region_holds(env: &Environment, out: &Outcome, j: int, p: Point)
    requires
        checked(env, out),
        0 <= j < env.graph.func().regions@.len(),
        (env.is_point(p) && env.reverse_post_order@.contains(p.block.index)) || p == end_of(
            env,
            env.graph.func().regions@[j].name,
        ),
    ensures
        out.regionck.value_of(env.graph.func().regions@[j].name) matches Some(points) && points.contains(p),
        out.regionck.variable_of(env.graph.func().regions@[j].name) matches Some(v)
            && out.regionck.inference().is_capped(v.index as int),
{
    let name = env.graph.func().regions@[j].name;
    assert(declared(env).contains(name)) by {
        assert(region_names(env.graph.func().regions@)[j] == name);
    }
    let facts = out.liveness.facts();
    let start = starts(env, facts);
    let held = out.regionck.regions();
    assert(seed_points(env, j).contains(p));
    assert(seeds_upto(env, name, env.graph.func().regions@.len() as int).contains(p));
    assert(start(name).subset_of(held(name)));
    assert(start(name).contains(p));
    lemma_var_of_bound(out.regionck.names(), name, out.regionck.names().len() as int);
    let v = out.regionck.variable_of(name)->Some_0;
    assert(out.regionck.inference().name_of(v.index as int) == name);
}

/// The point of block `b` with the action index `a`.
pub open spec fn point_at(b: usize, a: int) -> Point {
    Point { block: BasicBlockIndex { index: b }, action: a as usize }
}

/// The names of the regions, in the order of their declarations.
pub open spec fn region_names(regions: Seq<RegionDecl>) -> Seq<RegionName> {
    Seq::new(regions.len(), |j: int| regions[j].name)
}

/// The names of the declared free regions.
pub open spec fn declared(env: &Environment) -> Set<RegionName> {
    region_names(env.graph.func().regions@).to_set()
}

/// Whether `list` holds `name`.
fn holds_name(list: &Vec<RegionName>, name: RegionName) -> (r: bool)
    ensures
        r == list@.to_set().contains(name),
{
    let mut i: usize = 0;
    while i < list.len()
        invariant
            i <= list.len(),
            forall|k: int| 0 <= k < i ==> list@[k] != name,
        decreases list.len() - i,
    {
        if list[i].same(name) {
            proof {
                assert(list@.contains(list@[i as int]));
            }
            return true;
        }
        i += 1;
    }
    proof {
        if list@.contains(name) {
            let k = choose|k: int| 0 <= k < list@.len() && list@[k] == name;
        }
    }
    false
}

/// The first declaration, from `from` on, that bears the name `name`.
pub open spec fn first_named(regions: Seq<RegionDecl>, name: RegionName, from: int) -> Option<int>
    decreases regions.len() - from,
{
    if from < 0 || from >= regions.len() {
        None
    } else if regions[from].name == name {
        Some(from)
    } else {
        first_named(regions, name, from + 1)
    }
}

/// The first declaration found bears the name, and none bears it where
/// none is found.
pub proof fn lemma_first_named(regions: Seq<RegionDecl>, name: RegionName, from: int)
    requires
        0 <= from <= regions.len(),
    ensures
        match first_named(regions, name, from) {
            Some(d) => from <= d < regions.len() && regions[d].name == name,
            None => forall|k: int| from <= k < regions.len() ==> (#[trigger] regions[k]).name != name,
        },
    decreases regions.len() - from,
{
    if from < regions.len() && regions[from].name != name {
        lemma_first_named(regions, name, from + 1);
    }
}

/// The regions that the region `name` is declared to outlive: the clauses
/// of the first declaration that bears the name.
pub open spec fn clauses_of(env: &Environment, name: RegionName) -> Seq<RegionName> {
    let regions = env.graph.func().regions@;
    match first_named(regions, name, 0) {
        Some(d) => regions[d].outlives@,
        None => Seq::empty(),
    }
}

/// `walk` starts at a region of `first` and goes on along outlives clauses,
/// each region named in the clauses of the one before, through no region
/// of `avoid`.
pub open spec fn outlived_walk(
    env: &Environment,
    first: Seq<RegionName>,
    avoid: Set<RegionName>,
    walk: Seq<RegionName>,
) -> bool {
    &&& walk.len() > 0
    &&& first.contains(walk[0])
    &&& forall|i: int| 0 <= i < walk.len() ==> !avoid.contains(#[trigger] walk[i])
    &&& forall|i: int| 0 <= i < walk.len() - 1 ==> clauses_of(env, #[trigger] walk[i]).contains(walk[i + 1])
}

/// A walk from `first` that avoids `avoid` ends at `name`.
pub open spec fn outlived(env: &Environment, first: Seq<RegionName>, avoid: Set<RegionName>, name: RegionName) -> bool {
    exists|walk: Seq<RegionName>| #[trigger] outlived_walk(env, first, avoid, walk) && walk.last() == name
}

/// The first point of the block that stands for the end of the region
/// `name`.
pub open spec fn end_of(env: &Environment, name: RegionName) -> Point {
    let regions = env.graph.func().regions@;
    Point {
        block: BasicBlockIndex {
            index: (env.graph.code_count() + last_region(regions, name, regions.len() as int)->Some_0) as usize,
        },
        action: 0,
    }
}

/// The ends of the regions of `names`.
pub open spec fn ends_of(env: &Environment, names: Seq<RegionName>) -> Set<Point> {
    Set::new(|p: Point| exists|k: int| 0 <= k < names.len() && p == end_of(env, #[trigger] names[k]))
}

/// The regions that the walk along the outlives clauses has visited after
/// the first `upto` regions of `list`: a region that was not visited is
/// visited, and then the regions that it outlives, in the order of its
/// clauses. `fuel` bounds the depth of the walk.
pub open spec fn outlives_walk(env: &Environment, visited: Seq<RegionName>, list: Seq<RegionName>, upto: int, fuel: nat) -> Seq<
    RegionName,
>
    decreases fuel, upto,
{
    if upto <= 0 || upto > list.len() {
        visited
    } else {
        let before = outlives_walk(env, visited, list, upto - 1, fuel);
        let r = list[upto - 1];
        if before.contains(r) || fuel == 0 {
            before
        } else {
            outlives_walk(
                env,
                before.push(r),
                clauses_of(env, r),
                clauses_of(env, r).len() as int,
                (fuel - 1) as nat,
            )
        }
    }
}

/// The errors that the ends of the first `upto` regions of `names` give
/// when they are added, in their order, to the capped region `name`, which
/// holds `value`: one for every end that the region does not hold yet.
pub open spec fn seed_errors(env: &Environment, name: RegionName, value: Set<Point>, names: Seq<RegionName>, upto: int) -> Seq<
    InferenceError,
>
    decreases upto,
{
    if upto <= 0 || upto > names.len() {
        Seq::empty()
    } else {
        let before = seed_errors(env, name, value, names, upto - 1);
        let point = end_of(env, names[upto - 1]);
        if value.union(ends_of(env, names.take(upto - 1))).contains(point) {
            before
        } else {
            before.push(InferenceError { constraint_point: point, name })
        }
    }
}

/// The errors of two lists of regions, one after the other, are the errors
/// of the one list.
pub proof fn lemma_seed_errors_append(
    env: &Environment,
    name: RegionName,
    value: Set<Point>,
    a: Seq<RegionName>,
    b: Seq<RegionName>,
    upto: int,
)
    requires
        0 <= upto <= b.len(),
    ensures
        seed_errors(env, name, value, a + b, a.len() + upto) == seed_errors(env, name, value, a, a.len() as int)
            + seed_errors(env, name, value.union(ends_of(env, a)), b, upto),
    decreases upto,
{
    let whole = a + b;
    if upto == 0 {
        assert(whole.take(a.len() as int) =~= a);
        lemma_seed_errors_prefix(env, name, value, a, whole, a.len() as int);
        assert(seed_errors(env, name, value, a, a.len() as int) + Seq::<InferenceError>::empty()
            =~= seed_errors(env, name, value, a, a.len() as int));
    } else {
        lemma_seed_errors_append(env, name, value, a, b, upto - 1);
        assert(whole[a.len() + upto - 1] == b[upto - 1]);
        assert(whole.take(a.len() + upto - 1) =~= a + b.take(upto - 1));
        assert(ends_of(env, a + b.take(upto - 1)) =~= ends_of(env, a).union(ends_of(env, b.take(upto - 1)))) by {
            let ab = a + b.take(upto - 1);
            assert forall|p: Point| ends_of(env, ab).contains(p) <==> ends_of(env, a).union(
                ends_of(env, b.take(upto - 1)),
            ).contains(p) by {
                if ends_of(env, ab).contains(p) {
                    let k = choose|k: int| 0 <= k < ab.len() && p == end_of(env, #[trigger] ab[k]);
                    if k < a.len() {
                        assert(ab[k] == a[k]);
                    } else {
                        assert(ab[k] == b.take(upto - 1)[k - a.len()]);
                    }
                }
                if ends_of(env, a).contains(p) {
                    let k = choose|k: int| 0 <= k < a.len() && p == end_of(env, #[trigger] a[k]);
                    assert(ab[k] == a[k]);
                }
                if ends_of(env, b.take(upto - 1)).contains(p) {
                    let k = choose|k: int|
                        0 <= k < b.take(upto - 1).len() && p == end_of(env, #[trigger] b.take(upto - 1)[k]);
                    assert(ab[a.len() + k] == b.take(upto - 1)[k]);
                }
            }
        }
        assert(value.union(ends_of(env, a)).union(ends_of(env, b.take(upto - 1))) =~= value.union(
            ends_of(env, a).union(ends_of(env, b.take(upto - 1))),
        ));
        let head = seed_errors(env, name, value, a, a.len() as int);
        let tail = seed_errors(env, name, value.union(ends_of(env, a)), b, upto - 1);
        let point = end_of(env, b[upto - 1]);
        assert((head + tail).push(InferenceError { constraint_point: point, name }) =~= head + tail.push(
            InferenceError { constraint_point: point, name },
        ));
    }
}

/// The errors of the first regions of a list are those of the list that
/// begins with them.
pub proof fn lemma_seed_errors_prefix(
    env: &Environment,
    name: RegionName,
    value: Set<Point>,
    a: Seq<RegionName>,
    whole: Seq<RegionName>,
    upto: int,
)
    requires
        0 <= upto <= a.len() <= whole.len(),
        whole.take(a.len() as int) == a,
    ensures
        seed_errors(env, name, value, whole, upto) == seed_errors(env, name, value, a, upto),
    decreases upto,
{
    if upto > 0 {
        lemma_seed_errors_prefix(env, name, value, a, whole, upto - 1);
        assert(whole.take(a.len() as int)[upto - 1] == whole[upto - 1]);
        assert(whole.take(upto - 1) =~= a.take(upto - 1)) by {
            assert forall|k: int| 0 <= k < upto - 1 implies whole[k] == a[k] by {
                assert(whole.take(a.len() as int)[k] == whole[k]);
            }
        }
    }
}

/// The regions whose ends the seeding of declaration `j` adds, in their
/// order: those that the walk along the outlives clauses visits from the
/// clauses of the declaration, but the region itself.
pub open spec fn seed_names(env: &Environment, j: int) -> Seq<RegionName> {
    let regions = env.graph.func().regions@;
    let visited = outlives_walk(
        env,
        seq![regions[j].name],
        regions[j].outlives@,
        regions[j].outlives@.len() as int,
        declared(env).len(),
    );
    visited.subrange(1, visited.len() as int)
}

/// The errors of the seeding of the first `upto` declarations of free
/// regions: a declaration whose name an earlier one bears adds to a capped
/// region, and every end that this region does not hold yet gives an error.
pub open spec fn populate_errors(env: &Environment, upto: int) -> Seq<InferenceError>
    decreases upto,
{
    let regions = env.graph.func().regions@;
    if upto <= 0 || upto > regions.len() {
        Seq::empty()
    } else {
        let j = upto - 1;
        let name = regions[j].name;
        populate_errors(env, j) + if region_names(regions).take(j).contains(name) {
            seed_errors(env, name, seeds_upto(env, name, j), seed_names(env, j), seed_names(env, j).len() as int)
        } else {
            Seq::empty()
        }
    }
}

/// Every point of every block of the reverse post-order, and the end of the
/// region `name`.
pub open spec fn holds_base(env: &Environment, name: RegionName, value: Set<Point>) -> bool {
    &&& value.contains(end_of(env, name))
    &&& forall|p: Point|
        env.is_point(p) && env.reverse_post_order@.contains(p.block.index) ==> #[trigger] value.contains(p)
}

/// What the free region of declaration `j` holds from the start: every
/// point of every block of the reverse post-order, its own end, and the
/// ends of the regions that it reaches along outlives clauses without
/// coming back to itself.
pub open spec fn seed_points(env: &Environment, j: int) -> Set<Point> {
    let regions = env.graph.func().regions@;
    Set::new(
        |p: Point|
            (env.is_point(p) && env.reverse_post_order@.contains(p.block.index)) || p == end_of(
                env,
                regions[j].name,
            ) || exists|name: RegionName| #[trigger]
                outlived(env, regions[j].outlives@, set![regions[j].name], name) && p == end_of(env, name),
    )
}

/// The regions that are live where the bits `live` are set; none where a
/// type among them is not well-formed.
pub open spec fn live_names(env: &Environment, live: Set<int>) -> Set<RegionName> {
    match live_region_set(env, live, bit_count(env)) {
        Ok(names) => names,
        Err(_) => Set::empty(),
    }
}

/// What the region `name` holds from the start as a free region, by the
/// first `upto` declarations.
pub open spec fn seeds_upto(env: &Environment, name: RegionName, upto: int) -> Set<Point> {
    let regions = env.graph.func().regions@;
    Set::new(
        |p: Point|
            exists|j: int|
                0 <= j < upto && j < regions.len() && regions[j].name == name && #[trigger] seed_points(
                    env,
                    j,
                ).contains(p),
    )
}

/// The points among the first `upto` of the liveness walk at which the
/// region `name` is live.
pub open spec fn lives_upto(env: &Environment, facts: Seq<(Point, Set<int>)>, name: RegionName, upto: int) -> Set<
    Point,
> {
    Set::new(
        |p: Point|
            exists|k: int|
                0 <= k < upto && k < facts.len() && (#[trigger] facts[k]).0 == p && live_names(
                    env,
                    facts[k].1,
                ).contains(name),
    )
}

/// What the region `name` holds before any constraint is applied: what it
/// holds as a free region, and every point at which it is live.
pub open spec fn start_points(env: &Environment, facts: Seq<(Point, Set<int>)>, name: RegionName) -> Set<Point> {
    seeds_upto(env, name, env.graph.func().regions@.len() as int).union(
        lives_upto(env, facts, name, facts.len() as int),
    )
}

proof fn lemma_seeds_step(env: &Environment, name: RegionName, j: int)
    requires
        0 <= j < env.graph.func().regions@.len(),
    ensures
        seeds_upto(env, name, j + 1) == seeds_upto(env, name, j).union(
            if env.graph.func().regions@[j].name == name {
                seed_points(env, j)
            } else {
                Set::empty()
            },
        ),
{
    let regions = env.graph.func().regions@;
    let more = if regions[j].name == name {
        seed_points(env, j)
    } else {
        Set::empty()
    };
    assert forall|p: Point| seeds_upto(env, name, j + 1).contains(p) implies seeds_upto(env, name, j).union(
        more,
    ).contains(p) by {
        let q = choose|q: int|
            0 <= q < j + 1 && q < regions.len() && regions[q].name == name && #[trigger] seed_points(
                env,
                q,
            ).contains(p);
        if q < j {
            assert(seeds_upto(env, name, j).contains(p));
        }
    }
    assert forall|p: Point| seeds_upto(env, name, j).union(more).contains(p) implies seeds_upto(
        env,
        name,
        j + 1,
    ).contains(p) by {
        if seeds_upto(env, name, j).contains(p) {
            let q = choose|q: int|
                0 <= q < j && q < regions.len() && regions[q].name == name && #[trigger] seed_points(
                    env,
                    q,
                ).contains(p);
            assert(seed_points(env, q).contains(p));
        } else {
            assert(seed_points(env, j).contains(p));
        }
    }
    assert(seeds_upto(env, name, j + 1) =~= seeds_upto(env, name, j).union(more));
}

proof fn lemma_lives_step(env: &Environment, facts: Seq<(Point, Set<int>)>, name: RegionName, k: int)
    requires
        0 <= k < facts.len(),
    ensures
        lives_upto(env, facts, name, k + 1) == lives_upto(env, facts, name, k).union(
            if live_names(env, facts[k].1).contains(name) {
                set![facts[k].0]
            } else {
                Set::empty()
            },
        ),
{
    let more = if live_names(env, facts[k].1).contains(name) {
        set![facts[k].0]
    } else {
        Set::empty()
    };
    assert forall|p: Point| lives_upto(env, facts, name, k + 1).contains(p) implies lives_upto(
        env,
        facts,
        name,
        k,
    ).union(more).contains(p) by {
        let q = choose|q: int|
            0 <= q < k + 1 && q < facts.len() && (#[trigger] facts[q]).0 == p && live_names(
                env,
                facts[q].1,
            ).contains(name);
        if q < k {
            assert(lives_upto(env, facts, name, k).contains(p));
        }
    }
    assert forall|p: Point| lives_upto(env, facts, name, k).union(more).contains(p) implies lives_upto(
        env,
        facts,
        name,
        k + 1,
    ).contains(p) by {
        if lives_upto(env, facts, name, k).contains(p) {
            let q = choose|q: int|
                0 <= q < k && q < facts.len() && (#[trigger] facts[q]).0 == p && live_names(
                    env,
                    facts[q].1,
                ).contains(name);
            assert(facts[q].0 == p);
        } else {
            assert(facts[k].0 == p);
        }
    }
    assert(lives_upto(env, facts, name, k + 1) =~= lives_upto(env, facts, name, k).union(more));
}

/// The region `name` is declared, or live at a point of the walk, or a
/// constraint speaks of it.
pub open spec fn mentioned(
    env: &Environment,
    facts: Seq<(Point, Set<int>)>,
    constraints: Seq<(RegionName, RegionName, Point)>,
    name: RegionName,
) -> bool {
    ||| declared(env).contains(name)
    ||| exists|k: int| 0 <= k < facts.len() && live_names(env, (#[trigger] facts[k]).1).contains(name)
    ||| exists|k: int|
        0 <= k < constraints.len() && ((#[trigger] constraints[k]).0 == name || constraints[k].1 == name)
}

/// No two declarations of free regions bear the same name.
pub open spec fn names_distinct(env: &Environment) -> bool {
    let regions = env.graph.func().regions@;
    forall|a: int, b: int|
        0 <= a < b < regions.len() ==> (#[trigger] regions[a]).name != (#[trigger] regions[b]).name
}

/// A set of regions that holds `first` and, with every region of its own
/// outside `avoid`, the regions that it outlives, holds each region of a
/// walk from `first` that avoids `avoid`.
pub proof fn lemma_closed_holds_walk(
    env: &Environment,
    first: Seq<RegionName>,
    avoid: Set<RegionName>,
    closed: Set<RegionName>,
    walk: Seq<RegionName>,
    upto: int,
)
    requires
        outlived_walk(env, first, avoid, walk),
        0 <= upto < walk.len(),
        forall|m: RegionName| first.contains(m) ==> closed.contains(m),
        forall|n: RegionName, m: RegionName|
            closed.contains(n) && !avoid.contains(n) && #[trigger] clauses_of(env, n).contains(m)
                ==> closed.contains(m),
    ensures
        closed.contains(walk[upto]),
    decreases upto,
{
    if upto > 0 {
        lemma_closed_holds_walk(env, first, avoid, closed, walk, upto - 1);
        assert(clauses_of(env, walk[upto - 1]).contains(walk[upto - 1 + 1]));
    }
}

/// The first region that bears the name `name`.
fn first_region(regions: &Vec<RegionDecl>, name: RegionName) -> (r: Option<usize>)
    ensures
        match r {
            Some(j) => first_named(regions@, name, 0) == Some(j as int),
            None => first_named(regions@, name, 0) is None,
        },
{
    let mut i: usize = 0;
    while i < regions.len()
        invariant
            i <= regions.len(),
            first_named(regions@, name, 0) == first_named(regions@, name, i as int),
        decreases regions.len() - i,
    {
        if regions[i].name.same(name) {
            return Some(i);
        }
        i += 1;
    }
    None
}

/// The constraints that the action at `point` puts on the regions: a
/// borrow relates the type of its target to the type of the new reference,
/// contravariantly, and asks the regions of the references that its source
/// goes through to outlive the borrow; an assignment relates the type of
/// its source to the type of its target, covariantly; both from the next
/// point on. An outlives constraint holds from the point itself on.
pub open spec fn fact_constraints(env: &Environment, point: Point, kind: ActionKind) -> Result<
    Seq<(RegionName, RegionName, Point)>,
    StructuralError,
> {
    let next = Point { block: point.block, action: (point.action + 1) as usize };
    let decls = env.decls();
    let structs = env.structs();
    match kind {
        ActionKind::Borrow(dest, region, bk, source) => match ty_of_path(decls, structs, env.star, *dest) {
            Err(e) => Err(e),
            Ok(dest_ty) => match ty_of_path(decls, structs, env.star, *source) {
                Err(e) => Err(e),
                Ok(source_ty) => match ty_relations(
                    structs,
                    Variance::Contra,
                    dest_ty,
                    TyModel::Ref(TyRegion::Free(region), bk, Box::new(source_ty)),
                ) {
                    Err(e) => Err(e),
                    Ok(first) => match supports(decls, structs, env.star, *source) {
                        Err(e) => Err(e),
                        Ok(ps) => match source_relations(env, region, ps, ps.len() as int) {
                            Err(e) => Err(e),
                            Ok(second) => Ok(at_point(first, next) + at_point(second, next)),
                        },
                    },
                },
            },
        },
        ActionKind::Assign(a, b) => match ty_of_path(decls, structs, env.star, *a) {
            Err(e) => Err(e),
            Ok(a_ty) => match ty_of_path(decls, structs, env.star, *b) {
                Err(e) => Err(e),
                Ok(b_ty) => match ty_relations(structs, Variance::Co, b_ty, a_ty) {
                    Err(e) => Err(e),
                    Ok(first) => Ok(at_point(first, next)),
                },
            },
        },
        ActionKind::Constraint(c) => match *c {
            ReprConstraint::Outlives(oc) => Ok(seq![(oc.sup, oc.sub, point)]),
            _ => Err(StructuralError::UnsupportedConstraint),
        },
        _ => Ok(Seq::empty()),
    }
}

/// What one point of the liveness walk adds to the constraints: the
/// regions that are live there must be known, and where the point is at an
/// action, the action puts its constraints.
pub open spec fn point_constraints(env: &Environment, point: Point, live: Set<int>) -> Result<
    Seq<(RegionName, RegionName, Point)>,
    StructuralError,
> {
    match live_region_set(env, live, bit_count(env)) {
        Err(e) => Err(e),
        Ok(_) => {
            let actions = env.graph.actions_of(point.block.index as int);
            if point.action < actions.len() {
                fact_constraints(env, point, actions[point.action as int].kind)
            } else {
                Ok(Seq::empty())
            }
        },
    }
}

/// The constraints of the first `upto` points of the liveness walk, in
/// order; the first error.
pub open spec fn walk_constraints(env: &Environment, facts: Seq<(Point, Set<int>)>, upto: int) -> Result<
    Seq<(RegionName, RegionName, Point)>,
    StructuralError,
>
    decreases upto,
{
    if upto <= 0 || upto > facts.len() {
        Ok(Seq::empty())
    } else {
        match walk_constraints(env, facts, upto - 1) {
            Err(e) => Err(e),
            Ok(done) => match point_constraints(env, facts[upto - 1].0, facts[upto - 1].1) {
                Err(e) => Err(e),
                Ok(more) => Ok(done + more),
            },
        }
    }
}

proof fn lemma_walk_constraints_err(env: &Environment, facts: Seq<(Point, Set<int>)>, at: int, upto: int)
    requires
        0 < at <= upto <= facts.len(),
        walk_constraints(env, facts, at) is Err,
    ensures
        walk_constraints(env, facts, upto) == walk_constraints(env, facts, at),
    decreases upto - at,
{
    if at < upto {
        lemma_walk_constraints_err(env, facts, at, upto - 1);
    }
}

/// An error among the first prefixes is the error of all.
pub proof fn lemma_source_relations_err(
    env: &Environment,
    borrow: RegionName,
    prefixes: Seq<Path>,
    at: int,
    upto: int,
)
    requires
        0 < at <= upto <= prefixes.len(),
        source_relations(env, borrow, prefixes, at) is Err,
    ensures
        source_relations(env, borrow, prefixes, upto) == source_relations(env, borrow, prefixes, at),
    decreases upto - at,
{
    if at < upto {
        lemma_source_relations_err(env, borrow, prefixes, at, upto - 1);
    }
}

/// The region check of one function: the inference context, and which
/// variable of it stands for which region.
pub struct RegionCheck<'env> {
    env: &'env Environment<'env>,
    infer: InferenceContext,
    region_map: Vec<(RegionName, RegionVariable)>,
}

impl<'env> RegionCheck<'env> {
    pub closed spec fn environment(&self) -> &'env Environment<'env> {
        self.env
    }

    /// The inference context.
    pub closed spec fn inference(&self) -> InferenceContext {
        self.infer
    }

    /// Which variable stands for which region name.
    pub closed spec fn names(&self) -> Seq<(RegionName, RegionVariable)> {
        self.region_map@
    }

    /// The variable of `name`, if one was made.
    pub open spec fn variable_of(&self, name: RegionName) -> Option<RegionVariable> {
        var_of(self.names(), name, self.names().len() as int)
    }

    /// The value of the region `name`, if a variable was made for it.
    pub open spec fn value_of(&self, name: RegionName) -> Option<Set<Point>> {
        match self.variable_of(name) {
            Some(v) => Some(self.inference().value(v.index as int)),
            None => None,
        }
    }

    /// The constraints, with the names of their regions: the first region
    /// of each holds what the second holds, from the point on.
    pub open spec fn named_constraints(&self) -> Seq<(RegionName, RegionName, Point)> {
        Seq::new(
            self.inference().constraint_list().len(),
            |k: int|
                (
                    self.inference().name_of(self.inference().constraint_list()[k].sup.index as int),
                    self.inference().name_of(self.inference().constraint_list()[k].sub.index as int),
                    self.inference().constraint_list()[k].point,
                ),
        )
    }

    /// Names and variables of the inference context go in pairs: every
    /// variable stands for one name, which it bears, and no name has two
    /// variables.
    pub open spec fn wf(&self) -> bool {
        &&& self.environment().wf()
        &&& self.inference().wf()
        &&& self.names().len() == self.inference().vars()
        &&& forall|i: int|
            0 <= i < self.names().len() ==> (#[trigger] self.names()[i]).1.index == i && self.inference().name_of(i)
                == self.names()[i].0
        &&& forall|i: int|
            0 <= i < self.names().len() ==> self.variable_of((#[trigger] self.names()[i]).0) == Some(
                self.names()[i].1,
            )
    }

    /// A region check of `env` in which nothing is inferred yet.
    pub fn new(env: &'env Environment<'env>) -> (r: Self)
        requires
            env.wf(),
        ensures
            r.wf(),
            r.points_ok(),
            r.environment() == env,
            r.inference().vars() == 0,
            r.inference().error_list().len() == 0,
            r.named_constraints().len() == 0,
    {
        RegionCheck { env, infer: InferenceContext::new(), region_map: Vec::new() }
    }

    /// What the region `name` holds; nothing where it has no variable.
    pub open spec fn holds(&self, name: RegionName) -> Set<Point> {
        match self.value_of(name) {
            Some(points) => points,
            None => Set::empty(),
        }
    }

    /// What every region holds.
    pub open spec fn regions(&self) -> spec_fn(RegionName) -> Set<Point> {
        |name: RegionName| self.holds(name)
    }

    /// The least values of the variables above what was gathered are the
    /// least assignment to the regions above what they hold from the
    /// start.
    proof fn lemma_least_by_name(&self, before: &Self, facts: Seq<(Point, Set<int>)>)
        requires
            self.wf(),
            before.wf(),
            self.environment() == before.environment(),
            self.names() == before.names(),
            self.inference().same_frame(&before.inference()),
            before.gathered(facts),
            is_least_solution(
                self.environment(),
                before.inference().constraint_list(),
                before.inference().values(),
                self.inference().values(),
            ),
        ensures
            self.named_constraints() == before.named_constraints(),
            is_least_assignment(
                self.environment(),
                self.named_constraints(),
                starts(self.environment(), facts),
                self.regions(),
            ),
            forall|n: RegionName| #[trigger]
                self.variable_of(n) is Some <==> mentioned(self.environment(), facts, self.named_constraints(), n),
            forall|i: int|
                0 <= i < self.inference().vars() ==> #[trigger] self.inference().is_capped(i) == declared(
                    self.environment(),
                ).contains(self.inference().name_of(i)),
    {
        let env = self.environment();
        let cs = self.named_constraints();
        assert forall|i: int| 0 <= i < self.inference().vars() implies #[trigger] self.inference().is_capped(i)
            == declared(env).contains(self.inference().name_of(i)) by {
            assert(before.inference().value(i) == start_points(env, facts, before.inference().name_of(i)));
        }
        assert forall|n: RegionName| #[trigger] self.variable_of(n) is Some <==> mentioned(env, facts, cs, n) by {
            if self.variable_of(n) is Some {
                let v = self.variable_of(n)->Some_0;
                lemma_var_of_bound(self.names(), n, self.names().len() as int);
                assert(mentioned(
                    env,
                    facts,
                    before.named_constraints(),
                    before.inference().name_of(v.index as int),
                ));
                assert(self.named_constraints() =~= before.named_constraints());
            }
            if mentioned(env, facts, cs, n) {
                assert(self.named_constraints() =~= before.named_constraints());
                if declared(env).contains(n) {
                    let names = region_names(env.graph.func().regions@);
                    let d = choose|d: int| 0 <= d < names.len() && names[d] == n;
                    assert(seed_points(env, d).contains(end_of(env, n)));
                    assert(seeds_upto(env, n, env.graph.func().regions@.len() as int).contains(end_of(env, n)));
                    assert(start_points(env, facts, n).contains(end_of(env, n)));
                } else if exists|k: int|
                    0 <= k < facts.len() && live_names(env, (#[trigger] facts[k]).1).contains(n) {
                    let k = choose|k: int|
                        0 <= k < facts.len() && live_names(env, (#[trigger] facts[k]).1).contains(n);
                    assert(lives_upto(env, facts, n, facts.len() as int).contains(facts[k].0));
                    assert(start_points(env, facts, n).contains(facts[k].0));
                } else {
                    let k = choose|k: int| 0 <= k < cs.len() && ((#[trigger] cs[k]).0 == n || cs[k].1 == n);
                    let c = before.inference().constraint_list()[k];
                    self.lemma_names_differ(c.sub.index as int, c.sub.index as int);
                    self.lemma_names_differ(c.sup.index as int, c.sup.index as int);
                }
            }
        }
        let list = before.inference().constraint_list();
        let start = starts(env, facts);
        let held = self.regions();
        let vars = self.inference().vars();
        assert(self.named_constraints() =~= before.named_constraints());
        assert forall|i: int| 0 <= i < vars implies self.holds(#[trigger] self.inference().name_of(i))
            == self.inference().value(i) by {
            self.lemma_names_differ(i, i);
        }
        assert forall|n: RegionName| (#[trigger] start(n)).subset_of(held(n)) by {
            let from = start_points(env, facts, n);
            let to = self.holds(n);
            assert forall|p: Point| from.contains(p) implies to.contains(p) by {
                assert(start_points(env, facts, n).contains(p));
                let v = before.variable_of(n)->Some_0;
                lemma_var_of_bound(before.names(), n, before.names().len() as int);
                let i = v.index as int;
                assert(before.inference().value(i) == start_points(env, facts, before.inference().name_of(i)));
                assert(before.inference().values()[i].subset_of(self.inference().values()[i]));
            }
        }
        assert forall|k: int| 0 <= k < cs.len() implies carried(env, (#[trigger] cs[k]).2, held(cs[k].1)).subset_of(
            held(cs[k].0),
        ) by {
            let c = list[k];
            assert(is_met(env, list[k], self.inference().values()));
            self.lemma_names_differ(c.sub.index as int, c.sub.index as int);
            self.lemma_names_differ(c.sup.index as int, c.sup.index as int);
        }
        assert forall|other: spec_fn(RegionName) -> Set<Point>| #[trigger]
            meets(env, cs, start, other) implies forall|n: RegionName| (#[trigger] held(n)).subset_of(other(n)) by {
            let o = Seq::new(vars, |i: int| other(self.inference().name_of(i)));
            assert(below(before.inference().values(), o)) by {
                assert forall|i: int| 0 <= i < vars implies (#[trigger] before.inference().values()[i]).subset_of(
                    o[i],
                ) by {
                    let n = before.inference().name_of(i);
                    assert(before.inference().value(i) == start_points(env, facts, n));
                    assert(start(n).subset_of(other(n)));
                }
            }
            assert(all_met(env, list, o)) by {
                assert forall|k: int| 0 <= k < list.len() implies is_met(env, #[trigger] list[k], o) by {
                    assert(carried(env, cs[k].2, other(cs[k].1)).subset_of(other(cs[k].0)));
                }
            }
            assert(below(self.inference().values(), o));
            assert forall|n: RegionName| (#[trigger] held(n)).subset_of(other(n)) by {
                if self.variable_of(n) is Some {
                    let v = self.variable_of(n)->Some_0;
                    lemma_var_of_bound(self.names(), n, self.names().len() as int);
                    assert(self.inference().values()[v.index as int].subset_of(o[v.index as int]));
                }
            }
        }
    }

    /// What the variables hold, told by the names of their regions.
    pub open spec fn map_of(&self, values: Seq<Set<Point>>) -> Map<RegionName, Set<Point>> {
        Map::new(
            |n: RegionName| self.variable_of(n) is Some,
            |n: RegionName| values[self.variable_of(n)->Some_0.index as int],
        )
    }

    /// A state of the solver, told by the names of the regions.
    pub open spec fn named(&self, st: crate::infer::SolveState) -> NamedState {
        NamedState { held: self.map_of(st.values), errors: st.errors, changed: st.changed }
    }

    /// The caps are those of the declared free regions.
    pub open spec fn caps_declared(&self) -> bool {
        forall|i: int|
            0 <= i < self.inference().vars() ==> #[trigger] self.inference().is_capped(i) == declared(
                self.environment(),
            ).contains(self.inference().name_of(i))
    }

    /// One application of a constraint does to the regions what it does to
    /// their variables.
    proof fn lemma_applied_named(&self, env: &Environment, st: crate::infer::SolveState, k: int)
        requires
            self.wf(),
            self.caps_declared(),
            env == self.environment(),
            st.values.len() == self.inference().vars(),
            0 <= k < self.inference().constraint_list().len(),
        ensures
            self.named(self.inference().applied(env, st, k)) == named_applied(
                env,
                self.named_constraints(),
                declared(env),
                self.named(st),
                k,
            ),
            self.inference().applied(env, st, k).values.len() == st.values.len(),
    {
        let c = self.inference().constraint_list()[k];
        let sup = c.sup.index as int;
        let sub = c.sub.index as int;
        assert(0 <= sup < self.inference().vars() && 0 <= sub < self.inference().vars());
        self.lemma_names_differ(sup, sup);
        self.lemma_names_differ(sub, sub);
        let after = self.inference().applied(env, st, k);
        let flow = carried(env, c.point, st.values[sub]);
        let grown = st.values[sup].union(flow);
        let sup_name = self.inference().name_of(sup);
        assert(self.named_constraints()[k] == (sup_name, self.inference().name_of(sub), c.point));
        assert(self.map_of(after.values) =~= self.map_of(st.values).insert(sup_name, grown)) by {
            assert forall|n: RegionName| self.variable_of(n) is Some implies #[trigger] self.map_of(
                after.values,
            )[n] == self.map_of(st.values).insert(sup_name, grown)[n] by {
                let v = self.variable_of(n)->Some_0;
                lemma_var_of_bound(self.names(), n, self.names().len() as int);
                if n == sup_name {
                    assert(v.index == sup);
                } else {
                    assert(v.index != sup);
                }
            }
        }
    }

    /// A pass does to the regions what it does to their variables.
    proof fn lemma_pass_named(&self, env: &Environment, st: crate::infer::SolveState, upto: int)
        requires
            self.wf(),
            self.caps_declared(),
            env == self.environment(),
            st.values.len() == self.inference().vars(),
        ensures
            self.named(self.inference().pass(env, st, upto)) == named_pass(
                env,
                self.named_constraints(),
                declared(env),
                self.named(st),
                upto,
            ),
            self.inference().pass(env, st, upto).values.len() == st.values.len(),
        decreases upto,
    {
        if 0 < upto <= self.inference().constraint_list().len() {
            self.lemma_pass_named(env, st, upto - 1);
            self.lemma_applied_named(env, self.inference().pass(env, st, upto - 1), upto - 1);
        }
    }

    /// The passes do to the regions what they do to their variables, and
    /// end where those end.
    proof fn lemma_passes_named(
        &self,
        env: &Environment,
        values: Seq<Set<Point>>,
        errors: Seq<InferenceError>,
        fuel: nat,
    )
        requires
            self.wf(),
            self.caps_declared(),
            env == self.environment(),
            values.len() == self.inference().vars(),
        ensures
            named_passes(env, self.named_constraints(), declared(env), self.map_of(values), errors, fuel).1
                == self.inference().passes(env, values, errors, fuel).1,
            named_converges(env, self.named_constraints(), declared(env), self.map_of(values), errors, fuel)
                == self.inference().converges(env, values, errors, fuel),
        decreases fuel,
    {
        if fuel > 0 {
            let start = crate::infer::SolveState { values, errors, changed: false };
            let len = self.inference().constraint_list().len() as int;
            self.lemma_pass_named(env, start, len);
            let st = self.inference().pass(env, start, len);
            assert(self.named(start) == (NamedState { held: self.map_of(values), errors, changed: false }));
            if st.changed {
                self.lemma_passes_named(env, st.values, st.errors, (fuel - 1) as nat);
            }
        }
    }

    /// The errors of the solver are the growth of the declared free
    /// regions.
    proof fn lemma_growth_reported(&self, before: &Self, facts: Seq<(Point, Set<int>)>, errors: Seq<InferenceError>)
        requires
            self.wf(),
            before.wf(),
            self.environment() == before.environment(),
            self.names() == before.names(),
            self.inference().same_frame(&before.inference()),
            before.gathered(facts),
            before.inference().error_list().len() == 0,
            forall|i: int|
                0 <= i < errors.len() ==> self.inference().reports_growth(&before.inference(), #[trigger] errors[i]),
            forall|v: int|
                0 <= v < before.inference().vars() && before.inference().is_capped(v)
                    && #[trigger] self.inference().has_grown(&before.inference(), v) ==> exists|i: int|
                    0 <= i < errors.len() && (#[trigger] errors[i]).name == before.inference().name_of(v),
        ensures
            growth_reported(self, facts, errors),
    {
        let env = self.environment();
        assert(self.named_constraints() =~= before.named_constraints());
        assert forall|i: int| 0 <= i < errors.len() implies reports_free_growth(self, facts, #[trigger] errors[i]) by {
            let e = errors[i];
            assert(self.inference().reports_growth(&before.inference(), e));
            let k = choose|k: int|
                0 <= k < before.inference().constraint_list().len() && {
                    let c = #[trigger] before.inference().constraint_list()[k];
                    &&& before.inference().is_capped(c.sup.index as int)
                    &&& e.name == before.inference().name_of(c.sup.index as int)
                    &&& e.constraint_point == point_before(c.point)
                    &&& self.inference().has_grown(&before.inference(), c.sup.index as int)
                };
            let c = before.inference().constraint_list()[k];
            let v = c.sup.index as int;
            self.lemma_names_differ(v, v);
            assert(before.inference().value(v) == start_points(env, facts, before.inference().name_of(v)));
            assert(self.named_constraints()[k].0 == e.name);
        }
        assert forall|n: RegionName|
            declared(env).contains(n) && !(#[trigger] self.holds(n)).subset_of(
                start_points(env, facts, n),
            ) implies exists|i: int| 0 <= i < errors.len() && (#[trigger] errors[i]).name == n by {
            let v = self.variable_of(n)->Some_0;
            lemma_var_of_bound(self.names(), n, self.names().len() as int);
            let i = v.index as int;
            assert(before.inference().value(i) == start_points(env, facts, before.inference().name_of(i)));
            assert(self.inference().has_grown(&before.inference(), i));
        }
    }

    /// Runs the whole check on a region check in which nothing is inferred
    /// yet: liveness, constraints, solver, borrow check, assertions.
    pub fn check(self) -> (r: Result<Outcome<'env>, StructuralError>)
        requires
            self.wf(),
            self.points_ok(),
            self.inference().vars() == 0,
            self.inference().error_list().len() == 0,
            self.named_constraints().len() == 0,
        ensures
            match r {
                Ok(out) => checked(self.environment(), &out),
                Err(e) => refused(self.environment(), e),
            },
    {
        let mut this = self;
        let env = this.env;
        // Compute liveness.
        let liveness = match Liveness::new(env) {
            Err(e) => {
                return Err(e);
            },
            Ok(l) => l,
        };
        // Add inference constraints.
        match this.populate_inference(&liveness) {
            Err(e) => {
                proof {
                    assert(is_liveness(env, &liveness));
                    assert(later_refused(env, &liveness, e));
                }
                return Err(e);
            },
            Ok(()) => {},
        }
        // Solve inference constraints.
        let ghost populated = this;
        proof {
            assert forall|k: int|
                0 <= k < this.infer.constraint_list().len() implies env.is_point(
                (#[trigger] this.infer.constraint_list()[k]).point,
            ) by {
                assert(this.named_constraints()[k].2 == this.infer.constraint_list()[k].point);
            }
        }
        let inference_errors = this.infer.solve(env);
        proof {
            assert forall|i: int| 0 <= i < this.names().len() implies (#[trigger] this.names()[i]).1.index
                < this.inference().vars() && this.inference().name_of(this.names()[i].1.index as int)
                == this.names()[i].0 by {
                assert(this.names()[i] == populated.names()[i]);
            }
            assert(this.grows(&populated)) by {
                assert forall|i: int| 0 <= i < populated.inference().vars() implies populated.inference().value(
                    i,
                ).subset_of(#[trigger] this.inference().value(i)) by {
                    assert(populated.inference().values()[i].subset_of(this.inference().values()[i]));
                }
            }
            assert(populated.named_constraints() =~= Seq::empty() + populated.named_constraints());
            this.lemma_least_by_name(&populated, liveness.facts());
            if names_distinct(env) {
                assert(populated.infer.error_list() =~= Seq::empty());
                this.lemma_growth_reported(&populated, liveness.facts(), inference_errors@);
            }
            let first = populate_errors(env, env.graph.func().regions@.len() as int);
            assert(populated.infer.error_list() =~= first);
            let start = start_values(env, liveness.facts(), &this);
            assert(populated.infer.values() =~= start) by {
                assert forall|i: int| 0 <= i < populated.infer.vars() implies populated.infer.values()[i]
                    == start[i] by {
                    assert(populated.inference().value(i) == start_points(
                        env,
                        liveness.facts(),
                        populated.inference().name_of(i),
                    ));
                }
            }
            let fuel = missing(start, universe(env)) + 1;
            let cs = this.named_constraints();
            assert(populated.caps_declared()) by {
                assert forall|i: int| 0 <= i < populated.inference().vars() implies #[trigger] populated.inference().is_capped(
                    i,
                ) == declared(env).contains(populated.inference().name_of(i)) by {
                    assert(populated.inference().value(i) == start_points(
                        env,
                        liveness.facts(),
                        populated.inference().name_of(i),
                    ));
                }
            }
            populated.lemma_passes_named(env, start, first, fuel);
            assert(populated.map_of(start) =~= start_map(env, liveness.facts(), cs)) by {
                assert forall|n: RegionName| populated.variable_of(n) is Some <==> mentioned(
                    env,
                    liveness.facts(),
                    cs,
                    n,
                ) by {
                    assert(this.variable_of(n) == populated.variable_of(n));
                }
                assert forall|n: RegionName| populated.variable_of(n) is Some implies #[trigger] populated.map_of(
                    start,
                )[n] == start_points(env, liveness.facts(), n) by {
                    lemma_var_of_bound(populated.names(), n, populated.names().len() as int);
                }
            }
            let held = start_map(env, liveness.facts(), cs);
            assert(named_converges(env, cs, declared(env), held, first, fuel));
            let chosen = choose|f: nat| named_converges(env, cs, declared(env), held, first, f);
            lemma_named_fuel(env, cs, declared(env), held, first, fuel, chosen);
            assert(inference_errors@ == growth_errors(env, liveness.facts(), cs));

        }
        proof {
            assert(is_liveness(env, &liveness));
            assert(inferred(env, &liveness, &this));
        }
        // Compute loans in scope at each point, and run the borrow check.
        let borrow_errors = match this.borrow_errors() {
            Err(e) => {
                proof {
                    assert(last_refused(env, &liveness, &this, e));
                    assert(later_refused(env, &liveness, e));
                }
                return Err(e);
            },
            Ok(errors) => errors,
        };
        // Check that all assertions are obeyed.
        let failed_assertions = match this.check_assertions(&liveness) {
            Err(e) => {
                proof {
                    assert(borrow_errors_of(env, &this, borrow_errors@));
                    assert(last_refused(env, &liveness, &this, e));
                    assert(later_refused(env, &liveness, e));
                }
                return Err(e);
            },
            Ok(failed) => failed,
        };
        Ok(Outcome { regionck: this, liveness, inference_errors, borrow_errors, failed_assertions })
    }

    /// The loans in scope at each point, held against the accesses.
    fn borrow_errors(&self) -> (r: Result<Vec<BorrowError>, StructuralError>)
        requires
            self.wf(),
        ensures
            match r {
                Ok(errors) => borrow_errors_of(self.environment(), self, errors@),
                Err(e) => borrows_refused(self.environment(), self, e),
            },
    {
        let loans_in_scope = match LoansInScope::new(self) {
            Err(e) => {
                return Err(e);
            },
            Ok(l) => l,
        };
        proof {
            let borrows = all_borrows(self.env, self.env.reverse_post_order@.len() as int);
            assert(loans_in_scope.env() == self.env);
            assert(loans_fit(self.env));
            assert(regions_known(borrows, self)) by {
                assert forall|i: int| 0 <= i < borrows.len() implies self.value_of(
                    (#[trigger] borrows[i]).region,
                ) is Some by {
                    assert(self.value_of(borrows[i].region) == Some(loans_in_scope.loans()[i].region));
                }
            }
        }
        match borrow_check(self.env, &loans_in_scope) {
            Err(e) => {
                proof {
                    assert(least_scope(self.env, loans_in_scope.loans(), loans_in_scope.scope_sets()));
                }
                Err(e)
            },
            Ok(errors) => {
                proof {
                    assert(least_scope(self.env, loans_in_scope.loans(), loans_in_scope.scope_sets()));
                }
                Ok(errors)
            },
        }
    }

    /// The point that a named point stands for.
    fn to_point(&self, point: &NamedPoint) -> (r: Result<Point, StructuralError>)
        requires
            self.wf(),
        ensures
            r == named_point(self.environment(), *point),
    {
        let block = match point.block {
            PointName::Code(b) => match self.env.graph.block(b) {
                None => {
                    return Err(StructuralError::UndeclaredBlock);
                },
                Some(i) => i,
            },
            PointName::SkolemizedEnd(r) => match self.env.graph.skolemized_end(r) {
                None => {
                    return Err(StructuralError::UndeclaredRegion);
                },
                Some(i) => i,
            },
        };
        Ok(Point { block, action: point.action })
    }

    /// The region that a literal stands for.
    fn to_region(&self, user_region: &RegionLiteral) -> (r: Result<Region, StructuralError>)
        requires
            self.wf(),
        ensures
            match r {
                Ok(region) => literal_set(
                    self.environment(),
                    user_region.points@,
                    user_region.points@.len() as int,
                ) == Ok::<Set<Point>, StructuralError>(region.set()),
                Err(e) => literal_set(
                    self.environment(),
                    user_region.points@,
                    user_region.points@.len() as int,
                ) == Err::<Set<Point>, StructuralError>(e),
            },
    {
        let mut region = Region::new();
        let mut i: usize = 0;
        while i < user_region.points.len()
            invariant
                self.wf(),
                i <= user_region.points@.len(),
                literal_set(self.environment(), user_region.points@, i as int) == Ok::<
                    Set<Point>,
                    StructuralError,
                >(region.set()),
            decreases user_region.points@.len() - i,
        {
            match self.to_point(&user_region.points[i]) {
                Err(e) => {
                    proof {
                        assert(literal_set(self.environment(), user_region.points@, i as int + 1) == Err::<
                            Set<Point>,
                            StructuralError,
                        >(e));
                        lemma_literal_err(
                            self.environment(),
                            user_region.points@,
                            i as int + 1,
                            user_region.points@.len() as int,
                        );
                    }
                    return Err(e);
                },
                Ok(p) => {
                    region.add_point(p);
                },
            }
            i += 1;
        }
        Ok(region)
    }

    /// Whether one assertion holds.
    fn check_assertion(&self, liveness: &Liveness, assertion: &Assertion) -> (r: Result<bool, StructuralError>)
        requires
            self.wf(),
            liveness.wf(),
            liveness.env() == self.environment(),
        ensures
            r == assertion_holds(self, liveness, *assertion),
    {
        match assertion {
            Assertion::Eq(region_name, region_literal) => {
                let value = match self.region(*region_name) {
                    None => {
                        return Err(StructuralError::UndeclaredRegion);
                    },
                    Some(v) => v,
                };
                match self.to_region(region_literal) {
                    Err(e) => Err(e),
                    Ok(region_value) => Ok(value.same_points(&region_value)),
                }
            },
            Assertion::In(region_name, point) => {
                let value = match self.region(*region_name) {
                    None => {
                        return Err(StructuralError::UndeclaredRegion);
                    },
                    Some(v) => v,
                };
                match self.to_point(point) {
                    Err(e) => Err(e),
                    Ok(p) => Ok(value.may_contain(p)),
                }
            },
            Assertion::NotIn(region_name, point) => {
                let value = match self.region(*region_name) {
                    None => {
                        return Err(StructuralError::UndeclaredRegion);
                    },
                    Some(v) => v,
                };
                match self.to_point(point) {
                    Err(e) => Err(e),
                    Ok(p) => Ok(!value.may_contain(p)),
                }
            },
            Assertion::Live(var, block_name) => {
                match self.env.graph.block(*block_name) {
                    None => Err(StructuralError::UndeclaredBlock),
                    Some(block) => {
                        proof {
                            self.env.graph.lemma_layout();
                        }
                        match liveness.var_live_on_entry(*var, block) {
                            Err(e) => Err(e),
                            Ok(live) => Ok(live),
                        }
                    },
                }
            },
            Assertion::NotLive(var, block_name) => {
                match self.env.graph.block(*block_name) {
                    None => Err(StructuralError::UndeclaredBlock),
                    Some(block) => {
                        proof {
                            self.env.graph.lemma_layout();
                        }
                        match liveness.var_live_on_entry(*var, block) {
                            Err(e) => Err(e),
                            Ok(live) => Ok(!live),
                        }
                    },
                }
            },
            Assertion::RegionLive(region_name, block_name) => {
                match self.env.graph.block(*block_name) {
                    None => Err(StructuralError::UndeclaredBlock),
                    Some(block) => {
                        proof {
                            self.env.graph.lemma_layout();
                        }
                        match liveness.region_live_on_entry(*region_name, block) {
                            Err(e) => Err(e),
                            Ok(live) => Ok(live),
                        }
                    },
                }
            },
            Assertion::RegionNotLive(region_name, block_name) => {
                match self.env.graph.block(*block_name) {
                    None => Err(StructuralError::UndeclaredBlock),
                    Some(block) => {
                        proof {
                            self.env.graph.lemma_layout();
                        }
                        match liveness.region_live_on_entry(*region_name, block) {
                            Err(e) => Err(e),
                            Ok(live) => Ok(!live),
                        }
                    },
                }
            },
        }
    }

    /// Holds the assertions of the function against the inferred regions
    /// and the liveness, and lists those that do not hold.
    pub fn check_assertions(&self, liveness: &Liveness) -> (r: Result<Vec<usize>, StructuralError>)
        requires
            self.wf(),
            liveness.wf(),
            liveness.env() == self.environment(),
        ensures
            match r {
                Ok(failed) => failures(
                    self,
                    liveness,
                    self.environment().graph.func().assertions@,
                    self.environment().graph.func().assertions@.len() as int,
                ) == Ok::<Seq<usize>, StructuralError>(failed@),
                Err(e) => failures(
                    self,
                    liveness,
                    self.environment().graph.func().assertions@,
                    self.environment().graph.func().assertions@.len() as int,
                ) == Err::<Seq<usize>, StructuralError>(e),
            },
    {
        let assertions = self.env.graph.assertions();
        let mut failed: Vec<usize> = Vec::new();
        let mut i: usize = 0;
        while i < assertions.len()
            invariant
                self.wf(),
                liveness.wf(),
                liveness.env() == self.environment(),
                *assertions == self.environment().graph.func().assertions,
                i <= assertions@.len(),
                failures(self, liveness, assertions@, i as int) == Ok::<Seq<usize>, StructuralError>(failed@),
            decreases assertions@.len() - i,
        {
            match self.check_assertion(liveness, &assertions[i]) {
                Err(e) => {
                    proof {
                        assert(failures(self, liveness, assertions@, i as int + 1) == Err::<
                            Seq<usize>,
                            StructuralError,
                        >(e));
                        lemma_failures_err(self, liveness, assertions@, i as int + 1, assertions@.len() as int);
                    }
                    return Err(e);
                },
                Ok(true) => {},
                Ok(false) => {
                    failed.push(i);
                },
            }
            i += 1;
        }
        Ok(failed)
    }

    pub fn env(&self) -> (r: &'env Environment<'env>)
        ensures
            r == self.environment(),
    {
        self.env
    }

    /// The variable of `name`, if one was made.
    pub fn lookup(&self, name: RegionName) -> (r: Option<RegionVariable>)
        ensures
            r == self.variable_of(name),
    {
        let mut i: usize = self.region_map.len();
        while i > 0
            invariant
                i <= self.region_map.len(),
                var_of(self.region_map@, name, self.region_map@.len() as int) == var_of(
                    self.region_map@,
                    name,
                    i as int,
                ),
            decreases i,
        {
            i -= 1;
            if self.region_map[i].0.same(name) {
                return Some(self.region_map[i].1);
            }
        }
        None
    }

    /// The value of the region `name`; `None` where no variable was ever
    /// made for that name.
    pub fn region(&self, name: RegionName) -> (r: Option<&Region>)
        requires
            self.wf(),
        ensures
            match r {
                Some(region) => self.value_of(name) == Some(region.set()),
                None => self.value_of(name) is None,
            },
    {
        match self.lookup(name) {
            Some(var) => {
                proof {
                    lemma_var_of_bound(self.names(), name, self.names().len() as int);
                }
                Some(self.infer.region(var))
            },
            None => None,
        }
    }

    /// Only variables and constraints were added since `before`: the values,
    /// caps and errors of the variables that were there are the same.
    pub open spec fn extends(&self, before: &Self) -> bool {
        &&& self.environment() == before.environment()
        &&& self.inference().vars() >= before.inference().vars()
        &&& self.inference().error_list() == before.inference().error_list()
        &&& forall|i: int|
            0 <= i < before.inference().vars() ==> self.inference().value(i) == before.inference().value(i)
                && self.inference().name_of(i) == before.inference().name_of(i)
                && self.inference().is_capped(i) == before.inference().is_capped(i)
        &&& forall|i: int|
            before.inference().vars() <= i < self.inference().vars() ==> self.inference().value(i)
                == Set::<Point>::empty() && !self.inference().is_capped(i)
        &&& forall|m: RegionName|
            before.variable_of(m) is Some ==> self.variable_of(m) == before.variable_of(m)
        &&& self.inference().constraint_list().len() >= before.inference().constraint_list().len()
        &&& forall|k: int|
            0 <= k < before.inference().constraint_list().len() ==> self.inference().constraint_list()[k]
                == before.inference().constraint_list()[k]
    }

    /// Extending is transitive.
    pub proof fn lemma_extends_trans(&self, middle: &Self, before: &Self)
        requires
            self.extends(middle),
            middle.extends(before),
        ensures
            self.extends(before),
    {
        assert forall|k: int|
            0 <= k < before.inference().constraint_list().len() implies self.inference().constraint_list()[k]
            == before.inference().constraint_list()[k] by {
            assert(middle.inference().constraint_list()[k] == before.inference().constraint_list()[k]);
        }
        assert forall|m: RegionName| before.variable_of(m) is Some implies self.variable_of(m)
            == before.variable_of(m) by {
            assert(middle.variable_of(m) == before.variable_of(m));
        }
    }

    /// The names of the old constraints are the same after an extension.
    pub proof fn lemma_named_prefix(&self, before: &Self)
        requires
            before.wf(),
            self.extends(before),
        ensures
            self.named_constraints().len() >= before.named_constraints().len(),
            forall|k: int|
                0 <= k < before.named_constraints().len() ==> self.named_constraints()[k]
                    == before.named_constraints()[k],
    {
        assert forall|k: int| 0 <= k < before.named_constraints().len() implies self.named_constraints()[k]
            == before.named_constraints()[k] by {
            let c = before.inference().constraint_list()[k];
            assert(self.inference().constraint_list()[k] == c);
            assert(c.sup.index < before.inference().vars());
            assert(c.sub.index < before.inference().vars());
        }
    }

    /// Records that, from `successor_point` on, `a` and `b` stand in the
    /// relation that `variance` asks for.
    fn relate_regions(&mut self, successor_point: Point, variance: Variance, a: RegionName, b: RegionName)
        requires
            old(self).wf(),
            old(self).accounted(),
        ensures
            final(self).wf(),
            final(self).accounted(),
            final(self).extends(old(self)),
            final(self).named_constraints() == old(self).named_constraints() + at_point(
                region_relations(variance, a, b),
                successor_point,
            ),
    {
        let r_a = self.region_variable(a);
        let ghost first = *self;
        let r_b = self.region_variable(b);
        let ghost second = *self;
        proof {
            assert(self.infer.name_of(r_a.index as int) == a);
        }
        match variance {
            Variance::Co => {
                // "a Co b" == "a <= b"
                self.infer.add_outlives(r_b, r_a, successor_point);
            },
            Variance::Contra => {
                // "a Contra b" == "a >= b"
                self.infer.add_outlives(r_a, r_b, successor_point);
            },
            Variance::In => {
                self.infer.add_outlives(r_a, r_b, successor_point);
                self.infer.add_outlives(r_b, r_a, successor_point);
            },
        }
        proof {
            assert forall|i: int| 0 <= i < self.names().len() implies (#[trigger] self.names()[i]).1.index
                < self.inference().vars() && self.inference().name_of(self.names()[i].1.index as int)
                == self.names()[i].0 by {
                assert(self.names()[i] == second.names()[i]);
            }
            second.lemma_named_prefix(old(self));
            first.lemma_extends_grows(old(self));
            second.lemma_extends_grows(&first);
            second.lemma_grows_trans(&first, old(self));
            assert(self.grows(old(self))) by {
                assert forall|i: int| 0 <= i < old(self).inference().vars() implies old(self).inference().value(
                    i,
                ).subset_of(#[trigger] self.inference().value(i)) by {
                    assert(second.inference().value(i) == self.inference().value(i));
                }
            }
            assert(self.named_constraints() =~= old(self).named_constraints() + at_point(
                region_relations(variance, a, b),
                successor_point,
            )) by {
                let before = old(self).named_constraints();
                let added = at_point(region_relations(variance, a, b), successor_point);
                assert(self.named_constraints().len() == before.len() + added.len());
                assert forall|k: int| 0 <= k < self.named_constraints().len() implies self.named_constraints()[k]
                    == (before + added)[k] by {
                    if k < before.len() {
                        assert(self.inference().constraint_list()[k] == second.inference().constraint_list()[k]);
                        assert(second.named_constraints()[k] == before[k]);
                        let c = second.inference().constraint_list()[k];
                        assert(c.sup.index < second.inference().vars());
                    }
                }
            }
            assert forall|i: int| 0 <= i < self.inference().vars() implies #[trigger] self.inference().value(i)
                != Set::<Point>::empty() || self.in_constraint(self.inference().name_of(i)) by {
                if i < old(self).inference().vars() {
                    self.lemma_accounted_kept(old(self), i);
                } else {
                    let at = old(self).named_constraints().len() as int;
                    let added = at_point(region_relations(variance, a, b), successor_point);
                    assert(self.named_constraints()[at] == added[0]);
                    assert(i == r_a.index || i == r_b.index);
                }
            }
        }
    }

    /// Records what relating the types `a` and `b` under `variance` asks
    /// for, from `successor_point` on.
    fn relate_tys(&mut self, successor_point: Point, variance: Variance, a: &Ty, b: &Ty) -> (r: Result<
        (),
        StructuralError,
    >)
        requires
            old(self).wf(),
            old(self).accounted(),
        ensures
            final(self).wf(),
            final(self).accounted(),
            final(self).extends(old(self)),
            match r {
                Ok(()) => ty_relations(old(self).environment().structs(), variance, a@, b@) matches Ok(pairs)
                    && final(self).named_constraints() == old(self).named_constraints() + at_point(
                    pairs,
                    successor_point,
                ),
                Err(e) => ty_relations(old(self).environment().structs(), variance, a@, b@) == Err::<
                    Seq<Outlives>,
                    StructuralError,
                >(e),
            },
        decreases a, 0int,
    {
        let ghost structs = self.env.structs();
        match (a, b) {
            (Ty::Ref(r_a, bk_a, t_a), Ty::Ref(r_b, bk_b, t_b)) => {
                if *bk_a != *bk_b {
                    return Err(StructuralError::TypeMismatch);
                }
                let name_a = match r_a.assert_free() {
                    Err(e) => {
                        return Err(e);
                    },
                    Ok(n) => n,
                };
                let name_b = match r_b.assert_free() {
                    Err(e) => {
                        return Err(e);
                    },
                    Ok(n) => n,
                };
                self.relate_regions(successor_point, variance.invert(), name_a, name_b);
                let ghost middle = *self;
                let referent_variance = variance.xform(bk_a.variance());
                let r = self.relate_tys(successor_point, referent_variance, t_a, t_b);
                proof {
                    self.lemma_extends_trans(&middle, old(self));
                    if r is Ok {
                        let first = region_relations(variance.inverted(), name_a, name_b);
                        let rest = ty_relations(structs, referent_variance, t_a@, t_b@)->Ok_0;
                        assert(at_point(first + rest, successor_point) =~= at_point(first, successor_point)
                            + at_point(rest, successor_point));
                        assert(self.named_constraints() =~= old(self).named_constraints() + at_point(
                            first + rest,
                            successor_point,
                        ));
                    }
                }
                r
            },
            (Ty::Unit, Ty::Unit) => {
                proof {
                    assert(self.named_constraints() =~= self.named_constraints() + at_point(
                        Seq::<Outlives>::empty(),
                        successor_point,
                    ));
                }
                Ok(())
            },
            (Ty::Struct(s_a, ps_a), Ty::Struct(s_b, ps_b)) => {
                if !s_a.same(*s_b) {
                    return Err(StructuralError::TypeMismatch);
                }
                let env = self.env;
                let struct_decls = env.graph.struct_decls();
                let s_decl = match find_struct(struct_decls, *s_a) {
                    None => {
                        return Err(StructuralError::UndeclaredStruct);
                    },
                    Some(s) => &struct_decls[s],
                };
                let ghost pa = param_models(*ps_a);
                let ghost pb = param_models(*ps_b);
                proof {
                    assert(a@ == TyModel::Struct(*s_a, pa));
                    assert(b@ == TyModel::Struct(*s_b, pb));
                    assert(pa.len() == ps_a.len() && pb.len() == ps_b.len());
                }
                if ps_a.len() != s_decl.parameters.len() {
                    return Err(StructuralError::WrongArity);
                }
                if ps_b.len() != s_decl.parameters.len() {
                    return Err(StructuralError::WrongArity);
                }
                let ghost decls = s_decl.parameters@;
                let ghost mut done: Seq<Outlives> = Seq::empty();
                let mut i: usize = 0;
                proof {
                    assert(a@ == TyModel::Struct(*s_a, pa));
                    assert(b@ == TyModel::Struct(*s_b, pb));
                    assert(self.named_constraints() =~= old(self).named_constraints() + at_point(
                        done,
                        successor_point,
                    ));
                }
                while i < ps_a.len()
                    invariant
                        self.wf(),
                        self.accounted(),
                        self.extends(old(self)),
                        old(self).wf(),
                        env == self.env,
                        structs == env.structs(),
                        *a is Struct,
                        *ps_a == a->Struct_1,
                        pa == param_models(*ps_a),
                        pb == param_models(*ps_b),
                        decls == s_decl.parameters@,
                        pa.len() == decls.len(),
                        pb.len() == decls.len(),
                        pa.len() == ps_a.len(),
                        pb.len() == ps_b.len(),
                        i <= ps_a.len(),
                        ty_relations(structs, variance, a@, b@) == param_relations(
                            structs,
                            variance,
                            decls,
                            pa,
                            pb,
                            pa.len() as int,
                        ),
                        param_relations(structs, variance, decls, pa, pb, i as int) == Ok::<
                            Seq<Outlives>,
                            StructuralError,
                        >(done),
                        self.named_constraints() == old(self).named_constraints() + at_point(
                            done,
                            successor_point,
                        ),
                    decreases ps_a.len() - i,
                {
                    let v = variance.xform(s_decl.parameters[i].variance);
                    let ghost middle = *self;
                    assert(pa[i as int] == ps_a[i as int]@);
                    assert(pb[i as int] == ps_b[i as int]@);
                    assert(decreases_to!(*a => a->Struct_1));
                    assert(decreases_to!(*ps_a => ps_a[i as int]));
                    match self.relate_parameters(successor_point, v, &ps_a[i], &ps_b[i]) {
                        Err(e) => {
                            proof {
                                self.lemma_extends_trans(&middle, old(self));
                                assert(param_relations(structs, variance, decls, pa, pb, i as int + 1) == Err::<
                                    Seq<Outlives>,
                                    StructuralError,
                                >(e));
                                lemma_param_relations_err(
                                    structs,
                                    variance,
                                    decls,
                                    pa,
                                    pb,
                                    i as int + 1,
                                    pa.len() as int,
                                );
                            }
                            return Err(e);
                        },
                        Ok(()) => {
                            proof {
                                self.lemma_extends_trans(&middle, old(self));
                                let more = param_relation(structs, v, pa[i as int], pb[i as int])->Ok_0;
                                assert(at_point(done + more, successor_point) =~= at_point(done, successor_point)
                                    + at_point(more, successor_point));
                                assert(self.named_constraints() =~= old(self).named_constraints() + at_point(
                                    done + more,
                                    successor_point,
                                ));
                                done = done + more;
                            }
                        },
                    }
                    i += 1;
                }
                Ok(())
            },
            _ => Err(StructuralError::TypeMismatch),
        }
    }

    /// Records what relating two parameters under `variance` asks for.
    fn relate_parameters(&mut self, successor_point: Point, variance: Variance, a: &TyParameter, b: &TyParameter) -> (r:
        Result<(), StructuralError>)
        requires
            old(self).wf(),
            old(self).accounted(),
        ensures
            final(self).wf(),
            final(self).accounted(),
            final(self).extends(old(self)),
            match r {
                Ok(()) => param_relation(old(self).environment().structs(), variance, a@, b@) matches Ok(
                    pairs,
                ) && final(self).named_constraints() == old(self).named_constraints() + at_point(
                    pairs,
                    successor_point,
                ),
                Err(e) => param_relation(old(self).environment().structs(), variance, a@, b@) == Err::<
                    Seq<Outlives>,
                    StructuralError,
                >(e),
            },
        decreases a, 1int,
    {
        match (a, b) {
            (TyParameter::Ty(t_a), TyParameter::Ty(t_b)) => {
                self.relate_tys(successor_point, variance, t_a, t_b)
            },
            (TyParameter::Region(r_a), TyParameter::Region(r_b)) => {
                let name_a = match r_a.assert_free() {
                    Err(e) => {
                        return Err(e);
                    },
                    Ok(n) => n,
                };
                let name_b = match r_b.assert_free() {
                    Err(e) => {
                        return Err(e);
                    },
                    Ok(n) => n,
                };
                self.relate_regions(successor_point, variance, name_a, name_b);
                Ok(())
            },
            _ => Err(StructuralError::TypeMismatch),
        }
    }

    /// Since `before`, variables and constraints were added and values have
    /// grown; nothing else has changed.
    pub open spec fn grows(&self, before: &Self) -> bool {
        &&& self.environment() == before.environment()
        &&& self.inference().vars() >= before.inference().vars()
        &&& forall|i: int|
            0 <= i < before.inference().vars() ==> before.inference().value(i).subset_of(
                #[trigger] self.inference().value(i),
            ) && self.inference().name_of(i) == before.inference().name_of(i) && (before.inference().is_capped(
                i,
            ) ==> self.inference().is_capped(i))
        &&& forall|m: RegionName|
            before.variable_of(m) is Some ==> #[trigger] self.variable_of(m) == before.variable_of(m)
        &&& self.inference().constraint_list().len() >= before.inference().constraint_list().len()
        &&& forall|k: int|
            0 <= k < before.inference().constraint_list().len() ==> #[trigger] self.inference().constraint_list()[k]
                == before.inference().constraint_list()[k]
    }

    /// What extends, grows.
    pub proof fn lemma_extends_grows(&self, before: &Self)
        requires
            self.extends(before),
        ensures
            self.grows(before),
    {
    }

    /// Growing is transitive.
    pub proof fn lemma_grows_trans(&self, middle: &Self, before: &Self)
        requires
            self.grows(middle),
            middle.grows(before),
        ensures
            self.grows(before),
    {
        assert forall|i: int| 0 <= i < before.inference().vars() implies before.inference().value(i).subset_of(
            #[trigger] self.inference().value(i),
        ) && self.inference().name_of(i) == before.inference().name_of(i) && (before.inference().is_capped(i)
            ==> self.inference().is_capped(i)) by {
            assert(before.inference().value(i).subset_of(middle.inference().value(i)));
            assert(middle.inference().value(i).subset_of(self.inference().value(i)));
        }
        assert forall|m: RegionName| before.variable_of(m) is Some implies #[trigger] self.variable_of(m)
            == before.variable_of(m) by {
            assert(middle.variable_of(m) == before.variable_of(m));
        }
        assert forall|k: int|
            0 <= k < before.inference().constraint_list().len() implies #[trigger] self.inference().constraint_list()[k]
            == before.inference().constraint_list()[k] by {
            assert(middle.inference().constraint_list()[k] == before.inference().constraint_list()[k]);
        }
    }

    /// The free region with the declaration `j` has a capped variable
    /// whose value holds every point of every block of the reverse
    /// post-order, and the first point of the block that stands for the end
    /// of the region.
    pub open spec fn seeded(&self, j: int) -> bool {
        let env = self.environment();
        let name = env.graph.func().regions@[j].name;
        &&& self.variable_of(name) matches Some(v)
        &&& v.index < self.inference().vars()
        &&& self.inference().is_capped(v.index as int)
        &&& self.inference().value(v.index as int).contains(end_point_of(env, j))
        &&& forall|p: Point|
            env.is_point(p) && env.reverse_post_order@.contains(p.block.index)
                ==> #[trigger] self.inference().value(v.index as int).contains(p)
    }

    /// What is seeded stays seeded.
    pub proof fn lemma_seeded_kept(&self, before: &Self, j: int)
        requires
            self.grows(before),
            before.seeded(j),
        ensures
            self.seeded(j),
    {
        let env = self.environment();
        let name = env.graph.func().regions@[j].name;
        let v = before.variable_of(name)->Some_0;
        assert(self.variable_of(name) == before.variable_of(name));
        assert(before.inference().value(v.index as int).subset_of(self.inference().value(v.index as int)));
    }

    /// Adds `point` to the value of `rv`.
    fn add_live_point(&mut self, rv: RegionVariable, point: Point)
        requires
            old(self).wf(),
            rv.index < old(self).infer.vars(),
        ensures
            final(self).wf(),
            final(self).grows(old(self)),
            final(self).infer.value(rv.index as int) == old(self).infer.value(rv.index as int).insert(point),
            final(self).infer.vars() == old(self).infer.vars(),
            final(self).named_constraints() == old(self).named_constraints(),
            final(self).names() == old(self).names(),
            forall|i: int|
                0 <= i < old(self).infer.vars() ==> final(self).infer.is_capped(i) == old(self).infer.is_capped(
                    i,
                ) && (i != rv.index ==> final(self).infer.value(i) == old(self).infer.value(i)),
            !old(self).infer.is_capped(rv.index as int) || old(self).infer.value(rv.index as int).contains(point)
                ==> final(self).infer.error_list() == old(self).infer.error_list(),
            final(self).infer.error_list() == if old(self).infer.is_capped(rv.index as int) && !old(
                self,
            ).infer.value(rv.index as int).contains(point) {
                old(self).infer.error_list().push(
                    InferenceError { constraint_point: point, name: old(self).infer.name_of(rv.index as int) },
                )
            } else {
                old(self).infer.error_list()
            },
    {
        self.infer.add_live_point(rv, point);
        proof {
            assert forall|i: int| 0 <= i < self.names().len() implies (#[trigger] self.names()[i]).1.index
                < self.inference().vars() && self.inference().name_of(self.names()[i].1.index as int)
                == self.names()[i].0 by {
                assert(self.names()[i] == old(self).names()[i]);
            }
            assert(self.named_constraints() =~= old(self).named_constraints()) by {
                assert forall|k: int| 0 <= k < self.named_constraints().len() implies self.named_constraints()[k]
                    == old(self).named_constraints()[k] by {
                    let c = old(self).inference().constraint_list()[k];
                    assert(c.sup.index < old(self).inference().vars());
                }
            }
        }
    }

    /// Adds to the value of `rv` the ends of the regions named in
    /// `outlives`, and of those that they outlive in turn, but for the
    /// regions of `visited`; every region whose end is added joins
    /// `visited`.
    fn populate_outlives(
        &mut self,
        rv: RegionVariable,
        visited: &mut Vec<RegionName>,
        outlives: &Vec<RegionName>,
        Ghost(decl): Ghost<int>,
        Ghost(fuel): Ghost<nat>,
    )
        requires
            declared(old(self).environment()).difference(old(visited)@.to_set()).len() <= fuel,
            old(self).wf(),
            rv.index < old(self).infer.vars(),
            0 <= decl < old(self).environment().graph.func().regions@.len(),
            outlives@ == old(self).environment().graph.func().regions@[decl].outlives@,
        ensures
            final(self).wf(),
            final(self).grows(old(self)),
            final(self).infer.vars() == old(self).infer.vars(),
            final(self).named_constraints() == old(self).named_constraints(),
            final(self).names() == old(self).names(),
            forall|i: int|
                0 <= i < old(self).infer.vars() ==> final(self).infer.is_capped(i) == old(self).infer.is_capped(
                    i,
                ) && (i != rv.index ==> final(self).infer.value(i) == old(self).infer.value(i)),
            !old(self).infer.is_capped(rv.index as int) ==> final(self).infer.error_list() == old(self).infer.error_list(),
            final(visited)@ == outlives_walk(
                old(self).environment(),
                old(visited)@,
                outlives@,
                outlives@.len() as int,
                fuel,
            ),
            old(self).infer.is_capped(rv.index as int) ==> final(self).infer.error_list() == old(
                self,
            ).infer.error_list() + seed_errors(
                old(self).environment(),
                old(self).infer.name_of(rv.index as int),
                old(self).infer.value(rv.index as int),
                final(visited)@.subrange(old(visited)@.len() as int, final(visited)@.len() as int),
                final(visited)@.len() - old(visited)@.len(),
            ),
            old(visited)@.len() <= final(visited)@.len(),
            final(visited)@.subrange(0, old(visited)@.len() as int) == old(visited)@,
            forall|m: RegionName| outlives@.contains(m) ==> final(visited)@.contains(m),
            forall|k: int, m: RegionName|
                old(visited)@.len() <= k < final(visited)@.len() && #[trigger] clauses_of(
                    old(self).environment(),
                    final(visited)@[k],
                ).contains(m) ==> final(visited)@.contains(m),
            forall|k: int|
                old(visited)@.len() <= k < final(visited)@.len() ==> outlived(
                    old(self).environment(),
                    outlives@,
                    old(visited)@.to_set(),
                    #[trigger] final(visited)@[k],
                ),
            final(self).infer.value(rv.index as int) == old(self).infer.value(rv.index as int).union(
                ends_of(
                    old(self).environment(),
                    final(visited)@.subrange(old(visited)@.len() as int, final(visited)@.len() as int),
                ),
            ),
        decreases declared(old(self).environment()).difference(old(visited)@.to_set()).len(),
    {
        let env = self.env;
        let regions = env.graph.free_regions();
        let ghost all = declared(env);
        let ghost first = old(visited)@.len() as int;
        let mut i: usize = 0;
        proof {
            vstd::seq_lib::seq_to_set_is_finite(region_names(env.graph.func().regions@));
            self.lemma_grows_self();
            assert(visited@.subrange(0, first) =~= old(visited)@);
            assert(self.infer.value(rv.index as int) =~= old(self).infer.value(rv.index as int).union(
                ends_of(env, visited@.subrange(first, visited@.len() as int)),
            ));
            assert(self.infer.error_list() =~= old(self).infer.error_list() + Seq::empty());
        }
        let ghost name = self.infer.name_of(rv.index as int);
        let ghost value0 = self.infer.value(rv.index as int);
        while i < outlives.len()
            invariant
                declared(env).difference(old(visited)@.to_set()).len() <= fuel,
                visited@ == outlives_walk(env, old(visited)@, outlives@, i as int, fuel),
                name == old(self).infer.name_of(rv.index as int),
                name == self.infer.name_of(rv.index as int),
                value0 == old(self).infer.value(rv.index as int),
                old(self).infer.is_capped(rv.index as int) ==> self.infer.error_list() == old(
                    self,
                ).infer.error_list() + seed_errors(
                    env,
                    name,
                    value0,
                    visited@.subrange(first, visited@.len() as int),
                    visited@.len() - first,
                ),
                self.wf(),
                old(self).wf(),
                env == self.env,
                env == old(self).environment(),
                *regions == env.graph.func().regions,
                all == declared(env),
                all.finite(),
                env.wf(),
                0 <= decl < env.graph.func().regions@.len(),
                outlives@ == env.graph.func().regions@[decl].outlives@,
                rv.index < self.infer.vars(),
                self.grows(old(self)),
                self.infer.vars() == old(self).infer.vars(),
                self.named_constraints() == old(self).named_constraints(),
                self.names() == old(self).names(),
                forall|q: int|
                    0 <= q < old(self).infer.vars() ==> self.infer.is_capped(q) == old(self).infer.is_capped(q) && (q
                        != rv.index ==> self.infer.value(q) == old(self).infer.value(q)),
                !old(self).infer.is_capped(rv.index as int) ==> self.infer.error_list() == old(self).infer.error_list(),
                first == old(visited)@.len(),
                first <= visited@.len(),
                visited@.subrange(0, first) == old(visited)@,
                i <= outlives.len(),
                forall|q: int| 0 <= q < i ==> visited@.contains(#[trigger] outlives@[q]),
                forall|k: int, m: RegionName|
                    first <= k < visited@.len() && #[trigger] clauses_of(env, visited@[k]).contains(m)
                        ==> visited@.contains(m),
                forall|k: int|
                    first <= k < visited@.len() ==> outlived(
                        env,
                        outlives@,
                        old(visited)@.to_set(),
                        #[trigger] visited@[k],
                    ),
                self.infer.value(rv.index as int) == old(self).infer.value(rv.index as int).union(
                    ends_of(env, visited@.subrange(first, visited@.len() as int)),
                ),
            decreases outlives.len() - i,
        {
            let region = outlives[i];
            proof {
                env.graph.lemma_clause_declared(decl, i as int);
                lemma_last_region_bound(env.graph.func().regions@, region, env.graph.func().regions@.len() as int);
                lemma_first_named(env.graph.func().regions@, region, 0);
            }
            i += 1;
            // avoid recomputation
            if holds_name(visited, region) {
                continue;
            }
            let skolemized_block = match env.graph.skolemized_end(region) {
                None => unreached(),
                Some(b) => b,
            };
            let next = match first_region(regions, region) {
                None => unreached(),
                Some(d) => d,
            };
            let ghost before = *self;
            self.add_live_point(rv, Point { block: skolemized_block, action: 0 });
            let ghost seen = visited@.to_set();
            let ghost listed = visited@;
            visited.push(region);
            let ghost second = *self;
            let ghost pushed = visited@;
            proof {
                assert(fuel > 0) by {
                    assert(declared(env).contains(region)) by {
                        assert(region_names(env.graph.func().regions@)[next as int] == region);
                    }
                    assert(declared(env).difference(old(visited)@.to_set()).contains(region)) by {
                        if old(visited)@.contains(region) {
                            let k = choose|k: int| 0 <= k < old(visited)@.len() && old(visited)@[k] == region;
                            assert(listed.subrange(0, first)[k] == listed[k]);
                            assert(listed.contains(region));
                        }
                    }
                    vstd::seq_lib::seq_to_set_is_finite(region_names(env.graph.func().regions@));
                    if declared(env).difference(old(visited)@.to_set()).len() == 0 {
                        assert(declared(env).difference(old(visited)@.to_set()) =~= Set::empty());
                    }
                }
                self.lemma_grows_trans(&before, old(self));
                assert(Point { block: skolemized_block, action: 0 } == end_of(env, region));
                assert(visited@.to_set() =~= seen.insert(region)) by {
                    assert forall|x: RegionName| visited@.to_set().contains(x) <==> seen.insert(region).contains(
                        x,
                    ) by {
                        if listed.contains(x) {
                            let k = choose|k: int| 0 <= k < listed.len() && listed[k] == x;
                            assert(visited@[k] == x);
                        }
                        if x == region {
                            assert(visited@[visited@.len() - 1] == x);
                        }
                    }
                }
                assert(all.contains(region)) by {
                    assert(region_names(env.graph.func().regions@)[next as int] == region);
                }
                all.lemma_set_insert_diff_decreases(seen, region);
                assert(old(visited)@.to_set().subset_of(seen)) by {
                    assert forall|x: RegionName| old(visited)@.contains(x) implies listed.contains(x) by {
                        let k = choose|k: int| 0 <= k < old(visited)@.len() && old(visited)@[k] == x;
                        assert(listed.subrange(0, first)[k] == listed[k]);
                    }
                }
                vstd::set_lib::lemma_len_subset(all.difference(seen), all.difference(old(visited)@.to_set()));
            }
            self.populate_outlives(rv, visited, &regions[next].outlives, Ghost(next as int), Ghost((fuel - 1) as nat));
            proof {
                assert(regions@[next as int].outlives@ == clauses_of(env, region));
                assert(visited@ == outlives_walk(env, old(visited)@, outlives@, i as int, fuel));
                if old(self).infer.is_capped(rv.index as int) {
                    let new_before = listed.subrange(first, listed.len() as int);
                    let new_pushed = pushed.subrange(first, pushed.len() as int);
                    let rec_new = visited@.subrange(pushed.len() as int, visited@.len() as int);
                    let all_new = visited@.subrange(first, visited@.len() as int);
                    assert(visited@.subrange(0, pushed.len() as int) == pushed);
                    assert(new_pushed =~= new_before.push(region));
                    assert(all_new =~= new_pushed + rec_new) by {
                        assert forall|k: int| 0 <= k < all_new.len() implies all_new[k] == (new_pushed + rec_new)[k] by {
                            if k < new_pushed.len() {
                                assert(visited@.subrange(0, pushed.len() as int)[first + k] == visited@[first + k]);
                            }
                        }
                    }
                    // the errors of the region that was pushed
                    assert(new_pushed.take(new_before.len() as int) =~= new_before);
                    lemma_seed_errors_prefix(env, name, value0, new_before, new_pushed, new_before.len() as int);
                    assert(before.infer.value(rv.index as int) == value0.union(ends_of(env, new_before)));
                    assert(second.infer.error_list() == old(self).infer.error_list() + seed_errors(
                        env,
                        name,
                        value0,
                        new_pushed,
                        new_pushed.len() as int,
                    )) by {
                        let so_far = seed_errors(env, name, value0, new_before, new_before.len() as int);
                        let point = end_of(env, region);
                        assert((old(self).infer.error_list() + so_far).push(
                            InferenceError { constraint_point: point, name },
                        ) =~= old(self).infer.error_list() + so_far.push(
                            InferenceError { constraint_point: point, name },
                        ));
                    }
                    // and of those that the walk from it reached
                    assert(second.infer.value(rv.index as int) =~= value0.union(ends_of(env, new_pushed))) by {
                        assert(ends_of(env, new_pushed) =~= ends_of(env, new_before).insert(end_of(env, region))) by {
                            assert forall|p: Point| ends_of(env, new_pushed).contains(p) <==> ends_of(
                                env,
                                new_before,
                            ).insert(end_of(env, region)).contains(p) by {
                                if ends_of(env, new_pushed).contains(p) {
                                    let k = choose|k: int|
                                        0 <= k < new_pushed.len() && p == end_of(env, #[trigger] new_pushed[k]);
                                    if k < new_before.len() {
                                        assert(new_before[k] == new_pushed[k]);
                                    }
                                }
                                if ends_of(env, new_before).contains(p) {
                                    let k = choose|k: int|
                                        0 <= k < new_before.len() && p == end_of(env, #[trigger] new_before[k]);
                                    assert(new_pushed[k] == new_before[k]);
                                }
                                if p == end_of(env, region) {
                                    assert(new_pushed[new_pushed.len() - 1] == region);
                                }
                            }
                        }
                    }
                    lemma_seed_errors_append(env, name, value0, new_pushed, rec_new, rec_new.len() as int);
                    assert(self.infer.error_list() =~= old(self).infer.error_list() + seed_errors(
                        env,
                        name,
                        value0,
                        all_new,
                        all_new.len() as int,
                    ));
                }
                self.lemma_grows_trans(&second, old(self));
                let len = pushed.len() as int;
                assert(visited@.subrange(0, len) == pushed);
                assert forall|k: int| 0 <= k < len implies visited@[k] == pushed[k] by {
                    assert(visited@.subrange(0, len)[k] == visited@[k]);
                }
                assert(visited@.subrange(0, first) =~= old(visited)@) by {
                    assert forall|k: int| 0 <= k < first implies visited@[k] == old(visited)@[k] by {
                        assert(listed.subrange(0, first)[k] == listed[k]);
                        assert(visited@[k] == pushed[k]);
                        assert(pushed[k] == listed[k]);
                    }
                }
                assert(regions@[next as int].outlives@ == clauses_of(env, region));
                assert forall|q: int| 0 <= q < i implies visited@.contains(#[trigger] outlives@[q]) by {
                    if q == i - 1 {
                        assert(visited@[len - 1] == pushed[len - 1]);
                    } else {
                        let k = choose|k: int| 0 <= k < listed.len() && listed[k] == outlives@[q];
                        assert(visited@[k] == pushed[k]);
                    }
                }
                assert forall|k: int, m: RegionName|
                    first <= k < visited@.len() && #[trigger] clauses_of(env, visited@[k]).contains(
                        m,
                    ) implies visited@.contains(m) by {
                    if k < len - 1 {
                        assert(visited@[k] == pushed[k]);
                        assert(listed[k] == visited@[k]);
                        assert(listed.contains(m));
                        let q = choose|q: int| 0 <= q < listed.len() && listed[q] == m;
                        assert(visited@[q] == pushed[q]);
                    } else if k == len - 1 {
                        assert(visited@[k] == pushed[k]);
                    }
                }
                assert forall|k: int| first <= k < visited@.len() implies outlived(
                    env,
                    outlives@,
                    old(visited)@.to_set(),
                    #[trigger] visited@[k],
                ) by {
                    assert(k < len ==> visited@[k] == pushed[k]);
                    if k < len - 1 {
                        assert(listed[k] == visited@[k]);
                        assert(outlived(env, outlives@, old(visited)@.to_set(), listed[k]));
                    } else if k == len - 1 {
                        let walk = seq![region];
                        assert(outlives@[i - 1] == region);
                        assert(outlived_walk(env, outlives@, old(visited)@.to_set(), walk));
                        assert(walk.last() == visited@[k]);
                    } else {
                        assert(outlived(env, regions@[next as int].outlives@, pushed.to_set(), visited@[k]));
                        let tail = choose|walk: Seq<RegionName>| #[trigger]
                            outlived_walk(env, regions@[next as int].outlives@, pushed.to_set(), walk)
                                && walk.last() == visited@[k];
                        let walk = seq![region] + tail;
                        assert(outlives@[i - 1] == region);
                        assert forall|q: int| 0 <= q < walk.len() implies !old(visited)@.to_set().contains(
                            #[trigger] walk[q],
                        ) by {
                            if q > 0 {
                                assert(walk[q] == tail[q - 1]);
                                assert(!pushed.to_set().contains(tail[q - 1]));
                            }
                        }
                        assert forall|q: int| 0 <= q < walk.len() - 1 implies clauses_of(
                            env,
                            #[trigger] walk[q],
                        ).contains(walk[q + 1]) by {
                            if q > 0 {
                                assert(walk[q] == tail[q - 1]);
                                assert(walk[q + 1] == tail[q - 1 + 1]);
                            } else {
                                assert(walk[1] == tail[0]);
                            }
                        }
                        assert(outlived_walk(env, outlives@, old(visited)@.to_set(), walk));
                        assert(walk.last() == visited@[k]);
                    }
                }
                let old_new = listed.subrange(first, listed.len() as int);
                let rec_new = visited@.subrange(len, visited@.len() as int);
                let all_new = visited@.subrange(first, visited@.len() as int);
                assert(ends_of(env, all_new) =~= ends_of(env, old_new).insert(end_of(env, region)).union(
                    ends_of(env, rec_new),
                )) by {
                    assert forall|p: Point| ends_of(env, all_new).contains(p) implies ends_of(env, old_new).insert(
                        end_of(env, region),
                    ).union(ends_of(env, rec_new)).contains(p) by {
                        let k = choose|k: int| 0 <= k < all_new.len() && p == end_of(env, #[trigger] all_new[k]);
                        if first + k < len - 1 {
                            assert(visited@[first + k] == pushed[first + k]);
                            assert(old_new[k] == all_new[k]);
                            assert(ends_of(env, old_new).contains(p));
                        } else if first + k >= len {
                            assert(rec_new[first + k - len] == all_new[k]);
                            assert(ends_of(env, rec_new).contains(p));
                        } else {
                            assert(visited@[len - 1] == pushed[len - 1]);
                            assert(all_new[k] == region);
                        }
                    }
                    assert forall|p: Point|
                        ends_of(env, old_new).insert(end_of(env, region)).union(ends_of(env, rec_new)).contains(
                            p,
                        ) implies ends_of(env, all_new).contains(p) by {
                        if ends_of(env, old_new).contains(p) {
                            let k = choose|k: int| 0 <= k < old_new.len() && p == end_of(env, #[trigger] old_new[k]);
                            assert(visited@[first + k] == pushed[first + k]);
                            assert(all_new[k] == old_new[k]);
                        } else if ends_of(env, rec_new).contains(p) {
                            let k = choose|k: int| 0 <= k < rec_new.len() && p == end_of(env, #[trigger] rec_new[k]);
                            assert(all_new[len - first + k] == rec_new[k]);
                        } else {
                            assert(visited@[len - 1] == pushed[len - 1]);
                            assert(all_new[len - 1 - first] == region);
                        }
                    }
                }
                assert(self.infer.value(rv.index as int) =~= old(self).infer.value(rv.index as int).union(
                    ends_of(env, all_new),
                ));
            }
        }
        proof {
            assert forall|m: RegionName| outlives@.contains(m) implies visited@.contains(m) by {
                let q = choose|q: int| 0 <= q < outlives@.len() && outlives@[q] == m;
                assert(visited@.contains(outlives@[q]));
            }
        }
    }

    /// From now on, growth of `rv` is an error.
    fn cap_var(&mut self, rv: RegionVariable)
        requires
            old(self).wf(),
            rv.index < old(self).infer.vars(),
        ensures
            final(self).wf(),
            final(self).grows(old(self)),
            final(self).infer.is_capped(rv.index as int),
            final(self).infer.vars() == old(self).infer.vars(),
            final(self).named_constraints() == old(self).named_constraints(),
            final(self).names() == old(self).names(),
            final(self).infer.error_list() == old(self).infer.error_list(),
            forall|i: int|
                0 <= i < old(self).infer.vars() ==> final(self).infer.value(i) == old(self).infer.value(i) && (i
                    != rv.index ==> final(self).infer.is_capped(i) == old(self).infer.is_capped(i)),
    {
        self.infer.cap_var(rv);
        proof {
            assert forall|i: int| 0 <= i < self.names().len() implies (#[trigger] self.names()[i]).1.index
                < self.inference().vars() && self.inference().name_of(self.names()[i].1.index as int)
                == self.names()[i].0 by {
                assert(self.names()[i] == old(self).names()[i]);
            }
            assert(self.named_constraints() =~= old(self).named_constraints()) by {
                assert forall|k: int| 0 <= k < self.named_constraints().len() implies self.named_constraints()[k]
                    == old(self).named_constraints()[k] by {
                    let c = old(self).inference().constraint_list()[k];
                    assert(c.sup.index < old(self).inference().vars());
                }
            }
        }
    }

    /// The value of the variable `i`; nothing where there is no such
    /// variable.
    pub open spec fn held(&self, i: int) -> Set<Point> {
        if 0 <= i < self.inference().vars() {
            self.inference().value(i)
        } else {
            Set::empty()
        }
    }

    /// Gives the free region with the declaration `j` its variable, with
    /// every point of every block of the reverse post-order, its own end and
    /// the ends of the regions that it outlives, and caps it.
    fn seed_region(&mut self, j: usize)
        requires
            old(self).wf(),
            j < old(self).environment().graph.func().regions@.len(),
            old(self).variable_of(old(self).environment().graph.func().regions@[j as int].name) matches Some(v)
                ==> (old(self).infer.is_capped(v.index as int) ==> holds_base(
                old(self).environment(),
                old(self).environment().graph.func().regions@[j as int].name,
                old(self).infer.value(v.index as int),
            )),
        ensures
            final(self).wf(),
            final(self).grows(old(self)),
            final(self).named_constraints() == old(self).named_constraints(),
            final(self).seeded(j as int),
            old(self).variable_of(old(self).environment().graph.func().regions@[j as int].name) is None
                ==> final(self).infer.error_list() == old(self).infer.error_list(),
            final(self).infer.error_list() == old(self).infer.error_list() + (match old(self).variable_of(
                old(self).environment().graph.func().regions@[j as int].name,
            ) {
                Some(v) => if old(self).infer.is_capped(v.index as int) {
                    seed_errors(
                        old(self).environment(),
                        old(self).environment().graph.func().regions@[j as int].name,
                        old(self).infer.value(v.index as int),
                        seed_names(old(self).environment(), j as int),
                        seed_names(old(self).environment(), j as int).len() as int,
                    )
                } else {
                    Seq::empty()
                },
                None => Seq::empty(),
            }),
            final(self).variable_of(old(self).environment().graph.func().regions@[j as int].name) matches Some(v)
                && v.index < final(self).infer.vars() && final(self).infer.vars() <= old(self).infer.vars() + 1 && (
            final(self).infer.vars() > old(self).infer.vars() ==> v.index == old(self).infer.vars())
                && forall|i: int|
                0 <= i < final(self).infer.vars() ==> #[trigger] final(self).infer.value(i) == old(self).held(
                    i,
                ).union(
                    if i == v.index {
                        seed_points(old(self).environment(), j as int)
                    } else {
                        Set::empty()
                    },
                ) && final(self).infer.is_capped(i) == (i == v.index || (i < old(self).infer.vars() && old(self).infer.is_capped(i))),
    {
        let env = self.env;
        let regions = env.graph.free_regions();
        let region = regions[j].name;
        let rv = self.region_variable(region);
        let ghost start = *self;
        let ghost seeds = seed_points(env, j as int);
        proof {
            if start.infer.is_capped(rv.index as int) {
                assert(old(self).variable_of(region) is Some);
                assert(old(self).variable_of(region) == Some(rv));
            }
            self.lemma_extends_grows(old(self));
            start.lemma_named_prefix(old(self));
            assert(self.named_constraints() =~= old(self).named_constraints());
        }
        let mut idx: usize = 0;
        while idx < env.reverse_post_order.len()
            invariant
                self.wf(),
                env == self.env,
                env.wf(),
                self.grows(old(self)),
                self.named_constraints() == old(self).named_constraints(),
                self.names() == start.names(),
                self.infer.vars() == start.infer.vars(),
                seeds == seed_points(env, j as int),
                rv.index < self.infer.vars(),
                idx <= env.reverse_post_order@.len(),
                forall|i: int|
                    0 <= i < self.infer.vars() ==> self.infer.is_capped(i) == start.infer.is_capped(i) && (i
                        != rv.index ==> self.infer.value(i) == start.infer.value(i)),
                self.infer.error_list() == start.infer.error_list(),
                start.infer.is_capped(rv.index as int) ==> holds_base(env, region, self.infer.value(rv.index as int))
                    && self.infer.value(rv.index as int) == start.infer.value(rv.index as int),
                region == env.graph.func().regions@[j as int].name,
                self.infer.value(rv.index as int).subset_of(start.infer.value(rv.index as int).union(seeds)),
                forall|q: int, a: int|
                    0 <= q < idx && 0 <= a <= env.graph.actions_of(env.reverse_post_order@[q] as int).len()
                        ==> self.infer.value(rv.index as int).contains(
                        #[trigger] point_at(env.reverse_post_order@[q], a),
                    ),
            decreases env.reverse_post_order@.len() - idx,
        {
            let block = BasicBlockIndex { index: env.reverse_post_order[idx] };
            proof {
                assert(env.reverse_post_order@[idx as int] < env.graph.node_count());
                assert(env.reverse_post_order@.contains(block.index));
            }
            let end_point = env.end_point(block);
            let mut action: usize = 0;
            while action < end_point.action
                invariant
                    self.wf(),
                    env == self.env,
                    env.wf(),
                    self.grows(old(self)),
                    self.named_constraints() == old(self).named_constraints(),
                    self.names() == start.names(),
                    self.infer.vars() == start.infer.vars(),
                    seeds == seed_points(env, j as int),
                    rv.index < self.infer.vars(),
                    idx < env.reverse_post_order@.len(),
                    block.index == env.reverse_post_order@[idx as int],
                    env.reverse_post_order@.contains(block.index),
                    block.index < env.graph.node_count(),
                    end_point.action == env.graph.actions_of(block.index as int).len(),
                    action <= end_point.action,
                    forall|i: int|
                        0 <= i < self.infer.vars() ==> self.infer.is_capped(i) == start.infer.is_capped(i) && (i
                            != rv.index ==> self.infer.value(i) == start.infer.value(i)),
                    self.infer.error_list() == start.infer.error_list(),
                    start.infer.is_capped(rv.index as int) ==> holds_base(
                        env,
                        region,
                        self.infer.value(rv.index as int),
                    ) && self.infer.value(rv.index as int) == start.infer.value(rv.index as int),
                    region == env.graph.func().regions@[j as int].name,
                    self.infer.value(rv.index as int).subset_of(start.infer.value(rv.index as int).union(seeds)),
                    forall|q: int, a: int|
                        0 <= q < idx && 0 <= a <= env.graph.actions_of(env.reverse_post_order@[q] as int).len()
                            ==> self.infer.value(rv.index as int).contains(
                            #[trigger] point_at(env.reverse_post_order@[q], a),
                        ),
                    forall|a: int|
                        0 <= a < action ==> self.infer.value(rv.index as int).contains(
                            #[trigger] point_at(block.index, a),
                        ),
                decreases end_point.action - action,
            {
                let ghost before = *self;
                self.add_live_point(rv, Point { block, action });
                proof {
                    if start.infer.is_capped(rv.index as int) {
                        assert(env.is_point(Point { block, action }));
                        assert(before.infer.value(rv.index as int).contains(Point { block, action }));
                        assert(self.infer.value(rv.index as int) =~= before.infer.value(rv.index as int));
                    }
                    self.lemma_grows_trans(&before, old(self));
                    assert(point_at(block.index, action as int) == Point { block, action });
                    assert(env.is_point(Point { block, action }));
                    assert(seeds.contains(Point { block, action }));
                    assert forall|q: int, a: int|
                        0 <= q < idx && 0 <= a <= env.graph.actions_of(env.reverse_post_order@[q] as int).len() implies self.infer.value(
                        rv.index as int,
                    ).contains(#[trigger] point_at(env.reverse_post_order@[q], a)) by {
                        assert(before.infer.value(rv.index as int).contains(
                            point_at(env.reverse_post_order@[q], a),
                        ));
                    }
                    assert forall|a: int| 0 <= a < action + 1 implies self.infer.value(rv.index as int).contains(
                        #[trigger] point_at(block.index, a),
                    ) by {
                        if a < action {
                            assert(before.infer.value(rv.index as int).contains(point_at(block.index, a)));
                        }
                    }
                }
                action += 1;
            }
            let ghost before = *self;
            self.add_live_point(rv, end_point);
            proof {
                if start.infer.is_capped(rv.index as int) {
                    assert(env.is_point(end_point));
                    assert(before.infer.value(rv.index as int).contains(end_point));
                    assert(self.infer.value(rv.index as int) =~= before.infer.value(rv.index as int));
                }
                self.lemma_grows_trans(&before, old(self));
                assert(env.is_point(end_point));
                assert(seeds.contains(end_point));
                assert forall|q: int, a: int|
                    0 <= q < idx + 1 && 0 <= a <= env.graph.actions_of(env.reverse_post_order@[q] as int).len() implies self.infer.value(
                    rv.index as int,
                ).contains(
                    #[trigger] point_at(env.reverse_post_order@[q], a),
                ) by {
                    if q == idx {
                        if a < end_point.action {
                            assert(before.infer.value(rv.index as int).contains(point_at(block.index, a)));
                        } else {
                            assert(point_at(block.index, a) == end_point);
                        }
                    } else {
                        assert(before.infer.value(rv.index as int).contains(
                            point_at(env.reverse_post_order@[q], a),
                        ));
                    }
                }
            }
            idx += 1;
        }
        proof {
            lemma_end_points(env, j as int);
        }
        let skolemized_block = match env.graph.skolemized_end(region) {
            None => unreached(),
            Some(b) => b,
        };
        let ghost looped = *self;
        self.add_live_point(rv, Point { block: skolemized_block, action: 0 });
        proof {
            assert(Point { block: skolemized_block, action: 0 } == end_of(env, region)) by {
                lemma_end_points(env, j as int);
            }
            if start.infer.is_capped(rv.index as int) {
                assert(looped.infer.value(rv.index as int).contains(end_of(env, region)));
                assert(self.infer.value(rv.index as int) =~= looped.infer.value(rv.index as int));
            }
            assert(self.infer.error_list() == start.infer.error_list());
            self.lemma_grows_trans(&looped, old(self));
            assert(Point { block: skolemized_block, action: 0 } == end_point_of(env, j as int));
            assert(end_point_of(env, j as int) == end_of(env, region));
            assert(seeds.contains(end_of(env, region)));
        }
        let ghost seeded_values = self.infer.value(rv.index as int);
        let mut visited: Vec<RegionName> = Vec::new();
        visited.push(region);
        let ghost before = *self;
        let ghost own = visited@;
        proof {
            vstd::seq_lib::seq_to_set_is_finite(region_names(env.graph.func().regions@));
            vstd::set_lib::lemma_len_subset(declared(env).difference(visited@.to_set()), declared(env));
        }
        self.populate_outlives(
            rv,
            &mut visited,
            &regions[j].outlives,
            Ghost(j as int),
            Ghost(declared(env).len()),
        );
        let ghost middle = *self;
        self.cap_var(rv);
        proof {
            assert(own =~= seq![region]);
            assert(visited@.subrange(1, visited@.len() as int) == seed_names(env, j as int));
            assert(start.infer.error_list() == old(self).infer.error_list());
            assert(before.infer.name_of(rv.index as int) == region);
            if !start.infer.is_capped(rv.index as int) {
                assert(self.infer.error_list() =~= old(self).infer.error_list() + Seq::empty());
            }
            middle.lemma_grows_trans(&before, old(self));
            self.lemma_grows_trans(&middle, old(self));
            assert(seeded_values.subset_of(middle.infer.value(rv.index as int)));
            assert(self.variable_of(region) == Some(rv)) by {
                assert(self.names() == start.names());
            }
            assert forall|p: Point|
                env.is_point(p) && env.reverse_post_order@.contains(p.block.index) implies #[trigger] self.inference().value(
                rv.index as int,
            ).contains(p) by {
                let q = choose|q: int| 0 <= q < env.reverse_post_order@.len() && env.reverse_post_order@[q] == p.block.index;
                assert(seeded_values.contains(point_at(env.reverse_post_order@[q], p.action as int)));
                assert(point_at(env.reverse_post_order@[q], p.action as int) == p);
            }
            let clauses = regions@[j as int].outlives@;
            let avoid = set![region];
            let fresh = visited@.subrange(1, visited@.len() as int);
            assert(own.to_set() =~= avoid) by {
                assert(own[0] == region);
            }
            assert(visited@[0] == region) by {
                assert(visited@.subrange(0, 1)[0] == visited@[0]);
            }
            // what was added is among the seeds
            assert forall|p: Point| ends_of(env, fresh).contains(p) implies seeds.contains(p) by {
                let k = choose|k: int| 0 <= k < fresh.len() && p == end_of(env, #[trigger] fresh[k]);
                assert(fresh[k] == visited@[k + 1]);
                assert(outlived(env, clauses, own.to_set(), visited@[k + 1]));
            }
            // and every seed was added
            assert forall|p: Point| seeds.contains(p) implies self.infer.value(rv.index as int).contains(p) by {
                if env.is_point(p) && env.reverse_post_order@.contains(p.block.index) {
                } else if p == end_of(env, region) {
                    assert(seeded_values.contains(p));
                } else {
                    let name = choose|name: RegionName| #[trigger]
                        outlived(env, clauses, avoid, name) && p == end_of(env, name);
                    let walk = choose|walk: Seq<RegionName>| #[trigger]
                        outlived_walk(env, clauses, avoid, walk) && walk.last() == name;
                    let closed = visited@.to_set();
                    assert forall|n: RegionName, m: RegionName|
                        closed.contains(n) && !avoid.contains(n) && #[trigger] clauses_of(env, n).contains(
                            m,
                        ) implies closed.contains(m) by {
                        let k = choose|k: int| 0 <= k < visited@.len() && visited@[k] == n;
                        assert(k >= 1);
                    }
                    lemma_closed_holds_walk(env, clauses, avoid, closed, walk, walk.len() - 1);
                    let k = choose|k: int| 0 <= k < visited@.len() && visited@[k] == name;
                    assert(!avoid.contains(walk[walk.len() - 1]));
                    assert(k >= 1);
                    assert(fresh[k - 1] == name);
                    assert(ends_of(env, fresh).contains(p));
                }
            }
            assert forall|i: int| 0 <= i < self.infer.vars() implies #[trigger] self.infer.value(i) == old(self).held(i).union(
                if i == rv.index {
                    seeds
                } else {
                    Set::empty()
                },
            ) by {
                assert(self.infer.value(i) == middle.infer.value(i));
                assert(looped.infer.is_capped(i) == start.infer.is_capped(i));
                assert(before.infer.is_capped(i) == looped.infer.is_capped(i));
                assert(middle.infer.is_capped(i) == before.infer.is_capped(i));
                if i == rv.index {
                    assert(self.infer.value(i) =~= old(self).held(i).union(seeds));
                } else {
                    assert(looped.infer.value(i) == start.infer.value(i));
                    assert(before.infer.value(i) == looped.infer.value(i));
                    assert(middle.infer.value(i) == before.infer.value(i));
                    assert(start.infer.value(i) == old(self).held(i));
                    assert(self.infer.value(i) =~= old(self).held(i).union(Set::empty()));
                }
            }
            assert forall|i: int| 0 <= i < self.infer.vars() implies self.infer.is_capped(i) == (i == rv.index || (i
                < old(self).infer.vars() && old(self).infer.is_capped(i))) by {
                assert(looped.infer.is_capped(i) == start.infer.is_capped(i));
                assert(before.infer.is_capped(i) == looped.infer.is_capped(i));
                assert(middle.infer.is_capped(i) == before.infer.is_capped(i));
            }
        }
    }

    /// Every variable holds a point or stands in a constraint.
    pub open spec fn accounted(&self) -> bool {
        forall|i: int|
            0 <= i < self.inference().vars() ==> #[trigger] self.inference().value(i) != Set::<Point>::empty()
                || self.in_constraint(self.inference().name_of(i))
    }

    /// What is accounted for stays so when values grow and constraints are
    /// added.
    proof fn lemma_accounted_kept(&self, before: &Self, i: int)
        requires
            before.wf(),
            before.accounted(),
            self.grows(before),
            0 <= i < before.inference().vars(),
            self.named_constraints().len() >= before.named_constraints().len(),
            forall|k: int|
                0 <= k < before.named_constraints().len() ==> self.named_constraints()[k]
                    == before.named_constraints()[k],
        ensures
            self.inference().value(i) != Set::<Point>::empty() || self.in_constraint(self.inference().name_of(i)),
    {
        let name = before.inference().name_of(i);
        assert(before.inference().value(i).subset_of(self.inference().value(i)));
        if before.inference().value(i) != Set::<Point>::empty() {
            assert(!(before.inference().value(i) =~= Set::<Point>::empty()));
            let p = choose|p: Point| before.inference().value(i).contains(p);
            assert(self.inference().value(i).contains(p));
        } else {
            let k = choose|k: int|
                0 <= k < before.named_constraints().len() && ((#[trigger] before.named_constraints()[k]).0 == name
                    || before.named_constraints()[k].1 == name);
            assert(self.named_constraints()[k] == before.named_constraints()[k]);
        }
    }

    /// A constraint speaks of the region `name`.
    pub open spec fn in_constraint(&self, name: RegionName) -> bool {
        exists|k: int|
            0 <= k < self.named_constraints().len() && ((#[trigger] self.named_constraints()[k]).0 == name
                || self.named_constraints()[k].1 == name)
    }

    /// Every capped variable holds every point of every block of the
    /// reverse post-order.
    pub open spec fn caps_full(&self) -> bool {
        forall|i: int, p: Point|
            0 <= i < self.inference().vars() && self.inference().is_capped(i) && self.environment().is_point(p)
                && self.environment().reverse_post_order@.contains(p.block.index)
                ==> #[trigger] self.inference().value(i).contains(p)
    }

    /// Since `before`, the variables of the regions of `names` have taken
    /// in `point`, and nothing else has changed in any value; the variables
    /// made since are not capped.
    pub open spec fn took_in(&self, before: &Self, names: Set<RegionName>, point: Point) -> bool {
        forall|i: int|
            0 <= i < self.inference().vars() ==> #[trigger] self.inference().value(i) == before.held(i).union(
                if names.contains(self.inference().name_of(i)) {
                    set![point]
                } else {
                    Set::empty()
                },
            ) && self.inference().is_capped(i) == (i < before.inference().vars() && before.inference().is_capped(
                i,
            ))
    }

    /// What the variables took in they still hold when variables are added.
    proof fn lemma_took_kept(&self, taken: &Self, before: &Self, names: Set<RegionName>, point: Point)
        requires
            self.wf(),
            taken.wf(),
            self.extends(taken),
            taken.inference().vars() >= before.inference().vars(),
            taken.took_in(before, names, point),
            taken.caps_full(),
            forall|n: RegionName| names.contains(n) ==> taken.variable_of(n) is Some,
        ensures
            self.took_in(before, names, point),
            self.caps_full(),
            forall|n: RegionName| names.contains(n) ==> self.variable_of(n) is Some,
    {
        assert forall|i: int| 0 <= i < self.inference().vars() implies #[trigger] self.inference().value(i)
            == before.held(i).union(
            if names.contains(self.inference().name_of(i)) {
                set![point]
            } else {
                Set::empty()
            },
        ) && self.inference().is_capped(i) == (i < before.inference().vars() && before.inference().is_capped(
            i,
        )) by {
            if i < taken.inference().vars() {
                assert(self.inference().value(i) == taken.inference().value(i));
            } else {
                let name = self.inference().name_of(i);
                self.lemma_names_differ(i, i);
                if names.contains(name) {
                    let v = taken.variable_of(name)->Some_0;
                    lemma_var_of_bound(taken.names(), name, taken.names().len() as int);
                    assert(self.variable_of(name) == taken.variable_of(name));
                }
                assert(self.inference().value(i) =~= before.held(i).union(Set::empty()));
            }
        }
        assert forall|i: int, p: Point|
            0 <= i < self.inference().vars() && self.inference().is_capped(i) && self.environment().is_point(p)
                && self.environment().reverse_post_order@.contains(
                p.block.index,
            ) implies #[trigger] self.inference().value(i).contains(p) by {
            assert(taken.inference().value(i).contains(p));
        }
        assert forall|n: RegionName| names.contains(n) implies self.variable_of(n) is Some by {
            assert(self.variable_of(n) == taken.variable_of(n));
        }
    }

    /// No two variables bear the same name.
    proof fn lemma_names_differ(&self, a: int, b: int)
        requires
            self.wf(),
            0 <= a < self.inference().vars(),
            0 <= b < self.inference().vars(),
            self.inference().name_of(a) == self.inference().name_of(b),
        ensures
            a == b,
            self.variable_of(self.inference().name_of(a)) == Some(RegionVariable { index: a as usize }),
    {
        assert(self.names()[a].1.index == a);
        assert(self.names()[b].1.index == b);
    }

    /// Takes in what one point of the liveness walk asks for: every region
    /// that is live at the point holds it, and the action at the point puts
    /// its constraints on the regions from the next point on.
    fn absorb_fact(&mut self, liveness: &Liveness, fact: &LiveFact) -> (r: Result<(), StructuralError>)
        requires
            old(self).wf(),
            old(self).points_ok(),
            old(self).caps_full(),
            old(self).accounted(),
            liveness.wf(),
            liveness.env() == old(self).environment(),
            fact_ok(liveness.env(), liveness.capacity(), fact),
            liveness.env().reverse_post_order@.contains(fact.point.block.index),
        ensures
            final(self).wf(),
            final(self).accounted(),
            final(self).grows(old(self)),
            final(self).infer.error_list() == old(self).infer.error_list(),
            r is Ok ==> final(self).points_ok() && final(self).caps_full() && final(self).took_in(
                old(self),
                live_names(old(self).environment(), buf_set(&fact.live)),
                fact.point,
            ) && forall|n: RegionName|
                live_names(old(self).environment(), buf_set(&fact.live)).contains(n) ==> final(self).variable_of(
                    n,
                ) is Some,
            match r {
                Ok(()) => point_constraints(old(self).environment(), fact.point, buf_set(&fact.live)) matches Ok(cs)
                    && final(self).named_constraints() == old(self).named_constraints() + cs,
                Err(e) => point_constraints(old(self).environment(), fact.point, buf_set(&fact.live)) == Err::<
                    Seq<(RegionName, RegionName, Point)>,
                    StructuralError,
                >(e),
            },
    {
        let env = self.env;
        let point = fact.point;
        // To start, find every variable `x` that is live. All regions in
        // the type of `x` must include `point`.
        let slice = fact.live.as_slice();
        proof {
            assert(slice_set(slice) =~= buf_set(&fact.live));
        }
        let live = match liveness.live_regions(slice) {
            Err(e) => {
                proof {
                    self.lemma_grows_self();
                }
                return Err(e);
            },
            Ok(names) => names,
        };
        let mut i: usize = 0;
        let ghost names = live_names(env, buf_set(&fact.live));
        proof {
            self.lemma_grows_self();
            assert(names == live@.to_set());
            assert forall|q: int| 0 <= q < self.infer.vars() implies #[trigger] self.infer.value(q) == old(self).held(q).union(
                if live@.take(0).contains(self.infer.name_of(q)) {
                    set![point]
                } else {
                    Set::empty()
                },
            ) by {
                assert(self.infer.value(q) =~= old(self).held(q).union(Set::empty()));
            }
        }
        while i < live.len()
            invariant
                self.wf(),
                self.points_ok(),
                self.caps_full(),
                self.accounted(),
                env == self.env,
                env == liveness.env(),
                env.wf(),
                point == fact.point,
                fact_ok(liveness.env(), liveness.capacity(), fact),
                env.reverse_post_order@.contains(point.block.index),
                self.grows(old(self)),
                self.named_constraints() == old(self).named_constraints(),
                self.infer.error_list() == old(self).infer.error_list(),
                i <= live.len(),
                forall|q: int| 0 <= q < i ==> self.variable_of(#[trigger] live@[q]) is Some,
                forall|q: int|
                    0 <= q < self.infer.vars() ==> #[trigger] self.infer.value(q) == old(self).held(q).union(
                        if live@.take(i as int).contains(self.infer.name_of(q)) {
                            set![point]
                        } else {
                            Set::empty()
                        },
                    ) && self.infer.is_capped(q) == (q < old(self).infer.vars() && old(self).infer.is_capped(q)),
            decreases live.len() - i,
        {
            let ghost before = *self;
            let rv = self.region_variable(live[i]);
            let ghost middle = *self;
            self.add_live_point(rv, point);
            proof {
                middle.lemma_extends_grows(&before);
                self.lemma_grows_trans(&middle, &before);
                self.lemma_grows_trans(&before, old(self));
                middle.lemma_named_prefix(&before);
                assert(middle.named_constraints() =~= before.named_constraints());
                if middle.infer.is_capped(rv.index as int) {
                    assert(before.infer.value(rv.index as int).contains(point));
                }
                assert(self.caps_full()) by {
                    assert forall|q: int, p: Point|
                        0 <= q < self.infer.vars() && self.infer.is_capped(q) && env.is_point(p)
                            && env.reverse_post_order@.contains(p.block.index) implies #[trigger] self.infer.value(
                        q,
                    ).contains(p) by {
                        assert(before.infer.value(q).contains(p));
                        assert(before.infer.value(q).subset_of(self.infer.value(q)));
                    }
                }
                assert forall|q: int| 0 <= q < i + 1 implies self.variable_of(#[trigger] live@[q]) is Some by {
                    if q < i {
                        assert(before.variable_of(live@[q]) is Some);
                    }
                }
                assert forall|q: int| 0 <= q < self.infer.vars() implies #[trigger] self.inference().value(q)
                    != Set::<Point>::empty() || self.in_constraint(self.inference().name_of(q)) by {
                    if q < before.infer.vars() {
                        self.lemma_grows_trans(&middle, &before);
                        self.lemma_accounted_kept(&before, q);
                    } else {
                        assert(q == rv.index);
                        assert(self.infer.value(q).contains(point));
                    }
                }
                assert forall|q: int| 0 <= q < self.infer.vars() implies #[trigger] self.infer.value(q) == old(self).held(q).union(
                    if live@.take(i + 1).contains(self.infer.name_of(q)) {
                        set![point]
                    } else {
                        Set::empty()
                    },
                ) && self.infer.is_capped(q) == (q < old(self).infer.vars() && old(self).infer.is_capped(q)) by {
                    let name = self.infer.name_of(q);
                    assert(live@.take(i + 1) =~= live@.take(i as int).push(live@[i as int]));
                    assert(live@.take(i + 1).contains(name) == (live@.take(i as int).contains(name) || name
                        == live@[i as int])) by {
                        if live@.take(i as int).contains(name) {
                            let k = choose|k: int| 0 <= k < i && live@.take(i as int)[k] == name;
                            assert(live@.take(i + 1)[k] == name);
                        }
                        if name == live@[i as int] {
                            assert(live@.take(i + 1)[i as int] == name);
                        }
                    }
                    if q == rv.index {
                        assert(self.infer.value(q) == middle.infer.value(q).insert(point));
                        assert(middle.infer.value(q) == before.held(q));
                        if q < before.infer.vars() {
                            assert(before.infer.value(q) == old(self).held(q).union(
                                if live@.take(i as int).contains(before.infer.name_of(q)) {
                                    set![point]
                                } else {
                                    Set::empty()
                                },
                            ));
                        } else {
                            assert(old(self).held(q) =~= Set::empty());
                        }
                        assert(self.infer.value(q) =~= old(self).held(q).union(set![point]));
                    } else {
                        if name == live@[i as int] {
                            self.lemma_names_differ(q, rv.index as int);
                        }
                        assert(q < before.infer.vars());
                        assert(self.infer.value(q) == middle.infer.value(q));
                        assert(middle.infer.value(q) == before.infer.value(q));
                        assert(before.infer.name_of(q) == name);
                    }
                }
            }
            i += 1;
        }
        let ghost taken = *self;
        proof {
            assert(live@.take(live@.len() as int) =~= live@);
            assert forall|n: RegionName| names.contains(n) implies self.variable_of(n) is Some by {
                let q = choose|q: int| 0 <= q < live@.len() && live@[q] == n;
                assert(self.variable_of(live@[q]) is Some);
            }
            assert(self.took_in(old(self), names, point));
        }
        let index = match fact.action {
            None => {
                proof {
                    assert(self.named_constraints() =~= old(self).named_constraints() + Seq::empty());
                }
                return Ok(());
            },
            Some(index) => index,
        };
        proof {
            assert(self.infer.vars() >= old(self).infer.vars());
        }
        // Next, walk the actions and establish any additional constraints
        // that may arise from subtyping.
        let actions = env.graph.block_data(point.block).actions();
        let action = &actions[index];
        let count = actions.len();
        proof {
            assert(fact.action == Some(point.action));
            assert(index < count);
        }
        let successor_point = Point { block: point.block, action: index + 1 };
        let ghost before = *self;
        let r = match &action.kind {
            // `p = &'x` -- first, `'x` must include this point @ P, and
            // second `&'x <: typeof(p) @ succ(P)`
            ActionKind::Borrow(dest_path, region_name, borrow_kind, source_path) => {
                match env.path_ty(dest_path) {
                    Err(e) => Err(e),
                    Ok(dest_ty) => match env.path_ty(source_path) {
                        Err(e) => Err(e),
                        Ok(source_ty) => {
                            let ref_ty = Ty::Ref(TyRegion::Free(*region_name), *borrow_kind, source_ty);
                            match self.relate_tys(successor_point, Variance::Contra, &dest_ty, &ref_ty) {
                                Err(e) => Err(e),
                                Ok(()) => {
                                    let ghost middle = *self;
                                    let r = self.ensure_borrow_source(successor_point, *region_name, source_path);
                                    proof {
                                        self.lemma_extends_trans(&middle, &before);
                                        middle.lemma_points_added(&before, successor_point);
                                        if r is Ok {
                                            self.lemma_points_added(&middle, successor_point);
                                            let first = ty_relations(
                                                env.structs(),
                                                Variance::Contra,
                                                dest_ty@,
                                                ref_ty@,
                                            )->Ok_0;
                                            let ps = supports(
                                                env.decls(),
                                                env.structs(),
                                                env.star,
                                                **source_path,
                                            )->Ok_0;
                                            let second = source_relations(
                                                env,
                                                *region_name,
                                                ps,
                                                ps.len() as int,
                                            )->Ok_0;
                                            assert(self.named_constraints() =~= before.named_constraints() + (
                                            at_point(first, successor_point) + at_point(
                                                second,
                                                successor_point,
                                            )));
                                        }
                                    }
                                    r
                                },
                            }
                        },
                    },
                }
            },
            // a = b
            ActionKind::Assign(a, b) => {
                match env.path_ty(a) {
                    Err(e) => Err(e),
                    Ok(a_ty) => match env.path_ty(b) {
                        Err(e) => Err(e),
                        Ok(b_ty) => {
                            // `b` must be a subtype of `a` to be
                            // assignable:
                            let r = self.relate_tys(successor_point, Variance::Co, &b_ty, &a_ty);
                            proof {
                                if r is Ok {
                                    self.lemma_points_added(&before, successor_point);
                                }
                            }
                            r
                        },
                    },
                }
            },
            // 'X: 'Y
            ActionKind::Constraint(c) => {
                match &**c {
                    ReprConstraint::Outlives(c) => {
                        self.relate_regions(point, Variance::Contra, c.sup, c.sub);
                        proof {
                            self.lemma_points_added(&before, point);
                            assert(at_point(region_relations(Variance::Contra, c.sup, c.sub), point)
                                =~= seq![(c.sup, c.sub, point)]);
                        }
                        Ok(())
                    },
                    _ => Err(StructuralError::UnsupportedConstraint),
                }
            },
            // no add'l constraints needed here; basic liveness suffices.
            ActionKind::Init(..) => Ok(()),
            ActionKind::Use(..) => Ok(()),
            ActionKind::Drop(..) => Ok(()),
            ActionKind::StorageDead(..) => Ok(()),
            ActionKind::SkolemizedEnd(_) => Ok(()),
            ActionKind::Noop => Ok(()),
        };
        proof {
            self.lemma_extends_grows(&before);
            self.lemma_grows_trans(&before, old(self));
            if r is Ok && self.named_constraints() == before.named_constraints() {
                assert(self.named_constraints() =~= old(self).named_constraints() + Seq::empty());
            }
            self.lemma_took_kept(&before, old(self), names, point);
        }
        r
    }

    /// Nothing grows less than itself.
    proof fn lemma_grows_self(&self)
        ensures
            self.grows(self),
            self.extends(self),
    {
    }

    /// Constraints added at a point of the graph keep all constraints at
    /// points of the graph.
    proof fn lemma_points_added(&self, before: &Self, point: Point)
        requires
            before.points_ok(),
            self.environment() == before.environment(),
            self.environment().is_point(point),
            exists|pairs: Seq<Outlives>|
                self.named_constraints() == before.named_constraints() + #[trigger] at_point(pairs, point),
        ensures
            self.points_ok(),
    {
        let pairs = choose|pairs: Seq<Outlives>|
            self.named_constraints() == before.named_constraints() + #[trigger] at_point(pairs, point);
        assert forall|k: int| 0 <= k < self.named_constraints().len() implies self.environment().is_point(
            (#[trigger] self.named_constraints()[k]).2,
        ) by {
            if k < before.named_constraints().len() {
                assert(self.named_constraints()[k] == before.named_constraints()[k]);
            } else {
                assert(self.named_constraints()[k] == at_point(pairs, point)[k - before.named_constraints().len()]);
            }
        }
    }

    /// Every variable holds what its region holds from the start, the
    /// capped variables are those of the declared free regions, and every
    /// region that holds anything from the start has a variable.
    pub open spec fn gathered(&self, facts: Seq<(Point, Set<int>)>) -> bool {
        let env = self.environment();
        &&& forall|i: int|
            0 <= i < self.inference().vars() ==> #[trigger] self.inference().value(i) == start_points(
                env,
                facts,
                self.inference().name_of(i),
            ) && self.inference().is_capped(i) == declared(env).contains(self.inference().name_of(i))
        &&& forall|n: RegionName, p: Point| #[trigger]
            start_points(env, facts, n).contains(p) ==> self.variable_of(n) is Some
        &&& forall|i: int|
            0 <= i < self.inference().vars() ==> mentioned(
                env,
                facts,
                self.named_constraints(),
                #[trigger] self.inference().name_of(i),
            )
    }

    /// Gathers what the function asks of its regions: every free region is
    /// seeded and capped, and every point of the liveness walk is taken in.
    fn populate_inference(&mut self, liveness: &Liveness) -> (r: Result<(), StructuralError>)
        requires
            old(self).wf(),
            old(self).points_ok(),
            old(self).infer.vars() == 0,
            liveness.wf(),
            liveness.env() == old(self).environment(),
        ensures
            final(self).wf(),
            final(self).grows(old(self)),
            r is Ok ==> final(self).points_ok() && final(self).gathered(liveness.facts()) && (names_distinct(
                liveness.env(),
            ) ==> final(self).infer.error_list() == old(self).infer.error_list()) && forall|j: int|
                0 <= j < final(self).environment().graph.func().regions@.len() ==> final(self).seeded(j),
            r is Ok ==> final(self).infer.error_list() == old(self).infer.error_list() + populate_errors(
                liveness.env(),
                liveness.env().graph.func().regions@.len() as int,
            ),
            match r {
                Ok(()) => walk_constraints(
                    liveness.env(),
                    liveness.facts(),
                    liveness.facts().len() as int,
                ) matches Ok(cs) && final(self).named_constraints() == old(self).named_constraints() + cs,
                Err(e) => walk_constraints(liveness.env(), liveness.facts(), liveness.facts().len() as int)
                    == Err::<Seq<(RegionName, RegionName, Point)>, StructuralError>(e),
            },
    {
        let env = self.env;
        let regions = env.graph.free_regions();
        let ghost names = region_names(regions@);
        let mut j: usize = 0;
        proof {
            self.lemma_grows_self();
        }
        while j < regions.len()
            invariant
                self.wf(),
                self.points_ok(),
                env == self.env,
                *regions == env.graph.func().regions,
                names == region_names(regions@),
                self.grows(old(self)),
                self.named_constraints() == old(self).named_constraints(),
                names_distinct(env) ==> self.infer.error_list() == old(self).infer.error_list(),
                self.infer.error_list() == old(self).infer.error_list() + populate_errors(env, j as int),
                env.wf(),
                j <= regions.len(),
                forall|q: int| 0 <= q < j ==> self.seeded(q),
                forall|i: int|
                    0 <= i < self.infer.vars() ==> #[trigger] self.infer.value(i) == seeds_upto(
                        env,
                        self.infer.name_of(i),
                        j as int,
                    ) && self.infer.is_capped(i) && names.take(j as int).contains(self.infer.name_of(i)),
            decreases regions.len() - j,
        {
            let ghost before = *self;
            let ghost own = regions@[j as int].name;
            proof {
                // a region that has a variable was seeded by an earlier declaration
                if before.variable_of(own) is Some {
                    let v = before.variable_of(own)->Some_0;
                    lemma_var_of_bound(before.names(), own, before.names().len() as int);
                    assert(before.infer.value(v.index as int) == seeds_upto(
                        env,
                        before.infer.name_of(v.index as int),
                        j as int,
                    ));
                    assert(names.take(j as int).contains(own));
                    let q = choose|q: int| 0 <= q < names.take(j as int).len() && names.take(j as int)[q] == own;
                    assert(names.take(j as int)[q] == names[q]);
                    assert(before.seeded(q));
                    assert(end_point_of(env, q) == end_of(env, own));
                    assert(holds_base(env, own, before.infer.value(v.index as int)));
                }
                if names.take(j as int).contains(own) {
                    let q = choose|q: int| 0 <= q < names.take(j as int).len() && names.take(j as int)[q] == own;
                    assert(names.take(j as int)[q] == names[q]);
                    assert(before.seeded(q));
                    let v = before.variable_of(own)->Some_0;
                    lemma_var_of_bound(before.names(), own, before.names().len() as int);
                    assert(before.infer.value(v.index as int) == seeds_upto(
                        env,
                        before.infer.name_of(v.index as int),
                        j as int,
                    ));
                }
            }
            self.seed_region(j);
            proof {
                assert(self.infer.error_list() =~= old(self).infer.error_list() + populate_errors(env, j + 1));
                self.lemma_grows_trans(&before, old(self));
                assert forall|q: int| 0 <= q < j implies self.seeded(q) by {
                    self.lemma_seeded_kept(&before, q);
                }
                let v = self.variable_of(own)->Some_0;
                lemma_var_of_bound(self.names(), own, self.names().len() as int);
                assert(self.infer.name_of(v.index as int) == own);
                if names_distinct(env) && before.variable_of(own) is Some {
                    let w = before.variable_of(own)->Some_0;
                    lemma_var_of_bound(before.names(), own, before.names().len() as int);
                    assert(before.infer.value(w.index as int) == seeds_upto(
                        env,
                        before.infer.name_of(w.index as int),
                        j as int,
                    ));
                    assert(names.take(j as int).contains(own));
                    let q = choose|q: int| 0 <= q < names.take(j as int).len() && names.take(j as int)[q] == own;
                    assert(names.take(j as int)[q] == names[q]);
                    assert(regions@[q].name == regions@[j as int].name);
                }
                assert forall|i: int| 0 <= i < self.infer.vars() implies #[trigger] self.infer.value(i) == seeds_upto(
                    env,
                    self.infer.name_of(i),
                    j + 1,
                ) && self.infer.is_capped(i) && names.take(j + 1).contains(self.infer.name_of(i)) by {
                    let name = self.infer.name_of(i);
                    lemma_seeds_step(env, name, j as int);
                    assert(self.inference().value(i) == self.infer.value(i));
                    if i < before.infer.vars() {
                        assert(before.infer.value(i) == seeds_upto(env, before.infer.name_of(i), j as int));
                        assert(before.infer.name_of(i) == name);
                        assert(names.take(j as int).contains(name));
                        let q = choose|q: int|
                            0 <= q < names.take(j as int).len() && names.take(j as int)[q] == name;
                        assert(names.take(j as int)[q] == names[q]);
                        assert(names.take(j + 1)[q] == names[q]);
                    }
                    if i == v.index {
                        assert(names.take(j + 1)[j as int] == own);
                        if i >= before.infer.vars() {
                            assert(seeds_upto(env, own, j as int) =~= Set::empty()) by {
                                if exists|p: Point| seeds_upto(env, own, j as int).contains(p) {
                                    let p = choose|p: Point| seeds_upto(env, own, j as int).contains(p);
                                    let q = choose|q: int|
                                        0 <= q < j && q < regions@.len() && regions@[q].name == own
                                            && #[trigger] seed_points(env, q).contains(p);
                                    assert(before.seeded(q));
                                    lemma_var_of_bound(before.names(), own, before.names().len() as int);
                                    assert(self.variable_of(own) == before.variable_of(own));
                                }
                            }
                        }
                    } else {
                        if name == own {
                            self.lemma_names_differ(i, v.index as int);
                        }
                    }
                }
            }
            j += 1;
        }
        let facts = liveness.walk();
        let ghost view = liveness.facts();
        let ghost seeded = *self;
        let mut i: usize = 0;
        proof {
            assert(self.named_constraints() =~= old(self).named_constraints() + Seq::empty());
            assert(names.take(regions@.len() as int) =~= names);
            assert forall|q: int| 0 <= q < self.infer.vars() implies #[trigger] self.infer.value(q) == seeds_upto(
                env,
                self.infer.name_of(q),
                regions@.len() as int,
            ).union(lives_upto(env, view, self.infer.name_of(q), 0)) && self.infer.is_capped(q) == declared(
                env,
            ).contains(self.infer.name_of(q)) by {
                let name = self.infer.name_of(q);
                assert(self.infer.value(q) =~= seeds_upto(env, name, regions@.len() as int).union(
                    lives_upto(env, view, name, 0),
                ));
                assert(names.contains(name));
            }
            assert(self.accounted()) by {
                assert forall|q: int| 0 <= q < self.infer.vars() implies #[trigger] self.inference().value(q)
                    != Set::<Point>::empty() || self.in_constraint(self.inference().name_of(q)) by {
                    let name = self.infer.name_of(q);
                    assert(self.inference().value(q) == self.infer.value(q));
                    assert(names.contains(name));
                    let d = choose|d: int| 0 <= d < names.len() && names[d] == name;
                    assert(self.seeded(d));
                    self.lemma_names_differ(q, q);
                    assert(self.infer.value(q).contains(end_point_of(env, d)));
                }
            }
            assert(self.caps_full()) by {
                assert forall|q: int, p: Point|
                    0 <= q < self.infer.vars() && self.infer.is_capped(q) && env.is_point(p)
                        && env.reverse_post_order@.contains(p.block.index) implies #[trigger] self.infer.value(
                    q,
                ).contains(p) by {
                    let name = self.infer.name_of(q);
                    assert(self.inference().value(q) == self.infer.value(q));
                    assert(names.contains(name));
                    let d = choose|d: int| 0 <= d < names.len() && names[d] == name;
                    assert(self.seeded(d));
                    self.lemma_names_differ(q, q);
                }
            }
        }
        while i < facts.len()
            invariant
                view == liveness.facts(),
                facts_view(facts@) == view,
                walk_constraints(env, view, i as int) matches Ok(cs) && self.named_constraints() == old(self).named_constraints() + cs,
                self.wf(),
                self.points_ok(),
                self.caps_full(),
                self.accounted(),
                env == self.env,
                env.wf(),
                *regions == env.graph.func().regions,
                names == region_names(regions@),
                liveness.wf(),
                liveness.env() == env,
                self.grows(old(self)),
                self.infer.error_list() == seeded.infer.error_list(),
                names_distinct(env) ==> seeded.infer.error_list() == old(self).infer.error_list(),
                seeded.infer.error_list() == old(self).infer.error_list() + populate_errors(
                    env,
                    env.graph.func().regions@.len() as int,
                ),
                i <= facts@.len(),
                forall|k: int|
                    0 <= k < facts@.len() ==> fact_ok(liveness.env(), liveness.capacity(), &#[trigger] facts@[k])
                        && env.reverse_post_order@.contains(facts@[k].point.block.index),
                forall|q: int| 0 <= q < env.graph.func().regions@.len() ==> self.seeded(q),
                forall|k: int, n: RegionName|
                    0 <= k < i && #[trigger] live_names(env, view[k].1).contains(n) ==> self.variable_of(n) is Some,
                forall|q: int|
                    0 <= q < self.infer.vars() ==> #[trigger] self.infer.value(q) == seeds_upto(
                        env,
                        self.infer.name_of(q),
                        regions@.len() as int,
                    ).union(lives_upto(env, view, self.infer.name_of(q), i as int)) && self.infer.is_capped(q)
                        == declared(env).contains(self.infer.name_of(q)),
            decreases facts@.len() - i,
        {
            let ghost before = *self;
            let r = self.absorb_fact(liveness, &facts[i]);
            proof {
                self.lemma_grows_trans(&before, old(self));
                assert forall|q: int| 0 <= q < env.graph.func().regions@.len() implies self.seeded(q) by {
                    self.lemma_seeded_kept(&before, q);
                }
                assert(view.len() == facts@.len());
                assert(view[i as int] == (facts@[i as int].point, buf_set(&facts@[i as int].live)));
                let done = walk_constraints(env, view, i as int)->Ok_0;
                match point_constraints(env, view[i as int].0, view[i as int].1) {
                    Ok(more) => {
                        assert(self.named_constraints() =~= old(self).named_constraints() + (done + more));
                    },
                    Err(_) => {
                        lemma_walk_constraints_err(env, view, i + 1, view.len() as int);
                    },
                }
                if r is Ok {
                    let live = live_names(env, view[i as int].1);
                    let point = view[i as int].0;
                    assert forall|k: int, n: RegionName|
                        0 <= k < i + 1 && #[trigger] live_names(env, view[k].1).contains(
                            n,
                        ) implies self.variable_of(n) is Some by {
                        if k < i {
                            assert(before.variable_of(n) is Some);
                        }
                    }
                    assert forall|q: int| 0 <= q < self.infer.vars() implies #[trigger] self.infer.value(q)
                        == seeds_upto(env, self.infer.name_of(q), regions@.len() as int).union(
                        lives_upto(env, view, self.infer.name_of(q), i + 1),
                    ) && self.infer.is_capped(q) == declared(env).contains(self.infer.name_of(q)) by {
                        let name = self.infer.name_of(q);
                        assert(self.inference().value(q) == self.infer.value(q));
                        lemma_lives_step(env, view, name, i as int);
                        let seeds = seeds_upto(env, name, regions@.len() as int);
                        let lives = lives_upto(env, view, name, i as int);
                        let more = if live.contains(name) {
                            set![point]
                        } else {
                            Set::empty()
                        };
                        assert(self.infer.value(q) == before.held(q).union(more));
                        if q < before.infer.vars() {
                            assert(before.infer.value(q) == seeds.union(lives));
                            assert(before.infer.name_of(q) == name);
                        } else {
                            self.lemma_names_differ(q, q);
                            if before.variable_of(name) is Some {
                                lemma_var_of_bound(before.names(), name, before.names().len() as int);
                                assert(self.variable_of(name) == before.variable_of(name));
                            }
                            if exists|p: Point| seeds.contains(p) {
                                let p = choose|p: Point| seeds.contains(p);
                                let d = choose|d: int|
                                    0 <= d < regions@.len() && d < regions@.len() && regions@[d].name == name
                                        && #[trigger] seed_points(env, d).contains(p);
                                assert(before.seeded(d));
                            }
                            if exists|p: Point| lives.contains(p) {
                                let p = choose|p: Point| lives.contains(p);
                                let k = choose|k: int|
                                    0 <= k < i && k < view.len() && (#[trigger] view[k]).0 == p && live_names(
                                        env,
                                        view[k].1,
                                    ).contains(name);
                                assert(before.variable_of(name) is Some);
                            }
                            assert(seeds.union(lives) =~= Set::empty());
                            if names.contains(name) {
                                let d = choose|d: int| 0 <= d < names.len() && names[d] == name;
                                assert(before.seeded(d));
                            }
                        }
                        assert(self.infer.value(q) =~= seeds.union(lives.union(more)));
                    }
                }
            }
            if r.is_err() {
                return r;
            }
            i += 1;
        }
        proof {
            assert forall|n: RegionName, p: Point| #[trigger]
                start_points(env, view, n).contains(p) implies self.variable_of(n) is Some by {
                if seeds_upto(env, n, regions@.len() as int).contains(p) {
                    let d = choose|d: int|
                        0 <= d < regions@.len() && d < regions@.len() && regions@[d].name == n
                            && #[trigger] seed_points(env, d).contains(p);
                    assert(self.seeded(d));
                } else {
                    let k = choose|k: int|
                        0 <= k < view.len() && k < view.len() && (#[trigger] view[k]).0 == p && live_names(
                            env,
                            view[k].1,
                        ).contains(n);
                    assert(live_names(env, view[k].1).contains(n));
                }
            }
            assert forall|q: int| 0 <= q < self.infer.vars() implies mentioned(
                env,
                view,
                self.named_constraints(),
                #[trigger] self.inference().name_of(q),
            ) by {
                let n = self.infer.name_of(q);
                let value = self.inference().value(q);
                assert(value == self.infer.value(q));
                if value != Set::<Point>::empty() {
                    assert(!(value =~= Set::<Point>::empty()));
                    let p = choose|p: Point| value.contains(p);
                    if seeds_upto(env, n, regions@.len() as int).contains(p) {
                        let d = choose|d: int|
                            0 <= d < regions@.len() && d < regions@.len() && regions@[d].name == n
                                && #[trigger] seed_points(env, d).contains(p);
                        assert(names[d] == n);
                        assert(declared(env).contains(n));
                    } else {
                        let k = choose|k: int|
                            0 <= k < view.len() && k < view.len() && (#[trigger] view[k]).0 == p && live_names(
                                env,
                                view[k].1,
                            ).contains(n);
                        assert(live_names(env, view[k].1).contains(n));
                    }
                }
            }
        }
        Ok(())
    }

    /// Every constraint speaks of a point of the graph.
    pub open spec fn points_ok(&self) -> bool {
        forall|k: int|
            0 <= k < self.named_constraints().len() ==> self.environment().is_point(
                (#[trigger] self.named_constraints()[k]).2,
            )
    }

    /// Add any relations between regions that are needed to ensures that
    /// reborrows live long enough. Specifically, if we borrow something
    /// like `*r` for `'a`, where `r: &'b i32`, then `'b: 'a` is required.
    fn ensure_borrow_source(&mut self, successor_point: Point, borrow_region_name: RegionName, source_path: &Path) -> (r:
        Result<(), StructuralError>)
        requires
            old(self).wf(),
            old(self).accounted(),
        ensures
            final(self).wf(),
            final(self).accounted(),
            final(self).extends(old(self)),
            match r {
                Ok(()) => {
                    let env = old(self).environment();
                    &&& supports(env.decls(), env.structs(), env.star, *source_path) matches Ok(ps)
                    &&& source_relations(env, borrow_region_name, ps, ps.len() as int) matches Ok(pairs)
                    &&& final(self).named_constraints() == old(self).named_constraints() + at_point(
                        pairs,
                        successor_point,
                    )
                },
                Err(e) => {
                    let env = old(self).environment();
                    match supports(env.decls(), env.structs(), env.star, *source_path) {
                        Err(e2) => e == e2,
                        Ok(ps) => source_relations(env, borrow_region_name, ps, ps.len() as int) == Err::<
                            Seq<Outlives>,
                            StructuralError,
                        >(e),
                    }
                },
            },
    {
        let env = self.env;
        let prefixes = match env.supporting_prefixes(source_path) {
            Err(e) => {
                return Err(e);
            },
            Ok(ps) => ps,
        };
        let ghost ps = supports(env.decls(), env.structs(), env.star, *source_path)->Ok_0;
        let ghost mut done: Seq<Outlives> = Seq::empty();
        let mut i: usize = 0;
        proof {
            assert(self.named_constraints() =~= old(self).named_constraints() + at_point(done, successor_point));
        }
        while i < prefixes.len()
            invariant
                self.wf(),
                self.accounted(),
                old(self).wf(),
                self.extends(old(self)),
                env == self.env,
                env == old(self).environment(),
                supports(env.decls(), env.structs(), env.star, *source_path) == Ok::<
                    Seq<Path>,
                    StructuralError,
                >(ps),
                ps.len() == prefixes@.len(),
                forall|k: int| 0 <= k < prefixes@.len() ==> *prefixes@[k] == ps[k],
                i <= prefixes@.len(),
                source_relations(env, borrow_region_name, ps, i as int) == Ok::<Seq<Outlives>, StructuralError>(
                    done,
                ),
                self.named_constraints() == old(self).named_constraints() + at_point(done, successor_point),
            decreases prefixes@.len() - i,
        {
            let ghost middle = *self;
            match prefixes[i] {
                Path::Var(_) => {
                    // No lifetime constraints are needed to ensure the
                    // validity of a variable. That is ensured by borrowck
                    // preventing the storage of variables from being
                    // killed while data owned by that variable is in scope.
                },
                Path::Extension(base_path, field_name) => {
                    let ty = match env.path_ty(base_path) {
                        Err(e) => {
                            proof {
                                assert(source_relations(env, borrow_region_name, ps, i as int + 1) == Err::<
                                    Seq<Outlives>,
                                    StructuralError,
                                >(e));
                                lemma_source_relations_err(env, borrow_region_name, ps, i as int + 1, ps.len() as int);
                            }
                            return Err(e);
                        },
                        Ok(t) => t,
                    };
                    match &*ty {
                        Ty::Ref(ref_region, _, _) => {
                            if !field_name.same(env.star) {
                                proof {
                                    assert(source_relations(env, borrow_region_name, ps, i as int + 1) == Err::<
                                        Seq<Outlives>,
                                        StructuralError,
                                    >(StructuralError::TypeMismatch));
                                    lemma_source_relations_err(
                                        env,
                                        borrow_region_name,
                                        ps,
                                        i as int + 1,
                                        ps.len() as int,
                                    );
                                }
                                return Err(StructuralError::TypeMismatch);
                            }
                            let ref_region_name = match ref_region.assert_free() {
                                Err(e) => {
                                    proof {
                                        assert(source_relations(env, borrow_region_name, ps, i as int + 1)
                                            == Err::<Seq<Outlives>, StructuralError>(e));
                                        lemma_source_relations_err(
                                            env,
                                            borrow_region_name,
                                            ps,
                                            i as int + 1,
                                            ps.len() as int,
                                        );
                                    }
                                    return Err(e);
                                },
                                Ok(n) => n,
                            };
                            // the region of the reference holds what the
                            // borrow holds
                            self.relate_regions(
                                successor_point,
                                Variance::Contra,
                                ref_region_name,
                                borrow_region_name,
                            );
                            proof {
                                self.lemma_extends_trans(&middle, old(self));
                                let pair = seq![(ref_region_name, borrow_region_name)];
                                assert(region_relations(Variance::Contra, ref_region_name, borrow_region_name)
                                    =~= pair);
                                assert(at_point(done.push((ref_region_name, borrow_region_name)), successor_point)
                                    =~= at_point(done, successor_point) + at_point(pair, successor_point));
                                assert(self.named_constraints() =~= old(self).named_constraints() + at_point(
                                    done.push((ref_region_name, borrow_region_name)),
                                    successor_point,
                                ));
                                done = done.push((ref_region_name, borrow_region_name));
                            }
                        },
                        Ty::Unit => {},
                        Ty::Struct(..) => {},
                        Ty::Bound(..) => {},
                    }
                },
            }
            i += 1;
        }
        Ok(())
    }

    /// The variable of `n`; a new one where none was made yet.
    fn region_variable(&mut self, n: RegionName) -> (r: RegionVariable)
        requires
            old(self).wf(),
        ensures
            final(self).wf(),
            final(self).env == old(self).env,
            r.index < final(self).infer.vars(),
            final(self).infer.name_of(r.index as int) == n,
            final(self).infer.vars() >= old(self).infer.vars(),
            final(self).infer.constraint_list() == old(self).infer.constraint_list(),
            final(self).infer.error_list() == old(self).infer.error_list(),
            forall|i: int|
                0 <= i < old(self).infer.vars() ==> final(self).infer.value(i) == old(self).infer.value(i)
                    && final(self).infer.name_of(i) == old(self).infer.name_of(i) && final(self).infer.is_capped(i) == old(self).infer.is_capped(i),
            forall|i: int|
                old(self).infer.vars() <= i < final(self).infer.vars() ==> final(self).infer.value(i)
                    == Set::<Point>::empty() && !final(self).infer.is_capped(i),
            old(self).variable_of(n) matches Some(v) ==> r == v && final(self).names() == old(self).names(),
            forall|m: RegionName|
                old(self).variable_of(m) is Some ==> final(self).variable_of(m) == old(self).variable_of(m),
            final(self).variable_of(n) == Some(r),
            final(self).extends(old(self)),
            old(self).variable_of(n) is None ==> r.index == old(self).infer.vars() && final(self).infer.vars()
                == old(self).infer.vars() + 1,
            old(self).variable_of(n) is Some ==> final(self).infer.vars() == old(self).infer.vars(),
    {
        match self.lookup(n) {
            Some(v) => {
                proof {
                    lemma_var_of_bound(self.names(), n, self.names().len() as int);
                }
                v
            },
            None => {
                let v = self.infer.add_var(n);
                self.region_map.push((n, v));
                proof {
                    assert forall|i: int| 0 <= i < self.names().len() implies (#[trigger] self.names()[i]).1.index
                        < self.inference().vars() && self.inference().name_of(self.names()[i].1.index as int)
                        == self.names()[i].0 by {
                        if i < old(self).names().len() {
                            assert(self.names()[i] == old(self).names()[i]);
                        }
                    }
                    assert forall|m: RegionName| old(self).variable_of(m) is Some implies self.variable_of(m)
                        == old(self).variable_of(m) by {
                        lemma_var_of_grows(old(self).names(), (n, v), m);
                    }
                }
                v
            },
        }
    }
}

/// A new entry for another name changes nothing for the names that have a
/// variable.
pub proof fn lemma_var_of_grows(
    map: Seq<(RegionName, RegionVariable)>,
    entry: (RegionName, RegionVariable),
    name: RegionName,
)
    requires
        var_of(map, entry.0, map.len() as int) is None,
        var_of(map, name, map.len() as int) is Some,
    ensures
        var_of(map.push(entry), name, map.len() as int + 1) == var_of(map, name, map.len() as int),
{
    let grown = map.push(entry);
    assert(name != entry.0);
    lemma_var_of_same(map, grown, name, map.len() as int);
}

proof fn lemma_var_of_same(
    a: Seq<(RegionName, RegionVariable)>,
    b: Seq<(RegionName, RegionVariable)>,
    name: RegionName,
    upto: int,
)
    requires
        upto <= a.len() <= b.len(),
        forall|i: int| 0 <= i < a.len() ==> a[i] == b[i],
    ensures
        var_of(a, name, upto) == var_of(b, name, upto),
    decreases upto,
{
    if upto > 0 {
        lemma_var_of_same(a, b, name, upto - 1);
    }
}

} // verus!
