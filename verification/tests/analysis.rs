use nll::borrowck::BorrowErrorKind;
use nll::env::{Environment, Point};
use nll::errors::{contains_text, ErrorReporting, StructuralError};
use nll::func_graph::{BasicBlockIndex, FuncGraph};
use nll::graph::Graph;
use nll::infer::InferenceContext;
use nll::liveness::Liveness;
use nll::regionck::{region_check, verdict, Verdict};
use nll::repr::{
    Action, ActionKind, Assertion, BasicBlock, BasicBlockData, BorrowKind, Constraint, FieldDecl,
    FieldName, Func, Kind, OutlivesConstraint, Path, Point as NamedPoint, PointName, Region,
    RegionDecl, RegionLiteral, RegionName, StructDecl, StructName, StructParameter, Ty,
    TyParameter, Variable, VariableDecl, Variance,
};

fn var(name: &str) -> Box<Path> {
    Box::new(Path::Var(Variable::new(name)))
}

fn field(base: Box<Path>, name: &str) -> Box<Path> {
    Box::new(Path::Extension(base, FieldName::new(name)))
}

fn deref(base: Box<Path>) -> Box<Path> {
    Box::new(Path::Extension(base, FieldName::star()))
}

fn act(kind: ActionKind) -> Action {
    Action { kind, should_have_error: None }
}

fn init(dest: &str) -> Action {
    act(ActionKind::Init(var(dest), vec![]))
}

fn use_(path: Box<Path>) -> Action {
    act(ActionKind::Use(path))
}

fn borrow(dest: &str, region: &str, kind: BorrowKind, source: Box<Path>) -> Action {
    act(ActionKind::Borrow(var(dest), RegionName::new(region), kind, source))
}

fn block(name: &str, actions: Vec<Action>, successors: &[&str]) -> BasicBlockData {
    BasicBlockData {
        name: BasicBlock::new(name),
        actions,
        successors: successors.iter().map(|s| BasicBlock::new(s)).collect(),
    }
}

fn decl(name: &str, ty: Ty) -> VariableDecl {
    VariableDecl { var: Variable::new(name), ty: Box::new(ty) }
}

fn reference(region: &str, kind: BorrowKind, ty: Ty) -> Ty {
    Ty::Ref(Region::Free(RegionName::new(region)), kind, Box::new(ty))
}

fn func(decls: Vec<VariableDecl>, data: Vec<BasicBlockData>) -> Func {
    Func { decls, structs: vec![], regions: vec![], data, assertions: vec![] }
}

fn at(block: usize, action: usize) -> Point {
    Point { block: BasicBlockIndex { index: block }, action }
}

fn sorted(points: &[Point]) -> Vec<(usize, usize)> {
    let mut v: Vec<(usize, usize)> = points.iter().map(|p| (p.block.index, p.action)).collect();
    v.sort();
    v
}

fn shared_borrow_program() -> Func {
    // x: &'a (); y: &'a &'a ();
    // START { x = use(); y = &'a x; use(y); use(x); }
    func(
        vec![
            decl("x", reference("'a", BorrowKind::Shared, Ty::Unit)),
            decl(
                "y",
                reference("'a", BorrowKind::Shared, reference("'a", BorrowKind::Shared, Ty::Unit)),
            ),
        ],
        vec![block(
            "START",
            vec![
                init("x"),
                borrow("y", "'a", BorrowKind::Shared, var("x")),
                use_(var("y")),
                use_(var("x")),
            ],
            &[],
        )],
    )
}

#[test]
fn simple_shared_borrow() {
    let graph = FuncGraph::new(shared_borrow_program()).unwrap();
    let env = Environment::new(&graph).unwrap();
    let out = region_check(&env).unwrap();
    let region = out.regionck.region(RegionName::new("'a")).unwrap();
    assert_eq!(sorted(region.points()), vec![(0, 1), (0, 2), (0, 3)]);
    assert!(out.borrow_errors.is_empty());
    assert!(out.inference_errors.is_empty());
    assert!(out.failed_assertions.is_empty());
}

fn mut_borrow_program() -> Func {
    // x: (); y: &'a mut ();
    // START { x = use(); y = &'a mut x; use(x); use(y); }
    func(
        vec![decl("x", Ty::Unit), decl("y", reference("'a", BorrowKind::Mut, Ty::Unit))],
        vec![block(
            "START",
            vec![
                init("x"),
                borrow("y", "'a", BorrowKind::Mut, var("x")),
                use_(var("x")),
                use_(var("y")),
            ],
            &[],
        )],
    )
}

#[test]
fn mut_borrow_conflict() {
    let graph = FuncGraph::new(mut_borrow_program()).unwrap();
    let env = Environment::new(&graph).unwrap();
    let out = region_check(&env).unwrap();
    assert_eq!(out.borrow_errors.len(), 1);
    let error = &out.borrow_errors[0];
    assert_eq!(error.kind, BorrowErrorKind::Read);
    assert_eq!(error.point, at(0, 2));
    assert!(error.path.same(&Path::Var(Variable::new("x"))));
    assert!(error.loan_path.same(&Path::Var(Variable::new("x"))));
    assert_eq!(error.loan_point, at(0, 1));
}

#[test]
fn write_while_borrowed_conflicts() {
    // START { x = use(); y = &'a x; x = use(); use(y); }
    let f = func(
        vec![decl("x", Ty::Unit), decl("y", reference("'a", BorrowKind::Shared, Ty::Unit))],
        vec![block(
            "START",
            vec![
                init("x"),
                borrow("y", "'a", BorrowKind::Shared, var("x")),
                init("x"),
                use_(var("y")),
            ],
            &[],
        )],
    );
    let graph = FuncGraph::new(f).unwrap();
    let env = Environment::new(&graph).unwrap();
    let out = region_check(&env).unwrap();
    assert_eq!(out.borrow_errors.len(), 1);
    assert_eq!(out.borrow_errors[0].kind, BorrowErrorKind::Write);
    assert_eq!(out.borrow_errors[0].point, at(0, 2));
}

#[test]
fn loan_ends_where_its_region_ends() {
    // the borrow is never used: its region is empty, and the write is fine
    // START { x = use(); y = &'a mut x; x = use(); use(x); }
    let f = func(
        vec![decl("x", Ty::Unit), decl("y", reference("'a", BorrowKind::Mut, Ty::Unit))],
        vec![block(
            "START",
            vec![
                init("x"),
                borrow("y", "'a", BorrowKind::Mut, var("x")),
                init("x"),
                use_(var("x")),
            ],
            &[],
        )],
    );
    let graph = FuncGraph::new(f).unwrap();
    let env = Environment::new(&graph).unwrap();
    let out = region_check(&env).unwrap();
    assert!(out.regionck.region(RegionName::new("'a")).unwrap().is_empty());
    assert!(out.borrow_errors.is_empty());
}

#[test]
fn loop_carried_borrow() {
    // START -> LOOP, LOOP -> LOOP, LOOP -> EXIT; in LOOP: y = &'a x; use(y);
    let f = func(
        vec![decl("x", Ty::Unit), decl("y", reference("'a", BorrowKind::Shared, Ty::Unit))],
        vec![
            block("START", vec![init("x")], &["LOOP"]),
            block(
                "LOOP",
                vec![borrow("y", "'a", BorrowKind::Shared, var("x")), use_(var("y"))],
                &["LOOP", "EXIT"],
            ),
            block("EXIT", vec![], &[]),
        ],
    );
    let graph = FuncGraph::new(f).unwrap();
    let env = Environment::new(&graph).unwrap();
    let out = region_check(&env).unwrap();
    let region = out.regionck.region(RegionName::new("'a")).unwrap();
    assert_eq!(sorted(region.points()), vec![(1, 1)]);
    assert!(out.borrow_errors.is_empty());
}

fn dangling_vec(may_dangle: bool) -> Func {
    // struct Vec<'0> { ptr: &'0 mut () }
    // v: Vec<'b>; r: &'a mut ();
    // START { v = use(); r = &'a mut *v.ptr; drop(v); use(r); }
    Func {
        decls: vec![
            decl(
                "v",
                Ty::Struct(
                    StructName::new("Vec"),
                    vec![TyParameter::Region(Region::Free(RegionName::new("'b")))],
                ),
            ),
            decl("r", reference("'a", BorrowKind::Mut, Ty::Unit)),
        ],
        structs: vec![StructDecl {
            name: StructName::new("Vec"),
            parameters: vec![StructParameter {
                kind: Kind::Region,
                variance: Variance::Co,
                may_dangle,
            }],
            fields: vec![FieldDecl {
                name: FieldName::new("ptr"),
                ty: Box::new(Ty::Ref(Region::Bound(0), BorrowKind::Mut, Box::new(Ty::Unit))),
            }],
        }],
        regions: vec![],
        data: vec![block(
            "START",
            vec![
                init("v"),
                borrow("r", "'a", BorrowKind::Mut, deref(field(var("v"), "ptr"))),
                act(ActionKind::Drop(var("v"))),
                use_(var("r")),
            ],
            &[],
        )],
        assertions: vec![],
    }
}

#[test]
fn drop_with_may_dangle() {
    let graph = FuncGraph::new(dangling_vec(true)).unwrap();
    let env = Environment::new(&graph).unwrap();
    let out = region_check(&env).unwrap();
    assert!(out.borrow_errors.is_empty());
}

#[test]
fn drop_without_may_dangle_conflicts() {
    let graph = FuncGraph::new(dangling_vec(false)).unwrap();
    let env = Environment::new(&graph).unwrap();
    let out = region_check(&env).unwrap();
    assert_eq!(out.borrow_errors.len(), 1);
    assert_eq!(out.borrow_errors[0].kind, BorrowErrorKind::Drop);
    assert_eq!(out.borrow_errors[0].point, at(0, 2));
    assert_eq!(out.borrow_errors[0].loan_point, at(0, 1));
}

#[test]
fn storage_dead_of_a_borrowed_variable_conflicts() {
    // START { x = use(); y = &'a x; StorageDead(x); use(y); }
    let f = func(
        vec![decl("x", Ty::Unit), decl("y", reference("'a", BorrowKind::Shared, Ty::Unit))],
        vec![block(
            "START",
            vec![
                init("x"),
                borrow("y", "'a", BorrowKind::Shared, var("x")),
                act(ActionKind::StorageDead(Variable::new("x"))),
                use_(var("y")),
            ],
            &[],
        )],
    );
    let graph = FuncGraph::new(f).unwrap();
    let env = Environment::new(&graph).unwrap();
    let out = region_check(&env).unwrap();
    assert_eq!(out.borrow_errors.len(), 1);
    assert_eq!(out.borrow_errors[0].kind, BorrowErrorKind::StorageDead);
}

fn two_regions(outlives_a: &[&str], outlives_b: &[&str]) -> Func {
    Func {
        decls: vec![decl("x", reference("'a", BorrowKind::Shared, Ty::Unit))],
        structs: vec![],
        regions: vec![
            RegionDecl {
                name: RegionName::new("'a"),
                outlives: outlives_a.iter().map(|r| RegionName::new(r)).collect(),
            },
            RegionDecl {
                name: RegionName::new("'b"),
                outlives: outlives_b.iter().map(|r| RegionName::new(r)).collect(),
            },
        ],
        data: vec![block("START", vec![use_(var("x"))], &[])],
        assertions: vec![],
    }
}

#[test]
fn outlives_cycle() {
    // 'a: 'b; 'b: 'a;
    let graph = FuncGraph::new(two_regions(&["'b"], &["'a"])).unwrap();
    let end_a = graph.skolemized_end(RegionName::new("'a")).unwrap().index;
    let end_b = graph.skolemized_end(RegionName::new("'b")).unwrap().index;
    assert_eq!((end_a, end_b), (1, 2));
    // exactly one of the two ends follows the block that returns
    assert_eq!(graph.successors(0), &vec![end_a]);
    assert_eq!(graph.successors(end_a), &vec![end_b]);
    assert_eq!(graph.successors(end_b), &vec![end_a]);
    let env = Environment::new(&graph).unwrap();
    assert!(env.reachable.can_reach(end_a, end_b));
    assert!(env.reachable.can_reach(end_b, end_a));
    let out = region_check(&env).unwrap();
    assert!(out.borrow_errors.is_empty());
}

#[test]
fn region_without_outlives_clauses() {
    let graph = FuncGraph::new(two_regions(&[], &[])).unwrap();
    // both ends follow the block that returns, and nothing follows them
    assert_eq!(graph.successors(0), &vec![1, 2]);
    assert_eq!(graph.successors(1), &Vec::<usize>::new());
    let env = Environment::new(&graph).unwrap();
    let out = region_check(&env).unwrap();
    let region = out.regionck.region(RegionName::new("'b")).unwrap();
    // every point of every block, its own end included
    for point in [at(0, 0), at(0, 1), at(1, 0), at(1, 1), at(2, 0), at(2, 1)] {
        assert!(region.contains(point));
    }
}

#[test]
fn outlived_region_ends_first() {
    // 'a: 'b -- the end of 'b comes before the end of 'a
    let graph = FuncGraph::new(two_regions(&["'b"], &[])).unwrap();
    assert_eq!(graph.successors(0), &vec![2]);
    assert_eq!(graph.successors(2), &vec![1]);
    assert_eq!(graph.predecessors(1), &vec![2]);
}

#[test]
fn empty_block_ends_where_it_starts() {
    let f = func(vec![], vec![block("START", vec![], &[])]);
    let graph = FuncGraph::new(f).unwrap();
    let env = Environment::new(&graph).unwrap();
    let start = graph.block(BasicBlock::start()).unwrap();
    assert_eq!(env.end_point(start), env.start_point(start));
    assert_eq!(env.successor_points(env.end_point(start)), vec![]);
}

#[test]
fn successor_points_follow_the_flow() {
    let f = func(
        vec![decl("x", Ty::Unit)],
        vec![
            block("START", vec![init("x"), use_(var("x"))], &["B", "START"]),
            block("B", vec![], &[]),
        ],
    );
    let graph = FuncGraph::new(f).unwrap();
    let env = Environment::new(&graph).unwrap();
    assert_eq!(env.successor_points(at(0, 0)), vec![at(0, 1)]);
    assert_eq!(env.successor_points(at(0, 1)), vec![at(0, 2)]);
    assert_eq!(env.successor_points(at(0, 2)), vec![at(1, 0), at(0, 0)]);
}

#[test]
fn structural_errors() {
    // a successor that is not declared
    let f = func(vec![], vec![block("START", vec![], &["MISSING"])]);
    assert!(matches!(FuncGraph::new(f), Err(StructuralError::UndeclaredBlock)));
    // no entry
    let f = func(vec![], vec![block("A", vec![], &[])]);
    assert!(matches!(FuncGraph::new(f), Err(StructuralError::UndeclaredBlock)));
    // an outlives clause that names no declared region
    let mut f = two_regions(&["'c"], &[]);
    f.data[0].successors = vec![];
    assert!(matches!(FuncGraph::new(f), Err(StructuralError::UndeclaredRegion)));
    // a variable that is not declared
    let f = func(vec![], vec![block("START", vec![use_(var("x"))], &[])]);
    let graph = FuncGraph::new(f).unwrap();
    let env = Environment::new(&graph).unwrap();
    assert!(matches!(region_check(&env), Err(StructuralError::UndeclaredVariable)));
    // an assignment between types of different shape
    let f = func(
        vec![decl("x", Ty::Unit), decl("y", reference("'a", BorrowKind::Shared, Ty::Unit))],
        vec![block("START", vec![act(ActionKind::Assign(var("x"), var("y")))], &[])],
    );
    let graph = FuncGraph::new(f).unwrap();
    let env = Environment::new(&graph).unwrap();
    assert!(matches!(region_check(&env), Err(StructuralError::TypeMismatch)));
}

#[test]
fn path_types_and_supporting_prefixes() {
    let graph = FuncGraph::new(dangling_vec(true)).unwrap();
    let env = Environment::new(&graph).unwrap();
    let ptr = field(var("v"), "ptr");
    match *env.path_ty(&ptr).unwrap() {
        Ty::Ref(Region::Free(r), BorrowKind::Mut, ref t) => {
            assert!(r.same(RegionName::new("'b")));
            assert!(matches!(**t, Ty::Unit));
        }
        _ => panic!("the field is a mutable reference"),
    }
    let target = deref(ptr);
    assert!(matches!(*env.path_ty(&target).unwrap(), Ty::Unit));
    // the reference is mutable, so its prefixes support what lies behind it
    let prefixes = env.supporting_prefixes(&target).unwrap();
    assert_eq!(prefixes.len(), 3);
    assert!(prefixes[2].same(&Path::Var(Variable::new("v"))));
    assert!(matches!(
        env.path_ty(&field(var("v"), "nothing")),
        Err(StructuralError::UndeclaredField)
    ));
    assert!(matches!(env.path_ty(&var("w")), Err(StructuralError::UndeclaredVariable)));
    assert!(matches!(env.path_ty(&deref(var("v"))), Err(StructuralError::UndeclaredField)));
    assert!(matches!(
        env.path_ty(&field(var("r"), "ptr")),
        Err(StructuralError::TypeMismatch)
    ));
}

#[test]
fn shared_dereference_stops_the_supporting_prefixes() {
    let f = func(
        vec![decl("r", reference("'a", BorrowKind::Shared, Ty::Unit))],
        vec![block("START", vec![], &[])],
    );
    let graph = FuncGraph::new(f).unwrap();
    let env = Environment::new(&graph).unwrap();
    let target = deref(var("r"));
    let prefixes = env.supporting_prefixes(&target).unwrap();
    assert_eq!(prefixes.len(), 1);
    assert!(prefixes[0].same(&target));
}

#[test]
fn liveness_on_entry() {
    // START { x = use(); } -> B { use(x); y = use(); } -> C { use(y); }
    let f = func(
        vec![decl("x", Ty::Unit), decl("y", Ty::Unit)],
        vec![
            block("START", vec![init("x")], &["B"]),
            block("B", vec![use_(var("x")), init("y")], &["C"]),
            block("C", vec![use_(var("y"))], &[]),
        ],
    );
    let graph = FuncGraph::new(f).unwrap();
    let env = Environment::new(&graph).unwrap();
    let liveness = Liveness::new(&env).unwrap();
    let index = |i| BasicBlockIndex { index: i };
    let x = Variable::new("x");
    let y = Variable::new("y");
    assert_eq!(liveness.var_live_on_entry(x, index(0)), Ok(false));
    assert_eq!(liveness.var_live_on_entry(x, index(1)), Ok(true));
    assert_eq!(liveness.var_live_on_entry(x, index(2)), Ok(false));
    assert_eq!(liveness.var_live_on_entry(y, index(1)), Ok(false));
    assert_eq!(liveness.var_live_on_entry(y, index(2)), Ok(true));
    assert_eq!(
        liveness.var_live_on_entry(Variable::new("z"), index(0)),
        Err(StructuralError::UndeclaredVariable)
    );
}

#[test]
fn a_noop_changes_no_liveness() {
    let with_noop = |noop: bool| {
        let mut actions = vec![use_(var("x"))];
        if noop {
            actions.insert(0, act(ActionKind::Noop));
            actions.push(act(ActionKind::Noop));
        }
        let f = func(
            vec![decl("x", Ty::Unit)],
            vec![block("START", vec![init("x")], &["B"]), block("B", actions, &[])],
        );
        let graph = FuncGraph::new(f).unwrap();
        let env = Environment::new(&graph).unwrap();
        let liveness = Liveness::new(&env).unwrap();
        let x = Variable::new("x");
        (
            liveness.var_live_on_entry(x, BasicBlockIndex { index: 0 }),
            liveness.var_live_on_entry(x, BasicBlockIndex { index: 1 }),
        )
    };
    assert_eq!(with_noop(false), with_noop(true));
    assert_eq!(with_noop(true), (Ok(false), Ok(true)));
}

#[test]
fn assertions_are_held_against_the_regions() {
    let mut f = shared_borrow_program();
    let a = RegionName::new("'a");
    let start = PointName::Code(BasicBlock::start());
    let named = |action| NamedPoint { block: start, action };
    f.assertions = vec![
        Assertion::Eq(a, RegionLiteral { points: vec![named(1), named(2), named(3)] }),
        Assertion::Eq(a, RegionLiteral { points: vec![named(1)] }),
        Assertion::In(a, named(2)),
        Assertion::In(a, named(0)),
        Assertion::NotIn(a, named(0)),
        Assertion::NotLive(Variable::new("x"), BasicBlock::start()),
        Assertion::Live(Variable::new("x"), BasicBlock::start()),
        Assertion::RegionNotLive(a, BasicBlock::start()),
    ];
    let graph = FuncGraph::new(f).unwrap();
    let env = Environment::new(&graph).unwrap();
    let out = region_check(&env).unwrap();
    assert_eq!(out.failed_assertions, vec![1, 3, 6]);
}

#[test]
fn capped_region_must_not_grow() {
    let graph = FuncGraph::new(shared_borrow_program()).unwrap();
    let env = Environment::new(&graph).unwrap();
    let mut infer = InferenceContext::new();
    let a = infer.add_var(RegionName::new("'a"));
    let b = infer.add_var(RegionName::new("'b"));
    infer.add_live_point(a, at(0, 0));
    infer.add_live_point(b, at(0, 1));
    infer.add_live_point(b, at(0, 2));
    infer.add_live_point(b, at(0, 4));
    infer.cap_var(a);
    // from START/1 on, 'a holds what 'b holds along the flow
    infer.add_outlives(a, b, at(0, 1));
    let errors = infer.solve(&env);
    assert_eq!(sorted(infer.region(a).points()), vec![(0, 0), (0, 1), (0, 2)]);
    assert_eq!(sorted(infer.region(b).points()), vec![(0, 1), (0, 2), (0, 4)]);
    assert_eq!(errors.len(), 1);
    assert!(errors[0].name.same(RegionName::new("'a")));
    // the error is reported at the point before the constraint
    assert_eq!(errors[0].constraint_point, at(0, 0));
    // a growth of a capped variable by a live point is an error at that point
    infer.add_live_point(a, at(0, 3));
    let errors = infer.solve(&env);
    assert_eq!(errors.len(), 1);
    assert_eq!(errors[0].constraint_point, at(0, 3));
}

#[test]
fn flow_into_the_end_of_the_function_carries_the_ends_of_all_regions() {
    let graph = FuncGraph::new(two_regions(&[], &[])).unwrap();
    let env = Environment::new(&graph).unwrap();
    let mut infer = InferenceContext::new();
    let sup = infer.add_var(RegionName::new("'x"));
    let sub = infer.add_var(RegionName::new("'y"));
    // the end of 'a is the block 1; nothing follows its terminator
    infer.add_live_point(sub, at(1, 0));
    infer.add_live_point(sub, at(1, 1));
    infer.add_outlives(sup, sub, at(1, 0));
    assert!(infer.solve(&env).is_empty());
    assert_eq!(sorted(infer.region(sup).points()), vec![(1, 0), (1, 1), (2, 0)]);
}

#[test]
fn the_pipeline_is_deterministic() {
    let run = || {
        let graph = FuncGraph::new(mut_borrow_program()).unwrap();
        let env = Environment::new(&graph).unwrap();
        let out = region_check(&env).unwrap();
        let region = sorted(out.regionck.region(RegionName::new("'a")).unwrap().points());
        let errors: Vec<_> =
            out.borrow_errors.iter().map(|e| (e.kind, e.point, e.loan_point)).collect();
        (region, errors)
    };
    assert_eq!(run(), run());
}

#[test]
fn reported_errors_are_held_against_expected_ones() {
    let mut errors = ErrorReporting::new();
    errors.expect_error(at(0, 2), "cannot read");
    errors.report_error(at(0, 2), "point START/2 cannot read x".to_string());
    assert!(errors.reconcile_errors().is_ok());

    // an error that nobody expected
    let mut errors = ErrorReporting::new();
    errors.report_error(at(0, 2), "point START/2 cannot read x".to_string());
    let unexpected = errors.reconcile_errors().unwrap_err();
    assert_eq!(unexpected.point, at(0, 2));

    // the wrong text
    let mut errors = ErrorReporting::new();
    errors.expect_error(at(0, 2), "cannot write");
    errors.report_error(at(0, 2), "point START/2 cannot read x".to_string());
    assert_eq!(errors.reconcile_errors().unwrap_err().message, "point START/2 cannot read x");

    // an expectation that no error meets
    let mut errors = ErrorReporting::new();
    errors.expect_error(at(1, 0), "cannot read");
    let missing = errors.reconcile_errors().unwrap_err();
    assert_eq!(missing.point, at(1, 0));
    assert_eq!(missing.message, "no error reported on this point, but we expected one");
}

#[test]
fn text_search() {
    assert!(contains_text("capped variable `'a` exceeded its limits", "`'a`"));
    assert!(contains_text("abc", ""));
    assert!(contains_text("abc", "abc"));
    assert!(!contains_text("abc", "abcd"));
    assert!(!contains_text("abc", "ac"));
    assert!(contains_text("añb", "ñb"));
}

#[test]
fn free_region_holds_the_ends_of_what_it_outlives() {
    // 'a: 'b, in a function that never returns: no flow reaches the ends
    let mut f = two_regions(&["'b"], &[]);
    f.data = vec![block("START", vec![use_(var("x"))], &["START"])];
    let graph = FuncGraph::new(f).unwrap();
    let env = Environment::new(&graph).unwrap();
    assert_eq!(env.reverse_post_order, vec![0]);
    let out = region_check(&env).unwrap();
    let end_a = graph.skolemized_end(RegionName::new("'a")).unwrap().index;
    let end_b = graph.skolemized_end(RegionName::new("'b")).unwrap().index;
    let a = sorted(out.regionck.region(RegionName::new("'a")).unwrap().points());
    let b = sorted(out.regionck.region(RegionName::new("'b")).unwrap().points());
    assert_eq!(a, vec![(0, 0), (0, 1), (end_a, 0), (end_b, 0)]);
    assert_eq!(b, vec![(0, 0), (0, 1), (end_b, 0)]);
    assert!(out.inference_errors.is_empty());
}

#[test]
fn region_that_is_never_mentioned_has_no_value() {
    let graph = FuncGraph::new(shared_borrow_program()).unwrap();
    let env = Environment::new(&graph).unwrap();
    let out = region_check(&env).unwrap();
    assert!(out.regionck.region(RegionName::new("'a")).is_some());
    assert!(out.regionck.region(RegionName::new("'nowhere")).is_none());
}

#[test]
fn dominator_outline_lists_a_block_before_what_it_dominates() {
    let f = func(
        vec![],
        vec![
            block("START", vec![], &["B1", "B2"]),
            block("B1", vec![], &["JOIN"]),
            block("B2", vec![], &["JOIN"]),
            block("JOIN", vec![], &["TAIL"]),
            block("TAIL", vec![], &[]),
        ],
    );
    let graph = FuncGraph::new(f).unwrap();
    let env = Environment::new(&graph).unwrap();
    let lines: Vec<(usize, usize)> =
        env.dump_dominators().iter().map(|(depth, block)| (*depth, block.index)).collect();
    assert_eq!(lines, vec![(0, 0), (1, 1), (1, 2), (1, 3), (2, 4)]);
}

#[test]
fn names_are_compared_by_their_text() {
    assert!(Variable::new("x").same(Variable::new("x")));
    assert!(!Variable::new("x").same(Variable::new("y")));
    assert!(BasicBlock::start().same(BasicBlock::new("START")));
    assert!(!FieldName::star().same(FieldName::new("f")));
    assert!(FieldName::star().same(FieldName::new("*")));
}

#[test]
fn drop_ignores_what_lies_under_a_parameter_that_may_dangle() {
    // v: Outer<Inner<'a>>; the type parameter of Outer may dangle, the
    // region parameter of Inner may not
    let param = |kind, may_dangle| StructParameter { kind, variance: Variance::Co, may_dangle };
    let inner = StructDecl {
        name: StructName::new("Inner"),
        parameters: vec![param(Kind::Region, false)],
        fields: vec![],
    };
    let make_outer = |may_dangle| StructDecl {
        name: StructName::new("Outer"),
        parameters: vec![param(Kind::Type, may_dangle)],
        fields: vec![],
    };
    let inner_ty = Ty::Struct(
        StructName::new("Inner"),
        vec![TyParameter::Region(Region::Free(RegionName::new("'a")))],
    );
    let outer_ty = Ty::Struct(StructName::new("Outer"), vec![TyParameter::Ty(Box::new(inner_ty))]);
    let dropped = |may_dangle: bool| {
        let structs = vec![inner_stub(&inner), make_outer(may_dangle)];
        let mut buf: Vec<RegionName> = Vec::new();
        nll::liveness::drop_ty(&structs, &mut buf, &outer_ty).unwrap();
        buf.len()
    };
    assert_eq!(dropped(true), 0);
    assert_eq!(dropped(false), 1);
}

fn inner_stub(decl: &StructDecl) -> StructDecl {
    StructDecl {
        name: decl.name,
        parameters: decl
            .parameters
            .iter()
            .map(|p| StructParameter { kind: p.kind, variance: p.variance, may_dangle: p.may_dangle })
            .collect(),
        fields: vec![],
    }
}

#[test]
fn verdict_holds_the_errors_against_what_is_expected() {
    // no error, none expected
    let graph = FuncGraph::new(shared_borrow_program()).unwrap();
    let env = Environment::new(&graph).unwrap();
    let out = region_check(&env).unwrap();
    assert!(matches!(verdict(&env, &out, &vec![], &vec![]), Verdict::Passed));

    // an error that is not expected
    let graph = FuncGraph::new(mut_borrow_program()).unwrap();
    let env = Environment::new(&graph).unwrap();
    let out = region_check(&env).unwrap();
    let texts = vec![String::from("cannot read `x`")];
    let decided = verdict(&env, &out, &vec![], &texts);
    assert!(matches!(decided, Verdict::Unreconciled(_)));
    if let Verdict::Unreconciled(error) = decided {
        assert_eq!(error.point, at(0, 2));
        assert_eq!(error.message, "cannot read `x`");
    }

    // the same error, expected where it comes
    let mut program = mut_borrow_program();
    program.data[0].actions[2].should_have_error = Some(String::from("cannot read"));
    let graph = FuncGraph::new(program).unwrap();
    let env = Environment::new(&graph).unwrap();
    let out = region_check(&env).unwrap();
    assert!(matches!(verdict(&env, &out, &vec![], &texts), Verdict::Passed));

    // a failed assertion decides first
    let mut program = mut_borrow_program();
    program.assertions = vec![Assertion::NotIn(
        RegionName::new("'a"),
        NamedPoint { block: PointName::Code(BasicBlock::start()), action: 2 },
    )];
    let graph = FuncGraph::new(program).unwrap();
    let env = Environment::new(&graph).unwrap();
    let out = region_check(&env).unwrap();
    assert!(matches!(verdict(&env, &out, &vec![], &texts), Verdict::FailedAssertions(1)));
}

#[test]
fn second_declaration_of_a_region_makes_the_capped_region_grow() {
    // 'a is declared twice, the second time to outlive 'b; the function
    // never returns, so that no flow reaches the ends
    let region = |name: &str, outlives: &[&str]| RegionDecl {
        name: RegionName::new(name),
        outlives: outlives.iter().map(|r| RegionName::new(r)).collect(),
    };
    let f = Func {
        decls: vec![decl("x", Ty::Unit)],
        structs: vec![],
        regions: vec![region("'a", &[]), region("'a", &["'b"]), region("'b", &[])],
        data: vec![block("START", vec![use_(var("x"))], &["START"])],
        assertions: vec![],
    };
    let graph = FuncGraph::new(f).unwrap();
    let env = Environment::new(&graph).unwrap();
    let out = region_check(&env).unwrap();
    let end_b = graph.skolemized_end(RegionName::new("'b")).unwrap().index;
    assert_eq!(out.inference_errors.len(), 1);
    assert_eq!(out.inference_errors[0].constraint_point, at(end_b, 0));
    assert!(out.inference_errors[0].name.same(RegionName::new("'a")));
}

#[test]
fn region_hands_its_points_out_in_ascending_order() {
    let mut region = nll::region::Region::new();
    for (block, action) in [(2, 0), (0, 3), (1, 1), (0, 1), (2, 0)] {
        region.add_point(at(block, action));
    }
    let listed: Vec<(usize, usize)> =
        region.points().iter().map(|p| (p.block.index, p.action)).collect();
    assert_eq!(listed, vec![(0, 1), (0, 3), (1, 1), (2, 0)]);
}
