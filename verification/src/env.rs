//! The environment of the analysis: the graph of the function with its
//! orders and trees, program points, and the types of variables and paths.

use crate::bit_set::{fits, words_for};
use crate::dominators::{
    covers, dominators_given_rpo, lemma_reverse_post_order_is_entry_order, settled_on, tree_outline, DominatorTree,
    Dominators,
};
use crate::errors::StructuralError;
use crate::func_graph::{BasicBlockIndex, FuncGraph};
use crate::graph::{reaches, Graph};
use crate::iterate::{dfs_post_order, is_post_order, node_set, reaches_avoiding, reverse_post_order};
use crate::loop_tree::model::loop_tree_of;
use crate::loop_tree::{dominators_of, loop_tree_given, LoopTree};
use crate::dominance::complete_on;
use crate::reachable::{links_to, reachable_given_rpo, Reachability};
use crate::repr::{
    boxed_ty_result, field_index, models_of, param_models, subst_ty, BorrowKind, FieldName, Path,
    StructDecl, StructName, Ty, TyModel, Variable, VariableDecl,
};
use vstd::prelude::*;

verus! {

/// A program point: a block and the index of an action in it. The index
/// that is the number of actions of the block stands for its terminator.
#[derive(Copy, Clone, Debug, PartialEq, Eq, Hash, Structural)]
pub struct Point {
    pub block: BasicBlockIndex,
    pub action: usize,
}

/// Index of the last of the first `upto` declarations that declares `v`.
pub open spec fn last_decl(decls: Seq<VariableDecl>, v: Variable, upto: int) -> Option<int>
    decreases upto,
{
    if upto <= 0 || upto > decls.len() {
        None
    } else if decls[upto - 1].var == v {
        Some(upto - 1)
    } else {
        last_decl(decls, v, upto - 1)
    }
}

/// Index of the last of the first `upto` structures that bears the name
/// `name`.
pub open spec fn last_struct(structs: Seq<StructDecl>, name: StructName, upto: int) -> Option<int>
    decreases upto,
{
    if upto <= 0 || upto > structs.len() {
        None
    } else if structs[upto - 1].name == name {
        Some(upto - 1)
    } else {
        last_struct(structs, name, upto - 1)
    }
}

/// The declaration found for a variable is one of the first `upto` and
/// declares that variable.
pub proof fn lemma_last_decl_bound(decls: Seq<VariableDecl>, v: Variable, upto: int)
    ensures
        last_decl(decls, v, upto) matches Some(i) ==> 0 <= i < upto && i < decls.len() && decls[i].var == v,
    decreases upto,
{
    if !(upto <= 0 || upto > decls.len()) && decls[upto - 1].var != v {
        lemma_last_decl_bound(decls, v, upto - 1);
    }
}

/// The declaration found for a structure is one of the first `upto` and
/// declares that structure.
pub proof fn lemma_last_struct_bound(structs: Seq<StructDecl>, name: StructName, upto: int)
    ensures
        last_struct(structs, name, upto) matches Some(i) ==> 0 <= i < upto && i < structs.len()
            && structs[i].name == name,
    decreases upto,
{
    if !(upto <= 0 || upto > structs.len()) && structs[upto - 1].name != name {
        lemma_last_struct_bound(structs, name, upto - 1);
    }
}

/// The last declaration of `v`.
pub fn find_decl(decls: &Vec<VariableDecl>, v: Variable) -> (r: Option<usize>)
    ensures
        match r {
            Some(i) => last_decl(decls@, v, decls@.len() as int) == Some(i as int) && i < decls.len(),
            None => last_decl(decls@, v, decls@.len() as int) is None,
        },
{
    let mut i: usize = decls.len();
    while i > 0
        invariant
            i <= decls.len(),
            last_decl(decls@, v, decls@.len() as int) == last_decl(decls@, v, i as int),
        decreases i,
    {
        i -= 1;
        if decls[i].var.same(v) {
            return Some(i);
        }
    }
    None
}

/// The last structure that bears the name `name`.
pub fn find_struct(structs: &Vec<StructDecl>, name: StructName) -> (r: Option<usize>)
    ensures
        match r {
            Some(i) => last_struct(structs@, name, structs@.len() as int) == Some(i as int) && i
                < structs.len(),
            None => last_struct(structs@, name, structs@.len() as int) is None,
        },
{
    let mut i: usize = structs.len();
    while i > 0
        invariant
            i <= structs.len(),
            last_struct(structs@, name, structs@.len() as int) == last_struct(structs@, name, i as int),
        decreases i,
    {
        i -= 1;
        if structs[i].name.same(name) {
            return Some(i);
        }
    }
    None
}

/// The declared type of `v`.
pub open spec fn ty_of_var(decls: Seq<VariableDecl>, v: Variable) -> Result<TyModel, StructuralError> {
    match last_decl(decls, v, decls.len() as int) {
        Some(i) => Ok(decls[i].ty@),
        None => Err(StructuralError::UndeclaredVariable),
    }
}

/// The type of the field `f` of a value of type `base`: the referent for
/// `star` on a reference, the declared type under the parameters for a
/// field of a structure.
pub open spec fn ty_of_field(structs: Seq<StructDecl>, star: FieldName, base: TyModel, f: FieldName) -> Result<
    TyModel,
    StructuralError,
> {
    match base {
        TyModel::Ref(_, _, t) => if f == star {
            Ok(*t)
        } else {
            Err(StructuralError::TypeMismatch)
        },
        TyModel::Unit => Err(StructuralError::TypeMismatch),
        TyModel::Struct(n, params) => match last_struct(structs, n, structs.len() as int) {
            None => Err(StructuralError::UndeclaredStruct),
            Some(s) => match field_index(structs[s].fields@, f, structs[s].fields@.len() as int) {
                None => Err(StructuralError::UndeclaredField),
                Some(i) => subst_ty(structs[s].fields@[i].ty@, params),
            },
        },
        TyModel::Bound(_) => Err(StructuralError::UnexpectedBound),
    }
}

/// The type of what `path` names.
pub open spec fn ty_of_path(
    decls: Seq<VariableDecl>,
    structs: Seq<StructDecl>,
    star: FieldName,
    path: Path,
) -> Result<TyModel, StructuralError>
    decreases path,
{
    match path {
        Path::Var(v) => ty_of_var(decls, v),
        Path::Extension(base, f) => match ty_of_path(decls, structs, star, *base) {
            Err(e) => Err(e),
            Ok(t) => ty_of_field(structs, star, t, f),
        },
    }
}

/// The prefixes of `path` that must stay valid for `path` to stay valid,
/// the longest first: all of them up to the first dereference of a shared
/// reference.
pub open spec fn supports(
    decls: Seq<VariableDecl>,
    structs: Seq<StructDecl>,
    star: FieldName,
    path: Path,
) -> Result<Seq<Path>, StructuralError>
    decreases path,
{
    match path {
        Path::Var(_) => Ok(seq![path]),
        Path::Extension(base, f) => match ty_of_path(decls, structs, star, *base) {
            Err(e) => Err(e),
            Ok(TyModel::Ref(_, BorrowKind::Shared, _)) => if f == star {
                Ok(seq![path])
            } else {
                Err(StructuralError::TypeMismatch)
            },
            Ok(TyModel::Ref(_, BorrowKind::Mut, _)) => match supports(decls, structs, star, *base) {
                Err(e) => Err(e),
                Ok(rest) => Ok(seq![path] + rest),
            },
            Ok(TyModel::Struct(_, _)) => match supports(decls, structs, star, *base) {
                Err(e) => Err(e),
                Ok(rest) => Ok(seq![path] + rest),
            },
            Ok(TyModel::Unit) => Err(StructuralError::TypeMismatch),
            Ok(TyModel::Bound(_)) => Err(StructuralError::UnexpectedBound),
        },
    }
}

/// The lines of an outline, with the blocks that the nodes stand for.
pub open spec fn with_blocks(lines: Seq<(usize, usize)>) -> Seq<(usize, BasicBlockIndex)> {
    Seq::new(lines.len(), |k: int| (lines[k].0, BasicBlockIndex { index: lines[k].1 }))
}

/// The graph of a function with what the analysis needs of it: the
/// reverse post-order, dominators, reachability and the loop tree.
pub struct Environment<'func> {
    pub graph: &'func FuncGraph,
    pub dominators: Dominators<FuncGraph>,
    pub dominator_tree: DominatorTree<FuncGraph>,
    pub reachable: Reachability<FuncGraph>,
    pub loop_tree: LoopTree<FuncGraph>,
    pub reverse_post_order: Vec<usize>,
    /// The field name that stands for a dereference.
    pub star: FieldName,
}

impl<'func> Environment<'func> {
    pub open spec fn wf(&self) -> bool {
        &&& self.graph.wf()
        &&& self.reverse_post_order@ == dfs_post_order(self.graph, self.graph.entry() as int, None).reverse()
        &&& self.reverse_post_order@.len() > 0
        &&& is_post_order(
            self.graph,
            self.graph.entry() as int,
            None,
            self.reverse_post_order@.reverse(),
        )
        &&& forall|i: int|
            0 <= i < self.reverse_post_order@.len() ==> #[trigger] self.reverse_post_order@[i]
                < self.graph.node_count()
        &&& self.dominators.wf()
        &&& self.dominators.node_count() == self.graph.node_count()
        &&& self.dominators.root() == self.graph.entry()
        &&& forall|n: int|
            0 <= n < self.graph.node_count() ==> (self.dominators.reachable(n)
                <==> self.reverse_post_order@.contains(n as usize))
        &&& complete_on(self.graph, self.dominators.ranks(), self.dominators.idoms(), self.dominators.root())
        &&& self.dominators.settled() ==> settled_on(
            self.graph,
            self.dominators.ranks(),
            self.dominators.idoms(),
            self.dominators.root(),
        )
        &&& self.dominator_tree.root_node() == self.dominators.root()
        &&& self.dominator_tree.lists() == self.dominators.tree_lists()
        &&& self.reachable.wf()
        &&& self.reachable.node_count() == self.graph.node_count()
        &&& forall|a: int, b: int|
            0 <= a < self.graph.node_count() && 0 <= b < self.graph.node_count() ==> (
            #[trigger] self.reachable.can(a, b) <==> links_to(self.graph, self.reverse_post_order@, a, b))
        &&& self.loop_tree.wf()
        &&& self.loop_tree.nodes() == self.graph.node_count()
        &&& self.loop_tree.holds_of(self.graph)
        &&& self.loop_tree.exits_hold(self.graph)
        &&& dominators_of(self.graph, &self.dominators)
        &&& loop_tree_of(self.graph, &self.dominators) == Some(self.loop_tree.model())
        &&& self.loop_tree.nested_by(&self.dominators)
        &&& self.loop_tree.heads_reached(self.graph)
    }

    /// The outline of the tree of immediate dominators: every block with
    /// its depth in the tree, a block before the blocks that it dominates
    /// immediately, those in rising order.
    pub fn dump_dominators(&self) -> (r: Vec<(usize, BasicBlockIndex)>)
        requires
            self.wf(),
        ensures
            r@ == with_blocks(
                tree_outline(
                    self.dominators.tree_lists(),
                    self.dominators.root(),
                    0,
                    self.dominators.node_count(),
                ),
            ),
    {
        let tree = self.dominators.dominator_tree();
        let outline = tree.outline();
        let mut out: Vec<(usize, BasicBlockIndex)> = Vec::new();
        let mut i: usize = 0;
        while i < outline.len()
            invariant
                i <= outline.len(),
                out@ == with_blocks(outline@.take(i as int)),
            decreases outline.len() - i,
        {
            let (depth, node) = outline[i];
            out.push((depth, BasicBlockIndex { index: node }));
            proof {
                assert(out@ =~= with_blocks(outline@.take(i + 1)));
            }
            i += 1;
        }
        proof {
            assert(outline@.take(outline@.len() as int) =~= outline@);
        }
        out
    }

    /// The variable declarations of the function.
    pub open spec fn decls(&self) -> Seq<VariableDecl> {
        self.graph.func().decls@
    }

    /// The structure declarations of the function.
    pub open spec fn structs(&self) -> Seq<StructDecl> {
        self.graph.func().structs@
    }

    /// `p` is a point of the graph.
    pub open spec fn is_point(&self, p: Point) -> bool {
        &&& p.block.index < self.graph.node_count()
        &&& p.action <= self.graph.actions_of(p.block.index as int).len()
    }

    /// The terminator of block `b`.
    pub open spec fn end_of(&self, b: int) -> Point {
        Point {
            block: BasicBlockIndex { index: b as usize },
            action: self.graph.actions_of(b).len() as usize,
        }
    }

    /// The points that control moves to from `p`: the next point of the
    /// block, or from the terminator the first points of the successors.
    pub open spec fn next_points(&self, p: Point) -> Seq<Point> {
        if p.action < self.graph.actions_of(p.block.index as int).len() {
            seq![Point { block: p.block, action: (p.action + 1) as usize }]
        } else {
            Seq::new(
                self.graph.succs(p.block.index as int).len(),
                |i: int|
                    Point {
                        block: BasicBlockIndex { index: self.graph.succs(p.block.index as int)[i] },
                        action: 0,
                    },
            )
        }
    }

    /// A block without actions ends where it starts.
    pub proof fn lemma_empty_block(&self, b: int)
        requires
            0 <= b <= usize::MAX,
            self.graph.actions_of(b).len() == 0,
        ensures
            self.end_of(b) == (Point { block: BasicBlockIndex { index: b as usize }, action: 0 }),
    {
    }

    /// `r` is what building the environment of `graph` with the
    /// dereference named `star` gives.
    pub open spec fn answers(
        r: Result<Self, StructuralError>,
        graph: &'func FuncGraph,
        star: FieldName,
    ) -> bool {
        match r {
            Ok(env) => {
                &&& env.wf()
                &&& env.graph == graph
                &&& env.star == star
                &&& fits_matrix(graph)
            },
            Err(e) => if !fits_matrix(graph) {
                e == StructuralError::TooLarge
            } else {
                e == StructuralError::Irreducible && exists|d: Dominators<FuncGraph>|
                    dominators_of(graph, &d) && #[trigger] loop_tree_of(graph, &d) is None
            },
        }
    }

    /// The environment of `graph`, with `*` for the dereference: what
    /// `with_star` gives for the symbol that the interner hands out for
    /// that name.
    pub fn new(graph: &'func FuncGraph) -> (r: Result<Self, StructuralError>)
        requires
            graph.wf(),
        ensures
            exists|star: FieldName| #[trigger] Self::answers(r, graph, star),
    {
        let star = FieldName::star();
        let r = Self::with_star(graph, star);
        assert(Self::answers(r, graph, star));
        r
    }

    /// The environment of `graph`, with the dereference named `star`.
    /// `TooLarge` where the bit matrix of reachability cannot be counted
    /// in a `usize`; else `Irreducible` where the graph, held against its
    /// dominators, has no loop tree; else the environment.
    pub fn with_star(graph: &'func FuncGraph, star: FieldName) -> (r: Result<Self, StructuralError>)
        requires
            graph.wf(),
        ensures
            Self::answers(r, graph, star),
    {
        let num_nodes = graph.num_nodes();
        if !fits(num_nodes, num_nodes) {
            return Err(StructuralError::TooLarge);
        }
        let rpo = reverse_post_order(graph, graph.start_node());
        proof {
            lemma_reverse_post_order_is_entry_order(graph, rpo@);
            let po = rpo@.reverse();
            assert forall|j: int| 0 <= j < rpo@.len() implies #[trigger] rpo@[j] < graph.node_count() by {
                assert(po[rpo@.len() - 1 - j] == rpo@[j]);
            }
        }
        let dominators = dominators_given_rpo(graph, rpo.as_slice());
        let dominator_tree = dominators.dominator_tree();
        let reachable = reachable_given_rpo(graph, rpo.as_slice());
        proof {
            let po = rpo@.reverse();
            graph.lemma_edges();
            assert forall|n: int|
                0 <= n < graph.node_count() && reaches(graph, graph.entry() as int, n) implies dominators.reachable(
                n,
            ) by {
                assert(reaches_avoiding(graph, graph.entry() as int, n, None));
                assert(node_set(po).contains(n));
                let i = choose|i: int| 0 <= i < po.len() && po[i] == n;
                assert(rpo@[rpo@.len() - 1 - i] == n as usize);
            }
        }
        proof {
            let po = rpo@.reverse();
            assert(covers(graph, rpo@)) by {
                assert forall|n: int|
                    0 <= n < graph.node_count() && reaches(graph, graph.entry() as int, n) implies rpo@.contains(
                    n as usize,
                ) by {
                    assert(dominators.reachable(n));
                }
            }
            assert forall|n: int| 0 <= n < graph.node_count() && dominators.reachable(n) implies reaches(
                graph,
                graph.entry() as int,
                n,
            ) by {
                assert(rpo@.contains(n as usize));
                let i = choose|i: int| 0 <= i < rpo@.len() && rpo@[i] == n as usize;
                assert(po[rpo@.len() - 1 - i] == n as usize);
                assert(node_set(po).contains(n));
                assert(reaches_avoiding(graph, graph.entry() as int, n, None));
                let w = choose|walk: Seq<int>|
                    crate::graph::is_walk(graph, walk) && walk[0] == graph.entry() as int && walk.last() == n
                        && crate::iterate::walk_avoids(walk, None);
                assert(crate::graph::is_walk(graph, w) && w[0] == graph.entry() as int && w.last() == n);
            }
            assert(dominators_of(graph, &dominators));
        }
        let loop_tree = match loop_tree_given(graph, &dominators) {
            None => {
                proof {
                    assert(loop_tree_of(graph, &dominators) is None);
                }
                return Err(StructuralError::Irreducible);
            },
            Some(t) => t,
        };
        Ok(
            Environment {
                graph,
                dominators,
                dominator_tree,
                reachable,
                loop_tree,
                reverse_post_order: rpo,
                star,
            },
        )
    }

    pub fn start_point(&self, block: BasicBlockIndex) -> (p: Point)
        ensures
            p == (Point { block, action: 0 }),
    {
        Point { block, action: 0 }
    }

    pub fn end_point(&self, block: BasicBlockIndex) -> (p: Point)
        requires
            self.wf(),
            block.index < self.graph.node_count(),
        ensures
            p == self.end_of(block.index as int),
            p.block == block,
            p.action == self.graph.actions_of(block.index as int).len(),
            self.is_point(p),
    {
        let actions = self.graph.block_data(block).actions().len();
        Point { block, action: actions }
    }

    pub fn successor_points(&self, p: Point) -> (r: Vec<Point>)
        requires
            self.wf(),
            self.is_point(p),
        ensures
            r@ == self.next_points(p),
            forall|i: int| 0 <= i < r@.len() ==> self.is_point(#[trigger] r@[i]),
    {
        let end_point = self.end_point(p.block);
        if p.action != end_point.action {
            let mut out: Vec<Point> = Vec::new();
            out.push(Point { block: p.block, action: p.action + 1 });
            assert(out@ =~= self.next_points(p));
            out
        } else {
            let successors = self.graph.successors(p.block.index);
            let mut out: Vec<Point> = Vec::new();
            let mut i: usize = 0;
            while i < successors.len()
                invariant
                    i <= successors.len(),
                    successors@ == self.graph.succs(p.block.index as int),
                    forall|k: int| 0 <= k < successors.len() ==> successors[k] < self.graph.node_count(),
                    out.len() == i,
                    forall|k: int|
                        0 <= k < i ==> out[k] == (Point {
                            block: BasicBlockIndex { index: successors[k] },
                            action: 0,
                        }),
                decreases successors.len() - i,
            {
                out.push(self.start_point(BasicBlockIndex { index: successors[i] }));
                i += 1;
            }
            assert(out@ =~= self.next_points(p));
            out
        }
    }

    /// The declared type of `v`.
    pub fn var_ty(&self, v: Variable) -> (r: Result<Box<Ty>, StructuralError>)
        ensures
            boxed_ty_result(r) == ty_of_var(self.decls(), v),
    {
        let decls = self.graph.decls();
        match find_decl(decls, v) {
            Some(i) => Ok(Box::new(decls[i].ty.dup())),
            None => Err(StructuralError::UndeclaredVariable),
        }
    }

    /// The type of what `path` names.
    pub fn path_ty(&self, path: &Path) -> (r: Result<Box<Ty>, StructuralError>)
        ensures
            boxed_ty_result(r) == ty_of_path(self.decls(), self.structs(), self.star, *path),
        decreases path,
    {
        match path {
            Path::Var(v) => self.var_ty(*v),
            Path::Extension(base, field_name) => {
                match self.path_ty(base) {
                    Err(e) => Err(e),
                    Ok(base_ty) => self.field_ty(&base_ty, *field_name),
                }
            },
        }
    }

    /// The type of the field `field_name` of a value of type `base_ty`.
    pub fn field_ty(&self, base_ty: &Ty, field_name: FieldName) -> (r: Result<Box<Ty>, StructuralError>)
        ensures
            boxed_ty_result(r) == ty_of_field(self.structs(), self.star, base_ty@, field_name),
    {
        match base_ty {
            Ty::Ref(_, _, t) => {
                if field_name.same(self.star) {
                    Ok(Box::new(t.dup()))
                } else {
                    Err(StructuralError::TypeMismatch)
                }
            },
            Ty::Unit => Err(StructuralError::TypeMismatch),
            Ty::Struct(n, parameters) => {
                let structs = self.graph.struct_decls();
                match find_struct(structs, *n) {
                    None => Err(StructuralError::UndeclaredStruct),
                    Some(s) => {
                        match structs[s].field_decl(&field_name) {
                            None => Err(StructuralError::UndeclaredField),
                            Some(field_decl) => {
                                proof {
                                    assert(models_of(parameters@) =~= param_models(*parameters));
                                }
                                match field_decl.ty.subst(parameters.as_slice()) {
                                    Err(e) => Err(e),
                                    Ok(t) => Ok(Box::new(t)),
                                }
                            },
                        }
                    },
                }
            },
            Ty::Bound(_) => Err(StructuralError::UnexpectedBound),
        }
    }

    /// The **supporting prefixes** of a path are all the prefixes of a path
    /// that must remain valid for the path itself to remain valid. For the
    /// most part, this means all prefixes, except that recursion stops when
    /// dereferencing a shared reference.
    ///
    /// - the supporting prefixes of `s.f` where `s` is a struct are `s.f`
    ///   and `s`.
    /// - the supporting prefixes of `(*r).f` where `r` is a shared reference
    ///   are `(*r).f` and `*r`, but not `r`: one could always copy `*r` into
    ///   a temporary `t` and reach the data through `*t`.
    /// - the supporting prefixes of `(*m).f` where `m` is a **mutable**
    ///   reference are `(*m).f`, `*m`, and `m`.
    pub fn supporting_prefixes<'a>(&self, path: &'a Path) -> (r: Result<Vec<&'a Path>, StructuralError>)
        ensures
            match r {
                Ok(v) => supports(self.decls(), self.structs(), self.star, *path) matches Ok(s)
                    && v@.len() == s.len() && forall|i: int| 0 <= i < v@.len() ==> *v@[i] == s[i],
                Err(e) => supports(self.decls(), self.structs(), self.star, *path) == Err::<
                    Seq<Path>,
                    StructuralError,
                >(e),
            },
    {
        let ghost whole = *path;
        let mut current = path;
        let mut result: Vec<&'a Path> = Vec::new();
        let ghost mut found: Seq<Path> = Seq::empty();
        loop
            invariant
                whole == *path,
                found.len() == result@.len(),
                forall|i: int| 0 <= i < result@.len() ==> *result@[i] == found[i],
                supports(self.decls(), self.structs(), self.star, whole) == match supports(
                    self.decls(),
                    self.structs(),
                    self.star,
                    *current,
                ) {
                    Ok(rest) => Ok::<Seq<Path>, StructuralError>(found + rest),
                    Err(e) => Err(e),
                },
            decreases current,
        {
            result.push(current);
            let ghost before = found;
            proof {
                found = found.push(*current);
            }
            match current {
                Path::Var(_) => {
                    proof {
                        assert(before + seq![*current] =~= found);
                        assert(supports(self.decls(), self.structs(), self.star, *current) == Ok::<
                            Seq<Path>,
                            StructuralError,
                        >(seq![*current]));
                        assert(supports(self.decls(), self.structs(), self.star, whole) == Ok::<
                            Seq<Path>,
                            StructuralError,
                        >(found));
                    }
                    return Ok(result);
                },
                Path::Extension(base_path, field_name) => {
                    match self.path_ty(base_path) {
                        Err(e) => {
                            proof {
                                assert(supports(self.decls(), self.structs(), self.star, *current) == Err::<
                                    Seq<Path>,
                                    StructuralError,
                                >(e));
                            }
                            return Err(e);
                        },
                        Ok(ty) => {
                            match *ty {
                                Ty::Ref(_, BorrowKind::Shared, _) => {
                                    if field_name.same(self.star) {
                                        proof {
                                            assert(before + seq![*current] =~= found);
                                            assert(supports(
                                                self.decls(),
                                                self.structs(),
                                                self.star,
                                                *current,
                                            ) == Ok::<Seq<Path>, StructuralError>(seq![*current]));
                                            assert(supports(
                                                self.decls(),
                                                self.structs(),
                                                self.star,
                                                whole,
                                            ) == Ok::<Seq<Path>, StructuralError>(found));
                                        }
                                        return Ok(result);
                                    } else {
                                        proof {
                                            assert(supports(
                                                self.decls(),
                                                self.structs(),
                                                self.star,
                                                *current,
                                            ) == Err::<Seq<Path>, StructuralError>(
                                                StructuralError::TypeMismatch,
                                            ));
                                        }
                                        return Err(StructuralError::TypeMismatch);
                                    }
                                },
                                Ty::Ref(_, BorrowKind::Mut, _) => {
                                    proof {
                                        let rest = supports(self.decls(), self.structs(), self.star, **base_path);
                                        if rest is Ok {
                                            assert(before + (seq![*current] + rest->Ok_0) =~= found + rest->Ok_0);
                                        }
                                    }
                                    current = base_path;
                                },
                                Ty::Struct(..) => {
                                    proof {
                                        let rest = supports(self.decls(), self.structs(), self.star, **base_path);
                                        if rest is Ok {
                                            assert(before + (seq![*current] + rest->Ok_0) =~= found + rest->Ok_0);
                                        }
                                    }
                                    current = base_path;
                                },
                                Ty::Unit => {
                                    return Err(StructuralError::TypeMismatch);
                                },
                                Ty::Bound(..) => {
                                    return Err(StructuralError::UnexpectedBound);
                                },
                            }
                        },
                    }
                },
            }
        }
    }
}

/// The bit matrix of reachability among the blocks of `graph` can be
/// counted in a `usize`.
pub open spec fn fits_matrix(graph: &FuncGraph) -> bool {
    graph.node_count() * words_for(graph.node_count()) <= usize::MAX
}

} // verus!
