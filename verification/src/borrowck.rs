//! The borrow check: every action is an access to a path, and an access
//! conflicts with the loans in scope that it would invalidate.

use crate::bit_set::BitBuf;
use crate::env::{
    find_struct, last_struct, supports, ty_of_path, Environment, Point,
};
use crate::errors::StructuralError;
use crate::liveness::buf_set;

use crate::loans_in_scope::{
    loan_models,
    scope_fact_ok,
    scopes_view,
    walk_scopes,
    Loan,
    LoanModel,
    LoansInScope,
};
use crate::repr::{
    field_index, is_prefix_of, Action, ActionKind, BorrowKind, FieldName, Path, Region, StructDecl,
    Ty, TyModel, Variable, VariableDecl,
};
use vstd::prelude::*;

verus! {

/// The paths whose overwriting, or whose storage going away, would
/// invalidate a reference to `path`: `path` and its prefixes up to the first
/// dereference, for a write to `r` does not touch `*r`.
pub open spec fn frozen_by(
    decls: Seq<VariableDecl>,
    structs: Seq<StructDecl>,
    star: FieldName,
    path: Path,
) -> Result<Seq<Path>, StructuralError>
    decreases path,
{
    match path {
        Path::Var(_) => Ok(seq![path]),
        Path::Extension(base, f) => match ty_of_path(decls, structs, star, *base) {
            Err(e) => Err(e),
            Ok(TyModel::Ref(..)) => if f == star {
                Ok(seq![path])
            } else {
                Err(StructuralError::TypeMismatch)
            },
            Ok(TyModel::Struct(..)) => match frozen_by(decls, structs, star, *base) {
                Err(e) => Err(e),
                Ok(rest) => Ok(seq![path] + rest),
            },
            Ok(TyModel::Unit) => Err(StructuralError::TypeMismatch),
            Ok(TyModel::Bound(_)) => Err(StructuralError::UnexpectedBound),
        },
    }
}

/// A loan of `loan_path` intersects `path`: the loan path is a prefix of
/// `path`, or `path` is a supporting prefix of the loan path.
pub open spec fn intersects(env: &Environment, loan_path: Path, path: Path) -> Result<bool, StructuralError> {
    if is_prefix_of(loan_path, path) {
        Ok(true)
    } else {
        match supports(env.decls(), env.structs(), env.star, loan_path) {
            Err(e) => Err(e),
            Ok(s) => Ok(s.contains(path)),
        }
    }
}

/// A loan of `loan_path` freezes `path`: `path` is among the paths frozen by
/// a borrow of the loan path, or the loan path is a prefix of `path`.
pub open spec fn freezes(env: &Environment, loan_path: Path, path: Path) -> Result<bool, StructuralError> {
    match frozen_by(env.decls(), env.structs(), env.star, loan_path) {
        Err(e) => Err(e),
        Ok(s) => Ok(s.contains(path) || is_prefix_of(loan_path, path)),
    }
}

/// The prefix `loc` of `path` whose dereference lies nearest above `root`;
/// `None` where `path` does not extend `root` or no dereference lies
/// between them.
pub open spec fn deref_nearest(star: FieldName, path: Path, root: Path, found: Option<Path>) -> Option<Path>
    decreases path,
{
    if path == root {
        found
    } else {
        match path {
            Path::Extension(p, f) => deref_nearest(
                star,
                *p,
                root,
                if f == star {
                    Some(*p)
                } else {
                    found
                },
            ),
            Path::Var(_) => None,
        }
    }
}

/// Whether the destructors of the structures from `root` down to `b` all
/// leave alone what lies behind `b`: every field on the way has a structure
/// type, or a reference or parameter type whose parameter may dangle.
pub open spec fn allows_dangling(env: &Environment, b: Path, root: Path) -> Result<bool, StructuralError>
    decreases b,
{
    match b {
        Path::Var(_) => if b == root {
            Ok(true)
        } else {
            Err(StructuralError::TypeMismatch)
        },
        Path::Extension(p, f) => if f == env.star {
            Err(StructuralError::TypeMismatch)
        } else {
            match ty_of_path(env.decls(), env.structs(), env.star, *p) {
                Err(e) => Err(e),
                Ok(TyModel::Struct(name, _)) => match last_struct(
                    env.structs(),
                    name,
                    env.structs().len() as int,
                ) {
                    None => Err(StructuralError::UndeclaredStruct),
                    Some(s) => {
                        let decl = env.structs()[s];
                        match field_index(decl.fields@, f, decl.fields@.len() as int) {
                            None => Err(StructuralError::UndeclaredField),
                            Some(i) => match field_allows(decl, decl.fields@[i].ty@) {
                                Err(e) => Err(e),
                                Ok(false) => Ok(false),
                                Ok(true) => if b == root {
                                    Ok(true)
                                } else {
                                    allows_dangling(env, *p, root)
                                },
                            },
                        }
                    },
                },
                Ok(_) => Err(StructuralError::TypeMismatch),
            }
        },
    }
}

/// Whether the destructor of the structure `decl` leaves alone what lies
/// behind a field of the declared type `ty`.
pub open spec fn field_allows(decl: StructDecl, ty: TyModel) -> Result<bool, StructuralError> {
    match ty {
        TyModel::Ref(Region::Free(_), _, _) => Ok(false),
        TyModel::Ref(Region::Bound(idx), _, _) => if idx < decl.parameters@.len() {
            Ok(decl.parameters@[idx as int].may_dangle)
        } else {
            Err(StructuralError::UnexpectedBound)
        },
        TyModel::Unit => Err(StructuralError::TypeMismatch),
        TyModel::Struct(..) => Ok(true),
        TyModel::Bound(idx) => if idx < decl.parameters@.len() {
            Ok(decl.parameters@[idx as int].may_dangle)
        } else {
            Err(StructuralError::UnexpectedBound)
        },
    }
}

/// A borrow of `path` can remain valid across a drop of `root`: `path`
/// reaches below a dereference above `root`, and the destructors from
/// `root` down to the nearest such dereference leave alone what lies behind
/// it.
pub open spec fn may_dangle(env: &Environment, path: Path, root: Path) -> Result<bool, StructuralError> {
    match deref_nearest(env.star, path, root, None) {
        None => Ok(false),
        Some(loc) => allows_dangling(env, loc, root),
    }
}

/// Whether the list of references holds `path`.
fn holds(list: &Vec<&Path>, path: &Path) -> (r: bool)
    ensures
        r == exists|i: int| 0 <= i < list@.len() && *#[trigger] list@[i] == *path,
{
    let mut i: usize = 0;
    while i < list.len()
        invariant
            i <= list.len(),
            forall|k: int| 0 <= k < i ==> *#[trigger] list@[k] != *path,
        decreases list.len() - i,
    {
        if list[i].same(path) {
            return true;
        }
        i += 1;
    }
    false
}

/// If `path` is borrowed, returns a vector of paths which, if moved or if
/// the storage went away, would invalidate this reference.
pub fn frozen_by_borrow_of<'a>(env: &Environment, path: &'a Path) -> (r: Result<Vec<&'a Path>, StructuralError>)
    ensures
        match r {
            Ok(v) => frozen_by(env.decls(), env.structs(), env.star, *path) matches Ok(s) && v@.len()
                == s.len() && forall|i: int| 0 <= i < v@.len() ==> *v@[i] == s[i],
            Err(e) => frozen_by(env.decls(), env.structs(), env.star, *path) == Err::<
                Seq<Path>,
                StructuralError,
            >(e),
        },
{
    let ghost whole = *path;
    let mut current = path;
    let mut result: Vec<&'a Path> = Vec::new();
    let ghost mut found: Seq<Path> = Seq::empty();
    loop
        invariant
            whole == *path,
            found.len() == result@.len(),
            forall|i: int| 0 <= i < result@.len() ==> *result@[i] == found[i],
            frozen_by(env.decls(), env.structs(), env.star, whole) == match frozen_by(
                env.decls(),
                env.structs(),
                env.star,
                *current,
            ) {
                Ok(rest) => Ok::<Seq<Path>, StructuralError>(found + rest),
                Err(e) => Err(e),
            },
        decreases current,
    {
        result.push(current);
        let ghost before = found;
        proof {
            found = found.push(*current);
        }
        match current {
            Path::Var(_) => {
                proof {
                    assert(before + seq![*current] =~= found);
                    assert(frozen_by(env.decls(), env.structs(), env.star, *current) == Ok::<
                        Seq<Path>,
                        StructuralError,
                    >(seq![*current]));
                }
                return Ok(result);
            },
            Path::Extension(base_path, field_name) => {
                match env.path_ty(base_path) {
                    Err(e) => {
                        proof {
                            assert(frozen_by(env.decls(), env.structs(), env.star, *current) == Err::<
                                Seq<Path>,
                                StructuralError,
                            >(e));
                        }
                        return Err(e);
                    },
                    Ok(ty) => {
                        match *ty {
                            // If you borrowed `*r`, writing to `r` does not
                            // actually affect the memory at `*r`, so we can
                            // stop iterating backwards now.
                            Ty::Ref(..) => {
                                if field_name.same(env.star) {
                                    proof {
                                        assert(before + seq![*current] =~= found);
                                        assert(frozen_by(env.decls(), env.structs(), env.star, *current)
                                            == Ok::<Seq<Path>, StructuralError>(seq![*current]));
                                    }
                                    return Ok(result);
                                } else {
                                    proof {
                                        assert(frozen_by(env.decls(), env.structs(), env.star, *current)
                                            == Err::<Seq<Path>, StructuralError>(
                                            StructuralError::TypeMismatch,
                                        ));
                                    }
                                    return Err(StructuralError::TypeMismatch);
                                }
                            },
                            // If you have borrowed `a.b`, then writing to
                            // `a` would overwrite `a.b`, which is
                            // disallowed.
                            Ty::Struct(..) => {
                                proof {
                                    let rest = frozen_by(env.decls(), env.structs(), env.star, **base_path);
                                    if rest is Ok {
                                        assert(before + (seq![*current] + rest->Ok_0) =~= found + rest->Ok_0);
                                    }
                                }
                                current = base_path;
                            },
                            Ty::Unit => {
                                return Err(StructuralError::TypeMismatch);
                            },
                            Ty::Bound(..) => {
                                return Err(StructuralError::UnexpectedBound);
                            },
                        }
                    },
                }
            },
        }
    }
}

/// Whether a loan of `loan_path` intersects `path`.
pub fn loan_intersects(env: &Environment, loan_path: &Path, path: &Path) -> (r: Result<bool, StructuralError>)
    ensures
        r == intersects(env, *loan_path, *path),
{
    // accessing `a.b.c` intersects a loan of `a.b.c` or `a.b`...
    if loan_path.is_prefix(path) {
        return Ok(true);
    }
    // ...as well as a loan of `a.b.c.d`
    match env.supporting_prefixes(loan_path) {
        Err(e) => Err(e),
        Ok(list) => {
            let r = holds(&list, path);
            proof {
                let s = supports(env.decls(), env.structs(), env.star, *loan_path)->Ok_0;
                if r {
                    let i = choose|i: int| 0 <= i < list@.len() && *#[trigger] list@[i] == *path;
                    assert(s[i] == *path);
                }
                if s.contains(*path) {
                    let i = choose|i: int| 0 <= i < s.len() && s[i] == *path;
                    assert(*list@[i] == *path);
                }
            }
            Ok(r)
        },
    }
}

/// Whether a loan of `loan_path` freezes `path`.
pub fn loan_freezes(env: &Environment, loan_path: &Path, path: &Path) -> (r: Result<bool, StructuralError>)
    ensures
        r == freezes(env, *loan_path, *path),
{
    // If you have borrowed `a.b`, this prevents writes to `a` or `a.b`:
    match frozen_by_borrow_of(env, loan_path) {
        Err(e) => Err(e),
        Ok(list) => {
            let r = holds(&list, path);
            proof {
                let s = frozen_by(env.decls(), env.structs(), env.star, *loan_path)->Ok_0;
                if r {
                    let i = choose|i: int| 0 <= i < list@.len() && *#[trigger] list@[i] == *path;
                    assert(s[i] == *path);
                }
                if s.contains(*path) {
                    let i = choose|i: int| 0 <= i < s.len() && s[i] == *path;
                    assert(*list@[i] == *path);
                }
            }
            // If you have borrowed `a.b`, this prevents writes to `a.b.c`:
            Ok(r || loan_path.is_prefix(path))
        },
    }
}

/// Dangly-path analysis. `p` *may dangle with respect to* `r` when a borrow
/// of `p` can remain valid across `drop(r)`, because the destructor for `r`
/// guarantees it will not touch the data behind such a borrow.
pub trait MayDangle {
    spec fn as_path(&self) -> Path;

    /// True only if this path may dangle with respect to `root`.
    fn may_dangle_with_respect_to(&self, env: &Environment, root: &Path) -> (r: Result<bool, StructuralError>)
        ensures
            r == may_dangle(env, self.as_path(), *root),
    ;

    /// `p.inner_deref_nearest(r)` returns `loc` such that `p` extends
    /// `*loc`, `*loc` extends `r`, and there are no remaining derefs between
    /// `*loc` and `r`.
    fn inner_deref_nearest<'a>(&'a self, star: FieldName, root: &Path) -> (r: Option<&'a Path>)
        ensures
            match r {
                Some(loc) => deref_nearest(star, self.as_path(), *root, None) == Some(*loc),
                None => deref_nearest(star, self.as_path(), *root, None) is None,
            },
    ;

    /// Here, `self` is the candidate loc. `loc.all_allow_dangling_up_to(env,
    /// r)` is true only if the path from `r` to `loc` has no destructors
    /// that could access state of `loc`.
    fn all_allow_dangling_up_to(&self, env: &Environment, root: &Path) -> (r: Result<bool, StructuralError>)
        ensures
            r == allows_dangling(env, self.as_path(), *root),
    ;
}

impl MayDangle for Path {
    open spec fn as_path(&self) -> Path {
        *self
    }

    fn may_dangle_with_respect_to(&self, env: &Environment, root: &Path) -> (r: Result<bool, StructuralError>) {
        // Determine if `p` may dangle w.r.t. `root`: identify path `loc`
        // such that `p` extends `*loc`, `*loc` extends `root`, and all
        // structs on path from `root` to `*loc` allow dangling.
        //
        // Since we require all structured data along path to `*loc` to
        // allow dangling, we can without loss of generality *solely*
        // consider the `*loc` closest to the root.
        match self.inner_deref_nearest(env.star, root) {
            // This is nearest deref we saw before we hit root.
            Some(loc) => loc.all_allow_dangling_up_to(env, root),
            // Either we never saw deref or `path` is not an extension of
            // `root`; cannot be a dangly path.
            None => Ok(false),
        }
    }

    fn inner_deref_nearest<'a>(&'a self, star: FieldName, root: &Path) -> (r: Option<&'a Path>) {
        let mut path = self;
        let mut cand_loc: Option<&'a Path> = None;
        loop
            invariant
                deref_nearest(star, *self, *root, None) == deref_nearest(
                    star,
                    *path,
                    *root,
                    match cand_loc {
                        Some(c) => Some(*c),
                        None => None,
                    },
                ),
            decreases path,
        {
            if path.same(root) {
                return cand_loc;
            } else {
                match path {
                    Path::Extension(p, field_name) => {
                        if field_name.same(star) {
                            cand_loc = Some(p);
                        }
                        path = p;
                    },
                    Path::Var(_) => {
                        // If we hit `Var`, then `path` does not extend
                        // `root`.
                        return None;
                    },
                }
            }
        }
    }

    fn all_allow_dangling_up_to(&self, env: &Environment, root: &Path) -> (r: Result<bool, StructuralError>) {
        let mut b = self;
        loop
            invariant
                allows_dangling(env, *self, *root) == allows_dangling(env, *b, *root),
            decreases b,
        {
            match b {
                Path::Var(_) => {
                    // all destructors we encountered allowed `loc` to
                    // dangle; `loc` extends root
                    if b.same(root) {
                        return Ok(true);
                    } else {
                        return Err(StructuralError::TypeMismatch);
                    }
                },
                Path::Extension(p, field_name) => {
                    // We know this is a non-deref extension, since `*loc`
                    // is the deref extension nearest to `root`.
                    if field_name.same(env.star) {
                        return Err(StructuralError::TypeMismatch);
                    }
                    // On any extension, we need to determine if the
                    // destructor for `p` allows this field to dangle.
                    let p_ty = match env.path_ty(p) {
                        Err(e) => {
                            return Err(e);
                        },
                        Ok(t) => t,
                    };
                    let struct_name = match &*p_ty {
                        Ty::Struct(s_n, _) => *s_n,
                        _ => {
                            return Err(StructuralError::TypeMismatch);
                        },
                    };
                    let structs = env.graph.struct_decls();
                    let struct_decl = match find_struct(structs, struct_name) {
                        None => {
                            return Err(StructuralError::UndeclaredStruct);
                        },
                        Some(s) => &structs[s],
                    };
                    let field_decl = match struct_decl.field_decl(field_name) {
                        None => {
                            return Err(StructuralError::UndeclaredField);
                        },
                        Some(fd) => fd,
                    };
                    match &*field_decl.ty {
                        Ty::Ref(rgn, _, _) => {
                            match rgn {
                                Region::Free(_) => {
                                    // free regions are never struct params
                                    // and thus can never be marked
                                    // "may_dangle"
                                    return Ok(false);
                                },
                                Region::Bound(idx) => {
                                    if *idx >= struct_decl.parameters.len() {
                                        return Err(StructuralError::UnexpectedBound);
                                    }
                                    let struct_param = struct_decl.parameters[*idx];
                                    if !struct_param.may_dangle {
                                        return Ok(false);
                                    }
                                },
                            }
                        },
                        Ty::Unit => {
                            return Err(StructuralError::TypeMismatch);
                        },
                        Ty::Struct(..) => {
                            // we must have already confirmed this struct's
                            // destructor (with respect to a particular
                            // field of the path) earlier in the walk. Keep
                            // going.
                        },
                        Ty::Bound(idx) => {
                            if *idx >= struct_decl.parameters.len() {
                                return Err(StructuralError::UnexpectedBound);
                            }
                            let struct_param = struct_decl.parameters[*idx];
                            if !struct_param.may_dangle {
                                return Ok(false);
                            }
                        },
                    }
                    if b.same(root) {
                        return Ok(true);
                    }
                    b = p;
                },
            }
        }
    }
}

#[derive(Copy, Clone, Debug, PartialEq, Eq, Structural)]
pub enum BorrowErrorKind {
    /// A read of a path while a mutable loan intersects it.
    Read,
    /// A write of a path, or a mutable borrow of it, while a loan forbids
    /// it.
    Write,
    /// A drop of a path while a loan intersects it that may not dangle.
    Drop,
    /// The storage of a variable goes away while a loan freezes it.
    StorageDead,
}

/// What a borrow error is about: the access, and the loan that forbids it.
#[derive(Debug)]
pub struct BorrowError {
    pub kind: BorrowErrorKind,
    /// Where the access takes place.
    pub point: Point,
    /// The path that is accessed.
    pub path: Path,
    /// The path that was borrowed.
    pub loan_path: Path,
    /// Where it was borrowed.
    pub loan_point: Point,
}

/// An access that conflicts with a loan.
pub ghost struct Conflict {
    pub kind: BorrowErrorKind,
    pub path: Path,
    pub loan: int,
}

/// The error reports the conflict `c` at `point`.
pub open spec fn reports(err: BorrowError, loans: Seq<LoanModel>, point: Point, c: Conflict) -> bool {
    &&& err.kind == c.kind
    &&& err.point == point
    &&& err.path == c.path
    &&& 0 <= c.loan < loans.len()
    &&& err.loan_path == loans[c.loan].path
    &&& err.loan_point == loans[c.loan].point
}

impl BorrowError {
    fn make(kind: BorrowErrorKind, point: Point, path: &Path, loan: &Loan) -> (r: Self)
        ensures
            r.kind == kind,
            r.point == point,
            r.path == *path,
            r.loan_path == loan@.path,
            r.loan_point == loan@.point,
    {
        BorrowError { kind, point, path: path.dup(), loan_path: loan.path.dup(), loan_point: loan.point }
    }
}

/// The loans that an access may conflict with: those that intersect the
/// path for a deep access, those that freeze it for a shallow one. Loan
/// `l` relates to `path` in that way.
pub open spec fn relates(env: &Environment, loans: Seq<LoanModel>, l: int, path: Path, deep: bool) -> Result<
    bool,
    StructuralError,
> {
    if deep {
        intersects(env, loans[l].path, path)
    } else {
        freezes(env, loans[l].path, path)
    }
}

/// The loans in scope among the first `upto` that relate to `path`, in
/// order; the first error of the tests.
pub open spec fn matching(
    env: &Environment,
    loans: Seq<LoanModel>,
    scope: Set<int>,
    path: Path,
    deep: bool,
    upto: int,
) -> Result<Seq<int>, StructuralError>
    decreases upto,
{
    if upto <= 0 || upto > loans.len() {
        Ok(Seq::empty())
    } else {
        match matching(env, loans, scope, path, deep, upto - 1) {
            Err(e) => Err(e),
            Ok(found) => if scope.contains(upto - 1) {
                match relates(env, loans, upto - 1, path, deep) {
                    Err(e) => Err(e),
                    Ok(true) => Ok(found.push(upto - 1)),
                    Ok(false) => Ok(found),
                }
            } else {
                Ok(found)
            },
        }
    }
}

/// The first of `found`, from position `from` on, that a read conflicts
/// with: a mutable loan; or, for a write, the first at all.
pub open spec fn first_conflict(loans: Seq<LoanModel>, found: Seq<int>, read: bool, from: int) -> Option<int>
    decreases found.len() - from,
{
    if from < 0 || from >= found.len() {
        None
    } else if !read || loans[found[from]].kind == BorrowKind::Mut {
        Some(found[from])
    } else {
        first_conflict(loans, found, read, from + 1)
    }
}

/// The loan that an access to `path` conflicts with, if any: a deep read
/// with the first intersecting mutable loan, a deep write with the first
/// intersecting loan, a shallow write with the first freezing loan.
pub open spec fn borrows_verdict(
    env: &Environment,
    loans: Seq<LoanModel>,
    scope: Set<int>,
    path: Path,
    deep: bool,
    read: bool,
) -> Result<Option<int>, StructuralError> {
    match matching(env, loans, scope, path, deep, loans.len() as int) {
        Err(e) => Err(e),
        Ok(found) => Ok(first_conflict(loans, found, read, 0)),
    }
}

/// Whether a drop of `path`, or for `storage` the end of the storage of
/// `path`, conflicts with loan `l`.
pub open spec fn forbids(env: &Environment, loans: Seq<LoanModel>, l: int, path: Path, storage: bool) -> Result<
    bool,
    StructuralError,
> {
    if storage {
        freezes(env, loans[l].path, path)
    } else {
        match intersects(env, loans[l].path, path) {
            Err(e) => Err(e),
            Ok(false) => Ok(false),
            Ok(true) => match may_dangle(env, loans[l].path, path) {
                Err(e) => Err(e),
                Ok(dangles) => Ok(!dangles),
            },
        }
    }
}

/// The first loan in scope, among the first `upto`, that forbids the drop
/// or the end of storage; the tests stop there.
pub open spec fn lazy_verdict(
    env: &Environment,
    loans: Seq<LoanModel>,
    scope: Set<int>,
    path: Path,
    storage: bool,
    upto: int,
) -> Result<Option<int>, StructuralError>
    decreases upto,
{
    if upto <= 0 || upto > loans.len() {
        Ok(None)
    } else {
        match lazy_verdict(env, loans, scope, path, storage, upto - 1) {
            Err(e) => Err(e),
            Ok(Some(l)) => Ok(Some(l)),
            Ok(None) => if scope.contains(upto - 1) {
                match forbids(env, loans, upto - 1, path, storage) {
                    Err(e) => Err(e),
                    Ok(true) => Ok(Some(upto - 1)),
                    Ok(false) => Ok(None),
                }
            } else {
                Ok(None)
            },
        }
    }
}

/// The kinds of access.
#[derive(Copy, Clone, Debug, PartialEq, Eq, Structural)]
pub enum Access {
    /// `x = ...` overwrites `x` (without reading it).
    ShallowWrite,
    /// `use(x)` may access `x` and anything reachable from `x`.
    DeepRead,
    /// `&mut x` may mutate `x`, read from it, and mutate things reachable
    /// from it.
    DeepWrite,
    Drop,
    StorageDead,
}

/// What an access to `path` conflicts with.
pub open spec fn access_verdict(
    env: &Environment,
    loans: Seq<LoanModel>,
    scope: Set<int>,
    path: Path,
    access: Access,
) -> Result<Option<Conflict>, StructuralError> {
    let (loan, kind) = match access {
        Access::ShallowWrite => (
            borrows_verdict(env, loans, scope, path, false, false),
            BorrowErrorKind::Write,
        ),
        Access::DeepRead => (borrows_verdict(env, loans, scope, path, true, true), BorrowErrorKind::Read),
        Access::DeepWrite => (borrows_verdict(env, loans, scope, path, true, false), BorrowErrorKind::Write),
        Access::Drop => (
            lazy_verdict(env, loans, scope, path, false, loans.len() as int),
            BorrowErrorKind::Drop,
        ),
        Access::StorageDead => (
            lazy_verdict(env, loans, scope, path, true, loans.len() as int),
            BorrowErrorKind::StorageDead,
        ),
    };
    match loan {
        Err(e) => Err(e),
        Ok(None) => Ok(None),
        Ok(Some(l)) => Ok(Some(Conflict { kind, path, loan: l })),
    }
}

/// The first of two verdicts that is not a plain success.
pub open spec fn first_of(
    a: Result<Option<Conflict>, StructuralError>,
    b: Result<Option<Conflict>, StructuralError>,
) -> Result<Option<Conflict>, StructuralError> {
    match a {
        Ok(None) => b,
        _ => a,
    }
}

/// What the reads of the first `upto` paths of `sources` conflict with.
pub open spec fn reads_verdict(
    env: &Environment,
    loans: Seq<LoanModel>,
    scope: Set<int>,
    sources: Seq<Box<Path>>,
    upto: int,
) -> Result<Option<Conflict>, StructuralError>
    decreases upto,
{
    if upto <= 0 || upto > sources.len() {
        Ok(None)
    } else {
        first_of(
            reads_verdict(env, loans, scope, sources, upto - 1),
            access_verdict(env, loans, scope, *sources[upto - 1], Access::DeepRead),
        )
    }
}

/// What the action conflicts with: its accesses are tried in order.
pub open spec fn action_verdict(env: &Environment, loans: Seq<LoanModel>, scope: Set<int>, kind: ActionKind) -> Result<
    Option<Conflict>,
    StructuralError,
> {
    match kind {
        ActionKind::Init(a, bs) => first_of(
            access_verdict(env, loans, scope, *a, Access::ShallowWrite),
            reads_verdict(env, loans, scope, bs@, bs@.len() as int),
        ),
        ActionKind::Assign(a, b) => first_of(
            access_verdict(env, loans, scope, *a, Access::ShallowWrite),
            access_verdict(env, loans, scope, *b, Access::DeepRead),
        ),
        ActionKind::Borrow(a, _, BorrowKind::Shared, b) => first_of(
            access_verdict(env, loans, scope, *a, Access::ShallowWrite),
            access_verdict(env, loans, scope, *b, Access::DeepRead),
        ),
        ActionKind::Borrow(a, _, BorrowKind::Mut, b) => first_of(
            access_verdict(env, loans, scope, *a, Access::ShallowWrite),
            access_verdict(env, loans, scope, *b, Access::DeepWrite),
        ),
        ActionKind::Use(p) => access_verdict(env, loans, scope, *p, Access::DeepRead),
        ActionKind::Drop(p) => access_verdict(env, loans, scope, *p, Access::Drop),
        ActionKind::StorageDead(v) => access_verdict(env, loans, scope, Path::Var(v), Access::StorageDead),
        _ => Ok(None),
    }
}

/// What a check gave is what the verdict says.
pub open spec fn agrees(
    r: Result<Option<BorrowError>, StructuralError>,
    loans: Seq<LoanModel>,
    point: Point,
    verdict: Result<Option<Conflict>, StructuralError>,
) -> bool {
    match r {
        Err(e) => verdict == Err::<Option<Conflict>, StructuralError>(e),
        Ok(None) => verdict == Ok::<Option<Conflict>, StructuralError>(None),
        Ok(Some(err)) => verdict matches Ok(Some(c)) && reports(err, loans, point, c),
    }
}

proof fn lemma_matching_err(
    env: &Environment,
    loans: Seq<LoanModel>,
    scope: Set<int>,
    path: Path,
    deep: bool,
    at: int,
    upto: int,
)
    requires
        0 < at <= upto <= loans.len(),
        matching(env, loans, scope, path, deep, at) is Err,
    ensures
        matching(env, loans, scope, path, deep, upto) == matching(env, loans, scope, path, deep, at),
    decreases upto - at,
{
    if at < upto {
        lemma_matching_err(env, loans, scope, path, deep, at, upto - 1);
    }
}

proof fn lemma_lazy_done(
    env: &Environment,
    loans: Seq<LoanModel>,
    scope: Set<int>,
    path: Path,
    storage: bool,
    at: int,
    upto: int,
)
    requires
        0 < at <= upto <= loans.len(),
        !(lazy_verdict(env, loans, scope, path, storage, at) == Ok::<Option<int>, StructuralError>(None)),
    ensures
        lazy_verdict(env, loans, scope, path, storage, upto) == lazy_verdict(
            env,
            loans,
            scope,
            path,
            storage,
            at,
        ),
    decreases upto - at,
{
    if at < upto {
        lemma_lazy_done(env, loans, scope, path, storage, at, upto - 1);
    }
}

/// The checks of one point.
pub struct BorrowCheck<'cx> {
    pub env: &'cx Environment<'cx>,
    pub point: Point,
    pub loans: &'cx Vec<Loan<'cx>>,
    /// The loans in scope at the point, by their indices.
    pub scope: &'cx BitBuf,
}

impl<'cx> BorrowCheck<'cx> {
    pub open spec fn wf(&self) -> bool {
        self.loans@.len() <= self.scope.capacity()
    }

    /// The loans, as the verdicts see them.
    pub open spec fn models(&self) -> Seq<LoanModel> {
        loan_models(self.loans@)
    }

    /// The loans in scope.
    pub open spec fn in_scope(&self) -> Set<int> {
        buf_set(self.scope)
    }

    /// `use(x)` may access `x` and (by going through the produced value)
    /// anything reachable from `x`.
    pub fn check_read(&self, path: &Path) -> (r: Result<Option<BorrowError>, StructuralError>)
        requires
            self.wf(),
        ensures
            agrees(
                r,
                self.models(),
                self.point,
                access_verdict(self.env, self.models(), self.in_scope(), *path, Access::DeepRead),
            ),
    {
        self.check_borrows(true, true, path)
    }

    /// `x = ...` overwrites `x` (without reading it) and prevents any
    /// further reads from that path.
    pub fn check_shallow_write(&self, path: &Path) -> (r: Result<Option<BorrowError>, StructuralError>)
        requires
            self.wf(),
        ensures
            agrees(
                r,
                self.models(),
                self.point,
                access_verdict(self.env, self.models(), self.in_scope(), *path, Access::ShallowWrite),
            ),
    {
        self.check_borrows(false, false, path)
    }

    /// `&mut x` may mutate `x`, but it can also *read* from `x`, and mutate
    /// things reachable from `x`.
    pub fn check_mut_borrow(&self, path: &Path) -> (r: Result<Option<BorrowError>, StructuralError>)
        requires
            self.wf(),
        ensures
            agrees(
                r,
                self.models(),
                self.point,
                access_verdict(self.env, self.models(), self.in_scope(), *path, Access::DeepWrite),
            ),
    {
        self.check_borrows(true, false, path)
    }

    fn check_borrows(&self, deep: bool, read: bool, path: &Path) -> (r: Result<
        Option<BorrowError>,
        StructuralError,
    >)
        requires
            self.wf(),
        ensures
            match r {
                Err(e) => borrows_verdict(self.env, self.models(), self.in_scope(), *path, deep, read)
                    == Err::<Option<int>, StructuralError>(e),
                Ok(None) => borrows_verdict(self.env, self.models(), self.in_scope(), *path, deep, read)
                    == Ok::<Option<int>, StructuralError>(None),
                Ok(Some(err)) => borrows_verdict(
                    self.env,
                    self.models(),
                    self.in_scope(),
                    *path,
                    deep,
                    read,
                ) matches Ok(Some(l)) && reports(
                    err,
                    self.models(),
                    self.point,
                    Conflict {
                        kind: if read {
                            BorrowErrorKind::Read
                        } else {
                            BorrowErrorKind::Write
                        },
                        path: *path,
                        loan: l,
                    },
                ),
            },
    {
        let ghost loans = self.models();
        let ghost scope = self.in_scope();
        let mut found: Vec<usize> = Vec::new();
        let mut i: usize = 0;
        let ghost mut picked: Seq<int> = Seq::empty();
        while i < self.loans.len()
            invariant
                self.wf(),
                loans == self.models(),
                scope == self.in_scope(),
                i <= self.loans@.len(),
                matching(self.env, loans, scope, *path, deep, i as int) == Ok::<Seq<int>, StructuralError>(
                    picked,
                ),
                found@.len() == picked.len(),
                forall|k: int|
                    0 <= k < found@.len() ==> #[trigger] found@[k] == picked[k] && found@[k] < self.loans@.len(),
            decreases self.loans@.len() - i,
        {
            if self.scope.get(i) {
                let related = if deep {
                    loan_intersects(self.env, self.loans[i].path, path)
                } else {
                    loan_freezes(self.env, self.loans[i].path, path)
                };
                match related {
                    Err(e) => {
                        proof {
                            assert(relates(self.env, loans, i as int, *path, deep) == Err::<
                                bool,
                                StructuralError,
                            >(e));
                            assert(matching(self.env, loans, scope, *path, deep, i as int + 1) == Err::<
                                Seq<int>,
                                StructuralError,
                            >(e));
                            lemma_matching_err(
                                self.env,
                                loans,
                                scope,
                                *path,
                                deep,
                                i as int + 1,
                                loans.len() as int,
                            );
                        }
                        return Err(e);
                    },
                    Ok(true) => {
                        let ghost before = found@;
                        found.push(i);
                        proof {
                            let grown = picked.push(i as int);
                            assert forall|k: int| 0 <= k < found@.len() implies #[trigger] found@[k]
                                == grown[k] && found@[k] < self.loans@.len() by {
                                if k < before.len() {
                                    assert(found@[k] == before[k]);
                                }
                            }
                            picked = grown;
                        }
                    },
                    Ok(false) => {},
                }
            }
            i += 1;
        }
        let mut k: usize = 0;
        while k < found.len()
            invariant
                k <= found@.len(),
                loans == self.models(),
                scope == self.in_scope(),
                matching(self.env, loans, scope, *path, deep, loans.len() as int) == Ok::<
                    Seq<int>,
                    StructuralError,
                >(picked),
                found@.len() == picked.len(),
                forall|q: int|
                    0 <= q < found@.len() ==> #[trigger] found@[q] == picked[q] && found@[q] < self.loans@.len(),
                first_conflict(loans, picked, read, 0) == first_conflict(loans, picked, read, k as int),
            decreases found@.len() - k,
        {
            let loan = &self.loans[found[k]];
            let conflicts = match loan.kind {
                BorrowKind::Shared => !read,
                BorrowKind::Mut => true,
            };
            if conflicts {
                let kind = if read {
                    BorrowErrorKind::Read
                } else {
                    BorrowErrorKind::Write
                };
                proof {
                    assert(loans[picked[k as int]] == loan@);
                }
                return Ok(Some(BorrowError::make(kind, self.point, path, loan)));
            }
            proof {
                assert(loans[picked[k as int]] == loan@);
            }
            k += 1;
        }
        Ok(None)
    }

    fn check_lazily(&self, storage: bool, path: &Path) -> (r: Result<Option<BorrowError>, StructuralError>)
        requires
            self.wf(),
        ensures
            match r {
                Err(e) => lazy_verdict(
                    self.env,
                    self.models(),
                    self.in_scope(),
                    *path,
                    storage,
                    self.models().len() as int,
                ) == Err::<Option<int>, StructuralError>(e),
                Ok(None) => lazy_verdict(
                    self.env,
                    self.models(),
                    self.in_scope(),
                    *path,
                    storage,
                    self.models().len() as int,
                ) == Ok::<Option<int>, StructuralError>(None),
                Ok(Some(err)) => lazy_verdict(
                    self.env,
                    self.models(),
                    self.in_scope(),
                    *path,
                    storage,
                    self.models().len() as int,
                ) matches Ok(Some(l)) && reports(
                    err,
                    self.models(),
                    self.point,
                    Conflict {
                        kind: if storage {
                            BorrowErrorKind::StorageDead
                        } else {
                            BorrowErrorKind::Drop
                        },
                        path: *path,
                        loan: l,
                    },
                ),
            },
    {
        let ghost loans = self.models();
        let ghost scope = self.in_scope();
        let mut i: usize = 0;
        while i < self.loans.len()
            invariant
                self.wf(),
                loans == self.models(),
                scope == self.in_scope(),
                i <= self.loans@.len(),
                lazy_verdict(self.env, loans, scope, *path, storage, i as int) == Ok::<
                    Option<int>,
                    StructuralError,
                >(None),
            decreases self.loans@.len() - i,
        {
            if self.scope.get(i) {
                let loan = &self.loans[i];
                let forbidden = if storage {
                    loan_freezes(self.env, loan.path, path)
                } else {
                    match loan_intersects(self.env, loan.path, path) {
                        Err(e) => Err(e),
                        Ok(false) => Ok(false),
                        Ok(true) => match loan.path.may_dangle_with_respect_to(self.env, path) {
                            Err(e) => Err(e),
                            Ok(dangles) => Ok(!dangles),
                        },
                    }
                };
                proof {
                    assert(loans[i as int] == loan@);
                    assert(forbidden == forbids(self.env, loans, i as int, *path, storage));
                }
                match forbidden {
                    Err(e) => {
                        proof {
                            assert(lazy_verdict(self.env, loans, scope, *path, storage, i as int + 1) == Err::<
                                Option<int>,
                                StructuralError,
                            >(e));
                            lemma_lazy_done(
                                self.env,
                                loans,
                                scope,
                                *path,
                                storage,
                                i as int + 1,
                                loans.len() as int,
                            );
                        }
                        return Err(e);
                    },
                    Ok(true) => {
                        let kind = if storage {
                            BorrowErrorKind::StorageDead
                        } else {
                            BorrowErrorKind::Drop
                        };
                        proof {
                            assert(lazy_verdict(self.env, loans, scope, *path, storage, i as int + 1) == Ok::<
                                Option<int>,
                                StructuralError,
                            >(Some(i as int)));
                            lemma_lazy_done(
                                self.env,
                                loans,
                                scope,
                                *path,
                                storage,
                                i as int + 1,
                                loans.len() as int,
                            );
                        }
                        return Ok(Some(BorrowError::make(kind, self.point, path, loan)));
                    },
                    Ok(false) => {},
                }
            }
            i += 1;
        }
        Ok(None)
    }

    /// Cannot drop a path `p` if `p` is borrowed, some subpath `p.foo` is
    /// borrowed (unless *every* projection for the subpath is may_dangle),
    /// or some prefix of `p` is borrowed.
    ///
    /// Note that this is stricter than both *writes* and *storage-dead*.
    /// In particular, you **can** write to a variable `x` that contains an
    /// `&mut` value when `*x` is borrowed, but you **cannot** drop `x`. This
    /// is because the drop may run a destructor that could subsequently
    /// access `*x` via the variable.
    pub fn check_drop(&self, path: &Path) -> (r: Result<Option<BorrowError>, StructuralError>)
        requires
            self.wf(),
        ensures
            agrees(
                r,
                self.models(),
                self.point,
                access_verdict(self.env, self.models(), self.in_scope(), *path, Access::Drop),
            ),
    {
        self.check_lazily(false, path)
    }

    /// Cannot free a local variable `var` if data interior to `var` is
    /// borrowed. In particular, having something like `*var` borrowed is
    /// ok.
    pub fn check_storage_dead(&self, var: Variable) -> (r: Result<Option<BorrowError>, StructuralError>)
        requires
            self.wf(),
        ensures
            agrees(
                r,
                self.models(),
                self.point,
                access_verdict(self.env, self.models(), self.in_scope(), Path::Var(var), Access::StorageDead),
            ),
    {
        let path = Path::Var(var);
        self.check_lazily(true, &path)
    }

    /// Checks the accesses of one action, in order.
    pub fn check_action(&self, action: &Action) -> (r: Result<Option<BorrowError>, StructuralError>)
        requires
            self.wf(),
        ensures
            agrees(
                r,
                self.models(),
                self.point,
                action_verdict(self.env, self.models(), self.in_scope(), action.kind),
            ),
    {
        match &action.kind {
            ActionKind::Init(a, bs) => {
                match self.check_shallow_write(a) {
                    Ok(None) => {},
                    other => {
                        return other;
                    },
                }
                let mut i: usize = 0;
                while i < bs.len()
                    invariant
                        self.wf(),
                        i <= bs.len(),
                        reads_verdict(self.env, self.models(), self.in_scope(), bs@, i as int) == Ok::<
                            Option<Conflict>,
                            StructuralError,
                        >(None),
                        access_verdict(self.env, self.models(), self.in_scope(), **a, Access::ShallowWrite)
                            == Ok::<Option<Conflict>, StructuralError>(None),
                        action.kind == ActionKind::Init(*a, *bs),
                    decreases bs.len() - i,
                {
                    match self.check_read(&bs[i]) {
                        Ok(None) => {},
                        other => {
                            proof {
                                lemma_reads_done(
                                    self.env,
                                    self.models(),
                                    self.in_scope(),
                                    bs@,
                                    i as int + 1,
                                    bs@.len() as int,
                                );
                            }
                            return other;
                        },
                    }
                    i += 1;
                }
                Ok(None)
            },
            ActionKind::Assign(a, b) => {
                match self.check_shallow_write(a) {
                    Ok(None) => self.check_read(b),
                    other => other,
                }
            },
            ActionKind::Borrow(a, _, BorrowKind::Shared, b) => {
                match self.check_shallow_write(a) {
                    Ok(None) => self.check_read(b),
                    other => other,
                }
            },
            ActionKind::Borrow(a, _, BorrowKind::Mut, b) => {
                match self.check_shallow_write(a) {
                    Ok(None) => self.check_mut_borrow(b),
                    other => other,
                }
            },
            ActionKind::Constraint(_) => Ok(None),
            ActionKind::Use(p) => self.check_read(p),
            ActionKind::Drop(p) => self.check_drop(p),
            ActionKind::StorageDead(p) => self.check_storage_dead(*p),
            ActionKind::SkolemizedEnd(_) => Ok(None),
            ActionKind::Noop => Ok(None),
        }
    }
}

proof fn lemma_reads_done(
    env: &Environment,
    loans: Seq<LoanModel>,
    scope: Set<int>,
    sources: Seq<Box<Path>>,
    at: int,
    upto: int,
)
    requires
        0 < at <= upto <= sources.len(),
        !(reads_verdict(env, loans, scope, sources, at) == Ok::<Option<Conflict>, StructuralError>(None)),
    ensures
        reads_verdict(env, loans, scope, sources, upto) == reads_verdict(env, loans, scope, sources, at),
    decreases upto - at,
{
    if at < upto {
        lemma_reads_done(env, loans, scope, sources, at, upto - 1);
    }
}

/// What the checks of the first `upto` facts give: for every fact at an
/// action, in order, the conflict of that action, if it has one; or the
/// first structural error.
pub open spec fn check_facts(
    env: &Environment,
    loans: Seq<LoanModel>,
    facts: Seq<(Point, Set<int>)>,
    upto: int,
) -> Result<Seq<(Point, Conflict)>, StructuralError>
    decreases upto,
{
    if upto <= 0 || upto > facts.len() {
        Ok(Seq::empty())
    } else {
        match check_facts(env, loans, facts, upto - 1) {
            Err(e) => Err(e),
            Ok(done) => {
                let (point, scope) = facts[upto - 1];
                let actions = env.graph.actions_of(point.block.index as int);
                if point.action < actions.len() {
                    match action_verdict(env, loans, scope, actions[point.action as int].kind) {
                        Err(e) => Err(e),
                        Ok(None) => Ok(done),
                        Ok(Some(c)) => Ok(done.push((point, c))),
                    }
                } else {
                    Ok(done)
                }
            },
        }
    }
}

proof fn lemma_check_facts_err(
    env: &Environment,
    loans: Seq<LoanModel>,
    facts: Seq<(Point, Set<int>)>,
    at: int,
    upto: int,
)
    requires
        0 < at <= upto <= facts.len(),
        check_facts(env, loans, facts, at) is Err,
    ensures
        check_facts(env, loans, facts, upto) == check_facts(env, loans, facts, at),
    decreases upto - at,
{
    if at < upto {
        lemma_check_facts_err(env, loans, facts, at, upto - 1);
    }
}

/// Checks every action against the loans in scope at its point. The
/// result lists, in the order of the walk over the loans in scope, one
/// error for every action that conflicts with a loan.
pub fn borrow_check(env: &Environment, loans_in_scope: &LoansInScope) -> (r: Result<
    Vec<BorrowError>,
    StructuralError,
>)
    requires
        loans_in_scope.wf(),
        loans_in_scope.env() == env,
        env.wf(),
    ensures
        ({
            let loans = loans_in_scope.loans();
            let facts = walk_scopes(
                env,
                loans,
                loans_in_scope.scope_sets(),
                env.reverse_post_order@.len() as int,
            );
            match r {
                Ok(v) => check_facts(env, loans, facts, facts.len() as int) matches Ok(cs) && v@.len()
                    == cs.len() && forall|i: int|
                    0 <= i < v@.len() ==> reports(#[trigger] v@[i], loans, cs[i].0, cs[i].1),
                Err(e) => check_facts(env, loans, facts, facts.len() as int) == Err::<
                    Seq<(Point, Conflict)>,
                    StructuralError,
                >(e),
            }
        }),
{
    let facts = loans_in_scope.walk();
    let loans = loans_in_scope.all_loans();
    let ghost models = loans_in_scope.loans();
    let ghost views = scopes_view(facts@);
    let mut errors: Vec<BorrowError> = Vec::new();
    let ghost mut found: Seq<(Point, Conflict)> = Seq::empty();
    let mut i: usize = 0;
    while i < facts.len()
        invariant
            env.wf(),
            loans_in_scope.wf(),
            models == loans_in_scope.loans(),
            models == loan_models(loans@),
            loans@.len() <= loans_in_scope.capacity(),
            views == scopes_view(facts@),
            views == walk_scopes(
                env,
                models,
                loans_in_scope.scope_sets(),
                env.reverse_post_order@.len() as int,
            ),
            forall|k: int|
                0 <= k < facts@.len() ==> scope_fact_ok(env, loans_in_scope.capacity(), &#[trigger] facts@[k]),
            i <= facts@.len(),
            check_facts(env, models, views, i as int) == Ok::<Seq<(Point, Conflict)>, StructuralError>(
                found,
            ),
            errors@.len() == found.len(),
            forall|k: int|
                0 <= k < errors@.len() ==> reports(#[trigger] errors@[k], models, found[k].0, found[k].1),
        decreases facts@.len() - i,
    {
        let fact = &facts[i];
        proof {
            assert(scope_fact_ok(env, loans_in_scope.capacity(), &facts@[i as int]));
            assert(views[i as int] == (fact.point, buf_set(&fact.loans)));
        }
        if let Some(index) = fact.action {
            let actions = env.graph.block_data(fact.point.block).actions();
            let action = &actions[index];
            let borrowck = BorrowCheck { env, point: fact.point, loans, scope: &fact.loans };
            match borrowck.check_action(action) {
                Err(e) => {
                    proof {
                        assert(check_facts(env, models, views, i as int + 1) == Err::<
                            Seq<(Point, Conflict)>,
                            StructuralError,
                        >(e));
                        lemma_check_facts_err(env, models, views, i as int + 1, views.len() as int);
                    }
                    return Err(e);
                },
                Ok(None) => {},
                Ok(Some(error)) => {
                    let ghost before = errors@;
                    let ghost c = action_verdict(env, models, buf_set(&fact.loans), action.kind)->Ok_0->Some_0;
                    errors.push(error);
                    proof {
                        let grown = found.push((fact.point, c));
                        assert forall|k: int| 0 <= k < errors@.len() implies reports(
                            #[trigger] errors@[k],
                            models,
                            grown[k].0,
                            grown[k].1,
                        ) by {
                            if k < before.len() {
                                assert(errors@[k] == before[k]);
                            }
                        }
                        found = grown;
                    }
                },
            }
        }
        i += 1;
    }
    Ok(errors)
}

/// A deep read succeeds exactly when no mutable loan in scope intersects
/// the path, where every test of a loan in scope has an answer.
pub proof fn lemma_read_succeeds_iff(env: &Environment, loans: Seq<LoanModel>, scope: Set<int>, path: Path)
    requires
        forall|l: int|
            0 <= l < loans.len() && scope.contains(l) ==> #[trigger] intersects(env, loans[l].path, path) is Ok,
    ensures
        access_verdict(env, loans, scope, path, Access::DeepRead) == Ok::<Option<Conflict>, StructuralError>(
            None,
        ) <==> forall|l: int|
            0 <= l < loans.len() && scope.contains(l) && loans[l].kind == BorrowKind::Mut
                ==> #[trigger] intersects(env, loans[l].path, path) == Ok::<bool, StructuralError>(false),
{
    assert forall|l: int| 0 <= l < loans.len() && scope.contains(l) implies #[trigger] relates(
        env,
        loans,
        l,
        path,
        true,
    ) is Ok by {
        assert(intersects(env, loans[l].path, path) is Ok);
    }
    let found = lemma_matching_holds(env, loans, scope, path, true, loans.len() as int);
    lemma_first_conflict(loans, found, true, 0);
    if first_conflict(loans, found, true, 0) is None {
        assert forall|l: int|
            0 <= l < loans.len() && scope.contains(l) && loans[l].kind == BorrowKind::Mut implies #[trigger] intersects(
            env,
            loans[l].path,
            path,
        ) == Ok::<bool, StructuralError>(false) by {
            if intersects(env, loans[l].path, path) == Ok::<bool, StructuralError>(true) {
                assert(relates(env, loans, l, path, true) == Ok::<bool, StructuralError>(true));
                assert(found.contains(l));
                let k = choose|k: int| 0 <= k < found.len() && found[k] == l;
                assert(loans[found[k]].kind != BorrowKind::Mut);
            }
        }
    } else {
        let l = first_conflict(loans, found, true, 0)->Some_0;
        assert(found.contains(l));
        assert(relates(env, loans, l, path, true) == Ok::<bool, StructuralError>(true));
    }
}

/// A shallow write succeeds exactly when no loan in scope freezes the
/// path, where every test of a loan in scope has an answer.
pub proof fn lemma_write_succeeds_iff(env: &Environment, loans: Seq<LoanModel>, scope: Set<int>, path: Path)
    requires
        forall|l: int|
            0 <= l < loans.len() && scope.contains(l) ==> #[trigger] freezes(env, loans[l].path, path) is Ok,
    ensures
        access_verdict(env, loans, scope, path, Access::ShallowWrite) == Ok::<
            Option<Conflict>,
            StructuralError,
        >(None) <==> forall|l: int|
            0 <= l < loans.len() && scope.contains(l) ==> #[trigger] freezes(env, loans[l].path, path) == Ok::<
                bool,
                StructuralError,
            >(false),
{
    assert forall|l: int| 0 <= l < loans.len() && scope.contains(l) implies #[trigger] relates(
        env,
        loans,
        l,
        path,
        false,
    ) is Ok by {
        assert(freezes(env, loans[l].path, path) is Ok);
    }
    let found = lemma_matching_holds(env, loans, scope, path, false, loans.len() as int);
    lemma_first_conflict(loans, found, false, 0);
    if first_conflict(loans, found, false, 0) is None {
        assert forall|l: int| 0 <= l < loans.len() && scope.contains(l) implies #[trigger] freezes(
            env,
            loans[l].path,
            path,
        ) == Ok::<bool, StructuralError>(false) by {
            if freezes(env, loans[l].path, path) == Ok::<bool, StructuralError>(true) {
                assert(relates(env, loans, l, path, false) == Ok::<bool, StructuralError>(true));
                assert(found.contains(l));
                let k = choose|k: int| 0 <= k < found.len() && found[k] == l;
            }
        }
    } else {
        let l = first_conflict(loans, found, false, 0)->Some_0;
        assert(found.contains(l));
        assert(relates(env, loans, l, path, false) == Ok::<bool, StructuralError>(true));
    }
}

/// A drop succeeds exactly when every loan in scope that intersects the
/// path may dangle with respect to it, where every test of a loan in scope
/// has an answer.
pub proof fn lemma_drop_succeeds_iff(env: &Environment, loans: Seq<LoanModel>, scope: Set<int>, path: Path)
    requires
        forall|l: int|
            0 <= l < loans.len() && scope.contains(l) ==> #[trigger] forbids(env, loans, l, path, false) is Ok,
    ensures
        access_verdict(env, loans, scope, path, Access::Drop) == Ok::<Option<Conflict>, StructuralError>(None)
            <==> forall|l: int|
            0 <= l < loans.len() && scope.contains(l) && intersects(env, loans[l].path, path) == Ok::<
                bool,
                StructuralError,
            >(true) ==> #[trigger] may_dangle(env, loans[l].path, path) == Ok::<bool, StructuralError>(true),
{
    lemma_lazy_holds(env, loans, scope, path, false, loans.len() as int);
    if lazy_verdict(env, loans, scope, path, false, loans.len() as int) == Ok::<
        Option<int>,
        StructuralError,
    >(None) {
        assert forall|l: int|
            0 <= l < loans.len() && scope.contains(l) && intersects(env, loans[l].path, path) == Ok::<
                bool,
                StructuralError,
            >(true) implies #[trigger] may_dangle(env, loans[l].path, path) == Ok::<bool, StructuralError>(
            true,
        ) by {
            assert(forbids(env, loans, l, path, false) == Ok::<bool, StructuralError>(false));
        }
    } else {
        let l = lazy_verdict(env, loans, scope, path, false, loans.len() as int)->Ok_0->Some_0;
        assert(forbids(env, loans, l, path, false) == Ok::<bool, StructuralError>(true));
    }
}

/// Where every test has an answer, the loans found are those in scope that
/// relate to the path.
proof fn lemma_matching_holds(
    env: &Environment,
    loans: Seq<LoanModel>,
    scope: Set<int>,
    path: Path,
    deep: bool,
    upto: int,
) -> (found: Seq<int>)
    requires
        0 <= upto <= loans.len(),
        forall|l: int|
            0 <= l < loans.len() && scope.contains(l) ==> #[trigger] relates(env, loans, l, path, deep) is Ok,
    ensures
        matching(env, loans, scope, path, deep, upto) == Ok::<Seq<int>, StructuralError>(found),
        forall|l: int|
            #[trigger] found.contains(l) <==> (0 <= l < upto && scope.contains(l) && relates(
                env,
                loans,
                l,
                path,
                deep,
            ) == Ok::<bool, StructuralError>(true)),
    decreases upto,
{
    if upto > 0 {
        let before = lemma_matching_holds(env, loans, scope, path, deep, upto - 1);
        if scope.contains(upto - 1) {
            assert(relates(env, loans, upto - 1, path, deep) is Ok);
        }
        let after = matching(env, loans, scope, path, deep, upto)->Ok_0;
        assert forall|l: int|
            #[trigger] after.contains(l) <==> (0 <= l < upto && scope.contains(l) && relates(
                env,
                loans,
                l,
                path,
                deep,
            ) == Ok::<bool, StructuralError>(true)) by {
            if before.contains(l) {
                let k = choose|k: int| 0 <= k < before.len() && before[k] == l;
                assert(after[k] == l);
            }
            if after.contains(l) {
                let k = choose|k: int| 0 <= k < after.len() && after[k] == l;
                if k < before.len() {
                    assert(before[k] == l);
                    assert(before.contains(l));
                } else {
                    assert(l == upto - 1);
                }
            }
            if l == upto - 1 && scope.contains(l) && relates(env, loans, l, path, deep) == Ok::<
                bool,
                StructuralError,
            >(true) {
                assert(after[after.len() - 1] == l);
            }
            if 0 <= l < upto - 1 && scope.contains(l) && relates(env, loans, l, path, deep) == Ok::<
                bool,
                StructuralError,
            >(true) {
                assert(before.contains(l));
            }
        }
        after
    } else {
        let empty = Seq::<int>::empty();
        assert forall|l: int| !#[trigger] empty.contains(l) by {}
        empty
    }
}

/// What the first conflict is.
proof fn lemma_first_conflict(loans: Seq<LoanModel>, found: Seq<int>, read: bool, from: int)
    requires
        0 <= from <= found.len(),
    ensures
        match first_conflict(loans, found, read, from) {
            None => forall|k: int|
                from <= k < found.len() ==> read && loans[#[trigger] found[k]].kind != BorrowKind::Mut,
            Some(l) => found.contains(l) && (!read || loans[l].kind == BorrowKind::Mut),
        },
    decreases found.len() - from,
{
    if from < found.len() {
        if !read || loans[found[from]].kind == BorrowKind::Mut {
            assert(found[from] == found[from]);
        } else {
            lemma_first_conflict(loans, found, read, from + 1);
        }
    }
}

/// Where every test has an answer, the lazy verdict is the first loan in
/// scope that forbids.
proof fn lemma_lazy_holds(
    env: &Environment,
    loans: Seq<LoanModel>,
    scope: Set<int>,
    path: Path,
    storage: bool,
    upto: int,
)
    requires
        0 <= upto <= loans.len(),
        forall|l: int|
            0 <= l < loans.len() && scope.contains(l) ==> #[trigger] forbids(env, loans, l, path, storage) is Ok,
    ensures
        match lazy_verdict(env, loans, scope, path, storage, upto) {
            Err(_) => false,
            Ok(None) => forall|l: int|
                0 <= l < upto && scope.contains(l) ==> #[trigger] forbids(env, loans, l, path, storage) == Ok::<
                    bool,
                    StructuralError,
                >(false),
            Ok(Some(l)) => 0 <= l < upto && scope.contains(l) && forbids(env, loans, l, path, storage) == Ok::<
                bool,
                StructuralError,
            >(true),
        },
    decreases upto,
{
    if upto > 0 {
        lemma_lazy_holds(env, loans, scope, path, storage, upto - 1);
        if scope.contains(upto - 1) {
            assert(forbids(env, loans, upto - 1, path, storage) is Ok);
        }
    }
}

} // verus!
