//! The program representation: functions, blocks, actions, paths, types,
//! regions, constraints and assertions. Names are interned strings, which
//! this crate only ever compares.

use crate::errors::StructuralError;
use lalrpop_intern::InternedString;
use vstd::prelude::*;

verus! {

/// Declares `lalrpop_intern::InternedString`, the symbol that stands for an
/// interned string. Nothing is said of what is inside a symbol.
#[verifier::external_type_specification]
#[verifier::external_body]
pub struct ExInternedString(InternedString);

/// Calls `lalrpop_intern::intern`, which hands out the symbol that stands
/// for `text` in the interner of the running thread. Nothing is claimed of
/// the symbol.
#[verifier::external_body]
pub(crate) fn intern(text: &str) -> (symbol: InternedString) {
    lalrpop_intern::intern(text)
}

/// Compares two symbols with the `==` of `InternedString`, which compares
/// the one field that a symbol has: the result tells whether the two are the
/// same symbol.
#[verifier::external_body]
pub(crate) fn same_symbol(a: InternedString, b: InternedString) -> (r: bool)
    ensures
        r == (a == b),
{
    a == b
}

/// The name of a basic block.
#[derive(Copy, Clone, Debug, Hash, PartialEq, Eq)]
pub struct BasicBlock {
    pub name: InternedString,
}

impl BasicBlock {
    /// The name of the entry block, `START`.
    pub fn start() -> (r: Self) {
        BasicBlock { name: intern("START") }
    }

    /// The block name spelled `text`.
    pub fn new(text: &str) -> (r: Self) {
        BasicBlock { name: intern(text) }
    }

    pub fn same(self, other: Self) -> (r: bool)
        ensures
            r == (self == other),
    {
        same_symbol(self.name, other.name)
    }
}

/// The name of a structure.
#[derive(Copy, Clone, Debug, Hash, PartialEq, Eq)]
pub struct StructName {
    pub name: InternedString,
}

impl StructName {
    /// The structure name spelled `text`.
    pub fn new(text: &str) -> (r: Self) {
        StructName { name: intern(text) }
    }

    pub fn same(self, other: Self) -> (r: bool)
        ensures
            r == (self == other),
    {
        same_symbol(self.name, other.name)
    }
}

/// The name of a variable.
#[derive(Copy, Clone, Debug, Hash, PartialEq, Eq)]
pub struct Variable {
    pub name: InternedString,
}

impl Variable {
    /// The variable spelled `text`.
    pub fn new(text: &str) -> (r: Self) {
        Variable { name: intern(text) }
    }

    pub fn same(self, other: Self) -> (r: bool)
        ensures
            r == (self == other),
    {
        same_symbol(self.name, other.name)
    }
}

/// The name of a region.
#[derive(Copy, Clone, Debug, Hash, PartialEq, Eq)]
pub struct RegionName {
    pub name: InternedString,
}

impl RegionName {
    /// The region name spelled `text`.
    pub fn new(text: &str) -> (r: Self) {
        RegionName { name: intern(text) }
    }

    pub fn same(self, other: Self) -> (r: bool)
        ensures
            r == (self == other),
    {
        same_symbol(self.name, other.name)
    }
}

/// The name of a field.
#[derive(Copy, Clone, Debug, Hash, PartialEq, Eq)]
pub struct FieldName {
    pub name: InternedString,
}

impl FieldName {
    /// The field name `*`, which stands for a dereference.
    pub fn star() -> (r: Self) {
        FieldName { name: intern("*") }
    }

    /// The field name spelled `text`.
    pub fn new(text: &str) -> (r: Self) {
        FieldName { name: intern(text) }
    }

    pub fn same(self, other: Self) -> (r: bool)
        ensures
            r == (self == other),
    {
        same_symbol(self.name, other.name)
    }
}

#[derive(Copy, Clone, Debug, Hash, PartialEq, Eq, Structural)]
pub enum Kind {
    Region,
    Type,
}

#[derive(Copy, Clone, Debug, Hash, PartialEq, Eq, Structural)]
pub enum Variance {
    Co,
    Contra,
    In,
}

impl Variance {
    pub open spec fn inverted(self) -> Variance {
        match self {
            Variance::Co => Variance::Contra,
            Variance::Contra => Variance::Co,
            Variance::In => Variance::In,
        }
    }

    /// The variance of a position of variance `v` inside one of variance
    /// `self`.
    pub open spec fn composed(self, v: Variance) -> Variance {
        match self {
            Variance::Co => v,
            Variance::Contra => v.inverted(),
            Variance::In => Variance::In,
        }
    }

    pub fn invert(self) -> (r: Variance)
        ensures
            r == self.inverted(),
    {
        match self {
            Variance::Co => Variance::Contra,
            Variance::Contra => Variance::Co,
            Variance::In => Variance::In,
        }
    }

    pub fn xform(self, v: Variance) -> (r: Variance)
        ensures
            r == self.composed(v),
    {
        match self {
            Variance::Co => v,
            Variance::Contra => v.invert(),
            Variance::In => Variance::In,
        }
    }
}

#[derive(Copy, Clone, Debug, Hash, PartialEq, Eq, Structural)]
pub enum BorrowKind {
    Mut,
    Shared,
}

impl BorrowKind {
    /// The variance of the referent of a reference of this kind.
    pub open spec fn referent_variance(self) -> Variance {
        match self {
            BorrowKind::Mut => Variance::In,
            BorrowKind::Shared => Variance::Co,
        }
    }

    pub fn variance(self) -> (r: Variance)
        ensures
            r == self.referent_variance(),
    {
        match self {
            BorrowKind::Mut => Variance::In,
            BorrowKind::Shared => Variance::Co,
        }
    }
}

#[derive(Copy, Clone, Debug, Hash, PartialEq, Eq)]
pub struct StructParameter {
    pub kind: Kind,
    pub variance: Variance,
    pub may_dangle: bool,
}

#[derive(Copy, Clone, Debug, Hash, PartialEq, Eq)]
pub enum Region {
    Free(RegionName),
    Bound(usize),
}

#[derive(Debug)]
pub enum Ty {
    Ref(Region, BorrowKind, Box<Ty>),
    Unit,
    Struct(StructName, Vec<TyParameter>),
    Bound(usize),
}

#[derive(Debug)]
pub enum TyParameter {
    Region(Region),
    Ty(Box<Ty>),
}

/// What a type is, with its parameter lists as sequences.
pub ghost enum TyModel {
    Ref(Region, BorrowKind, Box<TyModel>),
    Unit,
    Struct(StructName, Seq<ParamModel>),
    Bound(usize),
}

/// What a type parameter is.
pub ghost enum ParamModel {
    Region(Region),
    Ty(Box<TyModel>),
}

impl Ty {
    pub open spec fn model(self) -> TyModel
        decreases self,
    {
        match self {
            Ty::Ref(r, k, t) => TyModel::Ref(r, k, Box::new(t.model())),
            Ty::Unit => TyModel::Unit,
            Ty::Struct(n, ps) => TyModel::Struct(n, param_models(ps)),
            Ty::Bound(b) => TyModel::Bound(b),
        }
    }
}

/// The models of the parameters of a list.
pub open spec fn param_models(ps: Vec<TyParameter>) -> Seq<ParamModel>
    decreases ps,
{
    Seq::new(
        ps.len() as nat,
        |i: int|
            if 0 <= i < ps.len() {
                ps[i].model()
            } else {
                ParamModel::Region(Region::Bound(0))
            },
    )
}

impl TyParameter {
    pub open spec fn model(self) -> ParamModel
        decreases self,
    {
        match self {
            TyParameter::Region(r) => ParamModel::Region(r),
            TyParameter::Ty(t) => ParamModel::Ty(Box::new(t.model())),
        }
    }
}

impl View for Ty {
    type V = TyModel;

    open spec fn view(&self) -> TyModel {
        self.model()
    }
}

impl View for TyParameter {
    type V = ParamModel;

    open spec fn view(&self) -> ParamModel {
        self.model()
    }
}

/// The models of a slice of parameters.
pub open spec fn models_of(ps: Seq<TyParameter>) -> Seq<ParamModel> {
    Seq::new(ps.len(), |i: int| ps[i]@)
}

/// The region that `r` stands for under the parameters `params`: a bound
/// region counts from the end of the list.
pub open spec fn subst_region(r: Region, params: Seq<ParamModel>) -> Result<Region, StructuralError> {
    match r {
        Region::Free(_) => Ok(r),
        Region::Bound(b) => if b < params.len() {
            match params[params.len() - 1 - b] {
                ParamModel::Region(r2) => Ok(r2),
                ParamModel::Ty(_) => Err(StructuralError::TypeMismatch),
            }
        } else {
            Err(StructuralError::UnexpectedBound)
        },
    }
}

/// The type that `t` stands for under the parameters `params`.
pub open spec fn subst_ty(t: TyModel, params: Seq<ParamModel>) -> Result<TyModel, StructuralError>
    decreases t, 0int,
{
    match t {
        TyModel::Bound(b) => if b < params.len() {
            match params[params.len() - 1 - b] {
                ParamModel::Ty(t2) => Ok(*t2),
                ParamModel::Region(_) => Err(StructuralError::TypeMismatch),
            }
        } else {
            Err(StructuralError::UnexpectedBound)
        },
        TyModel::Ref(r, kind, inner) => match subst_region(r, params) {
            Err(e) => Err(e),
            Ok(r2) => match subst_ty(*inner, params) {
                Err(e) => Err(e),
                Ok(t2) => Ok(TyModel::Ref(r2, kind, Box::new(t2))),
            },
        },
        TyModel::Unit => Ok(TyModel::Unit),
        TyModel::Struct(name, ps) => match subst_params(ps, params, ps.len() as int) {
            Err(e) => Err(e),
            Ok(qs) => Ok(TyModel::Struct(name, qs)),
        },
    }
}

/// The first `upto` parameters of `ps` under the parameters `params`, or the
/// error of the first that has one.
pub open spec fn subst_params(ps: Seq<ParamModel>, params: Seq<ParamModel>, upto: int) -> Result<
    Seq<ParamModel>,
    StructuralError,
>
    decreases ps, upto,
{
    if upto <= 0 || upto > ps.len() {
        Ok(Seq::empty())
    } else {
        match subst_params(ps, params, upto - 1) {
            Err(e) => Err(e),
            Ok(done) => match subst_param(ps[upto - 1], params) {
                Err(e) => Err(e),
                Ok(q) => Ok(done.push(q)),
            },
        }
    }
}

pub open spec fn subst_param(p: ParamModel, params: Seq<ParamModel>) -> Result<ParamModel, StructuralError>
    decreases p, 0int,
{
    match p {
        ParamModel::Region(r) => match subst_region(r, params) {
            Err(e) => Err(e),
            Ok(r2) => Ok(ParamModel::Region(r2)),
        },
        ParamModel::Ty(t) => match subst_ty(*t, params) {
            Err(e) => Err(e),
            Ok(t2) => Ok(ParamModel::Ty(Box::new(t2))),
        },
    }
}

/// The regions that occur in `t`, from left to right; an error where `t`
/// holds a bound type.
pub open spec fn regions_of(t: TyModel) -> Result<Seq<Region>, StructuralError>
    decreases t, 0int,
{
    match t {
        TyModel::Ref(r, _, inner) => match regions_of(*inner) {
            Err(e) => Err(e),
            Ok(rest) => Ok(seq![r] + rest),
        },
        TyModel::Unit => Ok(Seq::empty()),
        TyModel::Struct(_, ps) => regions_of_params(ps, ps.len() as int),
        TyModel::Bound(_) => Err(StructuralError::UnexpectedBound),
    }
}

/// The regions that occur in the first `upto` parameters of `ps`.
pub open spec fn regions_of_params(ps: Seq<ParamModel>, upto: int) -> Result<Seq<Region>, StructuralError>
    decreases ps, upto,
{
    if upto <= 0 || upto > ps.len() {
        Ok(Seq::empty())
    } else {
        match regions_of_params(ps, upto - 1) {
            Err(e) => Err(e),
            Ok(done) => match ps[upto - 1] {
                ParamModel::Region(r) => Ok(done.push(r)),
                ParamModel::Ty(t) => match regions_of(*t) {
                    Err(e) => Err(e),
                    Ok(more) => Ok(done + more),
                },
            },
        }
    }
}

/// What a result holding a type says of its model.
pub open spec fn ty_result(r: Result<Ty, StructuralError>) -> Result<TyModel, StructuralError> {
    match r {
        Ok(t) => Ok(t@),
        Err(e) => Err(e),
    }
}

/// What a result holding a boxed type says of its model.
pub open spec fn boxed_ty_result(r: Result<Box<Ty>, StructuralError>) -> Result<
    TyModel,
    StructuralError,
> {
    match r {
        Ok(t) => Ok(t@),
        Err(e) => Err(e),
    }
}

pub open spec fn param_result(r: Result<TyParameter, StructuralError>) -> Result<
    ParamModel,
    StructuralError,
> {
    match r {
        Ok(t) => Ok(t@),
        Err(e) => Err(e),
    }
}

impl Region {
    /// Replaces a bound region by the parameter that it stands for.
    pub fn subst(self, params: &[TyParameter]) -> (r: Result<Region, StructuralError>)
        ensures
            r == subst_region(self, models_of(params@)),
    {
        match self {
            Region::Free(_) => Ok(self),
            Region::Bound(b) => {
                if b < params.len() {
                    let index = params.len() - 1 - b;
                    match &params[index] {
                        TyParameter::Region(r) => Ok(*r),
                        TyParameter::Ty(_) => Err(StructuralError::TypeMismatch),
                    }
                } else {
                    Err(StructuralError::UnexpectedBound)
                }
            },
        }
    }

    /// The name of a free region; an error for a bound one.
    pub fn assert_free(self) -> (r: Result<RegionName, StructuralError>)
        ensures
            r == match self {
                Region::Free(n) => Ok::<RegionName, StructuralError>(n),
                Region::Bound(_) => Err(StructuralError::UnexpectedBound),
            },
    {
        match self {
            Region::Free(n) => Ok(n),
            Region::Bound(_) => Err(StructuralError::UnexpectedBound),
        }
    }

    pub fn same(self, other: Region) -> (r: bool)
        ensures
            r == (self == other),
    {
        match (self, other) {
            (Region::Free(a), Region::Free(b)) => a.same(b),
            (Region::Bound(a), Region::Bound(b)) => a == b,
            _ => false,
        }
    }
}

impl Ty {
    /// A copy of the type.
    pub fn dup(&self) -> (r: Ty)
        ensures
            r@ == self@,
        decreases self,
    {
        match self {
            Ty::Ref(region, kind, t) => Ty::Ref(*region, *kind, Box::new(t.dup())),
            Ty::Unit => Ty::Unit,
            Ty::Struct(name, ps) => {
                let mut out: Vec<TyParameter> = Vec::new();
                let mut i: usize = 0;
                while i < ps.len()
                    invariant
                        i <= ps.len(),
                        out.len() == i,
                        *self is Struct,
                        *ps == self->Struct_1,
                        forall|j: int| 0 <= j < i ==> out[j]@ == ps[j]@,
                    decreases ps.len() - i,
                {
                    assert(decreases_to!(*self => self->Struct_1));
                    assert(decreases_to!(*ps => ps[i as int]));
                    out.push(ps[i].dup());
                    i += 1;
                }
                assert(param_models(out) =~= param_models(*ps));
                Ty::Struct(*name, out)
            },
            Ty::Bound(b) => Ty::Bound(*b),
        }
    }

    /// Replaces the bound types and regions of the type by the parameters
    /// that they stand for.
    pub fn subst(&self, params: &[TyParameter]) -> (r: Result<Ty, StructuralError>)
        ensures
            ty_result(r) == subst_ty(self@, models_of(params@)),
        decreases self,
    {
        match self {
            Ty::Bound(b) => {
                if *b < params.len() {
                    let index = params.len() - 1 - *b;
                    match &params[index] {
                        TyParameter::Ty(t) => Ok(t.dup()),
                        TyParameter::Region(_) => Err(StructuralError::TypeMismatch),
                    }
                } else {
                    Err(StructuralError::UnexpectedBound)
                }
            },
            Ty::Ref(region, kind, t) => {
                match region.subst(params) {
                    Err(e) => Err(e),
                    Ok(r2) => match t.subst(params) {
                        Err(e) => Err(e),
                        Ok(t2) => Ok(Ty::Ref(r2, *kind, Box::new(t2))),
                    },
                }
            },
            Ty::Unit => Ok(Ty::Unit),
            Ty::Struct(name, ps) => {
                let mut out: Vec<TyParameter> = Vec::new();
                let mut i: usize = 0;
                let ghost pm = param_models(*ps);
                let ghost target = models_of(params@);
                assert(param_models(out) =~= Seq::<ParamModel>::empty());
                while i < ps.len()
                    invariant
                        i <= ps.len(),
                        out.len() == i,
                        *self is Struct,
                        *ps == self->Struct_1,
                        pm == param_models(*ps),
                        target == models_of(params@),
                        subst_params(pm, target, i as int) == Ok::<Seq<ParamModel>, StructuralError>(
                            param_models(out),
                        ),
                    decreases ps.len() - i,
                {
                    assert(decreases_to!(*self => self->Struct_1));
                    assert(decreases_to!(*ps => ps[i as int]));
                    let ghost before = param_models(out);
                    assert(pm[i as int] == ps[i as int]@);
                    match ps[i].subst(params) {
                        Err(e) => {
                            proof {
                                assert(subst_params(pm, target, i as int + 1) == Err::<
                                    Seq<ParamModel>,
                                    StructuralError,
                                >(e));
                                lemma_subst_params_err(pm, target, i as int + 1, ps.len() as int);
                            }
                            return Err(e);
                        },
                        Ok(q) => {
                            out.push(q);
                            assert(param_models(out) =~= before.push(q@));
                        },
                    }
                    i += 1;
                }
                Ok(Ty::Struct(*name, out))
            },
        }
    }

    /// The regions that occur in the type, from left to right.
    pub fn walk_regions(&self) -> (r: Result<Vec<Region>, StructuralError>)
        ensures
            match r {
                Ok(v) => regions_of(self@) == Ok::<Seq<Region>, StructuralError>(v@),
                Err(e) => regions_of(self@) == Err::<Seq<Region>, StructuralError>(e),
            },
        decreases self,
    {
        match self {
            Ty::Ref(region, _, t) => {
                match t.walk_regions() {
                    Err(e) => Err(e),
                    Ok(rest) => {
                        let mut out: Vec<Region> = Vec::new();
                        out.push(*region);
                        let mut i: usize = 0;
                        while i < rest.len()
                            invariant
                                i <= rest.len(),
                                out@ == seq![*region] + rest@.subrange(0, i as int),
                            decreases rest.len() - i,
                        {
                            out.push(rest[i]);
                            assert(rest@.subrange(0, i as int + 1) =~= rest@.subrange(0, i as int).push(
                                rest@[i as int],
                            ));
                            assert(out@ =~= seq![*region] + rest@.subrange(0, i as int + 1));
                            i += 1;
                        }
                        assert(rest@.subrange(0, rest@.len() as int) =~= rest@);
                        Ok(out)
                    },
                }
            },
            Ty::Unit => Ok(Vec::new()),
            Ty::Struct(_, ps) => {
                let mut out: Vec<Region> = Vec::new();
                let mut i: usize = 0;
                let ghost pm = param_models(*ps);
                while i < ps.len()
                    invariant
                        i <= ps.len(),
                        *self is Struct,
                        *ps == self->Struct_1,
                        pm == param_models(*ps),
                        regions_of_params(pm, i as int) == Ok::<Seq<Region>, StructuralError>(out@),
                    decreases ps.len() - i,
                {
                    assert(decreases_to!(*self => self->Struct_1));
                    assert(decreases_to!(*ps => ps[i as int]));
                    assert(pm[i as int] == ps[i as int]@);
                    match &ps[i] {
                        TyParameter::Region(region) => {
                            out.push(*region);
                        },
                        TyParameter::Ty(t) => {
                            assert(decreases_to!(ps[i as int] => ps[i as int]->Ty_0));
                            match t.walk_regions() {
                                Err(e) => {
                                    proof {
                                        assert(regions_of_params(pm, i as int + 1) == Err::<
                                            Seq<Region>,
                                            StructuralError,
                                        >(e));
                                        lemma_regions_of_params_err(pm, i as int + 1, ps.len() as int);
                                    }
                                    return Err(e);
                                },
                                Ok(more) => {
                                    let ghost before = out@;
                                    let mut j: usize = 0;
                                    while j < more.len()
                                        invariant
                                            j <= more.len(),
                                            out@ == before + more@.subrange(0, j as int),
                                        decreases more.len() - j,
                                    {
                                        out.push(more[j]);
                                        assert(more@.subrange(0, j as int + 1) =~= more@.subrange(
                                            0,
                                            j as int,
                                        ).push(more@[j as int]));
                                        assert(out@ =~= before + more@.subrange(0, j as int + 1));
                                        j += 1;
                                    }
                                    assert(more@.subrange(0, more@.len() as int) =~= more@);
                                },
                            }
                        },
                    }
                    i += 1;
                }
                Ok(out)
            },
            Ty::Bound(_) => Err(StructuralError::UnexpectedBound),
        }
    }
}

/// An error among the first parameters is the error of the whole list.
pub proof fn lemma_subst_params_err(ps: Seq<ParamModel>, params: Seq<ParamModel>, at: int, upto: int)
    requires
        0 < at <= upto <= ps.len(),
        subst_params(ps, params, at) is Err,
    ensures
        subst_params(ps, params, upto) == subst_params(ps, params, at),
    decreases upto - at,
{
    if at < upto {
        lemma_subst_params_err(ps, params, at, upto - 1);
    }
}

/// An error among the first parameters is the error of the whole list.
pub proof fn lemma_regions_of_params_err(ps: Seq<ParamModel>, at: int, upto: int)
    requires
        0 < at <= upto <= ps.len(),
        regions_of_params(ps, at) is Err,
    ensures
        regions_of_params(ps, upto) == regions_of_params(ps, at),
    decreases upto - at,
{
    if at < upto {
        lemma_regions_of_params_err(ps, at, upto - 1);
    }
}

impl TyParameter {
    /// A copy of the parameter.
    pub fn dup(&self) -> (r: TyParameter)
        ensures
            r@ == self@,
        decreases self,
    {
        match self {
            TyParameter::Region(r) => TyParameter::Region(*r),
            TyParameter::Ty(t) => TyParameter::Ty(Box::new(t.dup())),
        }
    }

    pub fn subst(&self, params: &[TyParameter]) -> (r: Result<TyParameter, StructuralError>)
        ensures
            param_result(r) == subst_param(self@, models_of(params@)),
        decreases self,
    {
        match self {
            TyParameter::Region(r) => match r.subst(params) {
                Err(e) => Err(e),
                Ok(r2) => Ok(TyParameter::Region(r2)),
            },
            TyParameter::Ty(t) => match t.subst(params) {
                Err(e) => Err(e),
                Ok(t2) => Ok(TyParameter::Ty(Box::new(t2))),
            },
        }
    }
}

#[derive(Debug)]
pub enum Path {
    /// A variable.
    Var(Variable),
    /// A field of what a path names; the field `*` is a dereference.
    Extension(Box<Path>, FieldName),
}

/// The variable that a path starts from.
pub open spec fn base_of(path: Path) -> Variable
    decreases path,
{
    match path {
        Path::Var(v) => v,
        Path::Extension(p, _) => base_of(*p),
    }
}

/// The path and all its prefixes, the longest first: for `a.b.c` these are
/// `a.b.c`, `a.b` and `a`.
pub open spec fn prefixes_of(path: Path) -> Seq<Path>
    decreases path,
{
    match path {
        Path::Var(_) => seq![path],
        Path::Extension(p, _) => seq![path] + prefixes_of(*p),
    }
}

/// `prefix` is `path` or a prefix of it.
pub open spec fn is_prefix_of(prefix: Path, path: Path) -> bool {
    prefixes_of(path).contains(prefix)
}

impl Path {
    pub fn base(&self) -> (v: Variable)
        ensures
            v == base_of(*self),
        decreases self,
    {
        match self {
            Path::Var(v) => *v,
            Path::Extension(e, _) => e.base(),
        }
    }

    /// If the path is `a.b.c`, returns `a.b.c`, `a.b`, and `a`.
    pub fn prefixes(&self) -> (r: Vec<&Path>)
        ensures
            r@.len() == prefixes_of(*self).len(),
            forall|i: int| 0 <= i < r@.len() ==> *r@[i] == prefixes_of(*self)[i],
    {
        let mut this = self;
        let mut result: Vec<&Path> = Vec::new();
        loop
            invariant
                prefixes_of(*self).len() == result@.len() + prefixes_of(*this).len(),
                forall|i: int| 0 <= i < result@.len() ==> *result@[i] == prefixes_of(*self)[i],
                forall|i: int|
                    0 <= i < prefixes_of(*this).len() ==> prefixes_of(*this)[i] == prefixes_of(*self)[result@.len()
                        + i],
            decreases this,
        {
            proof {
                assert(prefixes_of(*this)[0] == *this);
            }
            result.push(this);
            match this {
                Path::Var(_) => {
                    return result;
                },
                Path::Extension(base, _) => {
                    proof {
                        let inner = prefixes_of(**base);
                        assert forall|i: int| 0 <= i < inner.len() implies inner[i] == prefixes_of(
                            *self,
                        )[result@.len() + i] by {
                            assert(prefixes_of(*this)[i + 1] == inner[i]);
                        }
                    }
                    this = base;
                },
            }
        }
    }

    /// When you have `p = ...`, which variable is reassigned? If this is
    /// `p = x`, then `x` is. Otherwise, nothing.
    pub fn write_def(&self) -> (r: Option<Variable>)
        ensures
            r == match *self {
                Path::Var(v) => Some(v),
                Path::Extension(..) => None,
            },
    {
        match self {
            Path::Var(v) => Some(*v),
            Path::Extension(..) => None,
        }
    }

    /// When you have `p = ...`, which variable is read? If this is
    /// `p = x.0`, then `x` is. Otherwise, nothing.
    pub fn write_use(&self) -> (r: Option<Variable>)
        ensures
            r == match *self {
                Path::Var(_) => None,
                Path::Extension(..) => Some(base_of(*self)),
            },
    {
        match self {
            Path::Var(..) => None,
            Path::Extension(..) => Some(self.base()),
        }
    }

    /// Whether the two paths are the same path.
    pub fn same(&self, other: &Path) -> (r: bool)
        ensures
            r == (*self == *other),
        decreases self,
    {
        match (self, other) {
            (Path::Var(a), Path::Var(b)) => a.same(*b),
            (Path::Extension(p, f), Path::Extension(q, g)) => f.same(*g) && p.same(q),
            _ => false,
        }
    }

    /// A copy of the path.
    pub fn dup(&self) -> (r: Path)
        ensures
            r == *self,
        decreases self,
    {
        match self {
            Path::Var(v) => Path::Var(*v),
            Path::Extension(p, f) => Path::Extension(Box::new(p.dup()), *f),
        }
    }

    /// Whether `self` is `path` or a prefix of it.
    pub fn is_prefix(&self, path: &Path) -> (r: bool)
        ensures
            r == is_prefix_of(*self, *path),
        decreases path,
    {
        if self.same(path) {
            proof {
                assert(prefixes_of(*path)[0] == *path);
            }
            true
        } else {
            match path {
                Path::Var(_) => {
                    proof {
                        if prefixes_of(*path).contains(*self) {
                            let i = choose|i: int|
                                0 <= i < prefixes_of(*path).len() && prefixes_of(*path)[i] == *self;
                        }
                    }
                    false
                },
                Path::Extension(base, _) => {
                    let r = self.is_prefix(base);
                    proof {
                        let all = prefixes_of(*path);
                        let inner = prefixes_of(**base);
                        if inner.contains(*self) {
                            let i = choose|i: int| 0 <= i < inner.len() && inner[i] == *self;
                            assert(all[i + 1] == *self);
                        }
                        if all.contains(*self) {
                            let i = choose|i: int| 0 <= i < all.len() && all[i] == *self;
                            assert(inner[i - 1] == *self);
                        }
                    }
                    r
                },
            }
        }
    }
}

#[derive(Debug)]
pub struct FieldDecl {
    pub name: FieldName,
    pub ty: Box<Ty>,
}

#[derive(Debug)]
pub struct StructDecl {
    pub name: StructName,
    pub parameters: Vec<StructParameter>,
    pub fields: Vec<FieldDecl>,
}

/// Index of the first of the first `upto` fields that bears the name `name`.
pub open spec fn field_index(fields: Seq<FieldDecl>, name: FieldName, upto: int) -> Option<int>
    decreases upto,
{
    if upto <= 0 || upto > fields.len() {
        None
    } else {
        match field_index(fields, name, upto - 1) {
            Some(i) => Some(i),
            None => if fields[upto - 1].name == name {
                Some(upto - 1)
            } else {
                None
            },
        }
    }
}

impl StructDecl {
    /// The first field that bears the name `field_name`.
    pub fn field_decl(&self, field_name: &FieldName) -> (r: Option<&FieldDecl>)
        ensures
            match r {
                Some(fd) => field_index(self.fields@, *field_name, self.fields@.len() as int) matches Some(
                    i,
                ) && 0 <= i < self.fields@.len() && *fd == self.fields@[i],
                None => field_index(self.fields@, *field_name, self.fields@.len() as int) is None,
            },
    {
        let mut i: usize = 0;
        while i < self.fields.len()
            invariant
                i <= self.fields.len(),
                field_index(self.fields@, *field_name, i as int) is None,
            decreases self.fields.len() - i,
        {
            if self.fields[i].name.same(*field_name) {
                proof {
                    lemma_field_index_found(
                        self.fields@,
                        *field_name,
                        i as int + 1,
                        self.fields@.len() as int,
                    );
                }
                return Some(&self.fields[i]);
            }
            i += 1;
        }
        None
    }
}

/// A field found among the first fields is the field found among all.
pub proof fn lemma_field_index_found(fields: Seq<FieldDecl>, name: FieldName, at: int, upto: int)
    requires
        0 < at <= upto <= fields.len(),
        field_index(fields, name, at) is Some,
    ensures
        field_index(fields, name, upto) == field_index(fields, name, at),
    decreases upto - at,
{
    if at < upto {
        lemma_field_index_found(fields, name, at, upto - 1);
    }
}

#[derive(Debug)]
pub struct RegionDecl {
    pub name: RegionName,
    /// The regions that this one outlives.
    pub outlives: Vec<RegionName>,
}

#[derive(Debug)]
pub struct VariableDecl {
    pub var: Variable,
    pub ty: Box<Ty>,
}

#[derive(Copy, Clone, Debug, Hash, PartialEq, Eq)]
pub struct OutlivesConstraint {
    pub sup: RegionName,
    pub sub: RegionName,
}

#[derive(Debug)]
pub enum Constraint {
    ForAll(Vec<RegionName>, Box<Constraint>),
    Exists(Vec<RegionName>, Box<Constraint>),
    Implies(Vec<OutlivesConstraint>, Box<Constraint>),
    All(Vec<Constraint>),
    Outlives(OutlivesConstraint),
}

#[derive(Debug)]
pub enum ActionKind {
    /// `p = use(...)`
    Init(Box<Path>, Vec<Box<Path>>),
    /// `p = &'X q`
    Borrow(Box<Path>, RegionName, BorrowKind, Box<Path>),
    /// `p = q`
    Assign(Box<Path>, Box<Path>),
    Constraint(Box<Constraint>),
    /// `use(p)`
    Use(Box<Path>),
    /// `drop(p)`
    Drop(Box<Path>),
    /// The variable goes out of scope. This counts neither as a use nor as
    /// a drop, but the borrow checker looks at it.
    StorageDead(Variable),
    /// The one action of the block that stands for the end of a free
    /// region. No program text produces it.
    SkolemizedEnd(RegionName),
    Noop,
}

#[derive(Debug)]
pub struct Action {
    pub kind: ActionKind,
    /// Where the action is expected to be refused: a text that the
    /// diagnostic must contain.
    pub should_have_error: Option<String>,
}

#[derive(Debug)]
pub struct BasicBlockData {
    pub name: BasicBlock,
    pub actions: Vec<Action>,
    pub successors: Vec<BasicBlock>,
}

#[derive(Copy, Clone, Debug, Hash, PartialEq, Eq)]
pub enum PointName {
    Code(BasicBlock),
    SkolemizedEnd(RegionName),
}

#[derive(Copy, Clone, Debug, Hash, PartialEq, Eq)]
pub struct Point {
    pub block: PointName,
    pub action: usize,
}

#[derive(Debug)]
pub struct RegionLiteral {
    pub points: Vec<Point>,
}

#[derive(Debug)]
pub enum Assertion {
    Eq(RegionName, RegionLiteral),
    In(RegionName, Point),
    NotIn(RegionName, Point),
    Live(Variable, BasicBlock),
    NotLive(Variable, BasicBlock),
    RegionLive(RegionName, BasicBlock),
    RegionNotLive(RegionName, BasicBlock),
}

/// A function: its variables, structures, free regions, blocks and
/// assertions.
#[derive(Debug)]
pub struct Func {
    pub decls: Vec<VariableDecl>,
    pub structs: Vec<StructDecl>,
    pub regions: Vec<RegionDecl>,
    pub data: Vec<BasicBlockData>,
    pub assertions: Vec<Assertion>,
}

} // verus!
