//! Interned types: a [`Ty`] is an index into a [`TyCtx`]'s table of kinds.

use vstd::prelude::*;
use crate::ast::Mutability;
use crate::hir::{DefId, HirId};
use crate::nameres::res::PrimTy;

verus! {

#[derive(Clone, Copy, Debug, PartialEq, Eq, Structural)]
pub struct Ty(pub u32);

#[derive(Clone, Debug)]
pub enum TyKind {
    Primitive(PrimTy),
    Adt { def: DefId, args: Vec<Ty> },
    Dyn { trait_: DefId, args: Vec<Ty> },
    Ref { base: Ty, mutability: Mutability },
    Any(Ty),
    Iso(Ty),
    Tuple(Vec<Ty>),
    Array { elem: Ty, len: Option<u64> },
    Fun { params: Vec<Ty>, ret: Option<Ty> },
    Unit,
    Never,
    Error,
    Var(u32),
    Generic(HirId),
    SelfTy(DefId),
}

/// The field types of one instance of a struct or enum, its generic arguments substituted.
#[derive(Clone, Debug)]
pub struct AdtFields {
    /// The instance: an `Adt` type of the table.
    pub ty: Ty,
    /// A struct's one list of fields, or each variant's own.
    pub variants: Vec<Vec<Ty>>,
    pub is_enum: bool,
}

/// The type table. Every type's components are interned before it, so they have smaller ids.
pub struct TyCtx {
    kinds: Vec<TyKind>,
    adts: Vec<AdtFields>,
}

/// The types a kind is built from.
pub open spec fn components(kind: TyKind) -> Seq<Ty> {
    match kind {
        TyKind::Adt { args, .. } => args@,
        TyKind::Dyn { args, .. } => args@,
        TyKind::Ref { base, .. } => seq![base],
        TyKind::Any(b) => seq![b],
        TyKind::Iso(b) => seq![b],
        TyKind::Tuple(elems) => elems@,
        TyKind::Array { elem, .. } => seq![elem],
        TyKind::Fun { params, ret } => match ret {
            Some(r) => params@.push(r),
            None => params@,
        },
        _ => Seq::empty(),
    }
}

/// Whether type `t` of `kinds` is, or is built from, a reference.
pub open spec fn ref_within(kinds: Seq<TyKind>, t: int) -> bool
    decreases t, components(kinds[t]).len() + 1,
{
    if t < 0 || t >= kinds.len() {
        false
    } else {
        match kinds[t] {
            TyKind::Ref { .. } => true,
            k => ref_among(kinds, components(k), t, components(k).len() as int),
        }
    }
}

/// Whether one of the first `i` of `comps`, the components of type `t`, holds a reference.
pub open spec fn ref_among(kinds: Seq<TyKind>, comps: Seq<Ty>, t: int, i: int) -> bool
    decreases t, i,
{
    if i <= 0 {
        false
    } else {
        ref_among(kinds, comps, t, i - 1) || (comps[i - 1].0 < t && ref_within(kinds, comps[i - 1].0 as int))
    }
}

/// Whether a value of type `t` of `kinds` is copied bit for bit rather than moved: primitives,
/// shared references, function values, unit and never, and tuples and arrays of such.
pub open spec fn copy_within(kinds: Seq<TyKind>, t: int) -> bool
    decreases t, components(kinds[t]).len() + 1,
{
    if t < 0 || t >= kinds.len() {
        false
    } else {
        match kinds[t] {
            TyKind::Primitive(_) => true,
            TyKind::Ref { mutability, .. } => mutability == Mutability::Immutable,
            TyKind::Fun { .. } => true,
            TyKind::Unit => true,
            TyKind::Never => true,
            TyKind::Tuple(elems) => copy_among(kinds, elems@, t, elems@.len() as int),
            TyKind::Array { elem, .. } => copy_among(kinds, seq![elem], t, 1),
            _ => false,
        }
    }
}

/// Whether each of the first `i` of `comps`, components of type `t`, is copied.
pub open spec fn copy_among(kinds: Seq<TyKind>, comps: Seq<Ty>, t: int, i: int) -> bool
    decreases t, i,
{
    if i <= 0 {
        true
    } else {
        copy_among(kinds, comps, t, i - 1) && comps[i - 1].0 < t && copy_within(kinds, comps[i - 1].0 as int)
    }
}

/// The first of the first `n` declarations that is for instance `ty`.
pub open spec fn first_adt(adts: Seq<AdtFields>, ty: Ty, n: int) -> Option<AdtFields>
    decreases n,
{
    if n <= 0 {
        None
    } else {
        match first_adt(adts, ty, n - 1) {
            Some(a) => Some(a),
            None => if adts[n - 1].ty == ty { Some(adts[n - 1]) } else { None },
        }
    }
}

proof fn lemma_first_adt(adts: Seq<AdtFields>, ty: Ty, n: int, i: int)
    requires
        0 <= i < n <= adts.len(),
        adts[i].ty == ty,
        forall|j: int| 0 <= j < i ==> adts[j].ty != ty,
    ensures
        first_adt(adts, ty, n) == Some(adts[i]),
    decreases n,
{
    if n - 1 > i {
        lemma_first_adt(adts, ty, n - 1, i);
    } else {
        lemma_first_adt_none(adts, ty, i);
    }
}

proof fn lemma_first_adt_none(adts: Seq<AdtFields>, ty: Ty, n: int)
    requires
        0 <= n <= adts.len(),
        forall|j: int| 0 <= j < n ==> adts[j].ty != ty,
    ensures
        first_adt(adts, ty, n) is None,
    decreases n,
{
    if n > 0 {
        lemma_first_adt_none(adts, ty, n - 1);
    }
}

proof fn lemma_first_adt_member(adts: Seq<AdtFields>, ty: Ty, n: int)
    requires
        0 <= n <= adts.len(),
    ensures
        first_adt(adts, ty, n) matches Some(a) ==> exists|i: int| 0 <= i < n && adts[i] == a,
    decreases n,
{
    if n > 0 {
        lemma_first_adt_member(adts, ty, n - 1);
    }
}

/// The declared fields of instance `ty` are types of the table.
proof fn lemma_adt_fields_in_table(tcx: TyCtx, ty: Ty)
    requires
        tcx.wf(),
    ensures
        tcx.adt_of(ty) matches Some(a) ==> forall|v: int, f: int|
            0 <= v < a.variants@.len() && 0 <= f < a.variants@[v]@.len() ==> tcx.has(#[trigger] a.variants@[v]@[f]),
{
    lemma_first_adt_member(tcx.adts_view(), ty, tcx.adts_view().len() as int);
}

/// Whether dropping a value of type `t` runs code, within `fuel` steps of by-value containment:
/// an `iso` allocation, or a function value, which may own its environment, is dropped.
pub open spec fn drop_within(tcx: TyCtx, t: Ty, fuel: nat) -> bool
    decreases fuel, 0nat, 0nat,
{
    if fuel == 0 || !tcx.has(t) {
        false
    } else {
        match tcx.kind_of(t) {
            TyKind::Iso(_) => true,
            TyKind::Fun { .. } => true,
            TyKind::Any(inner) => drop_within(tcx, inner, (fuel - 1) as nat),
            TyKind::Tuple(elems) => drop_among(tcx, elems@, (fuel - 1) as nat, elems@.len()),
            TyKind::Array { elem, .. } => drop_among(tcx, seq![elem], (fuel - 1) as nat, 1),
            TyKind::Adt { .. } => match tcx.adt_of(t) {
                Some(a) => drop_variants(tcx, a.variants@, (fuel - 1) as nat, a.variants@.len()),
                None => false,
            },
            _ => false,
        }
    }
}

/// Whether any of the first `i` of `tys` needs dropping within `fuel` steps.
pub open spec fn drop_among(tcx: TyCtx, tys: Seq<Ty>, fuel: nat, i: nat) -> bool
    decreases fuel, 1nat, i,
{
    if i == 0 {
        false
    } else {
        drop_among(tcx, tys, fuel, (i - 1) as nat) || drop_within(tcx, tys[i - 1], fuel)
    }
}

/// Whether a field of any of the first `i` variants needs dropping within `fuel` steps.
pub open spec fn drop_variants(tcx: TyCtx, variants: Seq<Vec<Ty>>, fuel: nat, i: nat) -> bool
    decreases fuel, 2nat, i,
{
    if i == 0 {
        false
    } else {
        drop_variants(tcx, variants, fuel, (i - 1) as nat) || drop_among(tcx, variants[i - 1]@, fuel, variants[i - 1]@.len())
    }
}

/// `a` and `b` are built by the same constructor with the same non-type fields and the same
/// number of components.
pub open spec fn shape_same(a: TyKind, b: TyKind) -> bool {
    match (a, b) {
        (TyKind::Primitive(x), TyKind::Primitive(y)) => x == y,
        (TyKind::Adt { def: d1, args: x }, TyKind::Adt { def: d2, args: y }) => d1 == d2 && x@.len() == y@.len(),
        (TyKind::Dyn { trait_: t1, args: x }, TyKind::Dyn { trait_: t2, args: y }) => t1 == t2 && x@.len() == y@.len(),
        (TyKind::Ref { mutability: m1, .. }, TyKind::Ref { mutability: m2, .. }) => m1 == m2,
        (TyKind::Any(_), TyKind::Any(_)) => true,
        (TyKind::Iso(_), TyKind::Iso(_)) => true,
        (TyKind::Tuple(x), TyKind::Tuple(y)) => x@.len() == y@.len(),
        (TyKind::Array { len: l1, .. }, TyKind::Array { len: l2, .. }) => l1 == l2,
        (TyKind::Fun { params: p1, ret: r1 }, TyKind::Fun { params: p2, ret: r2 }) => p1@.len() == p2@.len() && r1.is_some() == r2.is_some(),
        (TyKind::Unit, TyKind::Unit) => true,
        (TyKind::Never, TyKind::Never) => true,
        (TyKind::Error, TyKind::Error) => true,
        (TyKind::Var(x), TyKind::Var(y)) => x == y,
        (TyKind::Generic(x), TyKind::Generic(y)) => x == y,
        (TyKind::SelfTy(x), TyKind::SelfTy(y)) => x == y,
        _ => false,
    }
}

/// `a` and `b` denote the same type: the same shape over the same components.
pub open spec fn same_kind(a: TyKind, b: TyKind) -> bool {
    shape_same(a, b) && components(a) == components(b)
}

proof fn lemma_same_kind_refl(a: TyKind)
    ensures
        same_kind(a, a),
{
}

proof fn lemma_same_kind_symmetric(a: TyKind, b: TyKind)
    requires
        same_kind(a, b),
    ensures
        same_kind(b, a),
{
}

fn tys_eq(a: &Vec<Ty>, b: &Vec<Ty>) -> (r: bool)
    ensures
        r == (a@ == b@),
{
    if a.len() != b.len() {
        return false;
    }
    let mut i: usize = 0;
    while i < a.len()
        invariant
            a@.len() == b@.len(),
            i <= a@.len(),
            forall|j: int| 0 <= j < i ==> a@[j] == b@[j],
        decreases a@.len() - i,
    {
        if a[i] != b[i] {
            return false;
        }
        i = i + 1;
    }
    assert(a@ =~= b@);
    true
}

/// Whether two kinds denote the same type.
pub fn kind_eq(a: &TyKind, b: &TyKind) -> (r: bool)
    ensures
        r == same_kind(*a, *b),
{
    match (a, b) {
        (TyKind::Primitive(x), TyKind::Primitive(y)) => *x == *y,
        (TyKind::Adt { def: d1, args: x }, TyKind::Adt { def: d2, args: y }) => *d1 == *d2 && tys_eq(x, y),
        (TyKind::Dyn { trait_: t1, args: x }, TyKind::Dyn { trait_: t2, args: y }) => *t1 == *t2 && tys_eq(x, y),
        (TyKind::Ref { base: b1, mutability: m1 }, TyKind::Ref { base: b2, mutability: m2 }) => {
            assert(seq![*b1][0] == *b1 && seq![*b2][0] == *b2);
            *m1 == *m2 && *b1 == *b2
        },
        (TyKind::Any(x), TyKind::Any(y)) => {
            assert(seq![*x][0] == *x && seq![*y][0] == *y);
            *x == *y
        },
        (TyKind::Iso(x), TyKind::Iso(y)) => {
            assert(seq![*x][0] == *x && seq![*y][0] == *y);
            *x == *y
        },
        (TyKind::Tuple(x), TyKind::Tuple(y)) => tys_eq(x, y),
        (TyKind::Array { elem: e1, len: l1 }, TyKind::Array { elem: e2, len: l2 }) => {
            assert(seq![*e1][0] == *e1 && seq![*e2][0] == *e2);
            *e1 == *e2 && *l1 == *l2
        },
        (TyKind::Fun { params: p1, ret: r1 }, TyKind::Fun { params: p2, ret: r2 }) => {
            let same_ret = match (r1, r2) {
                (Some(x), Some(y)) => *x == *y,
                (None, None) => true,
                _ => false,
            };
            let same_params = tys_eq(p1, p2);
            proof {
                let n = p1@.len() as int;
                match (r1, r2) {
                    (Some(x), Some(y)) => {
                        if p1@.push(*x) == p2@.push(*y) {
                            assert(p1@.push(*x).subrange(0, n) =~= p1@);
                            assert(p2@.push(*y).subrange(0, p2@.len() as int) =~= p2@);
                            assert(p1@.push(*x)[n] == *x);
                            assert(p2@.push(*y)[p2@.len() as int] == *y);
                        }
                    },
                    _ => {},
                }
            }
            same_params && same_ret
        },
        (TyKind::Unit, TyKind::Unit) => true,
        (TyKind::Never, TyKind::Never) => true,
        (TyKind::Error, TyKind::Error) => true,
        (TyKind::Var(x), TyKind::Var(y)) => *x == *y,
        (TyKind::Generic(x), TyKind::Generic(y)) => *x == *y,
        (TyKind::SelfTy(x), TyKind::SelfTy(y)) => *x == *y,
        _ => false,
    }
}

/// `t1` holds every type of `t0` unchanged, and the same declarations.
pub open spec fn extends(t1: TyCtx, t0: TyCtx) -> bool {
    &&& t0.kinds_view().len() <= t1.kinds_view().len()
    &&& forall|i: int| 0 <= i < t0.kinds_view().len() ==> t1.kinds_view()[i] == t0.kinds_view()[i]
    &&& t1.adts_view() == t0.adts_view()
}

impl TyCtx {
    pub closed spec fn kinds_view(&self) -> Seq<TyKind> {
        self.kinds@
    }

    pub closed spec fn adts_view(&self) -> Seq<AdtFields> {
        self.adts@
    }

    pub open spec fn has(&self, ty: Ty) -> bool {
        (ty.0 as int) < self.kinds_view().len()
    }

    pub open spec fn kind_of(&self, ty: Ty) -> TyKind {
        self.kinds_view()[ty.0 as int]
    }

    /// Components come first, and every ADT's field types are in the table.
    pub open spec fn wf(&self) -> bool {
        &&& self.kinds_view().len() < u32::MAX
        &&& forall|t: int, k: int|
            0 <= t < self.kinds_view().len() && 0 <= k < components(self.kinds_view()[t]).len()
                ==> (#[trigger] components(self.kinds_view()[t])[k]).0 < t
        &&& forall|a: int, v: int, f: int|
            0 <= a < self.adts_view().len() && 0 <= v < self.adts_view()[a].variants@.len() && 0 <= f
                < self.adts_view()[a].variants@[v]@.len() ==> self.has(
                #[trigger] self.adts_view()[a].variants@[v]@[f],
            )
    }

    pub fn new() -> (t: TyCtx)
        ensures
            t.wf(),
            t.kinds_view().len() == 0,
            t.adts_view().len() == 0,
    {
        TyCtx { kinds: Vec::new(), adts: Vec::new() }
    }

    /// Interns `kind`, whose components must already be interned: an equal kind already in
    /// the table is returned, otherwise `kind` is added.
    pub fn mk(&mut self, kind: TyKind) -> (ty: Ty)
        requires
            old(self).wf(),
            old(self).kinds_view().len() + 1 < u32::MAX,
            forall|k: int| 0 <= k < components(kind).len() ==> old(self).has(#[trigger] components(kind)[k]),
        ensures
            final(self).wf(),
            extends(*final(self), *old(self)),
            final(self).has(ty),
            same_kind(final(self).kind_of(ty), kind),
            final(self).kinds_view() == old(self).kinds_view() || final(self).kinds_view() == old(self).kinds_view().push(kind),
    {
        match self.try_mk(kind) {
            Some(ty) => ty,
            None => Ty(0),
        }
    }

    /// Interns `kind` like [`TyCtx::mk`], or gives `None` when `kind` is new and the table has
    /// no id left for it.
    pub fn try_mk(&mut self, kind: TyKind) -> (r: Option<Ty>)
        requires
            old(self).wf(),
            forall|k: int| 0 <= k < components(kind).len() ==> old(self).has(#[trigger] components(kind)[k]),
        ensures
            final(self).wf(),
            extends(*final(self), *old(self)),
            final(self).kinds_view() == old(self).kinds_view() || final(self).kinds_view() == old(self).kinds_view().push(kind),
            match r {
                Some(ty) => final(self).has(ty) && same_kind(final(self).kind_of(ty), kind),
                None => old(self).kinds_view().len() + 1 >= u32::MAX && final(self).kinds_view() == old(self).kinds_view(),
            },
    {
        let mut i: usize = 0;
        while i < self.kinds.len()
            invariant
                i <= self.kinds@.len(),
                *self == *old(self),
                self.wf(),
            decreases self.kinds@.len() - i,
        {
            if kind_eq(&self.kinds[i], &kind) {
                proof {
                    lemma_same_kind_symmetric(self.kinds@[i as int], kind);
                }
                return Some(Ty(i as u32));
            }
            i = i + 1;
        }
        let n = self.kinds.len();
        if n + 1 >= u32::MAX as usize {
            return None;
        }
        proof {
            lemma_same_kind_refl(kind);
        }
        self.kinds.push(kind);
        proof {
            assert forall|t: int, k: int|
                0 <= t < self.kinds_view().len() && 0 <= k < components(self.kinds_view()[t]).len()
                    implies (#[trigger] components(self.kinds_view()[t])[k]).0 < t by {
                if t < n {
                    assert(self.kinds_view()[t] == old(self).kinds_view()[t]);
                }
            }
            assert(self.adts_view() == old(self).adts_view());
            assert forall|a: int, v: int, f: int|
                0 <= a < self.adts_view().len() && 0 <= v < self.adts_view()[a].variants@.len() && 0 <= f
                    < self.adts_view()[a].variants@[v]@.len() implies self.has(
                    #[trigger] self.adts_view()[a].variants@[v]@[f]) by {
                assert(old(self).has(old(self).adts_view()[a].variants@[v]@[f]));
            }
        }
        Some(Ty(n as u32))
    }

    /// Declares the field types of `def`.
    pub fn declare_adt(&mut self, fields: AdtFields)
        requires
            old(self).wf(),
            forall|v: int, f: int| 0 <= v < fields.variants@.len() && 0 <= f < fields.variants@[v]@.len()
                ==> old(self).has(#[trigger] fields.variants@[v]@[f]),
        ensures
            final(self).wf(),
            final(self).kinds_view() == old(self).kinds_view(),
            final(self).adts_view() == old(self).adts_view().push(fields),
    {
        self.adts.push(fields);
        proof {
            assert forall|a: int, v: int, f: int|
                0 <= a < self.adts_view().len() && 0 <= v < self.adts_view()[a].variants@.len() && 0 <= f
                    < self.adts_view()[a].variants@[v]@.len() implies self.has(
                    #[trigger] self.adts_view()[a].variants@[v]@[f]) by {
                if a < old(self).adts_view().len() {
                    assert(self.adts_view()[a] == old(self).adts_view()[a]);
                }
            }
        }
    }

    pub fn kind(&self, ty: Ty) -> (k: &TyKind)
        requires
            self.has(ty),
        ensures
            *k == self.kind_of(ty),
    {
        &self.kinds[ty.0 as usize]
    }

    /// Whether `ty` is a reference or is built from one.
    pub fn contains_ref(&self, ty: Ty) -> (r: bool)
        requires
            self.wf(),
            self.has(ty),
        ensures
            r == ref_within(self.kinds_view(), ty.0 as int),
        decreases ty.0,
    {
        let kind = self.kind(ty);
        match kind {
            TyKind::Ref { .. } => true,
            _ => {
                let comps = self.components_of(ty);
                let mut i: usize = 0;
                let mut found = false;
                while i < comps.len()
                    invariant
                        self.wf(),
                        self.has(ty),
                        comps@ == components(self.kind_of(ty)),
                        !(self.kind_of(ty) is Ref),
                        i <= comps@.len(),
                        found == ref_among(self.kinds_view(), comps@, ty.0 as int, i as int),
                    decreases comps@.len() - i,
                {
                    let c = comps[i];
                    assert(c == components(self.kinds_view()[ty.0 as int])[i as int]);
                    assert(c.0 < ty.0);
                    let inner = self.contains_ref(c);
                    found = found || inner;
                    i = i + 1;
                }
                found
            },
        }
    }

    /// Whether a value of `ty` is copied bit for bit rather than moved.
    pub fn trivially_copyable(&self, ty: Ty) -> (r: bool)
        requires
            self.wf(),
            self.has(ty),
        ensures
            r == copy_within(self.kinds_view(), ty.0 as int),
        decreases ty.0,
    {
        match self.kind(ty) {
            TyKind::Primitive(_) | TyKind::Fun { .. } | TyKind::Unit | TyKind::Never => true,
            TyKind::Ref { mutability, .. } => *mutability == Mutability::Immutable,
            TyKind::Tuple(_) | TyKind::Array { .. } => {
                let comps = self.components_of(ty);
                proof {
                    match self.kind_of(ty) {
                        TyKind::Array { elem, .. } => {
                            assert(comps@ =~= seq![elem]);
                        },
                        _ => {},
                    }
                }
                let mut i: usize = 0;
                let mut all = true;
                while i < comps.len()
                    invariant
                        self.wf(),
                        self.has(ty),
                        comps@ == components(self.kind_of(ty)),
                        i <= comps@.len(),
                        all == copy_among(self.kinds_view(), comps@, ty.0 as int, i as int),
                    decreases comps@.len() - i,
                {
                    let c = comps[i];
                    assert(c == components(self.kinds_view()[ty.0 as int])[i as int]);
                    assert(c.0 < ty.0);
                    let inner = self.trivially_copyable(c);
                    all = all && inner;
                    i = i + 1;
                }
                all
            },
            _ => false,
        }
    }

    /// The types `ty` is built from, in order.
    pub fn components_of(&self, ty: Ty) -> (v: Vec<Ty>)
        requires
            self.has(ty),
        ensures
            v@ == components(self.kind_of(ty)),
    {
        match self.kind(ty) {
            TyKind::Adt { args, .. } => args.clone(),
            TyKind::Dyn { args, .. } => args.clone(),
            TyKind::Ref { base, .. } => vec![*base],
            TyKind::Any(b) => vec![*b],
            TyKind::Iso(b) => vec![*b],
            TyKind::Tuple(elems) => elems.clone(),
            TyKind::Array { elem, .. } => vec![*elem],
            TyKind::Fun { params, ret } => {
                let mut v = params.clone();
                match ret {
                    Some(r) => v.push(*r),
                    None => {},
                }
                v
            },
            _ => Vec::new(),
        }
    }

    /// The fields of instance `ty`, if they were declared: the first declaration.
    pub open spec fn adt_of(&self, ty: Ty) -> Option<AdtFields> {
        first_adt(self.adts_view(), ty, self.adts_view().len() as int)
    }

    /// The fields of instance `ty`, if they were declared.
    pub fn adt(&self, ty: Ty) -> (r: Option<&AdtFields>)
        ensures
            match self.adt_of(ty) {
                Some(a) => r matches Some(x) && *x == a,
                None => r is None,
            },
    {
        let mut i: usize = 0;
        while i < self.adts.len()
            invariant
                i <= self.adts@.len(),
                forall|j: int| 0 <= j < i ==> self.adts@[j].ty != ty,
            decreases self.adts@.len() - i,
        {
            if self.adts[i].ty == ty {
                proof {
                    lemma_first_adt(self.adts_view(), ty, self.adts_view().len() as int, i as int);
                }
                return Some(&self.adts[i]);
            }
            i = i + 1;
        }
        proof {
            lemma_first_adt_none(self.adts_view(), ty, self.adts_view().len() as int);
        }
        None
    }

    /// Whether dropping a value of `ty` runs any code: it owns an `iso` allocation directly, or
    /// by value through a field or an element, looking at most `fuel` steps deep.
    pub fn needs_drop_within(&self, ty: Ty, fuel: usize) -> (r: bool)
        requires
            self.wf(),
        ensures
            r == drop_within(*self, ty, fuel as nat),
        decreases fuel, 0nat, 0nat,
    {
        if fuel == 0 || ty.0 as usize >= self.kinds.len() {
            return false;
        }
        match self.kind(ty) {
            TyKind::Iso(_) | TyKind::Fun { .. } => true,
            TyKind::Any(inner) => {
                assert(components(self.kind_of(ty))[0] == *inner);
                self.needs_drop_within(*inner, fuel - 1)
            },
            TyKind::Tuple(_) | TyKind::Array { .. } => {
                let comps = self.components_of(ty);
                proof {
                    match self.kind_of(ty) {
                        TyKind::Array { elem, .. } => {
                            assert(comps@ =~= seq![elem]);
                        },
                        _ => {},
                    }
                    assert forall|k: int| 0 <= k < comps@.len() implies self.has(#[trigger] comps@[k]) by {
                        assert(comps@[k] == components(self.kinds_view()[ty.0 as int])[k]);
                    }
                }
                self.any_needs_drop(&comps, fuel - 1)
            },
            TyKind::Adt { .. } => match self.adt(ty) {
                Some(fields) => {
                    let mut v: usize = 0;
                    let mut found = false;
                    while v < fields.variants.len()
                        invariant
                            self.wf(),
                            self.adt_of(ty) == Some(*fields),
                            fuel > 0,
                            v <= fields.variants@.len(),
                            found == drop_variants(*self, fields.variants@, (fuel - 1) as nat, v as nat),
                        decreases fields.variants@.len() - v,
                    {
                        proof {
                            lemma_adt_fields_in_table(*self, ty);
                        }
                        let here = self.any_needs_drop(&fields.variants[v], fuel - 1);
                        found = found || here;
                        v = v + 1;
                    }
                    found
                },
                None => false,
            },
            _ => false,
        }
    }

    /// Whether any of `tys` needs dropping within `fuel` steps.
    fn any_needs_drop(&self, tys: &Vec<Ty>, fuel: usize) -> (r: bool)
        requires
            self.wf(),
            forall|k: int| 0 <= k < tys@.len() ==> self.has(#[trigger] tys@[k]),
        ensures
            r == drop_among(*self, tys@, fuel as nat, tys@.len()),
        decreases fuel, 1nat, 0nat,
    {
        let mut k: usize = 0;
        let mut found = false;
        while k < tys.len()
            invariant
                self.wf(),
                forall|j: int| 0 <= j < tys@.len() ==> self.has(#[trigger] tys@[j]),
                k <= tys@.len(),
                found == drop_among(*self, tys@, fuel as nat, k as nat),
            decreases tys@.len() - k,
        {
            let here = self.needs_drop_within(tys[k], fuel);
            found = found || here;
            k = k + 1;
        }
        found
    }

    /// The number of types in the table.
    pub fn type_count(&self) -> (n: usize)
        ensures
            n == self.kinds_view().len(),
    {
        self.kinds.len()
    }

    /// Whether dropping a value of `ty` runs any code, looking as deep as the table is large:
    /// by-value containment cannot repeat a type, so no deeper chain exists.
    pub fn needs_drop(&self, ty: Ty) -> (r: bool)
        requires
            self.wf(),
        ensures
            r == drop_within(*self, ty, self.kinds_view().len() + 1),
    {
        self.needs_drop_within(ty, self.kinds.len() + 1)
    }
}

/// The bindings a substitution applies: each generic parameter to its argument, and `Self` to
/// the implementing type.
#[derive(Clone, Debug)]
pub struct Subst {
    pub generics: Vec<(HirId, Ty)>,
    pub self_ty: Option<Ty>,
}

/// The argument bound to `h` by the last of the first `n` bindings naming it.
pub open spec fn bound_to(gs: Seq<(HirId, Ty)>, h: HirId, n: int) -> Option<Ty>
    decreases n,
{
    if n <= 0 {
        None
    } else if gs[n - 1].0 == h {
        Some(gs[n - 1].1)
    } else {
        bound_to(gs, h, n - 1)
    }
}

/// What substitution makes of the leaf type `ty` of kind `k`: a bound generic becomes its
/// argument, `Self` the implementing type; anything else stays.
pub open spec fn subst_leaf(s: Subst, k: TyKind, ty: Ty) -> Ty {
    match k {
        TyKind::Generic(h) => match bound_to(s.generics@, h, s.generics@.len() as int) {
            Some(t) => t,
            None => ty,
        },
        TyKind::SelfTy(_) => match s.self_ty {
            Some(t) => t,
            None => ty,
        },
        _ => ty,
    }
}

/// `r`, a type of `t1`, is type `ty` of `t0` with `s` applied: a generic or `Self` is replaced,
/// a type without components stays, and any other type has the same shape with each component
/// substituted.
pub open spec fn subst_rel(t1: TyCtx, r: Ty, t0: TyCtx, ty: Ty, s: Subst) -> bool
    decreases ty.0, 1int, 0int,
{
    if !t0.has(ty) {
        r == ty
    } else {
        let k = t0.kind_of(ty);
        if k is Generic || k is SelfTy || components(k).len() == 0 {
            r == subst_leaf(s, k, ty)
        } else {
            &&& t1.has(r)
            &&& shape_same(t1.kind_of(r), k)
            &&& components(t1.kind_of(r)).len() == components(k).len()
            &&& subst_comps(t1, components(t1.kind_of(r)), t0, components(k), ty.0, s, components(k).len() as int)
        }
    }
}

/// The first `n` of `rs` are the first `n` of `cs`, each below `bound`, with `s` applied.
pub open spec fn subst_comps(t1: TyCtx, rs: Seq<Ty>, t0: TyCtx, cs: Seq<Ty>, bound: u32, s: Subst, n: int) -> bool
    decreases bound, 0int, n,
{
    if n <= 0 {
        true
    } else {
        &&& subst_comps(t1, rs, t0, cs, bound, s, n - 1)
        &&& cs[n - 1].0 < bound
        &&& subst_rel(t1, rs[n - 1], t0, cs[n - 1], s)
    }
}

proof fn lemma_subst_comps_to_all(t1: TyCtx, rs: Seq<Ty>, t0: TyCtx, cs: Seq<Ty>, bound: u32, s: Subst, n: int)
    requires
        subst_comps(t1, rs, t0, cs, bound, s, n),
    ensures
        forall|j: int| #![trigger subst_rel(t1, rs[j], t0, cs[j], s)] #![trigger cs[j]] 0 <= j < n ==> (cs[j].0 < bound && subst_rel(t1, rs[j], t0, cs[j], s)),
    decreases n,
{
    if n > 0 {
        lemma_subst_comps_to_all(t1, rs, t0, cs, bound, s, n - 1);
    }
}

proof fn lemma_subst_comps_from_all(t1: TyCtx, rs: Seq<Ty>, t0: TyCtx, cs: Seq<Ty>, bound: u32, s: Subst, n: int)
    requires
        forall|j: int| #![trigger subst_rel(t1, rs[j], t0, cs[j], s)] #![trigger cs[j]] 0 <= j < n ==> (cs[j].0 < bound && subst_rel(t1, rs[j], t0, cs[j], s)),
    ensures
        subst_comps(t1, rs, t0, cs, bound, s, n),
    decreases n,
{
    if n > 0 {
        assert forall|j: int| #![trigger subst_rel(t1, rs[j], t0, cs[j], s)] #![trigger cs[j]] 0 <= j < n - 1 implies (cs[j].0 < bound && subst_rel(t1, rs[j], t0, cs[j], s)) by {
            assert(subst_rel(t1, rs[j], t0, cs[j], s));
        }
        lemma_subst_comps_from_all(t1, rs, t0, cs, bound, s, n - 1);
        assert(subst_rel(t1, rs[n - 1], t0, cs[n - 1], s));
    }
}

/// A substitution into a larger table still holds.
pub proof fn lemma_subst_rel_extend(t1: TyCtx, t2: TyCtx, r: Ty, t0: TyCtx, ty: Ty, s: Subst)
    requires
        subst_rel(t1, r, t0, ty, s),
        extends(t2, t1),
    ensures
        subst_rel(t2, r, t0, ty, s),
    decreases ty.0,
{
    if t0.has(ty) {
        let k = t0.kind_of(ty);
        if !(k is Generic || k is SelfTy || components(k).len() == 0) {
            assert(t2.kinds_view()[r.0 as int] == t1.kinds_view()[r.0 as int]);
            let rs = components(t1.kind_of(r));
            let n = components(k).len() as int;
            lemma_subst_comps_to_all(t1, rs, t0, components(k), ty.0, s, n);
            assert forall|j: int| 0 <= j < n implies (components(k)[j].0 < ty.0 && #[trigger] subst_rel(t2, rs[j], t0, components(k)[j], s)) by {
                assert(subst_rel(t1, rs[j], t0, components(k)[j], s));
                lemma_subst_rel_extend(t1, t2, rs[j], t0, components(k)[j], s);
            }
            lemma_subst_comps_from_all(t2, rs, t0, components(k), ty.0, s, n);
        }
    }
}

/// Whether type `t` of `kinds` is, or is built from, a generic parameter or `Self`.
pub open spec fn generic_within(kinds: Seq<TyKind>, t: int) -> bool
    decreases t, components(kinds[t]).len() + 1,
{
    if t < 0 || t >= kinds.len() {
        false
    } else {
        match kinds[t] {
            TyKind::Generic(_) => true,
            TyKind::SelfTy(_) => true,
            k => generic_among(kinds, components(k), t, components(k).len() as int),
        }
    }
}

pub open spec fn generic_among(kinds: Seq<TyKind>, comps: Seq<Ty>, t: int, i: int) -> bool
    decreases t, i,
{
    if i <= 0 {
        false
    } else {
        generic_among(kinds, comps, t, i - 1) || (comps[i - 1].0 < t && generic_within(kinds, comps[i - 1].0 as int))
    }
}

/// The types of `s` are types of `tcx`.
pub open spec fn subst_in(s: Subst, tcx: TyCtx) -> bool {
    &&& forall|i: int| 0 <= i < s.generics@.len() ==> tcx.has(#[trigger] s.generics@[i].1)
    &&& s.self_ty matches Some(t) ==> tcx.has(t)
}

/// `kind` with its components replaced by `comps`, in order.
fn with_components(kind: &TyKind, comps: Vec<Ty>) -> (k: TyKind)
    requires
        comps@.len() == components(*kind).len(),
    ensures
        shape_same(k, *kind),
        components(k) == comps@,
{
    match kind {
        TyKind::Adt { def, .. } => TyKind::Adt { def: *def, args: comps },
        TyKind::Dyn { trait_, .. } => TyKind::Dyn { trait_: *trait_, args: comps },
        TyKind::Ref { mutability, .. } => {
            assert(comps@ =~= seq![comps@[0]]);
            TyKind::Ref { base: comps[0], mutability: *mutability }
        },
        TyKind::Any(_) => {
            assert(comps@ =~= seq![comps@[0]]);
            TyKind::Any(comps[0])
        },
        TyKind::Iso(_) => {
            assert(comps@ =~= seq![comps@[0]]);
            TyKind::Iso(comps[0])
        },
        TyKind::Tuple(_) => TyKind::Tuple(comps),
        TyKind::Array { len, .. } => {
            assert(comps@ =~= seq![comps@[0]]);
            TyKind::Array { elem: comps[0], len: *len }
        },
        TyKind::Fun { params, ret } => {
            match ret {
                Some(_) => {
                    let mut ps = comps;
                    let last = ps.pop().unwrap();
                    assert(ps@.push(last) =~= comps@);
                    TyKind::Fun { params: ps, ret: Some(last) }
                },
                None => TyKind::Fun { params: comps, ret: None },
            }
        },
        TyKind::Primitive(p) => TyKind::Primitive(*p),
        TyKind::Unit => TyKind::Unit,
        TyKind::Never => TyKind::Never,
        TyKind::Error => TyKind::Error,
        TyKind::Var(v) => TyKind::Var(*v),
        TyKind::Generic(h) => TyKind::Generic(*h),
        TyKind::SelfTy(d) => TyKind::SelfTy(*d),
    }
}

impl TyCtx {
    /// Whether `ty` is, or is built from, a generic parameter or `Self`.
    pub fn mentions_generic(&self, ty: Ty) -> (r: bool)
        requires
            self.wf(),
            self.has(ty),
        ensures
            r == generic_within(self.kinds_view(), ty.0 as int),
        decreases ty.0,
    {
        match self.kind(ty) {
            TyKind::Generic(_) | TyKind::SelfTy(_) => true,
            _ => {
                let comps = self.components_of(ty);
                let mut i: usize = 0;
                let mut found = false;
                while i < comps.len()
                    invariant
                        self.wf(),
                        self.has(ty),
                        comps@ == components(self.kind_of(ty)),
                        !(self.kind_of(ty) is Generic || self.kind_of(ty) is SelfTy),
                        i <= comps@.len(),
                        found == generic_among(self.kinds_view(), comps@, ty.0 as int, i as int),
                    decreases comps@.len() - i,
                {
                    let c = comps[i];
                    assert(c == components(self.kinds_view()[ty.0 as int])[i as int]);
                    let inner = self.mentions_generic(c);
                    found = found || inner;
                    i = i + 1;
                }
                found
            },
        }
    }

    /// `ty` with `s` applied, new types interned as needed; `None` when the table has no id
    /// left for one.
    pub fn subst_ty(&mut self, ty: Ty, s: &Subst) -> (r: Option<Ty>)
        requires
            old(self).wf(),
            old(self).has(ty),
            subst_in(*s, *old(self)),
        ensures
            final(self).wf(),
            extends(*final(self), *old(self)),
            match r {
                Some(t) => final(self).has(t) && subst_rel(*final(self), t, *old(self), ty, *s),
                None => final(self).kinds_view().len() + 1 >= u32::MAX,
            },
        decreases ty.0,
    {
        let ghost t0 = *self;
        match self.kind(ty) {
            TyKind::Generic(h) => {
                let h = *h;
                let mut i = s.generics.len();
                while i > 0
                    invariant
                        i <= s.generics@.len(),
                        *self == t0,
                        t0 == *old(self),
                        t0.wf(),
                        subst_in(*s, t0),
                        t0.has(ty),
                        t0.kind_of(ty) == TyKind::Generic(h),
                        bound_to(s.generics@, h, s.generics@.len() as int) == bound_to(s.generics@, h, i as int),
                    decreases i,
                {
                    if s.generics[i - 1].0 == h {
                        assert(t0.has(s.generics@[i - 1].1));
                        assert(bound_to(s.generics@, h, i as int) == Some(s.generics@[i - 1].1));
                        assert(subst_leaf(*s, t0.kind_of(ty), ty) == s.generics@[i - 1].1);
                        assert(subst_rel(t0, s.generics@[i - 1].1, t0, ty, *s));
                        return Some(s.generics[i - 1].1);
                    }
                    i = i - 1;
                }
                return Some(ty);
            },
            TyKind::SelfTy(_) => {
                return match s.self_ty {
                    Some(t) => Some(t),
                    None => Some(ty),
                };
            },
            _ => {},
        }
        let comps = self.components_of(ty);
        if comps.len() == 0 {
            return Some(ty);
        }
        let mut out: Vec<Ty> = Vec::new();
        let mut changed = false;
        let mut i: usize = 0;
        while i < comps.len()
            invariant
                self.wf(),
                extends(*self, t0),
                t0 == *old(self),
                t0.wf(),
                t0.has(ty),
                subst_in(*s, t0),
                comps@ == components(t0.kind_of(ty)),
                !(t0.kind_of(ty) is Generic || t0.kind_of(ty) is SelfTy),
                i <= comps@.len(),
                out@.len() == i,
                changed == exists|j: int| 0 <= j < i && out@[j] != comps@[j],
                forall|j: int| 0 <= j < i ==> self.has(#[trigger] out@[j]) && subst_rel(*self, out@[j], t0, comps@[j], *s),
            decreases comps@.len() - i,
        {
            let c = comps[i];
            assert(c == components(t0.kinds_view()[ty.0 as int])[i as int]);
            let ghost before = *self;
            proof {
                assert forall|j: int| 0 <= j < s.generics@.len() implies self.has(#[trigger] s.generics@[j].1) by {
                    assert(t0.has(s.generics@[j].1));
                }
            }
            let sub = self.subst_ty(c, s);
            match sub {
                Some(t) => {
                    proof {
                        assert forall|j: int| 0 <= j < i implies self.has(#[trigger] out@[j]) && subst_rel(*self, out@[j], t0, comps@[j], *s) by {
                            lemma_subst_rel_extend(before, *self, out@[j], t0, comps@[j], *s);
                        }
                        lemma_subst_rel_from(*self, t, before, t0, c, *s);
                    }
                    out.push(t);
                    if t != c {
                        changed = true;
                    }
                },
                None => {
                    return None;
                },
            }
            i = i + 1;
        }
        if !changed {
            proof {
                assert(out@ =~= comps@);
                assert(self.kind_of(ty) == t0.kind_of(ty));
                assert forall|j: int| 0 <= j < comps@.len() implies (comps@[j].0 < ty.0 && #[trigger] subst_rel(*self, comps@[j], t0, comps@[j], *s)) by {
                    assert(subst_rel(*self, out@[j], t0, comps@[j], *s));
                }
                lemma_subst_comps_from_all(*self, comps@, t0, comps@, ty.0, *s, comps@.len() as int);
            }
            return Some(ty);
        }
        let ghost outs = out@;
        let kind = with_components(self.kind(ty), out);
        let ghost mid = *self;
        let r = self.try_mk(kind);
        match r {
            Some(t) => {
                proof {
                    assert forall|j: int| 0 <= j < comps@.len() implies (comps@[j].0 < ty.0 && #[trigger] subst_rel(*self, outs[j], t0, comps@[j], *s)) by {
                        assert(subst_rel(mid, outs[j], t0, comps@[j], *s));
                        lemma_subst_rel_extend(mid, *self, outs[j], t0, comps@[j], *s);
                    }
                    lemma_subst_comps_from_all(*self, outs, t0, comps@, ty.0, *s, comps@.len() as int);
                }
                Some(t)
            },
            None => None,
        }
    }
}

/// A substitution proved against the table `before` a call that started from `t0` holds of
/// the table after.
pub proof fn lemma_subst_rel_from_pub(t1: TyCtx, r: Ty, before: TyCtx, t0: TyCtx, ty: Ty, s: Subst)
    requires
        subst_rel(t1, r, before, ty, s),
        extends(before, t0),
        t0.has(ty),
        t0.wf(),
    ensures
        subst_rel(t1, r, t0, ty, s),
{
    lemma_subst_rel_from(t1, r, before, t0, ty, s);
}

proof fn lemma_subst_rel_from(t1: TyCtx, r: Ty, before: TyCtx, t0: TyCtx, ty: Ty, s: Subst)
    requires
        subst_rel(t1, r, before, ty, s),
        extends(before, t0),
        t0.has(ty),
        t0.wf(),
    ensures
        subst_rel(t1, r, t0, ty, s),
    decreases ty.0,
{
    let k = t0.kind_of(ty);
    assert(before.kind_of(ty) == k);
    if !(k is Generic || k is SelfTy || components(k).len() == 0) {
        let rs = components(t1.kind_of(r));
        let n = components(k).len() as int;
        lemma_subst_comps_to_all(t1, rs, before, components(k), ty.0, s, n);
        assert forall|j: int| 0 <= j < n implies (components(k)[j].0 < ty.0 && #[trigger] subst_rel(t1, rs[j], t0, components(k)[j], s)) by {
            assert(subst_rel(t1, rs[j], before, components(k)[j], s));
            assert(t0.has(components(k)[j]));
            lemma_subst_rel_from(t1, rs[j], before, t0, components(k)[j], s);
        }
        lemma_subst_comps_from_all(t1, rs, t0, components(k), ty.0, s, n);
    }
}

} // verus!
