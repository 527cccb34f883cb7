//! Matching an `extend` block's written self type against a concrete type, binding the block's
//! generic parameters along the way.

use vstd::prelude::*;
use crate::hir::HirId;
use crate::typeck::{bound_to, extends, Ty, TyCtx, TyKind};

verus! {

/// What matching pattern `p` against type `t` makes of the bindings `b`: `b` with each generic
/// met for the first time bound to the type it stands against, or `None` when the two differ
/// or a generic met again stands against another type. A generic matches anything; two
/// ADTs, references, `iso`s, tuples, arrays or function types match part by part; any other
/// pair matches only when it is one type.
pub open spec fn match_ty(tcx: TyCtx, p: Ty, t: Ty, b: Seq<(HirId, Ty)>) -> Option<Seq<(HirId, Ty)>>
    decreases p.0, 1int, 0int,
{
    let same = if p == t { Some(b) } else { None };
    match tcx.kind_of(p) {
        TyKind::Generic(h) => match bound_to(b, h, b.len() as int) {
            Some(x) => if x == t { Some(b) } else { None },
            None => Some(b.push((h, t))),
        },
        TyKind::Adt { def: a, args: xs } => match tcx.kind_of(t) {
            TyKind::Adt { def: d, args: ys } => if a == d && xs@.len() == ys@.len() {
                match_list(tcx, xs@, ys@, b, p.0, xs@.len() as int)
            } else {
                None
            },
            _ => same,
        },
        TyKind::Ref { base: x, mutability: m } => match tcx.kind_of(t) {
            TyKind::Ref { base: y, mutability: n } => if m == n && x.0 < p.0 {
                match_ty(tcx, x, y, b)
            } else {
                None
            },
            _ => same,
        },
        TyKind::Iso(x) => match tcx.kind_of(t) {
            TyKind::Iso(y) => if x.0 < p.0 { match_ty(tcx, x, y, b) } else { None },
            _ => same,
        },
        TyKind::Tuple(xs) => match tcx.kind_of(t) {
            TyKind::Tuple(ys) => if xs@.len() == ys@.len() {
                match_list(tcx, xs@, ys@, b, p.0, xs@.len() as int)
            } else {
                None
            },
            _ => same,
        },
        TyKind::Array { elem: x, len: lx } => match tcx.kind_of(t) {
            TyKind::Array { elem: y, len: ly } => if lx == ly && x.0 < p.0 {
                match_ty(tcx, x, y, b)
            } else {
                None
            },
            _ => same,
        },
        TyKind::Fun { params: xs, ret: rx } => match tcx.kind_of(t) {
            TyKind::Fun { params: ys, ret: ry } => if xs@.len() == ys@.len() {
                match match_list(tcx, xs@, ys@, b, p.0, xs@.len() as int) {
                    Some(b1) => match (rx, ry) {
                        (Some(x), Some(y)) => if x.0 < p.0 { match_ty(tcx, x, y, b1) } else { None },
                        (None, None) => Some(b1),
                        _ => None,
                    },
                    None => None,
                }
            } else {
                None
            },
            _ => same,
        },
        _ => same,
    }
}

/// Matching the first `n` of `xs` against the first `n` of `ys` in order, each of `xs` below
/// `bound`.
pub open spec fn match_list(tcx: TyCtx, xs: Seq<Ty>, ys: Seq<Ty>, b: Seq<(HirId, Ty)>, bound: u32, n: int) -> Option<
    Seq<(HirId, Ty)>,
>
    decreases bound, 0int, n,
{
    if n <= 0 {
        Some(b)
    } else {
        match match_list(tcx, xs, ys, b, bound, n - 1) {
            Some(b1) => if xs[n - 1].0 < bound { match_ty(tcx, xs[n - 1], ys[n - 1], b1) } else { None },
            None => None,
        }
    }
}

/// Whether generic `h` stands somewhere in pattern `p` where matching binds it: in `p` itself,
/// or inside the parts of an ADT, reference, `iso`, tuple, array or function type.
pub open spec fn binds_leaf(tcx: TyCtx, p: Ty, h: HirId) -> bool
    decreases p.0, 1int, 0int,
{
    match tcx.kind_of(p) {
        TyKind::Generic(g) => g == h,
        TyKind::Adt { args: xs, .. } => leaf_among(tcx, xs@, h, p.0, xs@.len() as int),
        TyKind::Tuple(xs) => leaf_among(tcx, xs@, h, p.0, xs@.len() as int),
        TyKind::Ref { base: x, .. } => x.0 < p.0 && binds_leaf(tcx, x, h),
        TyKind::Iso(x) => x.0 < p.0 && binds_leaf(tcx, x, h),
        TyKind::Array { elem: x, .. } => x.0 < p.0 && binds_leaf(tcx, x, h),
        TyKind::Fun { params: xs, ret } => leaf_among(tcx, xs@, h, p.0, xs@.len() as int) || match ret {
            Some(x) => x.0 < p.0 && binds_leaf(tcx, x, h),
            None => false,
        },
        _ => false,
    }
}

pub open spec fn leaf_among(tcx: TyCtx, xs: Seq<Ty>, h: HirId, bound: u32, n: int) -> bool
    decreases bound, 0int, n,
{
    if n <= 0 {
        false
    } else {
        leaf_among(tcx, xs, h, bound, n - 1) || (xs[n - 1].0 < bound && binds_leaf(tcx, xs[n - 1], h))
    }
}

/// Every type a binding holds is a type of the table.
pub open spec fn binds_in(tcx: TyCtx, b: Seq<(HirId, Ty)>) -> bool {
    forall|i: int| 0 <= i < b.len() ==> tcx.has(#[trigger] b[i].1)
}

/// What a successful match gives: the old bindings kept, only types of the table bound, and
/// every generic of the pattern that matching reaches bound.
pub open spec fn match_facts(tcx: TyCtx, p: Ty, b: Seq<(HirId, Ty)>, r: Seq<(HirId, Ty)>) -> bool {
    &&& b.len() <= r.len()
    &&& r.take(b.len() as int) == b
    &&& binds_in(tcx, r)
    &&& forall|h: HirId| binds_leaf(tcx, p, h) ==> (#[trigger] bound_to(r, h, r.len() as int)) is Some
}

proof fn lemma_bound_kept(b: Seq<(HirId, Ty)>, r: Seq<(HirId, Ty)>, h: HirId)
    requires
        b.len() <= r.len(),
        r.take(b.len() as int) == b,
        bound_to(b, h, b.len() as int) is Some,
    ensures
        bound_to(r, h, r.len() as int) is Some,
    decreases r.len(),
{
    if r.len() > b.len() {
        let r1 = r.drop_last();
        assert(r1.take(b.len() as int) =~= b);
        lemma_bound_kept(b, r1, h);
        assert(r1 =~= r.take(r1.len() as int));
        lemma_bound_drop(r, h, r1.len() as int);
        lemma_bound_prefix(r, h, r1.len() as int);
    } else {
        assert(r.take(r.len() as int) =~= r);
    }
}

proof fn lemma_bound_prefix(r: Seq<(HirId, Ty)>, h: HirId, n: int)
    requires
        0 <= n <= r.len(),
        bound_to(r, h, n) is Some,
    ensures
        bound_to(r, h, r.len() as int) is Some,
    decreases r.len() - n,
{
    if n < r.len() {
        assert(bound_to(r, h, n + 1) is Some);
        lemma_bound_prefix(r, h, n + 1);
    }
}

proof fn lemma_bound_drop(r: Seq<(HirId, Ty)>, h: HirId, n: int)
    requires
        0 <= n <= r.len(),
    ensures
        bound_to(r.take(n), h, n) == bound_to(r, h, n),
    decreases n,
{
    if n > 0 {
        assert(r.take(n)[n - 1] == r[n - 1]);
        assert(r.take(n).take(n - 1) =~= r.take(n - 1));
        lemma_bound_drop(r, h, n - 1);
        lemma_bound_drop(r.take(n), h, n - 1);
    }
}

/// A successful match keeps the old bindings, binds only types of the table, and binds every
/// generic of the pattern it reaches.
pub proof fn lemma_match_facts(tcx: TyCtx, p: Ty, t: Ty, b: Seq<(HirId, Ty)>)
    requires
        tcx.wf(),
        tcx.has(p),
        tcx.has(t),
        binds_in(tcx, b),
        match_ty(tcx, p, t, b) is Some,
    ensures
        match_facts(tcx, p, b, match_ty(tcx, p, t, b)->0),
    decreases p.0, 1int, 0int,
{
    let r = match_ty(tcx, p, t, b)->0;
    lemma_components_in_table(tcx, p);
    lemma_components_in_table(tcx, t);
    match tcx.kind_of(p) {
        TyKind::Generic(g) => {
            assert(r.take(b.len() as int) =~= b);
            if r.len() > b.len() {
                assert(bound_to(r, g, r.len() as int) == Some(t));
            }
        },
        TyKind::Adt { args: xs, .. } => {
            match tcx.kind_of(t) {
                TyKind::Adt { args: ys, .. } => {
                    assert(crate::typeck::components(tcx.kind_of(p)) == xs@);
                    assert(crate::typeck::components(tcx.kind_of(t)) == ys@);
                    lemma_list_facts(tcx, xs@, ys@, b, p.0, xs@.len() as int);
                },
                _ => {
                    lemma_same_facts(tcx, p, b);
                },
            }
        },
        TyKind::Tuple(xs) => {
            match tcx.kind_of(t) {
                TyKind::Tuple(ys) => {
                    assert(crate::typeck::components(tcx.kind_of(p)) == xs@);
                    assert(crate::typeck::components(tcx.kind_of(t)) == ys@);
                    lemma_list_facts(tcx, xs@, ys@, b, p.0, xs@.len() as int);
                },
                _ => {
                    lemma_same_facts(tcx, p, b);
                },
            }
        },
        TyKind::Ref { base: x, .. } => {
            match tcx.kind_of(t) {
                TyKind::Ref { base: y, .. } => {
                    lemma_component_in_table(tcx, p, 0);
                    lemma_component_in_table(tcx, t, 0);
                    lemma_match_facts(tcx, x, y, b);
                },
                _ => {
                    lemma_same_facts(tcx, p, b);
                },
            }
        },
        TyKind::Iso(x) => {
            match tcx.kind_of(t) {
                TyKind::Iso(y) => {
                    lemma_component_in_table(tcx, p, 0);
                    lemma_component_in_table(tcx, t, 0);
                    lemma_match_facts(tcx, x, y, b);
                },
                _ => {
                    lemma_same_facts(tcx, p, b);
                },
            }
        },
        TyKind::Array { elem: x, .. } => {
            match tcx.kind_of(t) {
                TyKind::Array { elem: y, .. } => {
                    lemma_component_in_table(tcx, p, 0);
                    lemma_component_in_table(tcx, t, 0);
                    lemma_match_facts(tcx, x, y, b);
                },
                _ => {
                    lemma_same_facts(tcx, p, b);
                },
            }
        },
        TyKind::Fun { params: xs, ret: rx } => {
            match tcx.kind_of(t) {
                TyKind::Fun { params: ys, ret: ry } => {
                    assert forall|i: int| 0 <= i < xs@.len() implies tcx.has(#[trigger] xs@[i]) by {
                        assert(xs@[i] == crate::typeck::components(tcx.kind_of(p))[i]);
                    }
                    assert forall|i: int| 0 <= i < ys@.len() implies tcx.has(#[trigger] ys@[i]) by {
                        assert(ys@[i] == crate::typeck::components(tcx.kind_of(t))[i]);
                    }
                    lemma_list_facts(tcx, xs@, ys@, b, p.0, xs@.len() as int);
                    let b1 = match_list(tcx, xs@, ys@, b, p.0, xs@.len() as int)->0;
                    match (rx, ry) {
                        (Some(x), Some(y)) => {
                            lemma_component_in_table(tcx, p, xs@.len() as int);
                            lemma_component_in_table(tcx, t, ys@.len() as int);
                            lemma_match_facts(tcx, x, y, b1);
                            let r = match_ty(tcx, x, y, b1)->0;
                            assert(r.take(b.len() as int) =~= r.take(b1.len() as int).take(b.len() as int));
                            assert forall|h: HirId| binds_leaf(tcx, p, h) implies (#[trigger] bound_to(r, h, r.len() as int)) is Some by {
                                if leaf_among(tcx, xs@, h, p.0, xs@.len() as int) {
                                    lemma_bound_kept(b1, r, h);
                                }
                            }
                        },
                        _ => {},
                    }
                },
                _ => {
                    lemma_same_facts(tcx, p, b);
                },
            }
        },
        _ => {
            lemma_same_facts(tcx, p, b);
        },
    }
}

proof fn lemma_same_facts(tcx: TyCtx, p: Ty, b: Seq<(HirId, Ty)>)
    requires
        binds_in(tcx, b),
        forall|h: HirId| !binds_leaf(tcx, p, h) || (#[trigger] bound_to(b, h, b.len() as int)) is Some,
    ensures
        match_facts(tcx, p, b, b),
{
    assert(b.take(b.len() as int) =~= b);
}

/// Component `k` of a type of the table is a type of the table too.
proof fn lemma_component_in_table(tcx: TyCtx, t: Ty, k: int)
    requires
        tcx.wf(),
        tcx.has(t),
        0 <= k < crate::typeck::components(tcx.kind_of(t)).len(),
    ensures
        tcx.has(crate::typeck::components(tcx.kind_of(t))[k]),
        crate::typeck::components(tcx.kind_of(t))[k].0 < t.0,
{
    assert(crate::typeck::components(tcx.kinds_view()[t.0 as int])[k].0 < t.0);
}

/// The components of a type of the table are types of the table.
proof fn lemma_components_in_table(tcx: TyCtx, t: Ty)
    requires
        tcx.wf(),
        tcx.has(t),
    ensures
        forall|i: int| 0 <= i < crate::typeck::components(tcx.kind_of(t)).len() ==> tcx.has(
            #[trigger] crate::typeck::components(tcx.kind_of(t))[i],
        ),
{
    assert forall|i: int| 0 <= i < crate::typeck::components(tcx.kind_of(t)).len() implies tcx.has(
        #[trigger] crate::typeck::components(tcx.kind_of(t))[i],
    ) by {
        lemma_component_in_table(tcx, t, i);
    }
}

proof fn lemma_list_facts(tcx: TyCtx, xs: Seq<Ty>, ys: Seq<Ty>, b: Seq<(HirId, Ty)>, bound: u32, n: int)
    requires
        tcx.wf(),
        binds_in(tcx, b),
        0 <= n <= xs.len(),
        n <= ys.len(),
        forall|i: int| 0 <= i < n ==> tcx.has(#[trigger] xs[i]),
        forall|i: int| 0 <= i < n ==> tcx.has(#[trigger] ys[i]),
        match_list(tcx, xs, ys, b, bound, n) is Some,
    ensures
        ({
            let r = match_list(tcx, xs, ys, b, bound, n)->0;
            &&& b.len() <= r.len()
            &&& r.take(b.len() as int) == b
            &&& binds_in(tcx, r)
            &&& forall|h: HirId| leaf_among(tcx, xs, h, bound, n) ==> (#[trigger] bound_to(r, h, r.len() as int)) is Some
        }),
    decreases bound, 0int, n,
{
    if n > 0 {
        lemma_list_facts(tcx, xs, ys, b, bound, n - 1);
        let b1 = match_list(tcx, xs, ys, b, bound, n - 1)->0;
        let r = match_list(tcx, xs, ys, b, bound, n)->0;
        lemma_match_facts(tcx, xs[n - 1], ys[n - 1], b1);
        assert(r.take(b.len() as int) =~= r.take(b1.len() as int).take(b.len() as int));
        assert forall|h: HirId| leaf_among(tcx, xs, h, bound, n) implies (#[trigger] bound_to(r, h, r.len() as int)) is Some by {
            if leaf_among(tcx, xs, h, bound, n - 1) {
                lemma_bound_kept(b1, r, h);
            }
        }
    } else {
        assert(b.take(b.len() as int) =~= b);
    }
}

/// Where a pattern's generics stand does not change as the table grows.
pub proof fn lemma_binds_leaf_grows(t0: TyCtx, t1: TyCtx, p: Ty, h: HirId)
    requires
        t0.wf(),
        t0.has(p),
        extends(t1, t0),
    ensures
        binds_leaf(t1, p, h) == binds_leaf(t0, p, h),
    decreases p.0, 1int, 0int,
{
    assert(t1.kinds_view()[p.0 as int] == t0.kinds_view()[p.0 as int]);
    lemma_components_in_table(t0, p);
    match t0.kind_of(p) {
        TyKind::Adt { args: xs, .. } => {
            assert(crate::typeck::components(t0.kind_of(p)) == xs@);
            lemma_leaf_among_grows(t0, t1, xs@, h, p.0, xs@.len() as int);
        },
        TyKind::Tuple(xs) => {
            assert(crate::typeck::components(t0.kind_of(p)) == xs@);
            lemma_leaf_among_grows(t0, t1, xs@, h, p.0, xs@.len() as int);
        },
        TyKind::Ref { base: x, .. } => {
            lemma_component_in_table(t0, p, 0);
            lemma_binds_leaf_grows(t0, t1, x, h);
        },
        TyKind::Iso(x) => {
            lemma_component_in_table(t0, p, 0);
            lemma_binds_leaf_grows(t0, t1, x, h);
        },
        TyKind::Array { elem: x, .. } => {
            lemma_component_in_table(t0, p, 0);
            lemma_binds_leaf_grows(t0, t1, x, h);
        },
        TyKind::Fun { params: xs, ret } => {
            assert forall|i: int| 0 <= i < xs@.len() implies t0.has(#[trigger] xs@[i]) by {
                assert(xs@[i] == crate::typeck::components(t0.kind_of(p))[i]);
            }
            lemma_leaf_among_grows(t0, t1, xs@, h, p.0, xs@.len() as int);
            match ret {
                Some(x) => {
                    lemma_component_in_table(t0, p, xs@.len() as int);
                    lemma_binds_leaf_grows(t0, t1, x, h);
                },
                None => {},
            }
        },
        _ => {},
    }
}

proof fn lemma_leaf_among_grows(t0: TyCtx, t1: TyCtx, xs: Seq<Ty>, h: HirId, bound: u32, n: int)
    requires
        t0.wf(),
        extends(t1, t0),
        0 <= n <= xs.len(),
        forall|i: int| 0 <= i < n ==> t0.has(#[trigger] xs[i]),
    ensures
        leaf_among(t1, xs, h, bound, n) == leaf_among(t0, xs, h, bound, n),
    decreases bound, 0int, n,
{
    if n > 0 {
        lemma_leaf_among_grows(t0, t1, xs, h, bound, n - 1);
        if xs[n - 1].0 < bound {
            lemma_binds_leaf_grows(t0, t1, xs[n - 1], h);
        }
    }
}

/// The binding of `h` in `b`, the last one where several name it.
pub fn lookup_bound(b: &Vec<(HirId, Ty)>, h: HirId) -> (r: Option<Ty>)
    ensures
        r == bound_to(b@, h, b@.len() as int),
{
    let mut i = b.len();
    while i > 0
        invariant
            i <= b@.len(),
            bound_to(b@, h, b@.len() as int) == bound_to(b@, h, i as int),
        decreases i,
    {
        if b[i - 1].0 == h {
            return Some(b[i - 1].1);
        }
        i = i - 1;
    }
    None
}

/// Matches `pattern` against `ty`, extending `binds`; `true` exactly when [`match_ty`] gives a
/// result, which `binds` then holds.
pub fn matches_impl_self(tcx: &TyCtx, pattern: Ty, ty: Ty, binds: &mut Vec<(HirId, Ty)>) -> (r: bool)
    requires
        tcx.wf(),
        tcx.has(pattern),
        tcx.has(ty),
    ensures
        r == match_ty(*tcx, pattern, ty, old(binds)@) is Some,
        r ==> final(binds)@ == match_ty(*tcx, pattern, ty, old(binds)@)->0,
    decreases pattern.0,
{
    let ghost b0 = binds@;
    let same = pattern == ty;
    proof {
        lemma_components_in_table(*tcx, pattern);
        lemma_components_in_table(*tcx, ty);
    }
    match tcx.kind(pattern) {
        TyKind::Generic(h) => {
            match lookup_bound(binds, *h) {
                Some(x) => x == ty,
                None => {
                    binds.push((*h, ty));
                    true
                },
            }
        },
        TyKind::Adt { def: a, args: xs } => match tcx.kind(ty) {
            TyKind::Adt { def: d, args: ys } => {
                if *a != *d || xs.len() != ys.len() {
                    return false;
                }
                assert(crate::typeck::components(tcx.kind_of(ty)) == ys@);
                matches_list(tcx, pattern, xs, ys, binds)
            },
            _ => same,
        },
        TyKind::Tuple(xs) => match tcx.kind(ty) {
            TyKind::Tuple(ys) => {
                if xs.len() != ys.len() {
                    return false;
                }
                assert(crate::typeck::components(tcx.kind_of(ty)) == ys@);
                matches_list(tcx, pattern, xs, ys, binds)
            },
            _ => same,
        },
        TyKind::Ref { base: x, mutability: m } => match tcx.kind(ty) {
            TyKind::Ref { base: y, mutability: n } => {
                proof {
                    lemma_component_in_table(*tcx, pattern, 0);
                    lemma_component_in_table(*tcx, ty, 0);
                }
                *m == *n && matches_impl_self(tcx, *x, *y, binds)
            },
            _ => same,
        },
        TyKind::Iso(x) => match tcx.kind(ty) {
            TyKind::Iso(y) => {
                proof {
                    lemma_component_in_table(*tcx, pattern, 0);
                    lemma_component_in_table(*tcx, ty, 0);
                }
                matches_impl_self(tcx, *x, *y, binds)
            },
            _ => same,
        },
        TyKind::Array { elem: x, len: lx } => match tcx.kind(ty) {
            TyKind::Array { elem: y, len: ly } => {
                proof {
                    lemma_component_in_table(*tcx, pattern, 0);
                    lemma_component_in_table(*tcx, ty, 0);
                }
                let same_len = match (lx, ly) {
                    (Some(a), Some(b)) => *a == *b,
                    (None, None) => true,
                    _ => false,
                };
                same_len && matches_impl_self(tcx, *x, *y, binds)
            },
            _ => same,
        },
        TyKind::Fun { params: xs, ret: rx } => match tcx.kind(ty) {
            TyKind::Fun { params: ys, ret: ry } => {
                if xs.len() != ys.len() {
                    return false;
                }
                assert forall|i: int| 0 <= i < ys@.len() implies tcx.has(#[trigger] ys@[i]) by {
                    assert(ys@[i] == crate::typeck::components(tcx.kind_of(ty))[i]);
                }
                if !matches_list(tcx, pattern, xs, ys, binds) {
                    return false;
                }
                match (rx, ry) {
                    (Some(x), Some(y)) => {
                        proof {
                            lemma_component_in_table(*tcx, pattern, xs@.len() as int);
                            lemma_component_in_table(*tcx, ty, ys@.len() as int);
                        }
                        matches_impl_self(tcx, *x, *y, binds)
                    },
                    (None, None) => true,
                    _ => false,
                }
            },
            _ => same,
        },
        _ => same,
    }
}

/// Matches the component lists `xs` and `ys` of `pattern` and a type in order.
fn matches_list(tcx: &TyCtx, pattern: Ty, xs: &Vec<Ty>, ys: &Vec<Ty>, binds: &mut Vec<(HirId, Ty)>) -> (r: bool)
    requires
        tcx.wf(),
        tcx.has(pattern),
        xs@.len() == ys@.len(),
        xs@.len() <= crate::typeck::components(tcx.kind_of(pattern)).len(),
        forall|i: int| 0 <= i < xs@.len() ==> #[trigger] xs@[i] == crate::typeck::components(tcx.kind_of(pattern))[i],
        forall|i: int| 0 <= i < ys@.len() ==> tcx.has(#[trigger] ys@[i]),
    ensures
        r == match_list(*tcx, xs@, ys@, old(binds)@, pattern.0, xs@.len() as int) is Some,
        r ==> final(binds)@ == match_list(*tcx, xs@, ys@, old(binds)@, pattern.0, xs@.len() as int)->0,
    decreases pattern.0, 0int,
{
    let ghost b0 = binds@;
    let mut i: usize = 0;
    while i < xs.len()
        invariant
            tcx.wf(),
            tcx.has(pattern),
            xs@.len() == ys@.len(),
            xs@.len() <= crate::typeck::components(tcx.kind_of(pattern)).len(),
            forall|i: int| 0 <= i < xs@.len() ==> #[trigger] xs@[i] == crate::typeck::components(tcx.kind_of(pattern))[i],
            forall|i: int| 0 <= i < ys@.len() ==> tcx.has(#[trigger] ys@[i]),
            i <= xs@.len(),
            b0 == old(binds)@,
            match_list(*tcx, xs@, ys@, b0, pattern.0, i as int) == Some(binds@),
        decreases xs@.len() - i,
    {
        proof {
            lemma_component_in_table(*tcx, pattern, i as int);
        }
        let ghost bi = binds@;
        assert(xs@[i as int].0 < pattern.0);
        if !matches_impl_self(tcx, xs[i], ys[i], binds) {
            proof {
                assert(match_ty(*tcx, xs@[i as int], ys@[i as int], bi) is None);
                assert(match_list(*tcx, xs@, ys@, b0, pattern.0, i + 1) is None);
                lemma_list_none_stays(*tcx, xs@, ys@, b0, pattern.0, i + 1, xs@.len() as int);
            }
            return false;
        }
        i = i + 1;
    }
    true
}

proof fn lemma_list_none_stays(tcx: TyCtx, xs: Seq<Ty>, ys: Seq<Ty>, b: Seq<(HirId, Ty)>, bound: u32, k: int, n: int)
    requires
        0 <= k <= n,
        match_list(tcx, xs, ys, b, bound, k) is None,
    ensures
        match_list(tcx, xs, ys, b, bound, n) is None,
    decreases n - k,
{
    if k < n {
        assert(match_list(tcx, xs, ys, b, bound, k + 1) is None);
        lemma_list_none_stays(tcx, xs, ys, b, bound, k + 1, n);
    }
}

} // verus!
