//! Places: a local and the projections that narrow it down to part of its memory.

use vstd::prelude::*;
use crate::mir::body::LocalDecl;
use crate::mir::ids::{Local, VariantIdx};
use crate::typeck::{Ty, TyCtx, TyKind};

verus! {

/// A location in memory: `local`, narrowed by `projections` applied left to right.
#[derive(Clone, Debug)]
pub struct Place {
    pub local: Local,
    pub projections: Vec<Projection>,
}

impl Place {
    /// The whole-value place naming `local` directly.
    pub fn from_local(local: Local) -> (p: Place)
        ensures
            p.local == local,
            p.projections@.len() == 0,
    {
        Place { local, projections: Vec::new() }
    }
}

/// One step of a place's projection.
#[derive(Clone, Copy, Debug, PartialEq, Eq, Structural)]
pub enum Projection {
    /// `*p`
    Deref,
    /// The `n`th field of a struct, tuple or variant payload.
    Field(u32),
    /// `a[i]`, where `i` is a local holding the index.
    Index(Local),
    /// `a[N]` for a compile-time constant `N`.
    ConstantIndex(u32),
    /// Narrows an enum place to one variant's payload.
    Downcast(VariantIdx),
}

/// Whether some projection of `place` is a `Deref`.
pub open spec fn has_deref(place: Place) -> bool {
    exists|i: int| 0 <= i < place.projections@.len() && place.projections@[i] == Projection::Deref
}

pub fn contains_deref(place: &Place) -> (r: bool)
    ensures
        r == has_deref(*place),
{
    let mut i: usize = 0;
    while i < place.projections.len()
        invariant
            i <= place.projections@.len(),
            forall|j: int| 0 <= j < i ==> place.projections@[j] != Projection::Deref,
        decreases place.projections@.len() - i,
    {
        if place.projections[i] == Projection::Deref {
            assert(place.projections@[i as int] == Projection::Deref);
            return true;
        }
        i = i + 1;
    }
    false
}

/// The type one projection reaches from type `at.0` (narrowed to variant `at.1` by an earlier
/// downcast), and the variant it narrows to; `None` where the projection does not apply.
pub open spec fn project_ty(tcx: TyCtx, at: (Ty, Option<int>), p: Projection) -> Option<(Ty, Option<int>)> {
    let (ty, variant) = at;
    if !tcx.has(ty) {
        None
    } else {
        match p {
            Projection::Deref => match tcx.kind_of(ty) {
                TyKind::Ref { base, .. } => Some((base, None)),
                TyKind::Iso(base) => Some((base, None)),
                _ => None,
            },
            Projection::Field(i) => match tcx.kind_of(ty) {
                TyKind::Tuple(elems) => if (i as int) < elems@.len() { Some((elems@[i as int], None)) } else { None },
                TyKind::Adt { .. } => match tcx.adt_of(ty) {
                    Some(a) => match variant {
                        Some(v) => if 0 <= v < a.variants@.len() && (i as int) < a.variants@[v]@.len() {
                            Some((a.variants@[v]@[i as int], None))
                        } else {
                            None
                        },
                        None => if !a.is_enum && a.variants@.len() > 0 && (i as int) < a.variants@[0]@.len() {
                            Some((a.variants@[0]@[i as int], None))
                        } else {
                            None
                        },
                    },
                    None => None,
                },
                _ => None,
            },
            Projection::Index(_) => match tcx.kind_of(ty) {
                TyKind::Array { elem, .. } => Some((elem, None)),
                _ => None,
            },
            Projection::ConstantIndex(_) => match tcx.kind_of(ty) {
                TyKind::Array { elem, .. } => Some((elem, None)),
                _ => None,
            },
            Projection::Downcast(v) => Some((ty, Some(v.0 as int))),
        }
    }
}

/// The type `projs` reach from `start`, one projection after the other.
pub open spec fn project_all(tcx: TyCtx, start: (Ty, Option<int>), projs: Seq<Projection>) -> Option<(Ty, Option<int>)>
    decreases projs.len(),
{
    if projs.len() == 0 {
        Some(start)
    } else {
        match project_all(tcx, start, projs.drop_last()) {
            Some(at) => project_ty(tcx, at, projs.last()),
            None => None,
        }
    }
}

/// The type of `place`: its local's declared type, narrowed by each projection in turn.
pub open spec fn type_of_place(tcx: TyCtx, decls: Seq<LocalDecl>, place: Place) -> Option<Ty> {
    if (place.local.0 as int) < decls.len() {
        match project_all(tcx, (decls[place.local.0 as int].ty, None), place.projections@) {
            Some(at) => Some(at.0),
            None => None,
        }
    } else {
        None
    }
}

/// The type of `place`, each projection applied to the type the one before it reached.
pub fn place_ty(tcx: &TyCtx, local_decls: &[LocalDecl], place: &Place) -> (ty: Ty)
    requires
        tcx.wf(),
        type_of_place(*tcx, local_decls@, *place) is Some,
    ensures
        type_of_place(*tcx, local_decls@, *place) == Some(ty),
{
    let ghost start = (local_decls@[place.local.0 as int].ty, None::<int>);
    let mut ty = local_decls[place.local.index()].ty;
    let mut variant: Option<usize> = None;
    let mut i: usize = 0;
    proof {
        let projs = place.projections@;
        assert forall|k: int| 0 <= k <= projs.len() implies #[trigger] project_all(*tcx, start, projs.take(k)) is Some by {
            lemma_project_prefix(*tcx, start, projs, k);
        }
        assert(projs.take(projs.len() as int) =~= projs);
        assert(projs.take(0) =~= Seq::<Projection>::empty());
    }
    while i < place.projections.len()
        invariant
            tcx.wf(),
            i <= place.projections@.len(),
            forall|k: int| 0 <= k <= place.projections@.len() ==> #[trigger] project_all(*tcx, start, place.projections@.take(k)) is Some,
            project_all(*tcx, start, place.projections@) == project_all(*tcx, start, place.projections@.take(place.projections@.len() as int)),
            project_all(*tcx, start, place.projections@.take(i as int)) == Some((ty, match variant { Some(v) => Some(v as int), None => None::<int> })),
        decreases place.projections@.len() - i,
    {
        let ghost prefix = place.projections@.take(i as int);
        assert(place.projections@.take(i + 1).drop_last() =~= prefix);
        assert(place.projections@.take(i + 1).last() == place.projections@[i as int]);
        assert(project_all(*tcx, start, place.projections@.take(i + 1)) is Some);
        let at_variant = variant;
        let next = project_exec(tcx, ty, at_variant, place.projections[i]);
        ty = next.0;
        variant = next.1;
        i = i + 1;
    }
    assert(place.projections@.take(place.projections@.len() as int) =~= place.projections@);
    ty
}

proof fn lemma_project_prefix(tcx: TyCtx, start: (Ty, Option<int>), projs: Seq<Projection>, k: int)
    requires
        0 <= k <= projs.len(),
        project_all(tcx, start, projs) is Some,
    ensures
        project_all(tcx, start, projs.take(k)) is Some,
    decreases projs.len() - k,
{
    if k == projs.len() {
        assert(projs.take(k) =~= projs);
    } else {
        lemma_project_prefix(tcx, start, projs, k + 1);
        assert(projs.take(k + 1).drop_last() =~= projs.take(k));
    }
}

/// One projection's step, where it applies.
fn project_exec(tcx: &TyCtx, ty: Ty, variant: Option<usize>, p: Projection) -> (r: (Ty, Option<usize>))
    requires
        tcx.wf(),
        project_ty(*tcx, (ty, match variant { Some(v) => Some(v as int), None => None::<int> }), p) is Some,
    ensures
        project_ty(*tcx, (ty, match variant { Some(v) => Some(v as int), None => None::<int> }), p) == Some(
            (r.0, match r.1 { Some(v) => Some(v as int), None => None::<int> }),
        ),
{
    match p {
        Projection::Deref => match tcx.kind(ty) {
            TyKind::Ref { base, .. } => (*base, None),
            TyKind::Iso(base) => (*base, None),
            _ => (ty, None),
        },
        Projection::Field(i) => match tcx.kind(ty) {
            TyKind::Tuple(elems) => (elems[i as usize], None),
            _ => {
                let fields = tcx.adt(ty).unwrap();
                match variant {
                    Some(v) => (fields.variants[v][i as usize], None),
                    None => (fields.variants[0][i as usize], None),
                }
            },
        },
        Projection::Index(_) | Projection::ConstantIndex(_) => match tcx.kind(ty) {
            TyKind::Array { elem, .. } => (*elem, None),
            _ => (ty, None),
        },
        Projection::Downcast(v) => (ty, Some(v.index())),
    }
}

} // verus!
