//! The drop tree of one place: which parts of it to drop, through which projections, and under
//! which runtime tests.

use vstd::prelude::*;
use crate::mir::checks::borrowck::{reg_eq, reg_view, register_of, steps_of, Register, SubRegisters};
use crate::mir::drop_elaboration::move_state::{owns_every_part_spec, status_spec, MoveState, Ownership};
use crate::mir::ids::{Local, VariantIdx};
use crate::mir::place::{Place, Projection};
use crate::typeck::{drop_within, Ty, TyCtx, TyKind};

verus! {

broadcast use vstd::std_specs::vec::group_vec_axioms;

/// How to drop a place.
#[derive(Debug)]
pub enum DropNode {
    /// Run the drop glue of the whole place.
    Glue(Place),
    /// Release the allocation an `iso` place owns, whose pointee is handled elsewhere.
    FreeAllocation(Place),
    /// Each in turn, first to last.
    Sequence(Vec<DropNode>),
    /// Read the enum's discriminant and drop the active variant's arm.
    Variants { place: Place, arms: Vec<(VariantIdx, DropNode)> },
    /// Only where the flag is set, clearing it first.
    Flagged { flag: Local, inner: Box<DropNode> },
}

/// A drop node as plain values: places are their local and projections.
pub enum DropTree {
    Glue(Local, Seq<Projection>),
    FreeAllocation(Local, Seq<Projection>),
    Sequence(Seq<DropTree>),
    Variants(Local, Seq<Projection>, Seq<(VariantIdx, DropTree)>),
    Flagged(Local, Box<DropTree>),
}

pub open spec fn tree_of(n: DropNode) -> DropTree
    decreases n,
{
    match n {
        DropNode::Glue(p) => DropTree::Glue(p.local, p.projections@),
        DropNode::FreeAllocation(p) => DropTree::FreeAllocation(p.local, p.projections@),
        DropNode::Sequence(v) => DropTree::Sequence(trees_of(v@)),
        DropNode::Variants { place, arms } => DropTree::Variants(place.local, place.projections@, arm_trees_of(arms@)),
        DropNode::Flagged { flag, inner } => DropTree::Flagged(flag, Box::new(tree_of(*inner))),
    }
}

pub open spec fn trees_of(s: Seq<DropNode>) -> Seq<DropTree>
    decreases s,
{
    if s.len() == 0 {
        Seq::empty()
    } else {
        trees_of(s.subrange(0, s.len() - 1)).push(tree_of(s[s.len() - 1]))
    }
}

pub open spec fn arm_trees_of(s: Seq<(VariantIdx, DropNode)>) -> Seq<(VariantIdx, DropTree)>
    decreases s,
{
    if s.len() == 0 {
        Seq::empty()
    } else {
        arm_trees_of(s.subrange(0, s.len() - 1)).push((s[s.len() - 1].0, tree_of(s[s.len() - 1].1)))
    }
}

pub open spec fn opt_tree(n: Option<DropNode>) -> Option<DropTree> {
    match n {
        Some(n) => Some(tree_of(n)),
        None => None,
    }
}

/// The drop flags reserved so far: flag `i` is local `first + i`, guarding register `i`.
pub struct FlagLocals {
    pub bool_ty: Ty,
    pub first: usize,
    pub reserved: Vec<(Register, Local)>,
}

impl FlagLocals {
    pub open spec fn regs(&self) -> Seq<(Local, Seq<SubRegisters>)> {
        Seq::new(self.reserved@.len(), |i: int| reg_view(self.reserved@[i].0))
    }

    pub open spec fn wf(&self) -> bool {
        forall|i: int| 0 <= i < self.reserved@.len() ==> (#[trigger] self.reserved@[i]).1.0 == self.first + i
    }

    pub fn new(bool_ty: Ty, first: usize) -> (f: FlagLocals)
        ensures
            f.wf(),
            f.bool_ty == bool_ty,
            f.first == first,
            f.regs() == Seq::<(Local, Seq<SubRegisters>)>::empty(),
    {
        let f = FlagLocals { bool_ty, first, reserved: Vec::new() };
        assert(f.regs() =~= Seq::<(Local, Seq<SubRegisters>)>::empty());
        f
    }

    /// The flag of `place`'s register, reserving the next slot if it has none.
    fn flag_for(&mut self, place: &Place) -> (l: Local)
        requires
            old(self).wf(),
            old(self).first + reserve(old(self).regs(), (place.local, steps_of(place.projections@))).1.len() <= u32::MAX,
        ensures
            final(self).wf(),
            final(self).first == old(self).first,
            final(self).bool_ty == old(self).bool_ty,
            l.0 == old(self).first + reserve(old(self).regs(), (place.local, steps_of(place.projections@))).0,
            final(self).regs() == reserve(old(self).regs(), (place.local, steps_of(place.projections@))).1,
    {
        let ghost regs = self.regs();
        let ghost r = (place.local, steps_of(place.projections@));
        let register = register_of(place);
        let mut i: usize = 0;
        let mut found = false;
        while i < self.reserved.len() && !found
            invariant
                self.wf(),
                regs == self.regs(),
                regs == old(self).regs(),
                *self == *old(self),
                i <= self.reserved@.len(),
                reg_view(register) == r,
                !found ==> first_slot(regs, r, i as nat) == i,
                found ==> i < self.reserved@.len() && first_slot(regs, r, regs.len()) == i,
            decreases self.reserved@.len() - i, if found { 0nat } else { 1nat },
        {
            assert(regs[i as int] == reg_view(self.reserved@[i as int].0));
            if reg_eq(&self.reserved[i].0, &register) {
                proof {
                    assert(first_slot(regs, r, (i + 1) as nat) == i);
                    lemma_first_slot_stays(regs, r, (i + 1) as nat, regs.len());
                }
                found = true;
            } else {
                i = i + 1;
            }
        }
        if found {
            assert(self.reserved@[i as int].1.0 == self.first + i);
            return self.reserved[i].1;
        }
        let local = Local::from_usize(self.first + self.reserved.len());
        self.reserved.push((register, local));
        proof {
            assert(self.regs() =~= regs.push(r));
        }
        local
    }

    pub fn flags(&self) -> (s: &Vec<(Register, Local)>)
        ensures
            *s == self.reserved,
    {
        &self.reserved
    }
}

/// The first index below `n` holding `r`, or `n` when there is none.
pub open spec fn first_slot(flags: Seq<(Local, Seq<SubRegisters>)>, r: (Local, Seq<SubRegisters>), n: nat) -> nat
    decreases n,
{
    if n == 0 {
        0
    } else {
        let k = first_slot(flags, r, (n - 1) as nat);
        if k < n - 1 {
            k
        } else if flags[n - 1] == r {
            (n - 1) as nat
        } else {
            n
        }
    }
}

/// Once found below `n`, the first slot stays put.
proof fn lemma_first_slot_stays(flags: Seq<(Local, Seq<SubRegisters>)>, r: (Local, Seq<SubRegisters>), n: nat, m: nat)
    requires
        n <= m,
        first_slot(flags, r, n) < n,
    ensures
        first_slot(flags, r, m) == first_slot(flags, r, n),
    decreases m - n,
{
    if m > n {
        lemma_first_slot_stays(flags, r, n, (m - 1) as nat);
    }
}

/// The slot of `r` among the reserved flags, and the flags after reserving it if needed.
pub open spec fn reserve(flags: Seq<(Local, Seq<SubRegisters>)>, r: (Local, Seq<SubRegisters>)) -> (nat, Seq<(Local, Seq<SubRegisters>)>) {
    let k = first_slot(flags, r, flags.len());
    if k < flags.len() {
        (k, flags)
    } else {
        (flags.len(), flags.push(r))
    }
}

/// What planning reads: the types, the universe, the state at the point, and the local of the
/// first flag.
pub struct PlanCtx {
    pub tcx: TyCtx,
    pub u: Seq<(Local, Seq<SubRegisters>)>,
    pub may: Seq<bool>,
    pub must: Seq<bool>,
    pub first: nat,
}

/// How far a re-plan of the same place under a deeper flag can go.
pub open spec fn plan_rank(place: (Local, Seq<Projection>), flagged: Option<nat>) -> nat {
    let rl = steps_of(place.1).len();
    match flagged {
        None => rl + 3,
        Some(n) => if n <= rl { (rl - n + 2) as nat } else { 2 },
    }
}

pub open spec fn projected(place: (Local, Seq<Projection>), p: Projection) -> (Local, Seq<Projection>) {
    (place.0, place.1.push(p))
}

/// The drop tree of `place`, of type `ty`, in the state of `c`, and the flags after it: nothing
/// when dropping its type runs no code or it was moved out on every path; behind a flag when
/// on some; otherwise by its type: an `iso` owning every part runs its glue, one with a part
/// moved out drops what is left of its pointee and releases the allocation; arrays and
/// functions run their glue; tuples and structs drop each field; enums switch on the variant.
/// Below a flag (`flagged`, the depth of the flagged register), only moves deeper count.
pub open spec fn plan_spec(
    c: PlanCtx,
    flags: Seq<(Local, Seq<SubRegisters>)>,
    place: (Local, Seq<Projection>),
    ty: Ty,
    flagged: Option<nat>,
    fuel: nat,
) -> (Option<DropTree>, Seq<(Local, Seq<SubRegisters>)>)
    decreases fuel, plan_rank(place, flagged), 0nat,
{
    if fuel == 0 || !drop_within(c.tcx, ty, fuel) {
        (None, flags)
    } else {
        let r = (place.0, steps_of(place.1));
        let from: int = match flagged {
            Some(n) => n as int + 1,
            None => 0,
        };
        match status_spec(c.u, c.may, c.must, r, from) {
            Ownership::Moved => (None, flags),
            Ownership::Maybe => {
                let (slot, f1) = reserve(flags, r);
                let (inner, f2) = plan_spec(c, f1, place, ty, Some(r.1.len()), fuel);
                (
                    match inner {
                        Some(t) => Some(DropTree::Flagged(Local((c.first + slot) as u32), Box::new(t))),
                        None => None,
                    },
                    f2,
                )
            },
            Ownership::Owned => match c.tcx.kind_of(ty) {
                TyKind::Iso(pointee) => if owns_every_part_spec(c.u, c.may, r) {
                    (Some(DropTree::Glue(place.0, place.1)), flags)
                } else {
                    let (surviving, f1) = plan_spec(c, flags, projected(place, Projection::Deref), pointee, flagged, (fuel - 1) as nat);
                    (
                        Some(
                            match surviving {
                                Some(s) => DropTree::Sequence(seq![s, DropTree::FreeAllocation(place.0, place.1)]),
                                None => DropTree::FreeAllocation(place.0, place.1),
                            },
                        ),
                        f1,
                    )
                },
                TyKind::Array { .. } => (Some(DropTree::Glue(place.0, place.1)), flags),
                TyKind::Fun { .. } => (Some(DropTree::Glue(place.0, place.1)), flags),
                TyKind::Tuple(elems) => {
                    let (nodes, f1) = plan_fields_spec(c, flags, place, elems@, flagged, fuel, elems@.len());
                    (if nodes.len() > 0 { Some(DropTree::Sequence(nodes)) } else { None }, f1)
                },
                TyKind::Adt { .. } => match c.tcx.adt_of(ty) {
                    Some(a) => if !a.is_enum {
                        let tys = if a.variants@.len() > 0 { a.variants@[0]@ } else { Seq::empty() };
                        let (nodes, f1) = plan_fields_spec(c, flags, place, tys, flagged, fuel, tys.len());
                        (if nodes.len() > 0 { Some(DropTree::Sequence(nodes)) } else { None }, f1)
                    } else {
                        let (arms, f1) = plan_variants_spec(c, flags, place, a.variants@, flagged, fuel, a.variants@.len());
                        (if arms.len() > 0 { Some(DropTree::Variants(place.0, place.1, arms)) } else { None }, f1)
                    },
                    None => (None, flags),
                },
                _ => (None, flags),
            },
        }
    }
}

/// The drop trees of the first `i` fields of `base`, whose types are `tys`, each planned in
/// turn, and the flags after them.
pub open spec fn plan_fields_spec(
    c: PlanCtx,
    flags: Seq<(Local, Seq<SubRegisters>)>,
    base: (Local, Seq<Projection>),
    tys: Seq<Ty>,
    flagged: Option<nat>,
    fuel: nat,
    i: nat,
) -> (Seq<DropTree>, Seq<(Local, Seq<SubRegisters>)>)
    decreases fuel, 0nat, i,
{
    if i == 0 || fuel == 0 {
        (Seq::empty(), flags)
    } else {
        let (prev, f1) = plan_fields_spec(c, flags, base, tys, flagged, fuel, (i - 1) as nat);
        let (n, f2) = plan_spec(c, f1, projected(base, Projection::Field((i - 1) as u32)), tys[i - 1], flagged, (fuel - 1) as nat);
        (
            match n {
                Some(t) => prev.push(t),
                None => prev,
            },
            f2,
        )
    }
}

/// The arms of the first `i` variants of the enum at `place`: each variant whose fields leave
/// something to drop, and the flags after them.
pub open spec fn plan_variants_spec(
    c: PlanCtx,
    flags: Seq<(Local, Seq<SubRegisters>)>,
    place: (Local, Seq<Projection>),
    variants: Seq<Vec<Ty>>,
    flagged: Option<nat>,
    fuel: nat,
    i: nat,
) -> (Seq<(VariantIdx, DropTree)>, Seq<(Local, Seq<SubRegisters>)>)
    decreases fuel, 1nat, i,
{
    if i == 0 {
        (Seq::empty(), flags)
    } else {
        let (prev, f1) = plan_variants_spec(c, flags, place, variants, flagged, fuel, (i - 1) as nat);
        let base = projected(place, Projection::Downcast(VariantIdx((i - 1) as u32)));
        let (nodes, f2) = plan_fields_spec(c, f1, base, variants[i - 1]@, flagged, fuel, variants[i - 1]@.len());
        (
            if nodes.len() > 0 {
                prev.push((VariantIdx((i - 1) as u32), DropTree::Sequence(nodes)))
            } else {
                prev
            },
            f2,
        )
    }
}

/// Planning only ever adds flags.
pub(crate) proof fn lemma_plan_grows(c: PlanCtx, flags: Seq<(Local, Seq<SubRegisters>)>, place: (Local, Seq<Projection>), ty: Ty, flagged: Option<nat>, fuel: nat)
    ensures
        plan_spec(c, flags, place, ty, flagged, fuel).1.len() >= flags.len(),
    decreases fuel, plan_rank(place, flagged), 0nat,
{
    if fuel == 0 || !drop_within(c.tcx, ty, fuel) {
    } else {
        let r = (place.0, steps_of(place.1));
        let from: int = match flagged {
            Some(n) => n as int + 1,
            None => 0,
        };
        match status_spec(c.u, c.may, c.must, r, from) {
            Ownership::Moved => {},
            Ownership::Maybe => {
                let (slot, f1) = reserve(flags, r);
                lemma_plan_grows(c, f1, place, ty, Some(r.1.len()), fuel);
            },
            Ownership::Owned => match c.tcx.kind_of(ty) {
                TyKind::Iso(pointee) => if !owns_every_part_spec(c.u, c.may, r) {
                    lemma_plan_grows(c, flags, projected(place, Projection::Deref), pointee, flagged, (fuel - 1) as nat);
                },
                TyKind::Tuple(elems) => {
                    lemma_fields_grow(c, flags, place, elems@, flagged, fuel, elems@.len());
                },
                TyKind::Adt { .. } => match c.tcx.adt_of(ty) {
                    Some(a) => if !a.is_enum {
                        let tys = if a.variants@.len() > 0 { a.variants@[0]@ } else { Seq::empty() };
                        lemma_fields_grow(c, flags, place, tys, flagged, fuel, tys.len());
                    } else {
                        lemma_variants_grow(c, flags, place, a.variants@, flagged, fuel, a.variants@.len());
                    },
                    None => {},
                },
                _ => {},
            },
        }
    }
}

proof fn lemma_fields_grow(c: PlanCtx, flags: Seq<(Local, Seq<SubRegisters>)>, base: (Local, Seq<Projection>), tys: Seq<Ty>, flagged: Option<nat>, fuel: nat, i: nat)
    ensures
        plan_fields_spec(c, flags, base, tys, flagged, fuel, i).1.len() >= flags.len(),
    decreases fuel, 0nat, i,
{
    if i == 0 || fuel == 0 {
    } else {
        lemma_fields_grow(c, flags, base, tys, flagged, fuel, (i - 1) as nat);
        let (prev, f1) = plan_fields_spec(c, flags, base, tys, flagged, fuel, (i - 1) as nat);
        lemma_plan_grows(c, f1, projected(base, Projection::Field((i - 1) as u32)), tys[i - 1], flagged, (fuel - 1) as nat);
    }
}

proof fn lemma_variants_grow(c: PlanCtx, flags: Seq<(Local, Seq<SubRegisters>)>, place: (Local, Seq<Projection>), variants: Seq<Vec<Ty>>, flagged: Option<nat>, fuel: nat, i: nat)
    ensures
        plan_variants_spec(c, flags, place, variants, flagged, fuel, i).1.len() >= flags.len(),
    decreases fuel, 1nat, i,
{
    if i > 0 {
        lemma_variants_grow(c, flags, place, variants, flagged, fuel, (i - 1) as nat);
        let (prev, f1) = plan_variants_spec(c, flags, place, variants, flagged, fuel, (i - 1) as nat);
        let base = projected(place, Projection::Downcast(VariantIdx((i - 1) as u32)));
        lemma_fields_grow(c, f1, base, variants[i - 1]@, flagged, fuel, variants[i - 1]@.len());
    }
}

/// The flags after planning more fields include those after fewer.
proof fn lemma_fields_mono(c: PlanCtx, flags: Seq<(Local, Seq<SubRegisters>)>, base: (Local, Seq<Projection>), tys: Seq<Ty>, flagged: Option<nat>, fuel: nat, i: nat, j: nat)
    requires
        i <= j,
    ensures
        plan_fields_spec(c, flags, base, tys, flagged, fuel, i).1.len() <= plan_fields_spec(c, flags, base, tys, flagged, fuel, j).1.len(),
    decreases j - i,
{
    if i < j {
        lemma_fields_mono(c, flags, base, tys, flagged, fuel, i, (j - 1) as nat);
        if fuel > 0 {
            let (prev, f1) = plan_fields_spec(c, flags, base, tys, flagged, fuel, (j - 1) as nat);
            lemma_plan_grows(c, f1, projected(base, Projection::Field((j - 1) as u32)), tys[j - 1], flagged, (fuel - 1) as nat);
        }
    }
}

proof fn lemma_variants_mono(c: PlanCtx, flags: Seq<(Local, Seq<SubRegisters>)>, place: (Local, Seq<Projection>), variants: Seq<Vec<Ty>>, flagged: Option<nat>, fuel: nat, i: nat, j: nat)
    requires
        i <= j,
    ensures
        plan_variants_spec(c, flags, place, variants, flagged, fuel, i).1.len() <= plan_variants_spec(c, flags, place, variants, flagged, fuel, j).1.len(),
    decreases j - i,
{
    if i < j {
        lemma_variants_mono(c, flags, place, variants, flagged, fuel, i, (j - 1) as nat);
        let (prev, f1) = plan_variants_spec(c, flags, place, variants, flagged, fuel, (j - 1) as nat);
        let base = projected(place, Projection::Downcast(VariantIdx((j - 1) as u32)));
        lemma_fields_grow(c, f1, base, variants[j - 1]@, flagged, fuel, variants[j - 1]@.len());
    }
}

/// A copy of `place`.
pub fn projected_copy(place: &Place) -> (q: Place)
    ensures
        q.local == place.local,
        q.projections@ == place.projections@,
{
    let mut projections: Vec<Projection> = Vec::new();
    let mut i: usize = 0;
    while i < place.projections.len()
        invariant
            i <= place.projections@.len(),
            projections@ == place.projections@.take(i as int),
        decreases place.projections@.len() - i,
    {
        projections.push(place.projections[i]);
        i = i + 1;
        assert(projections@ =~= place.projections@.take(i as int));
    }
    assert(projections@ =~= place.projections@);
    Place { local: place.local, projections }
}

/// `place` narrowed by one more projection.
pub fn projected_place(place: &Place, p: Projection) -> (q: Place)
    ensures
        q.local == place.local,
        q.projections@ == place.projections@.push(p),
{
    let mut projections: Vec<Projection> = Vec::new();
    let mut i: usize = 0;
    while i < place.projections.len()
        invariant
            i <= place.projections@.len(),
            projections@ == place.projections@.take(i as int),
        decreases place.projections@.len() - i,
    {
        projections.push(place.projections[i]);
        i = i + 1;
        assert(projections@ =~= place.projections@.take(i as int));
    }
    projections.push(p);
    assert(projections@ =~= place.projections@.push(p));
    Place { local: place.local, projections }
}

pub open spec fn flagged_len(flagged: Option<&Register>) -> Option<nat> {
    match flagged {
        Some(r) => Some(r.subregister@.len()),
        None => None,
    }
}

pub open spec fn plan_ctx(tcx: TyCtx, u: Seq<Register>, state: MoveState, first: usize) -> PlanCtx {
    PlanCtx { tcx, u: crate::mir::checks::borrowck::regs_view(u), may: state.may@, must: state.must@, first: first as nat }
}

/// A value whose type needs no drop gets no drop tree and reserves no flag, and a value that
/// has been moved out on every path gets no drop tree either: a drop tree is planned only for
/// a type that needs dropping.
pub proof fn law_plan_only_what_needs_dropping(
    c: PlanCtx,
    flags: Seq<(Local, Seq<SubRegisters>)>,
    place: (Local, Seq<Projection>),
    ty: Ty,
    flagged: Option<nat>,
    fuel: nat,
)
    ensures
        !drop_within(c.tcx, ty, fuel) ==> plan_spec(c, flags, place, ty, flagged, fuel) == (None::<DropTree>, flags),
        plan_spec(c, flags, place, ty, flagged, fuel).0 is Some ==> drop_within(c.tcx, ty, fuel),
        drop_within(c.tcx, ty, fuel) && status_spec(
            c.u,
            c.may,
            c.must,
            (place.0, steps_of(place.1)),
            match flagged {
                Some(n) => n as int + 1,
                None => 0,
            },
        ) == Ownership::Moved ==> plan_spec(c, flags, place, ty, flagged, fuel) == (None::<DropTree>, flags),
{
}

/// The drop tree of `place`, of type `ty`, in `state`, reserving flags as it goes.
pub fn plan(
    tcx: &TyCtx,
    u: &Vec<Register>,
    state: &MoveState,
    flags: &mut FlagLocals,
    place: Place,
    ty: Ty,
    flagged: Option<&Register>,
    fuel: usize,
) -> (n: Option<DropNode>)
    requires
        tcx.wf(),
        state.may@.len() == u@.len(),
        state.must@.len() == u@.len(),
        old(flags).wf(),
        old(flags).first + plan_spec(
            plan_ctx(*tcx, u@, *state, old(flags).first),
            old(flags).regs(),
            (place.local, place.projections@),
            ty,
            flagged_len(flagged),
            fuel as nat,
        ).1.len() <= u32::MAX,
    ensures
        final(flags).wf(),
        final(flags).first == old(flags).first,
        final(flags).bool_ty == old(flags).bool_ty,
        (opt_tree(n), final(flags).regs()) == plan_spec(
            plan_ctx(*tcx, u@, *state, old(flags).first),
            old(flags).regs(),
            (place.local, place.projections@),
            ty,
            flagged_len(flagged),
            fuel as nat,
        ),
    decreases fuel, plan_rank((place.local, place.projections@), flagged_len(flagged)), 0nat,
{
    let ghost c = plan_ctx(*tcx, u@, *state, flags.first);
    let ghost f0 = flags.regs();
    let ghost pv = (place.local, place.projections@);
    let ghost fl = flagged_len(flagged);
    if fuel == 0 || !tcx.needs_drop_within(ty, fuel) {
        return None;
    }
    let status = match flagged {
        Some(covered) => state.status_within(u, &place, covered),
        None => state.status(u, &place),
    };
    match status {
        Ownership::Moved => None,
        Ownership::Maybe => {
            let ghost r = (place.local, steps_of(place.projections@));
            proof {
                let (slot, f1) = reserve(f0, r);
                lemma_plan_grows(c, f1, pv, ty, Some(r.1.len()), fuel as nat);
            }
            let flag = flags.flag_for(&place);
            let covered = register_of(&place);
            let inner = plan(tcx, u, state, flags, place, ty, Some(&covered), fuel);
            match inner {
                Some(inner) => Some(DropNode::Flagged { flag, inner: Box::new(inner) }),
                None => None,
            }
        },
        Ownership::Owned => match tcx.kind(ty) {
            TyKind::Iso(pointee) => {
                if state.owns_every_part(u, &place) {
                    Some(DropNode::Glue(place))
                } else {
                    let pointee_place = projected_place(&place, Projection::Deref);
                    let surviving = plan(tcx, u, state, flags, pointee_place, *pointee, flagged, fuel - 1);
                    let free = DropNode::FreeAllocation(place);
                    match surviving {
                        Some(s) => {
                            let v = vec![s, free];
                            proof {
                                let s1 = v@.subrange(0, 1);
                                assert(s1.subrange(0, 0) =~= Seq::<DropNode>::empty());
                                assert(trees_of(s1.subrange(0, 0)) == Seq::<DropTree>::empty());
                                assert(s1[0] == v@[0]);
                                assert(trees_of(s1) =~= seq![tree_of(v@[0])]);
                                assert(trees_of(v@) =~= seq![tree_of(v@[0]), tree_of(v@[1])]);
                            }
                            Some(DropNode::Sequence(v))
                        },
                        None => Some(free),
                    }
                }
            },
            TyKind::Array { .. } => Some(DropNode::Glue(place)),
            TyKind::Fun { .. } => Some(DropNode::Glue(place)),
            TyKind::Tuple(elems) => {
                let nodes = plan_fields(tcx, u, state, flags, &place, elems, flagged, fuel);
                if nodes.len() > 0 {
                    Some(DropNode::Sequence(nodes))
                } else {
                    None
                }
            },
            TyKind::Adt { .. } => match tcx.adt(ty) {
                Some(a) => {
                    if !a.is_enum {
                        let empty: Vec<Ty> = Vec::new();
                        let tys = if a.variants.len() > 0 { &a.variants[0] } else { &empty };
                        let nodes = plan_fields(tcx, u, state, flags, &place, tys, flagged, fuel);
                        if nodes.len() > 0 {
                            Some(DropNode::Sequence(nodes))
                        } else {
                            None
                        }
                    } else {
                        let arms = plan_variants(tcx, u, state, flags, &place, &a.variants, flagged, fuel);
                        if arms.len() > 0 {
                            Some(DropNode::Variants { place, arms })
                        } else {
                            None
                        }
                    }
                },
                None => None,
            },
            _ => None,
        },
    }
}

/// The drop trees of each field of `base`, whose types are `tys`, in order.
fn plan_fields(
    tcx: &TyCtx,
    u: &Vec<Register>,
    state: &MoveState,
    flags: &mut FlagLocals,
    base: &Place,
    tys: &Vec<Ty>,
    flagged: Option<&Register>,
    fuel: usize,
) -> (nodes: Vec<DropNode>)
    requires
        tcx.wf(),
        fuel > 0,
        state.may@.len() == u@.len(),
        state.must@.len() == u@.len(),
        old(flags).wf(),
        old(flags).first + plan_fields_spec(
            plan_ctx(*tcx, u@, *state, old(flags).first),
            old(flags).regs(),
            (base.local, base.projections@),
            tys@,
            flagged_len(flagged),
            fuel as nat,
            tys@.len(),
        ).1.len() <= u32::MAX,
    ensures
        final(flags).wf(),
        final(flags).first == old(flags).first,
        final(flags).bool_ty == old(flags).bool_ty,
        (trees_of(nodes@), final(flags).regs()) == plan_fields_spec(
            plan_ctx(*tcx, u@, *state, old(flags).first),
            old(flags).regs(),
            (base.local, base.projections@),
            tys@,
            flagged_len(flagged),
            fuel as nat,
            tys@.len(),
        ),
    decreases fuel, 0nat, 0nat,
{
    let ghost c = plan_ctx(*tcx, u@, *state, flags.first);
    let ghost f0 = flags.regs();
    let ghost bv = (base.local, base.projections@);
    let ghost fl = flagged_len(flagged);
    let mut nodes: Vec<DropNode> = Vec::new();
    let mut k: usize = 0;
    while k < tys.len()
        invariant
            tcx.wf(),
            fuel > 0,
            state.may@.len() == u@.len(),
            state.must@.len() == u@.len(),
            c == plan_ctx(*tcx, u@, *state, flags.first),
            flags.wf(),
            flags.first == old(flags).first,
            flags.bool_ty == old(flags).bool_ty,
            f0 == old(flags).regs(),
            bv == (base.local, base.projections@),
            fl == flagged_len(flagged),
            k <= tys@.len(),
            flags.first + plan_fields_spec(c, f0, bv, tys@, fl, fuel as nat, tys@.len()).1.len() <= u32::MAX,
            (trees_of(nodes@), flags.regs()) == plan_fields_spec(c, f0, bv, tys@, fl, fuel as nat, k as nat),
        decreases tys@.len() - k,
    {
        proof {
            lemma_fields_mono(c, f0, bv, tys@, fl, fuel as nat, (k + 1) as nat, tys@.len());
        }
        let field = projected_place(base, Projection::Field(k as u32));
        proof {
            let (prev, f1) = plan_fields_spec(c, f0, bv, tys@, fl, fuel as nat, k as nat);
            assert(f1 == flags.regs());
            assert((field.local, field.projections@) == projected(bv, Projection::Field(k as u32)));
            assert(plan_fields_spec(c, f0, bv, tys@, fl, fuel as nat, (k + 1) as nat).1
                == plan_spec(c, f1, projected(bv, Projection::Field(k as u32)), tys@[k as int], fl, (fuel - 1) as nat).1);
        }
        let n = plan(tcx, u, state, flags, field, tys[k], flagged, fuel - 1);
        match n {
            Some(t) => {
                let ghost before = nodes@;
                nodes.push(t);
                proof {
                    assert(nodes@.subrange(0, nodes@.len() - 1) =~= before);
                }
            },
            None => {},
        }
        k = k + 1;
    }
    nodes
}

/// The arms of each variant of the enum at `place` that leaves something to drop.
fn plan_variants(
    tcx: &TyCtx,
    u: &Vec<Register>,
    state: &MoveState,
    flags: &mut FlagLocals,
    place: &Place,
    variants: &Vec<Vec<Ty>>,
    flagged: Option<&Register>,
    fuel: usize,
) -> (arms: Vec<(VariantIdx, DropNode)>)
    requires
        tcx.wf(),
        fuel > 0,
        state.may@.len() == u@.len(),
        state.must@.len() == u@.len(),
        old(flags).wf(),
        old(flags).first + plan_variants_spec(
            plan_ctx(*tcx, u@, *state, old(flags).first),
            old(flags).regs(),
            (place.local, place.projections@),
            variants@,
            flagged_len(flagged),
            fuel as nat,
            variants@.len(),
        ).1.len() <= u32::MAX,
    ensures
        final(flags).wf(),
        final(flags).first == old(flags).first,
        final(flags).bool_ty == old(flags).bool_ty,
        (arm_trees_of(arms@), final(flags).regs()) == plan_variants_spec(
            plan_ctx(*tcx, u@, *state, old(flags).first),
            old(flags).regs(),
            (place.local, place.projections@),
            variants@,
            flagged_len(flagged),
            fuel as nat,
            variants@.len(),
        ),
    decreases fuel, 1nat, 0nat,
{
    let ghost c = plan_ctx(*tcx, u@, *state, flags.first);
    let ghost f0 = flags.regs();
    let ghost pv = (place.local, place.projections@);
    let ghost fl = flagged_len(flagged);
    let mut arms: Vec<(VariantIdx, DropNode)> = Vec::new();
    let mut v: usize = 0;
    while v < variants.len()
        invariant
            tcx.wf(),
            fuel > 0,
            state.may@.len() == u@.len(),
            state.must@.len() == u@.len(),
            c == plan_ctx(*tcx, u@, *state, flags.first),
            flags.wf(),
            flags.first == old(flags).first,
            flags.bool_ty == old(flags).bool_ty,
            f0 == old(flags).regs(),
            pv == (place.local, place.projections@),
            fl == flagged_len(flagged),
            v <= variants@.len(),
            flags.first + plan_variants_spec(c, f0, pv, variants@, fl, fuel as nat, variants@.len()).1.len() <= u32::MAX,
            (arm_trees_of(arms@), flags.regs()) == plan_variants_spec(c, f0, pv, variants@, fl, fuel as nat, v as nat),
        decreases variants@.len() - v,
    {
        proof {
            lemma_variants_mono(c, f0, pv, variants@, fl, fuel as nat, (v + 1) as nat, variants@.len());
        }
        let base = projected_place(place, Projection::Downcast(VariantIdx(v as u32)));
        proof {
            let (prev, f1) = plan_variants_spec(c, f0, pv, variants@, fl, fuel as nat, v as nat);
            assert(f1 == flags.regs());
            let bv = projected(pv, Projection::Downcast(VariantIdx(v as u32)));
            assert((base.local, base.projections@) == bv);
            assert(plan_variants_spec(c, f0, pv, variants@, fl, fuel as nat, (v + 1) as nat).1
                == plan_fields_spec(c, f1, bv, variants@[v as int]@, fl, fuel as nat, variants@[v as int]@.len()).1);
        }
        let nodes = plan_fields(tcx, u, state, flags, &base, &variants[v], flagged, fuel);
        if nodes.len() > 0 {
            let ghost before = arms@;
            let ghost nv = nodes@;
            arms.push((VariantIdx(v as u32), DropNode::Sequence(nodes)));
            proof {
                assert(arms@.subrange(0, arms@.len() - 1) =~= before);
                let last = arms@[arms@.len() - 1];
                assert(last.0 == VariantIdx(v as u32));
                assert(tree_of(last.1) == DropTree::Sequence(trees_of(nv)));
                assert(arm_trees_of(arms@) == arm_trees_of(before).push((VariantIdx(v as u32), DropTree::Sequence(trees_of(nv)))));
                assert(trees_of(nv).len() > 0);
            }
        } else {
            assert(trees_of(nodes@).len() == 0);
        }
        v = v + 1;
    }
    arms
}

/// No register is guarded by two flags.
pub open spec fn distinct_flags(flags: Seq<(Local, Seq<SubRegisters>)>) -> bool {
    forall|i: int, j: int| 0 <= i < j < flags.len() ==> flags[i] != flags[j]
}

proof fn lemma_reserve_distinct(flags: Seq<(Local, Seq<SubRegisters>)>, r: (Local, Seq<SubRegisters>))
    requires
        distinct_flags(flags),
    ensures
        distinct_flags(reserve(flags, r).1),
{
    let k = first_slot(flags, r, flags.len());
    if k >= flags.len() {
        lemma_first_slot_absent(flags, r, flags.len());
        let f = flags.push(r);
        assert forall|i: int, j: int| 0 <= i < j < f.len() implies f[i] != f[j] by {
            if j == flags.len() {
                assert(f[i] == flags[i]);
            } else {
                assert(f[i] == flags[i] && f[j] == flags[j]);
            }
        }
    }
}

/// When no slot below `n` is found, none of the first `n` holds `r`.
proof fn lemma_first_slot_absent(flags: Seq<(Local, Seq<SubRegisters>)>, r: (Local, Seq<SubRegisters>), n: nat)
    requires
        first_slot(flags, r, n) >= n,
    ensures
        forall|i: int| 0 <= i < n ==> flags[i] != r,
    decreases n,
{
    if n > 0 {
        let k = first_slot(flags, r, (n - 1) as nat);
        if k < n - 1 {
        } else {
            lemma_first_slot_absent(flags, r, (n - 1) as nat);
        }
    }
}

/// Planning reserves at most one flag per register: a drop tree never guards one register
/// with two flags.
pub proof fn law_plan_flags_distinct(c: PlanCtx, flags: Seq<(Local, Seq<SubRegisters>)>, place: (Local, Seq<Projection>), ty: Ty, flagged: Option<nat>, fuel: nat)
    requires
        distinct_flags(flags),
    ensures
        distinct_flags(plan_spec(c, flags, place, ty, flagged, fuel).1),
    decreases fuel, plan_rank(place, flagged), 0nat,
{
    if fuel == 0 || !drop_within(c.tcx, ty, fuel) {
    } else {
        let r = (place.0, steps_of(place.1));
        let from: int = match flagged {
            Some(n) => n as int + 1,
            None => 0,
        };
        match status_spec(c.u, c.may, c.must, r, from) {
            Ownership::Moved => {},
            Ownership::Maybe => {
                lemma_reserve_distinct(flags, r);
                let (slot, f1) = reserve(flags, r);
                law_plan_flags_distinct(c, f1, place, ty, Some(r.1.len()), fuel);
            },
            Ownership::Owned => match c.tcx.kind_of(ty) {
                TyKind::Iso(pointee) => if !owns_every_part_spec(c.u, c.may, r) {
                    law_plan_flags_distinct(c, flags, projected(place, Projection::Deref), pointee, flagged, (fuel - 1) as nat);
                },
                TyKind::Tuple(elems) => {
                    lemma_fields_distinct(c, flags, place, elems@, flagged, fuel, elems@.len());
                },
                TyKind::Adt { .. } => match c.tcx.adt_of(ty) {
                    Some(a) => if !a.is_enum {
                        let tys = if a.variants@.len() > 0 { a.variants@[0]@ } else { Seq::empty() };
                        lemma_fields_distinct(c, flags, place, tys, flagged, fuel, tys.len());
                    } else {
                        lemma_variants_distinct(c, flags, place, a.variants@, flagged, fuel, a.variants@.len());
                    },
                    None => {},
                },
                _ => {},
            },
        }
    }
}

proof fn lemma_fields_distinct(c: PlanCtx, flags: Seq<(Local, Seq<SubRegisters>)>, base: (Local, Seq<Projection>), tys: Seq<Ty>, flagged: Option<nat>, fuel: nat, i: nat)
    requires
        distinct_flags(flags),
    ensures
        distinct_flags(plan_fields_spec(c, flags, base, tys, flagged, fuel, i).1),
    decreases fuel, 0nat, i,
{
    if i > 0 && fuel > 0 {
        lemma_fields_distinct(c, flags, base, tys, flagged, fuel, (i - 1) as nat);
        let (prev, f1) = plan_fields_spec(c, flags, base, tys, flagged, fuel, (i - 1) as nat);
        law_plan_flags_distinct(c, f1, projected(base, Projection::Field((i - 1) as u32)), tys[i - 1], flagged, (fuel - 1) as nat);
    }
}

proof fn lemma_variants_distinct(c: PlanCtx, flags: Seq<(Local, Seq<SubRegisters>)>, place: (Local, Seq<Projection>), variants: Seq<Vec<Ty>>, flagged: Option<nat>, fuel: nat, i: nat)
    requires
        distinct_flags(flags),
    ensures
        distinct_flags(plan_variants_spec(c, flags, place, variants, flagged, fuel, i).1),
    decreases fuel, 1nat, i,
{
    if i > 0 {
        lemma_variants_distinct(c, flags, place, variants, flagged, fuel, (i - 1) as nat);
        let (prev, f1) = plan_variants_spec(c, flags, place, variants, flagged, fuel, (i - 1) as nat);
        let base = projected(place, Projection::Downcast(VariantIdx((i - 1) as u32)));
        lemma_fields_distinct(c, f1, base, variants[i - 1]@, flagged, fuel, variants[i - 1]@.len());
    }
}

} // verus!
