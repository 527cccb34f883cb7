//! The borrow checks' shared vocabulary: a [`Register`] is a [`Place`] with only the
//! projections that narrow down which memory it names.

pub mod captures;
pub mod definite_init;
pub mod element_moves;
pub mod exclusivity;
pub mod lifetimes;
pub mod returned_reference;

use vstd::prelude::*;
use crate::mir::ids::Local;
use crate::mir::place::{Place, Projection};

verus! {

/// A place reduced to its owner and the steps that narrow its memory: dereferences, fields
/// and constant indices. Downcasts and computed indices are dropped.
#[derive(Clone, Debug)]
pub struct Register {
    pub owner: Local,
    pub subregister: Vec<SubRegisters>,
}

#[derive(Clone, Copy, Debug, PartialEq, Eq, Structural)]
pub enum SubRegisters {
    Deref,
    Field(u32),
    ConstantIndex(u32),
}

/// The register step a projection contributes, if any.
pub open spec fn step_of(p: Projection) -> Option<SubRegisters> {
    match p {
        Projection::Deref => Some(SubRegisters::Deref),
        Projection::Field(n) => Some(SubRegisters::Field(n)),
        Projection::ConstantIndex(n) => Some(SubRegisters::ConstantIndex(n)),
        Projection::Downcast(_) => None,
        Projection::Index(_) => None,
    }
}

/// The register steps of `projs`, in order.
pub open spec fn steps_of(projs: Seq<Projection>) -> Seq<SubRegisters>
    decreases projs.len(),
{
    if projs.len() == 0 {
        Seq::empty()
    } else {
        steps_of(projs.drop_last()) + match step_of(projs.last()) {
            Some(s) => seq![s],
            None => Seq::empty(),
        }
    }
}

/// Whether some projection of `place` indexes into an array.
pub open spec fn indexes_array(place: Place) -> bool {
    exists|i: int|
        0 <= i < place.projections@.len() && (#[trigger] place.projections@[i] is Index
            || place.projections@[i] is ConstantIndex)
}

/// The register `place` names.
pub fn register_of(place: &Place) -> (r: Register)
    ensures
        r.owner == place.local,
        r.subregister@ == steps_of(place.projections@),
{
    let mut subregister: Vec<SubRegisters> = Vec::new();
    let mut i: usize = 0;
    while i < place.projections.len()
        invariant
            i <= place.projections@.len(),
            subregister@ == steps_of(place.projections@.take(i as int)),
        decreases place.projections@.len() - i,
    {
        assert(place.projections@.take(i + 1).drop_last() =~= place.projections@.take(i as int));
        match place.projections[i] {
            Projection::Deref => subregister.push(SubRegisters::Deref),
            Projection::Field(n) => subregister.push(SubRegisters::Field(n)),
            Projection::ConstantIndex(n) => subregister.push(SubRegisters::ConstantIndex(n)),
            Projection::Downcast(_) | Projection::Index(_) => {},
        }
        i = i + 1;
    }
    assert(place.projections@.take(place.projections@.len() as int) =~= place.projections@);
    Register { owner: place.local, subregister }
}

/// Whether `place` is an element of an array: some projection indexes, at a computed or a
/// constant index.
pub fn element_of_array(place: &Place) -> (r: bool)
    ensures
        r == indexes_array(*place),
{
    let mut i: usize = 0;
    while i < place.projections.len()
        invariant
            i <= place.projections@.len(),
            forall|j: int|
                0 <= j < i ==> !(place.projections@[j] is Index || place.projections@[j] is ConstantIndex),
        decreases place.projections@.len() - i,
    {
        match place.projections[i] {
            Projection::Index(_) | Projection::ConstantIndex(_) => {
                return true;
            },
            _ => {},
        }
        i = i + 1;
    }
    false
}

/// A register as plain values: its owner and its steps.
pub open spec fn reg_view(r: Register) -> (Local, Seq<SubRegisters>) {
    (r.owner, r.subregister@)
}

pub open spec fn regs_view(v: Seq<Register>) -> Seq<(Local, Seq<SubRegisters>)> {
    v.map_values(|r: Register| reg_view(r))
}

pub open spec fn place_reg(place: Place) -> (Local, Seq<SubRegisters>) {
    (place.local, steps_of(place.projections@))
}

pub open spec fn is_prefix(a: Seq<SubRegisters>, b: Seq<SubRegisters>) -> bool {
    a.len() <= b.len() && b.take(a.len() as int) == a
}

pub(crate) fn copy_register(r: &Register) -> (c: Register)
    ensures
        reg_view(c) == reg_view(*r),
{
    let mut sub: Vec<SubRegisters> = Vec::new();
    let mut i: usize = 0;
    while i < r.subregister.len()
        invariant
            i <= r.subregister@.len(),
            sub@ == r.subregister@.take(i as int),
        decreases r.subregister@.len() - i,
    {
        sub.push(r.subregister[i]);
        i = i + 1;
        assert(sub@ =~= r.subregister@.take(i as int));
    }
    assert(r.subregister@.take(r.subregister@.len() as int) =~= r.subregister@);
    Register { owner: r.owner, subregister: sub }
}

pub(crate) fn reg_eq(a: &Register, b: &Register) -> (r: bool)
    ensures
        r == (reg_view(*a) == reg_view(*b)),
{
    if a.owner != b.owner || a.subregister.len() != b.subregister.len() {
        return false;
    }
    let mut i: usize = 0;
    while i < a.subregister.len()
        invariant
            a.subregister@.len() == b.subregister@.len(),
            i <= a.subregister@.len(),
            forall|j: int| 0 <= j < i ==> a.subregister@[j] == b.subregister@[j],
        decreases a.subregister@.len() - i,
    {
        if a.subregister[i] != b.subregister[i] {
            return false;
        }
        i = i + 1;
    }
    assert(a.subregister@ =~= b.subregister@);
    true
}

/// Whether `a` is a prefix of `b`.
pub(crate) fn prefix_of(a: &Vec<SubRegisters>, b: &Vec<SubRegisters>) -> (r: bool)
    ensures
        r == is_prefix(a@, b@),
{
    if a.len() > b.len() {
        return false;
    }
    let mut i: usize = 0;
    while i < a.len()
        invariant
            a@.len() <= b@.len(),
            i <= a@.len(),
            forall|j: int| 0 <= j < i ==> a@[j] == b@[j],
        decreases a@.len() - i,
    {
        if a[i] != b[i] {
            assert(b@.take(a@.len() as int)[i as int] != a@[i as int]);
            return false;
        }
        i = i + 1;
    }
    assert(b@.take(a@.len() as int) =~= a@);
    true
}

} // verus!
