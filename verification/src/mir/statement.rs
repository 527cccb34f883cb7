//! Statements of a basic block.

use vstd::prelude::*;
use crate::ast::SrcSpan;
use crate::mir::ids::{Local, StatementId, VariantIdx};
use crate::mir::place::Place;
use crate::mir::rvalue::Rvalue;

verus! {

#[derive(Clone, Debug)]
pub struct Statement {
    pub id: StatementId,
    pub kind: StatementKind,
    pub span: SrcSpan,
}

#[derive(Clone, Debug)]
pub enum StatementKind {
    StorageLive(Local),
    StorageDead(Local),
    Assign(Place, Rvalue),
    SetDiscriminant { place: Place, variant: VariantIdx },
    PlaceMention(Place),
    /// The place is about to be written through `=`, a compound assignment or `&mut`; its
    /// root `let` must be `mut` unless the place is reached through a reference.
    CheckMutable(Place),
    /// The next borrow assigned to this local is lent for a whole `with` block rather than
    /// for as long as it is used.
    WithLend(Local),
}

} // verus!
