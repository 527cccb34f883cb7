//! Operands: what a statement reads without a temporary of its own.

use vstd::prelude::*;
use crate::ast::Symbol;
use crate::hir::DefId;
use crate::mir::instance::AnyMode;
use crate::mir::place::Place;
use crate::typeck::Ty;

verus! {

#[derive(Clone, Debug)]
pub enum Operand {
    /// Reads a trivially copyable place.
    Copy(Place),
    /// Reads a place by consuming it.
    Move(Place),
    /// A value known at compile time.
    Constant(Constant),
}

#[derive(Clone, Debug)]
pub struct Constant {
    pub ty: Ty,
    pub kind: ConstKind,
}

#[derive(Clone, Debug)]
pub enum ConstKind {
    Int(i128),
    /// A floating-point constant, by its IEEE-754 bits.
    Float(u64),
    Bool(bool),
    Char(char),
    Str(Symbol),
    FunDef(FunRef),
}

/// A reference to a definition used as a value or a call target.
#[derive(Clone, Debug)]
pub struct FunRef {
    pub def: DefId,
    pub args: Vec<Ty>,
    pub any_mode: Option<AnyMode>,
    pub self_ty: Option<Ty>,
    /// The trait and vtable slot `def` belongs to, when it is a method a trait declares.
    pub trait_method: Option<(DefId, u32)>,
}

} // verus!
