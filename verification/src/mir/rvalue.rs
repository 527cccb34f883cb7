//! Right-hand sides of assignments.

use vstd::prelude::*;
use crate::ast::{BinaryOp, Mutability, UnaryOp};
use crate::hir::DefId;
use crate::mir::ids::VariantIdx;
use crate::mir::operand::Operand;
use crate::mir::place::Place;
use crate::typeck::Ty;

verus! {

#[derive(Clone, Debug)]
pub enum Rvalue {
    Use(Operand),
    /// `&place` or `&mut place`.
    Ref { mutability: Mutability, place: Place },
    BinaryOp(BinaryOp, Operand, Operand),
    /// Like `BinaryOp`, producing `(result, overflowed)`; only integer `+`, `-` and `*`.
    CheckedBinaryOp(BinaryOp, Operand, Operand),
    UnaryOp(UnaryOp, Operand),
    Cast { operand: Operand, ty: Ty, kind: CastKind },
    Aggregate(Box<AggregateKind>, Vec<Operand>),
    /// Reads a place's enum discriminant as an integer.
    Discriminant(Place),
    /// Reads the length of an array or slice place.
    Len(Place),
    /// Allocates storage for the operand and moves it in, producing an `iso T`.
    New(Operand),
    /// Allocates `count` copies of `elem`, producing `iso [T]`.
    NewArray { elem: Operand, count: Operand },
}

/// The operands an rvalue reads, in order.
pub open spec fn rvalue_operands(rvalue: Rvalue) -> Seq<Operand> {
    match rvalue {
        Rvalue::Use(o) => seq![o],
        Rvalue::UnaryOp(_, o) => seq![o],
        Rvalue::Cast { operand, .. } => seq![operand],
        Rvalue::New(o) => seq![o],
        Rvalue::BinaryOp(_, l, r) => seq![l, r],
        Rvalue::CheckedBinaryOp(_, l, r) => seq![l, r],
        Rvalue::NewArray { elem, count } => seq![elem, count],
        Rvalue::Aggregate(_, ops) => ops@,
        Rvalue::Ref { .. } => Seq::empty(),
        Rvalue::Discriminant(_) => Seq::empty(),
        Rvalue::Len(_) => Seq::empty(),
    }
}

impl Rvalue {
    /// The operands this rvalue reads, in order.
    pub fn operands(&self) -> (ops: Vec<&Operand>)
        ensures
            ops@.len() == rvalue_operands(*self).len(),
            forall|i: int| 0 <= i < ops@.len() ==> *ops@[i] == rvalue_operands(*self)[i],
    {
        let mut v: Vec<&Operand> = Vec::new();
        match self {
            Rvalue::Use(o) | Rvalue::UnaryOp(_, o) | Rvalue::Cast { operand: o, .. } | Rvalue::New(o) => {
                v.push(o);
            },
            Rvalue::BinaryOp(_, l, r) | Rvalue::CheckedBinaryOp(_, l, r) | Rvalue::NewArray { elem: l, count: r } => {
                v.push(l);
                v.push(r);
            },
            Rvalue::Aggregate(_, ops) => {
                let mut i: usize = 0;
                while i < ops.len()
                    invariant
                        i <= ops@.len(),
                        v@.len() == i,
                        forall|j: int| 0 <= j < i ==> *v@[j] == ops@[j],
                    decreases ops@.len() - i,
                {
                    v.push(&ops[i]);
                    i = i + 1;
                }
            },
            Rvalue::Ref { .. } | Rvalue::Discriminant(_) | Rvalue::Len(_) => {},
        }
        v
    }
}

#[derive(Clone, Copy, Debug, PartialEq, Eq, Structural)]
pub enum CastKind {
    /// A user-written `expr as Ty`.
    Primitive,
    /// A compiler-inserted coercion from a function item to a function pointer.
    ReifyFunPointer,
}

#[derive(Clone, Debug)]
pub enum AggregateKind {
    Tuple,
    Array,
    Adt { def: DefId, variant: VariantIdx },
    Closure { def: DefId, args: Vec<Ty> },
}

} // verus!
