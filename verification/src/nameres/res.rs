//! What a name resolves to.

use vstd::prelude::*;
use crate::ast::NodeId;

verus! {

/// A primitive, built-in type such as `i32` or `bool`.
#[derive(Clone, Copy, Debug, PartialEq, Eq, Structural)]
pub enum PrimTy {
    I8,
    I16,
    I32,
    I64,
    U8,
    U16,
    U32,
    U64,
    F32,
    F64,
    Bool,
    Char,
    Usize,
    Str,
}

impl PrimTy {
    /// Whether this is one of the signed or unsigned integer types (`usize` included).
    pub fn is_integer(self) -> (r: bool)
        ensures
            r == (self is I8 || self is I16 || self is I32 || self is I64 || self is U8 || self is U16
                || self is U32 || self is U64 || self is Usize),
    {
        match self {
            PrimTy::I8 | PrimTy::I16 | PrimTy::I32 | PrimTy::I64 | PrimTy::U8 | PrimTy::U16
            | PrimTy::U32 | PrimTy::U64 | PrimTy::Usize => true,
            _ => false,
        }
    }

    /// Whether this is one of the IEEE-754 floating-point types.
    pub fn is_float(self) -> (r: bool)
        ensures
            r == (self is F32 || self is F64),
    {
        match self {
            PrimTy::F32 | PrimTy::F64 => true,
            _ => false,
        }
    }

    /// Whether this is a signed integer type.
    pub fn is_signed(self) -> (r: bool)
        ensures
            r == (self is I8 || self is I16 || self is I32 || self is I64),
    {
        match self {
            PrimTy::I8 | PrimTy::I16 | PrimTy::I32 | PrimTy::I64 => true,
            _ => false,
        }
    }
}

#[derive(Clone, Copy, Debug, PartialEq, Eq, Structural)]
pub enum Res {
    Type(Type),
    Local(Local),
    Function(NodeId),
    SelfTy(Type),
    /// Resolution failed; a diagnostic has already been reported.
    Error,
}

#[derive(Clone, Copy, Debug, PartialEq, Eq, Structural)]
pub enum Type {
    Prim(PrimTy),
    Generic(NodeId),
    Def(TyDef),
}

#[derive(Clone, Copy, Debug, PartialEq, Eq, Structural)]
pub enum TyDef {
    Struct(NodeId),
    Enum(NodeId),
    Trait(NodeId),
}

impl TyDef {
    pub open spec fn spec_node_id(self) -> NodeId {
        match self {
            TyDef::Struct(id) => id,
            TyDef::Enum(id) => id,
            TyDef::Trait(id) => id,
        }
    }

    /// The item this definition was declared by.
    pub fn node_id(self) -> (id: NodeId)
        ensures
            id == self.spec_node_id(),
    {
        match self {
            TyDef::Struct(id) | TyDef::Enum(id) | TyDef::Trait(id) => id,
        }
    }
}

#[derive(Clone, Copy, Debug, PartialEq, Eq, Structural)]
pub enum Local {
    Param(NodeId),
    SelfParam(NodeId),
    Variable(NodeId),
}

} // verus!
