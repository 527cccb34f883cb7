//! The definitions lowering reads: each owner node with the facts later passes need of it.

use vstd::prelude::*;
use crate::ast::{Ident, Path};

verus! {

/// Identifies one definition; its index into [`Hir::defs`].
#[derive(Clone, Copy, Debug, PartialEq, Eq, Structural)]
pub struct DefId(pub u32);

impl DefId {
    pub open spec fn spec_index(self) -> int {
        self.0 as int
    }

    pub fn index(self) -> (i: usize)
        ensures
            i == self.0,
    {
        self.0 as usize
    }
}

/// Identifies one node inside a definition.
#[derive(Clone, Copy, Debug, PartialEq, Eq, Structural)]
pub struct HirId {
    pub owner: DefId,
    pub local_id: u32,
}

#[derive(Clone, Debug)]
pub struct ModuleDef {
    pub path: Path,
}

#[derive(Clone, Debug)]
pub struct FunctionDef {
    pub name: Ident,
    pub generics: Vec<HirId>,
}

#[derive(Clone, Debug)]
pub struct StructDef {
    pub name: Ident,
    pub generics: Vec<HirId>,
}

#[derive(Clone, Debug)]
pub struct EnumDef {
    pub name: Ident,
    pub generics: Vec<HirId>,
}

#[derive(Clone, Debug)]
pub struct TraitDef {
    pub name: Ident,
    pub generics: Vec<HirId>,
    /// The methods the trait declares, in declaration order.
    pub functions: Vec<DefId>,
}

#[derive(Clone, Debug)]
pub struct ExtendDef {
    /// The block's own generic parameters (`extend<T> Vec<T>`'s `T`).
    pub extend_generics: Vec<HirId>,
    pub methods: Vec<DefId>,
}

/// A definition, by kind.
#[derive(Clone, Debug)]
pub enum OwnerNode {
    Module(ModuleDef),
    Function(FunctionDef),
    Struct(StructDef),
    Enum(EnumDef),
    Trait(TraitDef),
    Extend(ExtendDef),
    Closure,
}

/// Every method `node` declares, if it is a trait, is one of the first `n` definitions.
pub open spec fn methods_in_range(node: OwnerNode, n: int) -> bool {
    match node {
        OwnerNode::Trait(t) => t.functions@.len() <= u32::MAX && forall|k: int|
            0 <= k < t.functions@.len() ==> (#[trigger] t.functions@[k]).0 < n,
        _ => true,
    }
}

/// Every definition of the program, with the definition each one is declared inside.
#[derive(Clone, Debug)]
pub struct Hir {
    pub defs: Vec<OwnerNode>,
    pub parents: Vec<Option<DefId>>,
}

impl Hir {
    /// Parents and definitions line up, every parent is a definition declared before its child
    /// (so the parent chain ends), and every trait method is a definition.
    pub open spec fn wf(&self) -> bool {
        &&& self.defs@.len() == self.parents@.len()
        &&& self.defs@.len() < u32::MAX
        &&& forall|i: int|
            0 <= i < self.parents@.len() ==> (#[trigger] self.parents@[i] matches Some(p) ==> p.0 < i)
        &&& forall|i: int|
            0 <= i < self.defs@.len() ==> methods_in_range(#[trigger] self.defs@[i], self.defs@.len() as int)
    }

    pub fn len(&self) -> (n: usize)
        ensures
            n == self.defs@.len(),
    {
        self.defs.len()
    }

    pub fn def(&self, def: DefId) -> (node: &OwnerNode)
        requires
            def.0 < self.defs@.len(),
        ensures
            *node == self.defs@[def.0 as int],
    {
        &self.defs[def.0 as usize]
    }

    pub fn parent(&self, def: DefId) -> (p: Option<DefId>)
        requires
            self.wf(),
            def.0 < self.defs@.len(),
        ensures
            p == self.parents@[def.0 as int],
    {
        self.parents[def.0 as usize]
    }
}

} // verus!
