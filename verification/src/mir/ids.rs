//! Dense indices into a body's tables.

use vstd::prelude::*;

verus! {

/// One slot of a body's `local_decls`. Slot `0` is the return place, slots `1..=param_count`
/// are the parameters, and every later slot is a `let` binding or a temporary.
#[derive(Clone, Copy, Debug, PartialEq, Eq, Structural)]
pub struct Local(pub u32);

impl Local {
    /// The slot every body reserves for its return value, in executable code.
    pub fn return_place_slot() -> (l: Local)
        ensures
            l == Local::return_place(),
    {
        Local(0)
    }

    /// A closure body's environment, its first parameter.
    pub fn environment() -> (l: Local)
        ensures
            l == Local(1),
    {
        Local(1)
    }

    /// The slot every body reserves for its return value.
    pub open spec fn return_place() -> Local {
        Local(0)
    }

    pub fn from_usize(index: usize) -> (l: Local)
        requires
            index <= u32::MAX,
        ensures
            l.0 == index,
    {
        Local(index as u32)
    }

    pub fn index(self) -> (i: usize)
        ensures
            i == self.0,
    {
        self.0 as usize
    }
}

/// One slot of a body's `basic_blocks`.
#[derive(Clone, Copy, Debug, PartialEq, Eq, Structural)]
pub struct BasicBlock(pub u32);

impl BasicBlock {
    /// The block every body starts in.
    pub fn start_block() -> (b: BasicBlock)
        ensures
            b == BasicBlock(0),
    {
        BasicBlock(0)
    }

    pub fn from_usize(index: usize) -> (b: BasicBlock)
        requires
            index <= u32::MAX,
        ensures
            b.0 == index,
    {
        BasicBlock(index as u32)
    }

    pub fn index(self) -> (i: usize)
        ensures
            i == self.0,
    {
        self.0 as usize
    }
}

#[derive(Clone, Copy, Debug, PartialEq, Eq, Structural)]
pub struct VariantIdx(pub u32);

impl VariantIdx {
    pub fn from_usize(index: usize) -> (v: VariantIdx)
        requires
            index <= u32::MAX,
        ensures
            v.0 == index,
    {
        VariantIdx(index as u32)
    }

    pub fn index(self) -> (i: usize)
        ensures
            i == self.0,
    {
        self.0 as usize
    }
}

#[derive(Clone, Copy, Debug, PartialEq, Eq, Structural)]
pub struct StatementId(pub u32);

impl StatementId {
    pub fn from_usize(index: usize) -> (s: StatementId)
        requires
            index <= u32::MAX,
        ensures
            s.0 == index,
    {
        StatementId(index as u32)
    }

    pub fn index(self) -> (i: usize)
        ensures
            i == self.0,
    {
        self.0 as usize
    }
}

} // verus!
