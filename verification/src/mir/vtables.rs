//! The vtables `dyn` calls load from.

use vstd::prelude::*;
use crate::hir::{DefId, HirId};
use crate::typeck::Ty;

verus! {

/// One type's implementation of one trait, as `dyn` dispatch sees it.
#[derive(Clone, Debug)]
pub struct VtableInfo {
    /// For each method the trait declares, in slot order, the implementing method, if any.
    pub methods: Vec<Option<DefId>>,
    /// The `extend .. with` block that implements the trait.
    pub block: DefId,
    pub trait_args: Vec<Ty>,
    /// The block's own generic parameters, which a call through the trait lines its arguments
    /// up against before the method's own.
    pub extend_generics: Vec<HirId>,
}

} // verus!
