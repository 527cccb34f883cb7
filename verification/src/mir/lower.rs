//! The lowered program every pass after lowering reads.

use vstd::prelude::*;
use crate::hir::DefId;
use crate::mir::body::Body;
use crate::mir::def_infos::DefInfos;
use crate::mir::def_names::DefNames;
use crate::mir::instance::AnyMode;
use crate::mir::vtables::VtableInfo;
use crate::typeck::Ty;

verus! {

/// Every lowered body, keyed by its definition and, for an `any`-returning function, the mode
/// it was specialized to; the vtables; the definition facts and names passes need; and the
/// entry point.
pub struct Mir {
    pub bodies: Vec<((DefId, Option<AnyMode>), Body)>,
    pub vtables: Vec<((Ty, DefId), VtableInfo)>,
    pub def_infos: DefInfos,
    pub def_names: DefNames,
    /// The crate root's `main`, where there is one.
    pub main: Option<DefId>,
}

} // verus!
