//! The constness check as the check pipeline runs it: once per generic body, ahead of
//! monomorphization, so a generic definition is diagnosed once, at its own declaration.

use vstd::prelude::*;
use crate::diag::Diagnostic;
use crate::mir::constck::{body_checkable, program_bodies, program_reports};
use crate::mir::lower::Mir;
use crate::session::Session;

verus! {

/// Checks every body in `program`, returning a diagnostic for each place that a `=`, a
/// compound assignment or an explicit `&mut` borrow reaches but may not write to directly.
pub fn check(session: &Session, program: &Mir) -> (diags: Vec<Diagnostic>)
    requires
        forall|k: int| 0 <= k < program.bodies@.len() ==> body_checkable(*session, #[trigger] program.bodies@[k].1),
    ensures
        program_reports(*session, program_bodies(*program), diags@),
{
    crate::mir::constck::check(session, program)
}

} // verus!
