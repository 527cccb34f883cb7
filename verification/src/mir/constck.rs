//! The constness check: every place that `=`, a compound assignment or an explicit `&mut`
//! writes to must not be rooted, without crossing a reference, in a plain `let` binding.

use vstd::prelude::*;
use crate::ast::{Ident, Mutability, SrcSpan};
use crate::diag::{concat3, Diagnostic};
use crate::mir::body::{BasicBlockData, Body};
use crate::mir::lower::Mir;
use crate::mir::place::{contains_deref, has_deref, Place};
use crate::mir::statement::{Statement, StatementKind};
use crate::session::Session;

verus! {

pub open spec fn not_mutable_message(name: Seq<char>) -> Seq<char> {
    "cannot assign to `"@ + name + "`, which is not declared `mut`"@
}

/// The local at the root of `place` is an immutable `let` the write reaches directly.
pub open spec fn rejects_write(body: Body, place: Place) -> bool {
    &&& !has_deref(place)
    &&& body.local_decls@[place.local.0 as int].mutability == Mutability::Immutable
}

/// The diagnostic reported for a write to `place`, which `rejects_write` refuses.
pub open spec fn is_not_mutable_report(session: Session, body: Body, place: Place, span: SrcSpan, d: Diagnostic) -> bool {
    match body.local_decls@[place.local.0 as int].name {
        Some(name) => d.message@ == not_mutable_message(session.text(name.text)) && d.span == span,
        None => false,
    }
}

/// How many diagnostics `stmt` yields: one for a refused write, none otherwise.
pub open spec fn stmt_reports(body: Body, stmt: Statement) -> nat {
    match stmt.kind {
        StatementKind::CheckMutable(place) => if rejects_write(body, place) { 1 } else { 0 },
        _ => 0,
    }
}

/// The `CheckMutable` statements of `stmts` the check can read: each place's local exists,
/// and a refused one is a named local whose name `session` knows.
pub open spec fn stmts_checkable(session: Session, body: Body, stmts: Seq<Statement>) -> bool {
    forall|i: int|
        0 <= i < stmts.len() ==> match #[trigger] stmts[i].kind {
            StatementKind::CheckMutable(place) => (place.local.0 as int) < body.local_decls@.len() && (
            rejects_write(body, place) ==> (body.local_decls@[place.local.0 as int].name matches Some(
                name,
            ) && session.has(name.text))),
            _ => true,
        }
}

pub open spec fn body_checkable(session: Session, body: Body) -> bool {
    forall|b: int|
        0 <= b < body.basic_blocks@.len() ==> stmts_checkable(session, body, #[trigger] body.basic_blocks@[b].statements@)
}

/// The writes `stmts` refuses, in order: the places and the spans of their statements.
pub open spec fn refused_in(body: Body, stmts: Seq<Statement>) -> Seq<(Place, SrcSpan)>
    decreases stmts.len(),
{
    if stmts.len() == 0 {
        Seq::empty()
    } else {
        let last = stmts.last();
        refused_in(body, stmts.drop_last()) + match last.kind {
            StatementKind::CheckMutable(place) => if rejects_write(body, place) {
                seq![(place, last.span)]
            } else {
                Seq::empty()
            },
            _ => Seq::empty(),
        }
    }
}

/// The writes refused in the first `n` blocks of `blocks`, block by block.
pub open spec fn refused_in_blocks(body: Body, blocks: Seq<BasicBlockData>, n: int) -> Seq<(Place, SrcSpan)>
    decreases n,
{
    if n <= 0 {
        Seq::empty()
    } else {
        refused_in_blocks(body, blocks, n - 1) + refused_in(body, blocks[n - 1].statements@)
    }
}

/// The writes `body` refuses, in block and statement order.
pub open spec fn refused_writes(body: Body) -> Seq<(Place, SrcSpan)> {
    refused_in_blocks(body, body.basic_blocks@, body.basic_blocks@.len() as int)
}

/// `diags` are the reports of `refused`, one for one and in order.
pub open spec fn reports_of(session: Session, body: Body, refused: Seq<(Place, SrcSpan)>, diags: Seq<Diagnostic>) -> bool {
    &&& diags.len() == refused.len()
    &&& forall|i: int|
        0 <= i < diags.len() ==> is_not_mutable_report(session, body, (#[trigger] refused[i]).0, refused[i].1, diags[i])
}

/// A write checked through a reference is never refused; a direct write to an immutable
/// `let` always is, at the checking statement.
pub proof fn law_refused_exactly_direct_writes_to_immutable_lets(body: Body, stmt: Statement, place: Place)
    requires
        stmt.kind == StatementKind::CheckMutable(place),
    ensures
        has_deref(place) ==> refused_in(body, seq![stmt]) == Seq::<(Place, SrcSpan)>::empty(),
        !has_deref(place) && body.local_decls@[place.local.0 as int].mutability == Mutability::Immutable ==> refused_in(
            body,
            seq![stmt],
        ) == seq![(place, stmt.span)],
        body.local_decls@[place.local.0 as int].mutability == Mutability::Mutable ==> refused_in(body, seq![stmt])
            == Seq::<(Place, SrcSpan)>::empty(),
{
    reveal_with_fuel(refused_in, 2);
    assert(seq![stmt].drop_last() =~= Seq::<Statement>::empty());
    assert(refused_in(body, Seq::<Statement>::empty()) =~= Seq::<(Place, SrcSpan)>::empty());
}

fn report_not_mutable(session: &Session, name: Ident, span: SrcSpan) -> (d: Diagnostic)
    requires
        session.has(name.text),
    ensures
        d.message@ == not_mutable_message(session.text(name.text)),
        d.span == span,
{
    let message = concat3("cannot assign to `", session.resolve(name.text), "`, which is not declared `mut`");
    proof {
        reveal_strlit("cannot assign to `");
        reveal_strlit("`, which is not declared `mut`");
    }
    Diagnostic::error(message, span)
}

/// Appends to `out` the diagnostic for each refused write among `body`'s `CheckMutable`
/// statements, in block and statement order.
pub fn check_body(session: &Session, body: &Body, out: &mut Vec<Diagnostic>)
    requires
        body_checkable(*session, *body),
    ensures
        final(out)@.len() >= old(out)@.len(),
        final(out)@.take(old(out)@.len() as int) == old(out)@,
        reports_of(*session, *body, refused_writes(*body), final(out)@.skip(old(out)@.len() as int)),
{
    let ghost start = out@;
    let mut b: usize = 0;
    while b < body.basic_blocks.len()
        invariant
            body_checkable(*session, *body),
            b <= body.basic_blocks@.len(),
            out@.take(start.len() as int) == start,
            out@.len() >= start.len(),
            reports_of(*session, *body, refused_in_blocks(*body, body.basic_blocks@, b as int), out@.skip(start.len() as int)),
        decreases body.basic_blocks@.len() - b,
    {
        let stmts = &body.basic_blocks[b].statements;
        assert(stmts_checkable(*session, *body, stmts@));
        let ghost mid = out@;
        let mut i: usize = 0;
        while i < stmts.len()
            invariant
                stmts_checkable(*session, *body, stmts@),
                i <= stmts@.len(),
                out@.take(mid.len() as int) == mid,
                out@.len() >= mid.len(),
                reports_of(*session, *body, refused_in(*body, stmts@.take(i as int)), out@.skip(mid.len() as int)),
            decreases stmts@.len() - i,
        {
            let stmt = &stmts[i];
            let ghost before = out@;
            assert(stmts@.take(i + 1).drop_last() =~= stmts@.take(i as int));
            assert(stmts@.take(i + 1).last() == stmts@[i as int]);
            if let StatementKind::CheckMutable(place) = &stmt.kind {
                if !contains_deref(place) {
                    let decl = &body.local_decls[place.local.index()];
                    if decl.mutability == Mutability::Immutable {
                        match decl.name {
                            Some(name) => {
                                out.push(report_not_mutable(session, name, stmt.span));
                            },
                            None => {},
                        }
                    }
                }
            }
            proof {
                let refused = refused_in(*body, stmts@.take(i + 1));
                assert(out@.take(mid.len() as int) =~= mid) by {
                    assert(before.take(mid.len() as int) == mid);
                }
                assert forall|k: int| 0 <= k < out@.skip(mid.len() as int).len() implies is_not_mutable_report(
                    *session,
                    *body,
                    (#[trigger] refused[k]).0,
                    refused[k].1,
                    out@.skip(mid.len() as int)[k],
                ) by {
                    if k < before.len() - mid.len() {
                        assert(out@.skip(mid.len() as int)[k] == before.skip(mid.len() as int)[k]);
                    }
                }
            }
            i = i + 1;
        }
        assert(stmts@.take(stmts@.len() as int) =~= stmts@);
        proof {
            let refused = refused_in_blocks(*body, body.basic_blocks@, b + 1);
            assert(refused == refused_in_blocks(*body, body.basic_blocks@, b as int) + refused_in(*body, stmts@));
            assert(out@.take(start.len() as int) =~= start) by {
                assert(mid.take(start.len() as int) == start);
                assert(out@.take(mid.len() as int) == mid);
            }
            let prev = refused_in_blocks(*body, body.basic_blocks@, b as int);
            assert forall|k: int| 0 <= k < out@.skip(start.len() as int).len() implies is_not_mutable_report(
                *session,
                *body,
                (#[trigger] refused[k]).0,
                refused[k].1,
                out@.skip(start.len() as int)[k],
            ) by {
                if k < prev.len() {
                    assert(out@.skip(start.len() as int)[k] == mid.skip(start.len() as int)[k]);
                } else {
                    assert(out@.skip(start.len() as int)[k] == out@.skip(mid.len() as int)[k - prev.len()]);
                }
            }
        }
        b = b + 1;
    }
}

/// The writes refused in the first `n` bodies of `bodies`, body by body.
pub open spec fn program_reports(session: Session, bodies: Seq<Body>, diags: Seq<Diagnostic>) -> bool
    decreases bodies.len(),
{
    if bodies.len() == 0 {
        diags.len() == 0
    } else {
        let last = bodies.last();
        let k = refused_writes(last).len();
        &&& diags.len() >= k
        &&& program_reports(session, bodies.drop_last(), diags.take(diags.len() - k))
        &&& reports_of(session, last, refused_writes(last), diags.skip(diags.len() - k))
    }
}

pub open spec fn program_bodies(program: Mir) -> Seq<Body> {
    program.bodies@.map_values(|e: ((crate::hir::DefId, Option<crate::mir::instance::AnyMode>), Body)| e.1)
}

/// Checks every body of `program`, in order, returning a diagnostic for each place that a
/// `=`, a compound assignment or an explicit `&mut` writes to directly although its root is an
/// immutable `let`.
pub fn check(session: &Session, program: &Mir) -> (diags: Vec<Diagnostic>)
    requires
        forall|k: int| 0 <= k < program.bodies@.len() ==> body_checkable(*session, #[trigger] program.bodies@[k].1),
    ensures
        program_reports(*session, program_bodies(*program), diags@),
{
    let mut out: Vec<Diagnostic> = Vec::new();
    let mut k: usize = 0;
    while k < program.bodies.len()
        invariant
            forall|j: int| 0 <= j < program.bodies@.len() ==> body_checkable(*session, #[trigger] program.bodies@[j].1),
            k <= program.bodies@.len(),
            program_reports(*session, program_bodies(*program).take(k as int), out@),
        decreases program.bodies@.len() - k,
    {
        let ghost before = out@;
        check_body(session, &program.bodies[k].1, &mut out);
        proof {
            let bodies = program_bodies(*program).take(k + 1);
            assert(bodies.drop_last() =~= program_bodies(*program).take(k as int));
            assert(bodies.last() == program.bodies@[k as int].1);
            let n = refused_writes(bodies.last()).len();
            assert(out@.skip(before.len() as int).len() == n);
            assert(out@.len() == before.len() + n);
            assert(out@.take(out@.len() - n) =~= before);
            assert(program_reports(*session, bodies.drop_last(), out@.take(out@.len() - n)));
            assert(reports_of(*session, bodies.last(), refused_writes(bodies.last()), out@.skip(out@.len() - n)));
        }
        k = k + 1;
    }
    assert(program_bodies(*program).take(program.bodies@.len() as int) =~= program_bodies(*program));
    out
}

} // verus!
