//! The element-move check: a value that needs dropping may not be moved out of an array
//! element, since nothing would record which element is gone.

use vstd::prelude::*;
use crate::ast::{Ident, SrcSpan};
use crate::diag::{concat3, lemma_append_runs, lemma_matches_concat, matches_reports, Diagnostic};
use crate::mir::body::Body;
use crate::mir::checks::borrowck::{element_of_array, indexes_array};
use crate::mir::lower::Mir;
use crate::mir::operand::Operand;
use crate::mir::place::{place_ty, type_of_place};
use crate::mir::rvalue::rvalue_operands;
use crate::mir::statement::{Statement, StatementKind};
use crate::mir::terminator::terminator_operands;
use crate::session::Session;
use crate::typeck::{drop_within, TyCtx};

verus! {

pub open spec fn move_out_of_array_message(name: Seq<char>) -> Seq<char> {
    "cannot move a value out of `"@ + name + "`, which is an array"@
}

/// Whether `op` moves a value that needs dropping out of an array element.
pub open spec fn moves_owning_element(tcx: TyCtx, body: Body, op: Operand) -> bool {
    match op {
        Operand::Move(place) => indexes_array(place) && match type_of_place(tcx, body.local_decls@, place) {
            Some(t) => drop_within(tcx, t, tcx.kinds_view().len() + 1),
            None => false,
        },
        _ => false,
    }
}

/// What the check needs of `op`: a moved array element has a type, and a named local.
pub open spec fn operand_checkable(session: Session, tcx: TyCtx, body: Body, op: Operand) -> bool {
    match op {
        Operand::Move(place) => indexes_array(place) ==> {
            &&& type_of_place(tcx, body.local_decls@, place) is Some
            &&& body.local_decls@[place.local.0 as int].name matches Some(nm)
            &&& session.has(nm.text)
        },
        _ => true,
    }
}

pub open spec fn operand_report(session: Session, tcx: TyCtx, body: Body, op: Operand, span: SrcSpan) -> Seq<(Seq<char>, SrcSpan)> {
    if moves_owning_element(tcx, body, op) {
        let place = op->Move_0;
        seq![(move_out_of_array_message(session.text(body.local_decls@[place.local.0 as int].name.unwrap().text)), span)]
    } else {
        Seq::empty()
    }
}

pub open spec fn operands_reports(session: Session, tcx: TyCtx, body: Body, ops: Seq<Operand>, span: SrcSpan) -> Seq<(Seq<char>, SrcSpan)>
    decreases ops.len(),
{
    if ops.len() == 0 {
        Seq::empty()
    } else {
        operands_reports(session, tcx, body, ops.drop_last(), span) + operand_report(session, tcx, body, ops.last(), span)
    }
}

pub open spec fn statements_reports(session: Session, tcx: TyCtx, body: Body, stmts: Seq<Statement>) -> Seq<(Seq<char>, SrcSpan)>
    decreases stmts.len(),
{
    if stmts.len() == 0 {
        Seq::empty()
    } else {
        let s = stmts.last();
        statements_reports(session, tcx, body, stmts.drop_last()) + match s.kind {
            StatementKind::Assign(_, rv) => operands_reports(session, tcx, body, rvalue_operands(rv), s.span),
            _ => Seq::empty(),
        }
    }
}

/// The reports of the first `m` blocks of `body`: each block's statements, then its
/// terminator.
pub open spec fn blocks_reports(session: Session, tcx: TyCtx, body: Body, m: int) -> Seq<(Seq<char>, SrcSpan)>
    decreases m,
{
    if m <= 0 {
        Seq::empty()
    } else {
        let block = body.basic_blocks@[m - 1];
        blocks_reports(session, tcx, body, m - 1) + statements_reports(session, tcx, body, block.statements@)
            + operands_reports(session, tcx, body, terminator_operands(block.terminator.kind), block.terminator.span)
    }
}

/// Every operand the check reads is one it can judge.
pub open spec fn em_checkable(session: Session, tcx: TyCtx, body: Body) -> bool {
    &&& tcx.wf()
    &&& forall|b: int, k: int|
        0 <= b < body.basic_blocks@.len() && 0 <= k < terminator_operands(body.basic_blocks@[b].terminator.kind).len()
            ==> operand_checkable(session, tcx, body, #[trigger] terminator_operands(body.basic_blocks@[b].terminator.kind)[k])
    &&& forall|b: int, i: int|
        0 <= b < body.basic_blocks@.len() && 0 <= i < body.basic_blocks@[b].statements@.len() ==> stmt_checkable(
            session,
            tcx,
            body,
            #[trigger] body.basic_blocks@[b].statements@[i],
        )
}

/// The operands an assignment reads are ones the check can judge.
pub open spec fn stmt_checkable(session: Session, tcx: TyCtx, body: Body, stmt: Statement) -> bool {
    match stmt.kind {
        StatementKind::Assign(_, rv) => forall|k: int|
            0 <= k < rvalue_operands(rv).len() ==> operand_checkable(session, tcx, body, #[trigger] rvalue_operands(rv)[k]),
        _ => true,
    }
}

fn report_move_out_of_array(session: &Session, name: Ident, span: SrcSpan) -> (d: Diagnostic)
    requires
        session.has(name.text),
    ensures
        d.message@ == move_out_of_array_message(session.text(name.text)),
        d.span == span,
{
    let message = concat3("cannot move a value out of `", session.resolve(name.text), "`, which is an array");
    proof {
        reveal_strlit("cannot move a value out of `");
        reveal_strlit("`, which is an array");
    }
    Diagnostic::error(message, span)
}

fn check_operand(session: &Session, tcx: &TyCtx, body: &Body, op: &Operand, span: SrcSpan, out: &mut Vec<Diagnostic>)
    requires
        tcx.wf(),
        operand_checkable(*session, *tcx, *body, *op),
    ensures
        matches_reports(final(out)@.skip(old(out)@.len() as int), operand_report(*session, *tcx, *body, *op, span)),
        final(out)@.take(old(out)@.len() as int) == old(out)@,
        final(out)@.len() >= old(out)@.len(),
{
    let ghost start = out@;
    match op {
        Operand::Move(place) => {
            if element_of_array(place) {
                let moved = place_ty(tcx, body.local_decls.as_slice(), place);
                if tcx.needs_drop(moved) {
                    let name = body.local_decls[place.local.index()].name.unwrap();
                    out.push(report_move_out_of_array(session, name, span));
                    assert(out@.skip(start.len() as int) =~= seq![out@[start.len() as int]]);
                }
            }
        },
        _ => {},
    }
    assert(out@.take(start.len() as int) =~= start);
}

fn check_operands(session: &Session, tcx: &TyCtx, body: &Body, ops: &Vec<&Operand>, span: SrcSpan, out: &mut Vec<Diagnostic>)
    requires
        tcx.wf(),
        forall|k: int| 0 <= k < ops@.len() ==> operand_checkable(*session, *tcx, *body, *#[trigger] ops@[k]),
    ensures
        matches_reports(
            final(out)@.skip(old(out)@.len() as int),
            operands_reports(*session, *tcx, *body, ops@.map_values(|o: &Operand| *o), span),
        ),
        final(out)@.take(old(out)@.len() as int) == old(out)@,
        final(out)@.len() >= old(out)@.len(),
{
    let ghost all = ops@.map_values(|o: &Operand| *o);
    let ghost start = out@;
    let mut i: usize = 0;
    while i < ops.len()
        invariant
            tcx.wf(),
            forall|k: int| 0 <= k < ops@.len() ==> operand_checkable(*session, *tcx, *body, *#[trigger] ops@[k]),
            all == ops@.map_values(|o: &Operand| *o),
            i <= ops@.len(),
            out@.len() >= start.len(),
            out@.take(start.len() as int) == start,
            matches_reports(out@.skip(start.len() as int), operands_reports(*session, *tcx, *body, all.take(i as int), span)),
        decreases ops@.len() - i,
    {
        let ghost before = out@;
        assert(all.take(i + 1).drop_last() =~= all.take(i as int));
        assert(all.take(i + 1).last() == *ops@[i as int]);
        check_operand(session, tcx, body, ops[i], span, out);
        proof {
            lemma_append_runs(start, before, out@);
            lemma_matches_concat(
                before.skip(start.len() as int),
                operands_reports(*session, *tcx, *body, all.take(i as int), span),
                out@.skip(before.len() as int),
                operand_report(*session, *tcx, *body, *ops@[i as int], span),
            );
        }
        i = i + 1;
    }
    assert(all.take(ops@.len() as int) =~= all);
}

/// Appends a report for each owning value moved out of an array element in `body`: at the
/// statement that moves it, or at the terminator.
pub fn check_body(session: &Session, tcx: &TyCtx, body: &Body, out: &mut Vec<Diagnostic>)
    requires
        em_checkable(*session, *tcx, *body),
    ensures
        matches_reports(
            final(out)@.skip(old(out)@.len() as int),
            blocks_reports(*session, *tcx, *body, body.basic_blocks@.len() as int),
        ),
        final(out)@.take(old(out)@.len() as int) == old(out)@,
        final(out)@.len() >= old(out)@.len(),
{
    let ghost start = out@;
    let mut b: usize = 0;
    while b < body.basic_blocks.len()
        invariant
            em_checkable(*session, *tcx, *body),
            b <= body.basic_blocks@.len(),
            out@.len() >= start.len(),
            out@.take(start.len() as int) == start,
            matches_reports(out@.skip(start.len() as int), blocks_reports(*session, *tcx, *body, b as int)),
        decreases body.basic_blocks@.len() - b,
    {
        let block = &body.basic_blocks[b];
        let ghost at_block = out@;
        let mut i: usize = 0;
        while i < block.statements.len()
            invariant
                em_checkable(*session, *tcx, *body),
                *block == body.basic_blocks@[b as int],
                b < body.basic_blocks@.len(),
                i <= block.statements@.len(),
                out@.len() >= at_block.len(),
                out@.take(at_block.len() as int) == at_block,
                matches_reports(out@.skip(at_block.len() as int), statements_reports(*session, *tcx, *body, block.statements@.take(i as int))),
            decreases block.statements@.len() - i,
        {
            let stmt = &block.statements[i];
            let ghost before = out@;
            assert(block.statements@.take(i + 1).drop_last() =~= block.statements@.take(i as int));
            assert(block.statements@.take(i + 1).last() == block.statements@[i as int]);
            match &stmt.kind {
                StatementKind::Assign(_, rvalue) => {
                    let ops = rvalue.operands();
                    assert(ops@.map_values(|o: &Operand| *o) =~= rvalue_operands(*rvalue));
                    assert forall|k: int| 0 <= k < ops@.len() implies operand_checkable(*session, *tcx, *body, *#[trigger] ops@[k]) by {
                        assert(*ops@[k] == rvalue_operands(*rvalue)[k]);
                        assert(stmt_checkable(*session, *tcx, *body, body.basic_blocks@[b as int].statements@[i as int]));
                    }
                    check_operands(session, tcx, body, &ops, stmt.span, out);
                },
                _ => {
                    assert(out@.skip(before.len() as int) =~= Seq::<Diagnostic>::empty());
                    assert(out@.take(before.len() as int) =~= before);
                },
            }
            proof {
                lemma_append_runs(at_block, before, out@);
                lemma_matches_concat(
                    before.skip(at_block.len() as int),
                    statements_reports(*session, *tcx, *body, block.statements@.take(i as int)),
                    out@.skip(before.len() as int),
                    match block.statements@[i as int].kind {
                        StatementKind::Assign(_, rv) => operands_reports(*session, *tcx, *body, rvalue_operands(rv), block.statements@[i as int].span),
                        _ => Seq::empty(),
                    },
                );
            }
            i = i + 1;
        }
        assert(block.statements@.take(block.statements@.len() as int) =~= block.statements@);
        let ghost mid = out@;
        let ops = block.terminator.kind.operands();
        assert(ops@.map_values(|o: &Operand| *o) =~= terminator_operands(block.terminator.kind));
        assert forall|k: int| 0 <= k < ops@.len() implies operand_checkable(*session, *tcx, *body, *#[trigger] ops@[k]) by {
            assert(*ops@[k] == terminator_operands(body.basic_blocks@[b as int].terminator.kind)[k]);
        }
        check_operands(session, tcx, body, &ops, block.terminator.span, out);
        proof {
            lemma_append_runs(at_block, mid, out@);
            lemma_matches_concat(
                mid.skip(at_block.len() as int),
                statements_reports(*session, *tcx, *body, block.statements@),
                out@.skip(mid.len() as int),
                operands_reports(*session, *tcx, *body, terminator_operands(block.terminator.kind), block.terminator.span),
            );
            lemma_append_runs(start, at_block, out@);
            lemma_matches_concat(
                at_block.skip(start.len() as int),
                blocks_reports(*session, *tcx, *body, b as int),
                out@.skip(at_block.len() as int),
                statements_reports(*session, *tcx, *body, block.statements@) + operands_reports(
                    *session,
                    *tcx,
                    *body,
                    terminator_operands(block.terminator.kind),
                    block.terminator.span,
                ),
            );
            assert(blocks_reports(*session, *tcx, *body, b + 1) =~= blocks_reports(*session, *tcx, *body, b as int) + (statements_reports(
                *session,
                *tcx,
                *body,
                block.statements@,
            ) + operands_reports(*session, *tcx, *body, terminator_operands(block.terminator.kind), block.terminator.span)));
        }
        b = b + 1;
    }
}

/// The reports of every body of a program, body by body.
pub open spec fn program_reports(session: Session, tcx: TyCtx, bodies: Seq<Body>, diags: Seq<Diagnostic>) -> bool
    decreases bodies.len(),
{
    if bodies.len() == 0 {
        diags.len() == 0
    } else {
        let last = bodies.last();
        let k = blocks_reports(session, tcx, last, last.basic_blocks@.len() as int).len();
        &&& diags.len() >= k
        &&& program_reports(session, tcx, bodies.drop_last(), diags.take(diags.len() - k))
        &&& matches_reports(diags.skip(diags.len() - k), blocks_reports(session, tcx, last, last.basic_blocks@.len() as int))
    }
}

/// Checks every body of `mir`, in order.
pub fn check(session: &Session, tcx: &TyCtx, mir: &Mir) -> (diags: Vec<Diagnostic>)
    requires
        forall|k: int| 0 <= k < mir.bodies@.len() ==> em_checkable(*session, *tcx, #[trigger] mir.bodies@[k].1),
    ensures
        program_reports(*session, *tcx, crate::mir::constck::program_bodies(*mir), diags@),
{
    let ghost bodies = crate::mir::constck::program_bodies(*mir);
    let mut out: Vec<Diagnostic> = Vec::new();
    let mut k: usize = 0;
    while k < mir.bodies.len()
        invariant
            forall|j: int| 0 <= j < mir.bodies@.len() ==> em_checkable(*session, *tcx, #[trigger] mir.bodies@[j].1),
            bodies == crate::mir::constck::program_bodies(*mir),
            k <= mir.bodies@.len(),
            program_reports(*session, *tcx, bodies.take(k as int), out@),
        decreases mir.bodies@.len() - k,
    {
        let ghost before = out@;
        check_body(session, tcx, &mir.bodies[k].1, &mut out);
        proof {
            let bs = bodies.take(k + 1);
            assert(bs.drop_last() =~= bodies.take(k as int));
            assert(bs.last() == mir.bodies@[k as int].1);
            let n = blocks_reports(*session, *tcx, bs.last(), bs.last().basic_blocks@.len() as int).len();
            assert(out@.len() == before.len() + n);
            assert(out@.take(out@.len() - n) =~= before);
        }
        k = k + 1;
    }
    assert(bodies.take(mir.bodies@.len() as int) =~= bodies);
    out
}

} // verus!
