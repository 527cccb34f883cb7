//! The closure-environment check: a closure may not capture a reference, and its body may
//! not move a captured value out of the environment it borrows.

use vstd::prelude::*;
use crate::ast::SrcSpan;
use crate::diag::Diagnostic;
use crate::mir::body::Body;
use crate::mir::def_infos::DefKind;
use crate::mir::ids::Local;
use crate::mir::lower::Mir;
use crate::mir::operand::Operand;
use crate::mir::rvalue::rvalue_operands;
use crate::mir::statement::StatementKind;
use crate::mir::terminator::terminator_operands;
use crate::typeck::{ref_within, TyCtx, TyKind};

verus! {

/// The local a closure body reaches its environment through.
pub open spec fn environment() -> Local {
    Local(1)
}

pub open spec fn captured_reference_message() -> Seq<char> {
    "a closure cannot capture a reference"@
}

pub open spec fn move_out_message() -> Seq<char> {
    "cannot move a captured value out of a closure's environment"@
}

/// Whether `op` moves out of the environment.
pub open spec fn moves_environment(op: Operand) -> bool {
    op matches Operand::Move(place) && place.local == environment()
}

/// The spans at which `ops`, read at `span`, move out of the environment: one per such operand.
pub open spec fn move_spans(ops: Seq<Operand>, span: SrcSpan) -> Seq<SrcSpan>
    decreases ops.len(),
{
    if ops.len() == 0 {
        Seq::empty()
    } else {
        move_spans(ops.drop_last(), span) + if moves_environment(ops.last()) {
            seq![span]
        } else {
            Seq::empty()
        }
    }
}

proof fn lemma_move_spans_uniform(ops: Seq<Operand>, span: SrcSpan)
    ensures
        forall|i: int| 0 <= i < move_spans(ops, span).len() ==> #[trigger] move_spans(ops, span)[i] == span,
    decreases ops.len(),
{
    if ops.len() > 0 {
        lemma_move_spans_uniform(ops.drop_last(), span);
        let prev = move_spans(ops.drop_last(), span);
        let tail: Seq<SrcSpan> = if moves_environment(ops.last()) { seq![span] } else { Seq::empty() };
        assert(move_spans(ops, span) == prev + tail);
        assert forall|i: int| 0 <= i < move_spans(ops, span).len() implies #[trigger] move_spans(ops, span)[i] == span by {
            if i < prev.len() {
                assert(move_spans(ops, span)[i] == prev[i]);
            } else {
                assert(move_spans(ops, span)[i] == tail[i - prev.len()]);
            }
        }
    }
}

/// The spans of the statements among `stmts` that move out of the environment, once per
/// offending operand.
pub open spec fn stmt_move_spans(stmts: Seq<crate::mir::statement::Statement>) -> Seq<SrcSpan>
    decreases stmts.len(),
{
    if stmts.len() == 0 {
        Seq::empty()
    } else {
        let s = stmts.last();
        stmt_move_spans(stmts.drop_last()) + match s.kind {
            StatementKind::Assign(_, rv) => move_spans(rvalue_operands(rv), s.span),
            _ => Seq::empty(),
        }
    }
}

/// The move-out spans of the first `n` blocks of `body`: each block's statements, then its
/// terminator.
pub open spec fn body_move_spans(body: Body, n: int) -> Seq<SrcSpan>
    decreases n,
{
    if n <= 0 {
        Seq::empty()
    } else {
        let block = body.basic_blocks@[n - 1];
        body_move_spans(body, n - 1) + stmt_move_spans(block.statements@) + move_spans(
            terminator_operands(block.terminator.kind),
            block.terminator.span,
        )
    }
}

/// A closure body's environment local is a reference to a tuple: the drop-glue word, then one
/// element per capture.
pub open spec fn environment_fields(tcx: TyCtx, body: Body) -> Option<Seq<crate::typeck::Ty>> {
    if body.local_decls@.len() > 1 && tcx.has(body.local_decls@[1].ty) {
        match tcx.kind_of(body.local_decls@[1].ty) {
            TyKind::Ref { base, .. } => if tcx.has(base) {
                match tcx.kind_of(base) {
                    TyKind::Tuple(fields) => Some(fields@),
                    _ => None,
                }
            } else {
                None
            },
            _ => None,
        }
    } else {
        None
    }
}

/// How many captures, after the drop-glue word, hold a reference.
pub open spec fn captured_refs(tcx: TyCtx, fields: Seq<crate::typeck::Ty>, n: int) -> nat
    decreases n,
{
    if n <= 1 {
        0
    } else {
        captured_refs(tcx, fields, n - 1) + if ref_within(tcx.kinds_view(), fields[n - 1].0 as int) {
            1nat
        } else {
            0nat
        }
    }
}

/// The diagnostics one closure body yields: a captured-reference report at the body's span
/// for each capture holding a reference, then a move-out report for each move out of the
/// environment, in block order.
pub open spec fn closure_reports(tcx: TyCtx, body: Body, diags: Seq<Diagnostic>) -> bool {
    let fields = environment_fields(tcx, body).unwrap();
    let refs = captured_refs(tcx, fields, fields.len() as int);
    let moves = body_move_spans(body, body.basic_blocks@.len() as int);
    &&& diags.len() == refs + moves.len()
    &&& forall|i: int|
        0 <= i < refs ==> (#[trigger] diags[i]).message@ == captured_reference_message() && diags[i].span
            == body.span
    &&& forall|i: int|
        0 <= i < moves.len() ==> (#[trigger] diags[refs + i]).message@ == move_out_message()
            && diags[refs + i].span == moves[i]
}

/// Whether every type `tcx` is asked about is one of its own.
pub open spec fn closure_checkable(tcx: TyCtx, body: Body) -> bool {
    &&& environment_fields(tcx, body) is Some
    &&& forall|k: int|
        0 <= k < environment_fields(tcx, body).unwrap().len() ==> tcx.has(
            #[trigger] environment_fields(tcx, body).unwrap()[k],
        )
}

fn report_captured_reference(span: SrcSpan) -> (d: Diagnostic)
    ensures
        d.message@ == captured_reference_message(),
        d.span == span,
{
    proof {
        reveal_strlit("a closure cannot capture a reference");
    }
    Diagnostic::error(String::from_str("a closure cannot capture a reference"), span)
}

fn report_move_out_of_environment(span: SrcSpan) -> (d: Diagnostic)
    ensures
        d.message@ == move_out_message(),
        d.span == span,
{
    proof {
        reveal_strlit("cannot move a captured value out of a closure's environment");
    }
    Diagnostic::error(String::from_str("cannot move a captured value out of a closure's environment"), span)
}

/// Appends a move-out report at `span` for each of `ops` that moves out of the environment.
fn check_operands(ops: &Vec<&Operand>, span: SrcSpan, out: &mut Vec<Diagnostic>)
    ensures
        final(out)@.len() == old(out)@.len() + move_spans(ops@.map_values(|o: &Operand| *o), span).len(),
        final(out)@.take(old(out)@.len() as int) == old(out)@,
        forall|i: int|
            0 <= i < move_spans(ops@.map_values(|o: &Operand| *o), span).len() ==> (#[trigger] final(out)@[old(out)@.len() + i]).message@
                == move_out_message() && final(out)@[old(out)@.len() + i].span == span,
{
    let ghost start = out@;
    let ghost all = ops@.map_values(|o: &Operand| *o);
    let mut i: usize = 0;
    while i < ops.len()
        invariant
            i <= ops@.len(),
            all == ops@.map_values(|o: &Operand| *o),
            out@.len() == start.len() + move_spans(all.take(i as int), span).len(),
            out@.take(start.len() as int) == start,
            forall|k: int|
                0 <= k < move_spans(all.take(i as int), span).len() ==> (#[trigger] out@[start.len() + k]).message@
                    == move_out_message() && out@[start.len() + k].span == span,
        decreases ops@.len() - i,
    {
        assert(all.take(i + 1).drop_last() =~= all.take(i as int));
        assert(all.take(i + 1).last() == *ops@[i as int]);
        let ghost before = out@;
        match ops[i] {
            Operand::Move(place) => {
                if place.local.0 == 1 {
                    out.push(report_move_out_of_environment(span));
                }
            },
            _ => {},
        }
        proof {
            assert(out@.take(start.len() as int) =~= start) by {
                assert(before.take(start.len() as int) == start);
            }
            assert forall|k: int| 0 <= k < move_spans(all.take(i + 1), span).len() implies (#[trigger] out@[start.len() + k]).message@
                == move_out_message() && out@[start.len() + k].span == span by {
                if k < move_spans(all.take(i as int), span).len() {
                    assert(out@[start.len() + k] == before[start.len() + k]);
                }
            }
        }
        i = i + 1;
    }
    assert(all.take(ops@.len() as int) =~= all);
}

/// The move-out reports of one closure body, appended to `out`.
fn check_body(body: &Body, out: &mut Vec<Diagnostic>)
    ensures
        final(out)@.len() == old(out)@.len() + body_move_spans(*body, body.basic_blocks@.len() as int).len(),
        final(out)@.take(old(out)@.len() as int) == old(out)@,
        forall|i: int|
            0 <= i < body_move_spans(*body, body.basic_blocks@.len() as int).len() ==> (#[trigger] final(out)@[old(out)@.len() + i]).message@
                == move_out_message() && final(out)@[old(out)@.len() + i].span == body_move_spans(
                *body,
                body.basic_blocks@.len() as int,
            )[i],
{
    let ghost start = out@;
    let mut b: usize = 0;
    while b < body.basic_blocks.len()
        invariant
            b <= body.basic_blocks@.len(),
            out@.len() == start.len() + body_move_spans(*body, b as int).len(),
            out@.take(start.len() as int) == start,
            forall|k: int|
                0 <= k < body_move_spans(*body, b as int).len() ==> (#[trigger] out@[start.len() + k]).message@
                    == move_out_message() && out@[start.len() + k].span == body_move_spans(*body, b as int)[k],
        decreases body.basic_blocks@.len() - b,
    {
        let block = &body.basic_blocks[b];
        let ghost at_block = out@;
        let mut i: usize = 0;
        while i < block.statements.len()
            invariant
                i <= block.statements@.len(),
                out@.len() == at_block.len() + stmt_move_spans(block.statements@.take(i as int)).len(),
                out@.take(at_block.len() as int) == at_block,
                forall|k: int|
                    0 <= k < stmt_move_spans(block.statements@.take(i as int)).len() ==> (#[trigger] out@[at_block.len() + k]).message@
                        == move_out_message() && out@[at_block.len() + k].span == stmt_move_spans(
                        block.statements@.take(i as int),
                    )[k],
            decreases block.statements@.len() - i,
        {
            let stmt = &block.statements[i];
            let ghost before = out@;
            assert(block.statements@.take(i + 1).drop_last() =~= block.statements@.take(i as int));
            assert(block.statements@.take(i + 1).last() == block.statements@[i as int]);
            match &stmt.kind {
                StatementKind::Assign(_, rvalue) => {
                    let ops = rvalue.operands();
                    assert(ops@.map_values(|o: &Operand| *o) =~= rvalue_operands(*rvalue));
                    check_operands(&ops, stmt.span, out);
                },
                _ => {},
            }
            proof {
                let prev = stmt_move_spans(block.statements@.take(i as int));
                let now = stmt_move_spans(block.statements@.take(i + 1));
                match block.statements@[i as int].kind {
                    StatementKind::Assign(_, rv) => {
                        lemma_move_spans_uniform(rvalue_operands(rv), stmt.span);
                        assert(now == prev + move_spans(rvalue_operands(rv), stmt.span));
                    },
                    _ => {
                        assert(now == prev);
                    },
                }
                assert(out@.take(at_block.len() as int) =~= at_block) by {
                    assert(before.take(at_block.len() as int) == at_block);
                    assert(out@.take(before.len() as int) == before);
                }
                assert forall|k: int| 0 <= k < now.len() implies (#[trigger] out@[at_block.len() + k]).message@
                    == move_out_message() && out@[at_block.len() + k].span == now[k] by {
                    if k < prev.len() {
                        assert(out@.take(before.len() as int)[at_block.len() + k] == before[at_block.len() + k]);
                    } else {
                        let j = k - prev.len();
                        assert(out@[before.len() + j] == out@[at_block.len() + k]);
                    }
                }
            }
            i = i + 1;
        }
        assert(block.statements@.take(block.statements@.len() as int) =~= block.statements@);
        let ghost mid = out@;
        let ops = block.terminator.kind.operands();
        assert(ops@.map_values(|o: &Operand| *o) =~= terminator_operands(block.terminator.kind));
        check_operands(&ops, block.terminator.span, out);
        proof {
            let prev = body_move_spans(*body, b as int);
            let now = body_move_spans(*body, b + 1);
            let st = stmt_move_spans(block.statements@);
            lemma_move_spans_uniform(terminator_operands(block.terminator.kind), block.terminator.span);
            assert(mid.len() == start.len() + prev.len() + st.len());
            assert(now == prev + st + move_spans(terminator_operands(block.terminator.kind), block.terminator.span));
            assert(out@.take(start.len() as int) =~= start) by {
                assert(at_block.take(start.len() as int) == start);
                assert(mid.take(at_block.len() as int) == at_block);
                assert(out@.take(mid.len() as int) == mid);
            }
            assert forall|k: int| 0 <= k < now.len() implies (#[trigger] out@[start.len() + k]).message@
                == move_out_message() && out@[start.len() + k].span == now[k] by {
                if k < prev.len() {
                    assert(out@.take(mid.len() as int)[start.len() + k] == mid[start.len() + k]);
                    assert(mid.take(at_block.len() as int)[start.len() + k] == at_block[start.len() + k]);
                } else if k < prev.len() + st.len() {
                    assert(out@.take(mid.len() as int)[start.len() + k] == mid[start.len() + k]);
                    assert(mid[at_block.len() + (k - prev.len())] == mid[start.len() + k]);
                } else {
                    assert(out@[mid.len() + (k - prev.len() - st.len())] == out@[start.len() + k]);
                }
            }
        }
        b = b + 1;
    }
}

/// Appends a captured-reference report at the body's span for each capture holding a
/// reference.
fn check_captured_types(tcx: &TyCtx, body: &Body, out: &mut Vec<Diagnostic>)
    requires
        tcx.wf(),
        closure_checkable(*tcx, *body),
    ensures
        ({
            let fields = environment_fields(*tcx, *body).unwrap();
            let refs = captured_refs(*tcx, fields, fields.len() as int);
            &&& final(out)@.len() == old(out)@.len() + refs
            &&& final(out)@.take(old(out)@.len() as int) == old(out)@
            &&& forall|i: int|
                0 <= i < refs ==> (#[trigger] final(out)@[old(out)@.len() + i]).message@ == captured_reference_message()
                    && final(out)@[old(out)@.len() + i].span == body.span
        }),
{
    let ghost start = out@;
    let ghost fields_spec = environment_fields(*tcx, *body).unwrap();
    let environment = body.local_decls[1].ty;
    let base = match tcx.kind(environment) {
        TyKind::Ref { base, .. } => *base,
        _ => {
            return;
        },
    };
    let fields = match tcx.kind(base) {
        TyKind::Tuple(fields) => fields,
        _ => {
            return;
        },
    };
    assert(fields@ == fields_spec);
    let mut k: usize = 1;
    if fields.len() == 0 {
        return;
    }
    while k < fields.len()
        invariant
            tcx.wf(),
            fields@ == fields_spec,
            forall|j: int| 0 <= j < fields_spec.len() ==> tcx.has(#[trigger] fields_spec[j]),
            1 <= k <= fields@.len(),
            out@.len() == start.len() + captured_refs(*tcx, fields_spec, k as int),
            out@.take(start.len() as int) == start,
            forall|i: int|
                0 <= i < captured_refs(*tcx, fields_spec, k as int) ==> (#[trigger] out@[start.len() + i]).message@
                    == captured_reference_message() && out@[start.len() + i].span == body.span,
        decreases fields@.len() - k,
    {
        let ghost before = out@;
        assert(tcx.has(fields_spec[k as int]));
        if tcx.contains_ref(fields[k]) {
            out.push(report_captured_reference(body.span));
        }
        proof {
            assert(out@.take(start.len() as int) =~= start) by {
                assert(before.take(start.len() as int) == start);
            }
            assert forall|i: int| 0 <= i < captured_refs(*tcx, fields_spec, k + 1) implies (#[trigger] out@[start.len() + i]).message@
                == captured_reference_message() && out@[start.len() + i].span == body.span by {
                if i < captured_refs(*tcx, fields_spec, k as int) {
                    assert(out@[start.len() + i] == before[start.len() + i]);
                }
            }
        }
        k = k + 1;
    }
}

/// The closure bodies of `mir` (by `def_infos`), in order.
pub open spec fn is_closure_body(mir: Mir, k: int) -> bool {
    let def = mir.bodies@[k].0.0;
    def.0 < mir.def_infos.len() && mir.def_infos.info(def).kind == DefKind::Closure
}

/// `diags` holds, body by body among the first `n`, the reports of each closure body.
pub open spec fn captures_reports(tcx: TyCtx, mir: Mir, n: int, diags: Seq<Diagnostic>) -> bool
    decreases n,
{
    if n <= 0 {
        diags.len() == 0
    } else if !is_closure_body(mir, n - 1) {
        captures_reports(tcx, mir, n - 1, diags)
    } else {
        exists|split: int|
            0 <= split <= diags.len() && captures_reports(tcx, mir, n - 1, diags.take(split))
                && closure_reports(tcx, mir.bodies@[n - 1].1, #[trigger] diags.skip(split))
    }
}

/// Checks every closure body of `mir`: each capture that holds a reference, and each move out
/// of the environment, is reported.
pub fn check(tcx: &TyCtx, mir: &Mir) -> (diags: Vec<Diagnostic>)
    requires
        tcx.wf(),
        forall|k: int| 0 <= k < mir.bodies@.len() ==> mir.bodies@[k].0.0.0 < mir.def_infos.len(),
        forall|k: int| 0 <= k < mir.bodies@.len() && #[trigger] is_closure_body(*mir, k) ==> closure_checkable(*tcx, mir.bodies@[k].1),
    ensures
        captures_reports(*tcx, *mir, mir.bodies@.len() as int, diags@),
{
    let mut out: Vec<Diagnostic> = Vec::new();
    let mut k: usize = 0;
    while k < mir.bodies.len()
        invariant
            tcx.wf(),
            forall|j: int| 0 <= j < mir.bodies@.len() ==> mir.bodies@[j].0.0.0 < mir.def_infos.len(),
            forall|j: int| 0 <= j < mir.bodies@.len() && #[trigger] is_closure_body(*mir, j) ==> closure_checkable(*tcx, mir.bodies@[j].1),
            k <= mir.bodies@.len(),
            captures_reports(*tcx, *mir, k as int, out@),
        decreases mir.bodies@.len() - k,
    {
        let def = mir.bodies[k].0.0;
        if mir.def_infos.kind(def) == DefKind::Closure {
            let body = &mir.bodies[k].1;
            assert(is_closure_body(*mir, k as int));
            let ghost before = out@;
            check_captured_types(tcx, body, &mut out);
            let ghost mid = out@;
            check_body(body, &mut out);
            proof {
                let d = out@.skip(before.len() as int);
                let fields = environment_fields(*tcx, *body).unwrap();
                let refs = captured_refs(*tcx, fields, fields.len() as int);
                let moves = body_move_spans(*body, body.basic_blocks@.len() as int);
                assert(out@.take(before.len() as int) =~= before) by {
                    assert(mid.take(before.len() as int) == before);
                    assert(out@.take(mid.len() as int) == mid);
                }
                assert forall|i: int| 0 <= i < refs implies (#[trigger] d[i]).message@ == captured_reference_message()
                    && d[i].span == body.span by {
                    assert(out@.take(mid.len() as int)[before.len() + i] == mid[before.len() + i]);
                }
                assert forall|i: int| 0 <= i < moves.len() implies (#[trigger] d[refs + i]).message@ == move_out_message()
                    && d[refs + i].span == moves[i] by {
                    assert(d[refs + i] == out@[mid.len() + i]);
                }
                assert(closure_reports(*tcx, *body, d));
                assert(captures_reports(*tcx, *mir, k + 1, out@)) by {
                    assert(out@.take(before.len() as int) == before);
                }
            }
        }
        k = k + 1;
    }
    out
}

} // verus!
