//! The exclusivity check: while a borrow is live, its memory may not be written, and while a
//! mutable borrow is live, it may not be read either, except through that borrow.
//!
//! Every place a statement or a terminator touches is an access, a read or a write: a copy
//! reads, a move writes, a shared borrow reads and a mutable one writes, and an assignment
//! writes its target after the right-hand side has been evaluated. An access conflicts with a
//! live alias whose borrowed register overlaps it (one is a prefix of the other) when the
//! access writes or the alias is mutable; a conflicting access to a named local is reported.

use vstd::prelude::*;
use crate::ast::{Ident, Mutability, SrcSpan};
use crate::diag::{concat3, lemma_append_runs, lemma_matches_concat, matches_reports, Diagnostic};
use crate::mir::body::Body;
use crate::mir::checks::borrowck::lifetimes::{compute_lifetimes, lifetimes_computable, lifetimes_from, lifetimes_of, Lifetimes};
use crate::mir::checks::borrowck::{is_prefix, place_reg, prefix_of, reg_view, register_of, Register, SubRegisters};
use crate::mir::ids::Local;
use crate::mir::lower::Mir;
use crate::mir::operand::Operand;
use crate::mir::rvalue::{rvalue_operands, Rvalue};
use crate::mir::statement::{Statement, StatementKind};
use crate::mir::terminator::{terminator_operands, TerminatorKind};
use crate::session::Session;

verus! {

#[derive(Clone, Copy, Debug, PartialEq, Eq, Structural)]
pub enum AccessKind {
    Read,
    Write,
}

/// A register and how it is touched.
pub open spec fn access_of(place: crate::mir::place::Place, kind: AccessKind) -> ((Local, Seq<SubRegisters>), AccessKind) {
    (place_reg(place), kind)
}

pub open spec fn operand_accesses(op: Operand) -> Seq<((Local, Seq<SubRegisters>), AccessKind)> {
    match op {
        Operand::Copy(place) => seq![access_of(place, AccessKind::Read)],
        Operand::Move(place) => seq![access_of(place, AccessKind::Write)],
        Operand::Constant(_) => Seq::empty(),
    }
}

pub open spec fn operands_accesses(ops: Seq<Operand>) -> Seq<((Local, Seq<SubRegisters>), AccessKind)>
    decreases ops.len(),
{
    if ops.len() == 0 {
        Seq::empty()
    } else {
        operands_accesses(ops.drop_last()) + operand_accesses(ops.last())
    }
}

/// The kind of access a borrow of the given mutability makes.
pub open spec fn borrow_access(m: Mutability) -> AccessKind {
    match m {
        Mutability::Mutable => AccessKind::Write,
        Mutability::Immutable => AccessKind::Read,
    }
}

pub open spec fn rvalue_accesses(rv: Rvalue) -> Seq<((Local, Seq<SubRegisters>), AccessKind)> {
    match rv {
        Rvalue::Ref { mutability, place } => seq![access_of(place, borrow_access(mutability))],
        Rvalue::Discriminant(place) => seq![access_of(place, AccessKind::Read)],
        Rvalue::Len(place) => seq![access_of(place, AccessKind::Read)],
        _ => operands_accesses(rvalue_operands(rv)),
    }
}

/// Inspecting a place's discriminant or length reads the place, as copying it does, and so does
/// a shared borrow; a mutable borrow writes it, as moving it does. A statement assigning such a
/// read therefore performs a read of the place's register, which a live mutable borrow of the
/// place conflicts with.
pub proof fn law_place_reads_access_like_copies(p: crate::mir::place::Place, d: crate::mir::place::Place, st: Statement)
    ensures
        rvalue_accesses(Rvalue::Discriminant(p)) == rvalue_accesses(Rvalue::Use(Operand::Copy(p))),
        rvalue_accesses(Rvalue::Len(p)) == rvalue_accesses(Rvalue::Use(Operand::Copy(p))),
        rvalue_accesses(Rvalue::Ref { mutability: Mutability::Immutable, place: p }) == rvalue_accesses(Rvalue::Use(Operand::Copy(p))),
        rvalue_accesses(Rvalue::Ref { mutability: Mutability::Mutable, place: p }) == rvalue_accesses(Rvalue::Use(Operand::Move(p))),
        rvalue_accesses(Rvalue::Use(Operand::Copy(p))) == seq![(place_reg(p), AccessKind::Read)],
        st.kind == StatementKind::Assign(d, Rvalue::Discriminant(p)) ==> stmt_accesses(st).contains((place_reg(p), AccessKind::Read)),
        st.kind == StatementKind::Assign(d, Rvalue::Len(p)) ==> stmt_accesses(st).contains((place_reg(p), AccessKind::Read)),
        st.kind == StatementKind::PlaceMention(p) ==> stmt_accesses(st) == rvalue_accesses(Rvalue::Use(Operand::Copy(p))),
{
    let ops = rvalue_operands(Rvalue::Use(Operand::Copy(p)));
    assert(ops =~= seq![Operand::Copy(p)]);
    assert(ops.drop_last() =~= Seq::<Operand>::empty());
    assert(Seq::<((Local, Seq<SubRegisters>), AccessKind)>::empty() + seq![access_of(p, AccessKind::Read)] =~= seq![access_of(p, AccessKind::Read)]);
    assert(operands_accesses(ops.drop_last()) == Seq::<((Local, Seq<SubRegisters>), AccessKind)>::empty());
    assert(ops.last() == Operand::Copy(p));
    assert(operands_accesses(ops) == seq![access_of(p, AccessKind::Read)]);
    assert(rvalue_accesses(Rvalue::Use(Operand::Copy(p))) == seq![access_of(p, AccessKind::Read)]);
    let mops = rvalue_operands(Rvalue::Use(Operand::Move(p)));
    assert(mops =~= seq![Operand::Move(p)]);
    assert(mops.drop_last() =~= Seq::<Operand>::empty());
    assert(Seq::<((Local, Seq<SubRegisters>), AccessKind)>::empty() + seq![access_of(p, AccessKind::Write)] =~= seq![access_of(p, AccessKind::Write)]);
    if st.kind == StatementKind::Assign(d, Rvalue::Discriminant(p)) || st.kind == StatementKind::Assign(d, Rvalue::Len(p)) {
        assert(stmt_accesses(st)[0] == (place_reg(p), AccessKind::Read));
    }
}

/// The accesses of a statement, in order.
pub open spec fn stmt_accesses(st: Statement) -> Seq<((Local, Seq<SubRegisters>), AccessKind)> {
    match st.kind {
        StatementKind::Assign(place, rv) => rvalue_accesses(rv) + seq![access_of(place, AccessKind::Write)],
        StatementKind::PlaceMention(place) => seq![access_of(place, AccessKind::Read)],
        StatementKind::SetDiscriminant { place, .. } => seq![access_of(place, AccessKind::Write)],
        _ => Seq::empty(),
    }
}

/// The accesses of a terminator, in order.
pub open spec fn terminator_accesses(kind: TerminatorKind) -> Seq<((Local, Seq<SubRegisters>), AccessKind)> {
    match kind {
        TerminatorKind::SwitchInt { .. } => operands_accesses(terminator_operands(kind)),
        TerminatorKind::Assert { .. } => operands_accesses(terminator_operands(kind)),
        TerminatorKind::Call { destination, .. } => operands_accesses(terminator_operands(kind)) + seq![
            access_of(destination, AccessKind::Write),
        ],
        TerminatorKind::Drop { place, .. } => seq![access_of(place, AccessKind::Write)],
        _ => Seq::empty(),
    }
}

/// Two registers overlap: the same owner, and one's steps a prefix of the other's.
pub open spec fn regs_conflict(x: (Local, Seq<SubRegisters>), y: (Local, Seq<SubRegisters>)) -> bool {
    x.0 == y.0 && (is_prefix(y.1, x.1) || is_prefix(x.1, y.1))
}

/// Alias `a` is live at point `p` of block `b`.
pub open spec fn live_at(lt: Lifetimes, b: int, p: int, a: int) -> bool {
    lt.live_ranges@[b]@[a] matches Some((start, end)) && start <= p < end
}

/// Some alias live at point `p` of block `b` forbids accessing `reg` so.
pub open spec fn conflicting(lt: Lifetimes, b: int, p: int, reg: (Local, Seq<SubRegisters>), kind: AccessKind) -> bool {
    exists|a: int|
        0 <= a < lt.aliases@.len() && #[trigger] live_at(lt, b, p, a) && regs_conflict(reg, reg_view(lt.aliases@[a].borrows)) && (
        kind == AccessKind::Write || lt.aliases@[a].kind == Mutability::Mutable)
}

pub open spec fn exclusivity_message(name: Seq<char>) -> Seq<char> {
    "cannot use `"@ + name + "` while it is borrowed"@
}

/// The reports of the accesses `acc` at point `p` of block `b`: one for each conflicting
/// access to a named local.
pub open spec fn access_reports(
    session: Session,
    body: Body,
    lt: Lifetimes,
    b: int,
    p: int,
    acc: Seq<((Local, Seq<SubRegisters>), AccessKind)>,
    span: SrcSpan,
) -> Seq<(Seq<char>, SrcSpan)>
    decreases acc.len(),
{
    if acc.len() == 0 {
        Seq::empty()
    } else {
        let (reg, kind) = acc.last();
        access_reports(session, body, lt, b, p, acc.drop_last(), span) + if conflicting(lt, b, p, reg, kind)
            && body.local_decls@[reg.0.0 as int].name is Some {
            seq![(exclusivity_message(session.text(body.local_decls@[reg.0.0 as int].name.unwrap().text)), span)]
        } else {
            Seq::empty()
        }
    }
}

/// The reports of the first `i` statements of block `b`.
pub open spec fn stmts_reports(session: Session, body: Body, lt: Lifetimes, b: int, i: int) -> Seq<(Seq<char>, SrcSpan)>
    decreases i,
{
    if i <= 0 {
        Seq::empty()
    } else {
        let st = body.basic_blocks@[b].statements@[i - 1];
        stmts_reports(session, body, lt, b, i - 1) + access_reports(session, body, lt, b, i - 1, stmt_accesses(st), st.span)
    }
}

/// The reports of block `b`: its statements, then its terminator.
pub open spec fn block_reports(session: Session, body: Body, lt: Lifetimes, b: int) -> Seq<(Seq<char>, SrcSpan)> {
    let block = body.basic_blocks@[b];
    let len = block.statements@.len() as int;
    stmts_reports(session, body, lt, b, len) + access_reports(
        session,
        body,
        lt,
        b,
        len,
        terminator_accesses(block.terminator.kind),
        block.terminator.span,
    )
}

/// The reports of the first `m` blocks.
pub open spec fn blocks_reports(session: Session, body: Body, lt: Lifetimes, m: int) -> Seq<(Seq<char>, SrcSpan)>
    decreases m,
{
    if m <= 0 {
        Seq::empty()
    } else {
        blocks_reports(session, body, lt, m - 1) + block_reports(session, body, lt, m - 1)
    }
}

/// Registers that take different steps at some position overlap nowhere, so accesses to one
/// never conflict with a borrow of the other: disjoint fields of one value can be borrowed
/// mutably at once.
pub proof fn law_diverging_registers_do_not_conflict(x: (Local, Seq<SubRegisters>), y: (Local, Seq<SubRegisters>), k: int)
    requires
        0 <= k < x.1.len(),
        k < y.1.len(),
        x.1[k] != y.1[k],
    ensures
        !regs_conflict(x, y),
{
    if is_prefix(y.1, x.1) {
        assert(x.1.take(y.1.len() as int)[k] == y.1[k]);
    }
    if is_prefix(x.1, y.1) {
        assert(y.1.take(x.1.len() as int)[k] == x.1[k]);
    }
}

/// A read conflicts only with a live mutable borrow: any number of shared borrows may be read
/// through, and their memory read, at once.
pub proof fn law_reads_conflict_only_with_mutable_borrows(lt: Lifetimes, b: int, p: int, reg: (Local, Seq<SubRegisters>))
    requires
        conflicting(lt, b, p, reg, AccessKind::Read),
    ensures
        exists|a: int| 0 <= a < lt.aliases@.len() && #[trigger] live_at(lt, b, p, a) && lt.aliases@[a].kind == Mutability::Mutable,
{
}

/// Every accessed local is declared, and every name is one `session` knows.
pub open spec fn ex_checkable(session: Session, body: Body) -> bool {
    &&& lifetimes_computable(body)
    &&& forall|b: int, i: int, k: int|
        0 <= b < body.basic_blocks@.len() && 0 <= i < body.basic_blocks@[b].statements@.len() && 0 <= k < stmt_accesses(
            body.basic_blocks@[b].statements@[i],
        ).len() ==> (#[trigger] stmt_accesses(body.basic_blocks@[b].statements@[i])[k]).0.0.0 < body.local_decls@.len()
    &&& forall|b: int, k: int|
        0 <= b < body.basic_blocks@.len() && 0 <= k < terminator_accesses(body.basic_blocks@[b].terminator.kind).len() ==> (
        #[trigger] terminator_accesses(body.basic_blocks@[b].terminator.kind)[k]).0.0.0 < body.local_decls@.len()
    &&& forall|i: int| 0 <= i < body.local_decls@.len() ==> ((#[trigger] body.local_decls@[i]).name matches Some(nm) ==> session.has(nm.text))
}

/// The live ranges cover every block and every alias.
pub open spec fn ranges_shaped(body: Body, lt: Lifetimes) -> bool {
    &&& lt.live_ranges@.len() == body.basic_blocks@.len()
    &&& forall|b: int| 0 <= b < body.basic_blocks@.len() ==> (#[trigger] lt.live_ranges@[b])@.len() == lt.aliases@.len()
}

pub open spec fn accesses_view(v: Seq<(Register, AccessKind)>) -> Seq<((Local, Seq<SubRegisters>), AccessKind)> {
    v.map_values(|x: (Register, AccessKind)| (reg_view(x.0), x.1))
}

fn registers_conflict(a: &Register, b: &Register) -> (r: bool)
    ensures
        r == regs_conflict(reg_view(*a), reg_view(*b)),
{
    a.owner == b.owner && (prefix_of(&b.subregister, &a.subregister) || prefix_of(&a.subregister, &b.subregister))
}

/// Whether some alias live at point `p` of block `b` forbids the access.
fn conflicts_with_live(lt: &Lifetimes, b: usize, p: usize, reg: &Register, kind: AccessKind) -> (r: bool)
    requires
        b < lt.live_ranges@.len(),
        lt.live_ranges@[b as int]@.len() == lt.aliases@.len(),
    ensures
        r == conflicting(*lt, b as int, p as int, reg_view(*reg), kind),
{
    let row = &lt.live_ranges[b];
    let mut a: usize = 0;
    while a < lt.aliases.len()
        invariant
            *row == lt.live_ranges@[b as int],
            row@.len() == lt.aliases@.len(),
            a <= lt.aliases@.len(),
            forall|q: int|
                0 <= q < a ==> !(#[trigger] live_at(*lt, b as int, p as int, q) && regs_conflict(reg_view(*reg), reg_view(lt.aliases@[q].borrows)) && (
                kind == AccessKind::Write || lt.aliases@[q].kind == Mutability::Mutable)),
        decreases lt.aliases@.len() - a,
    {
        let live = match row[a] {
            Some((start, end)) => start <= p && p < end,
            None => false,
        };
        let alias = &lt.aliases[a];
        if live && registers_conflict(reg, &alias.borrows) && (kind == AccessKind::Write || alias.kind == Mutability::Mutable) {
            assert(live_at(*lt, b as int, p as int, a as int));
            return true;
        }
        a = a + 1;
    }
    false
}

fn report_exclusivity_violation(session: &Session, name: Ident, span: SrcSpan) -> (d: Diagnostic)
    requires
        session.has(name.text),
    ensures
        d.message@ == exclusivity_message(session.text(name.text)),
        d.span == span,
{
    let message = concat3("cannot use `", session.resolve(name.text), "` while it is borrowed");
    Diagnostic::error(message, span)
}

/// Appends a report for each access of `acc` at point `p` of block `b` that conflicts with a
/// live alias and touches a named local.
fn check_accesses(
    session: &Session,
    body: &Body,
    lt: &Lifetimes,
    b: usize,
    p: usize,
    acc: &Vec<(Register, AccessKind)>,
    span: SrcSpan,
    out: &mut Vec<Diagnostic>,
)
    requires
        b < lt.live_ranges@.len(),
        lt.live_ranges@[b as int]@.len() == lt.aliases@.len(),
        forall|k: int| 0 <= k < acc@.len() ==> (#[trigger] acc@[k]).0.owner.0 < body.local_decls@.len(),
        forall|i: int| 0 <= i < body.local_decls@.len() ==> ((#[trigger] body.local_decls@[i]).name matches Some(nm) ==> session.has(nm.text)),
    ensures
        final(out)@.len() >= old(out)@.len(),
        final(out)@.take(old(out)@.len() as int) == old(out)@,
        matches_reports(
            final(out)@.skip(old(out)@.len() as int),
            access_reports(*session, *body, *lt, b as int, p as int, accesses_view(acc@), span),
        ),
{
    let ghost start = out@;
    let ghost av = accesses_view(acc@);
    let mut k: usize = 0;
    while k < acc.len()
        invariant
            av == accesses_view(acc@),
            b < lt.live_ranges@.len(),
            lt.live_ranges@[b as int]@.len() == lt.aliases@.len(),
            forall|q: int| 0 <= q < acc@.len() ==> (#[trigger] acc@[q]).0.owner.0 < body.local_decls@.len(),
            forall|i: int| 0 <= i < body.local_decls@.len() ==> ((#[trigger] body.local_decls@[i]).name matches Some(nm) ==> session.has(nm.text)),
            k <= acc@.len(),
            out@.len() >= start.len(),
            out@.take(start.len() as int) == start,
            matches_reports(out@.skip(start.len() as int), access_reports(*session, *body, *lt, b as int, p as int, av.take(k as int), span)),
        decreases acc@.len() - k,
    {
        let ghost before = out@;
        let reg = &acc[k].0;
        let kind = acc[k].1;
        proof {
            assert(av.take(k + 1).drop_last() =~= av.take(k as int));
            assert(av.take(k + 1).last() == (reg_view(*reg), kind));
        }
        let conflict = conflicts_with_live(lt, b, p, reg, kind);
        let mut added = false;
        if conflict {
            if let Some(name) = body.local_decls[reg.owner.index()].name {
                out.push(report_exclusivity_violation(session, name, span));
                added = true;
            }
        }
        proof {
            let tail = if conflict && body.local_decls@[reg.owner.0 as int].name is Some {
                seq![(exclusivity_message(session.text(body.local_decls@[reg.owner.0 as int].name.unwrap().text)), span)]
            } else {
                Seq::<(Seq<char>, SrcSpan)>::empty()
            };
            assert(matches_reports(out@.skip(before.len() as int), tail)) by {
                if added {
                    assert(out@.skip(before.len() as int) =~= seq![out@[before.len() as int]]);
                } else {
                    assert(out@.skip(before.len() as int) =~= Seq::<Diagnostic>::empty());
                }
            }
            assert(out@.take(before.len() as int) =~= before);
            lemma_append_runs(start, before, out@);
            lemma_matches_concat(
                before.skip(start.len() as int),
                access_reports(*session, *body, *lt, b as int, p as int, av.take(k as int), span),
                out@.skip(before.len() as int),
                tail,
            );
        }
        k = k + 1;
    }
    assert(av.take(acc@.len() as int) =~= av);
}

fn push_operand_access(op: &Operand, acc: &mut Vec<(Register, AccessKind)>)
    ensures
        accesses_view(final(acc)@) == accesses_view(old(acc)@) + operand_accesses(*op),
{
    let ghost before = accesses_view(acc@);
    match op {
        Operand::Copy(place) => {
            acc.push((register_of(place), AccessKind::Read));
            assert(accesses_view(acc@) =~= before + operand_accesses(*op));
        },
        Operand::Move(place) => {
            acc.push((register_of(place), AccessKind::Write));
            assert(accesses_view(acc@) =~= before + operand_accesses(*op));
        },
        Operand::Constant(_) => {
            assert(accesses_view(acc@) =~= before + operand_accesses(*op));
        },
    }
}

fn push_operands_accesses(ops: &Vec<&Operand>, acc: &mut Vec<(Register, AccessKind)>)
    ensures
        accesses_view(final(acc)@) == accesses_view(old(acc)@) + operands_accesses(ops@.map_values(|o: &Operand| *o)),
{
    let ghost start = accesses_view(acc@);
    let ghost all = ops@.map_values(|o: &Operand| *o);
    let mut i: usize = 0;
    assert(start + operands_accesses(all.take(0)) =~= start);
    while i < ops.len()
        invariant
            all == ops@.map_values(|o: &Operand| *o),
            i <= ops@.len(),
            accesses_view(acc@) == start + operands_accesses(all.take(i as int)),
        decreases ops@.len() - i,
    {
        assert(all.take(i + 1).drop_last() =~= all.take(i as int));
        assert(all.take(i + 1).last() == *ops@[i as int]);
        push_operand_access(ops[i], acc);
        assert(accesses_view(acc@) =~= start + operands_accesses(all.take(i + 1)));
        i = i + 1;
    }
    assert(all.take(ops@.len() as int) =~= all);
}

/// The accesses of `stmt`, in order.
fn statement_accesses(stmt: &Statement) -> (acc: Vec<(Register, AccessKind)>)
    ensures
        accesses_view(acc@) == stmt_accesses(*stmt),
{
    let mut acc: Vec<(Register, AccessKind)> = Vec::new();
    match &stmt.kind {
        StatementKind::Assign(place, rvalue) => {
            match rvalue {
                Rvalue::Ref { mutability, place: borrowed } => {
                    let kind = match mutability {
                        Mutability::Mutable => AccessKind::Write,
                        Mutability::Immutable => AccessKind::Read,
                    };
                    acc.push((register_of(borrowed), kind));
                },
                Rvalue::Discriminant(p) | Rvalue::Len(p) => {
                    acc.push((register_of(p), AccessKind::Read));
                },
                _ => {
                    let ops = rvalue.operands();
                    assert(ops@.map_values(|o: &Operand| *o) =~= rvalue_operands(*rvalue));
                    push_operands_accesses(&ops, &mut acc);
                },
            }
            let ghost first = accesses_view(acc@);
            assert(first =~= rvalue_accesses(*rvalue));
            acc.push((register_of(place), AccessKind::Write));
            assert(accesses_view(acc@) =~= first + seq![access_of(*place, AccessKind::Write)]);
        },
        StatementKind::PlaceMention(place) => {
            acc.push((register_of(place), AccessKind::Read));
            assert(accesses_view(acc@) =~= stmt_accesses(*stmt));
        },
        StatementKind::SetDiscriminant { place, .. } => {
            acc.push((register_of(place), AccessKind::Write));
            assert(accesses_view(acc@) =~= stmt_accesses(*stmt));
        },
        _ => {
            assert(accesses_view(acc@) =~= stmt_accesses(*stmt));
        },
    }
    acc
}

/// The accesses of a terminator, in order.
fn terminator_access_list(kind: &TerminatorKind) -> (acc: Vec<(Register, AccessKind)>)
    ensures
        accesses_view(acc@) == terminator_accesses(*kind),
{
    let mut acc: Vec<(Register, AccessKind)> = Vec::new();
    match kind {
        TerminatorKind::SwitchInt { .. } | TerminatorKind::Assert { .. } => {
            let ops = kind.operands();
            assert(ops@.map_values(|o: &Operand| *o) =~= terminator_operands(*kind));
            push_operands_accesses(&ops, &mut acc);
            assert(accesses_view(acc@) =~= terminator_accesses(*kind));
        },
        TerminatorKind::Call { destination, .. } => {
            let ops = kind.operands();
            assert(ops@.map_values(|o: &Operand| *o) =~= terminator_operands(*kind));
            push_operands_accesses(&ops, &mut acc);
            let ghost first = accesses_view(acc@);
            acc.push((register_of(destination), AccessKind::Write));
            assert(accesses_view(acc@) =~= first + seq![access_of(*destination, AccessKind::Write)]);
        },
        TerminatorKind::Drop { place, .. } => {
            acc.push((register_of(place), AccessKind::Write));
            assert(accesses_view(acc@) =~= terminator_accesses(*kind));
        },
        _ => {
            assert(accesses_view(acc@) =~= terminator_accesses(*kind));
        },
    }
    acc
}

/// Appends the reports of `body`, whose lifetimes are `lt`: block by block, each statement's
/// accesses against the aliases live before it, then the terminator's.
pub fn check_body(session: &Session, body: &Body, lt: &Lifetimes, out: &mut Vec<Diagnostic>)
    requires
        ex_checkable(*session, *body),
        ranges_shaped(*body, *lt),
    ensures
        final(out)@.len() >= old(out)@.len(),
        final(out)@.take(old(out)@.len() as int) == old(out)@,
        matches_reports(final(out)@.skip(old(out)@.len() as int), blocks_reports(*session, *body, *lt, body.basic_blocks@.len() as int)),
{
    let ghost start = out@;
    let mut b: usize = 0;
    while b < body.basic_blocks.len()
        invariant
            ex_checkable(*session, *body),
            ranges_shaped(*body, *lt),
            b <= body.basic_blocks@.len(),
            out@.len() >= start.len(),
            out@.take(start.len() as int) == start,
            matches_reports(out@.skip(start.len() as int), blocks_reports(*session, *body, *lt, b as int)),
        decreases body.basic_blocks@.len() - b,
    {
        let block = &body.basic_blocks[b];
        let ghost at_block = out@;
        let mut i: usize = 0;
        while i < block.statements.len()
            invariant
                ex_checkable(*session, *body),
                ranges_shaped(*body, *lt),
                *block == body.basic_blocks@[b as int],
                b < body.basic_blocks@.len(),
                i <= block.statements@.len(),
                out@.len() >= at_block.len(),
                out@.take(at_block.len() as int) == at_block,
                matches_reports(out@.skip(at_block.len() as int), stmts_reports(*session, *body, *lt, b as int, i as int)),
            decreases block.statements@.len() - i,
        {
            let stmt = &block.statements[i];
            let ghost before = out@;
            let acc = statement_accesses(stmt);
            proof {
                assert forall|k: int| 0 <= k < acc@.len() implies (#[trigger] acc@[k]).0.owner.0 < body.local_decls@.len() by {
                    assert(accesses_view(acc@)[k] == stmt_accesses(body.basic_blocks@[b as int].statements@[i as int])[k]);
                }
            }
            check_accesses(session, body, lt, b, i, &acc, stmt.span, out);
            proof {
                lemma_append_runs(at_block, before, out@);
                lemma_matches_concat(
                    before.skip(at_block.len() as int),
                    stmts_reports(*session, *body, *lt, b as int, i as int),
                    out@.skip(before.len() as int),
                    access_reports(*session, *body, *lt, b as int, i as int, stmt_accesses(*stmt), stmt.span),
                );
            }
            i = i + 1;
        }
        let ghost mid = out@;
        let acc = terminator_access_list(&block.terminator.kind);
        proof {
            assert forall|k: int| 0 <= k < acc@.len() implies (#[trigger] acc@[k]).0.owner.0 < body.local_decls@.len() by {
                assert(accesses_view(acc@)[k] == terminator_accesses(body.basic_blocks@[b as int].terminator.kind)[k]);
            }
        }
        check_accesses(session, body, lt, b, block.statements.len(), &acc, block.terminator.span, out);
        proof {
            let len = block.statements@.len() as int;
            lemma_append_runs(at_block, mid, out@);
            lemma_matches_concat(
                mid.skip(at_block.len() as int),
                stmts_reports(*session, *body, *lt, b as int, len),
                out@.skip(mid.len() as int),
                access_reports(*session, *body, *lt, b as int, len, terminator_accesses(block.terminator.kind), block.terminator.span),
            );
            lemma_append_runs(start, at_block, out@);
            lemma_matches_concat(
                at_block.skip(start.len() as int),
                blocks_reports(*session, *body, *lt, b as int),
                out@.skip(at_block.len() as int),
                block_reports(*session, *body, *lt, b as int),
            );
        }
        b = b + 1;
    }
}

/// The reports of `body`: those its lifetimes give.
pub open spec fn body_reports(session: Session, body: Body, diags: Seq<Diagnostic>) -> bool {
    exists|lt: Lifetimes|
        #[trigger] lifetimes_of(body, lt) && matches_reports(diags, blocks_reports(session, body, lt, body.basic_blocks@.len() as int))
}

/// The exclusivity reports of every body of a program, body by body.
pub open spec fn program_reports(session: Session, bodies: Seq<Body>, diags: Seq<Diagnostic>) -> bool
    decreases bodies.len(),
{
    if bodies.len() == 0 {
        diags.len() == 0
    } else {
        exists|split: int|
            0 <= split <= diags.len() && program_reports(session, bodies.drop_last(), diags.take(split))
                && #[trigger] body_reports(session, bodies.last(), diags.skip(split))
    }
}

/// Computes the lifetimes of every body of `mir`, then checks each against them, in order.
pub fn check(session: &Session, mir: &Mir) -> (diags: Vec<Diagnostic>)
    requires
        forall|k: int| 0 <= k < mir.bodies@.len() ==> ex_checkable(*session, #[trigger] mir.bodies@[k].1),
    ensures
        program_reports(*session, crate::mir::constck::program_bodies(*mir), diags@),
{
    let ghost bodies = crate::mir::constck::program_bodies(*mir);
    let mut out: Vec<Diagnostic> = Vec::new();
    let mut k: usize = 0;
    while k < mir.bodies.len()
        invariant
            forall|j: int| 0 <= j < mir.bodies@.len() ==> ex_checkable(*session, #[trigger] mir.bodies@[j].1),
            bodies == crate::mir::constck::program_bodies(*mir),
            k <= mir.bodies@.len(),
            program_reports(*session, bodies.take(k as int), out@),
        decreases mir.bodies@.len() - k,
    {
        let body = &mir.bodies[k].1;
        let ghost before = out@;
        let lt = compute_lifetimes(body);
        proof {
            let (e, x, l) = choose|e: Seq<Seq<Option<usize>>>, x: Seq<Seq<Option<usize>>>, l: Seq<Seq<bool>>|
                crate::mir::checks::borrowck::lifetimes::held_problem(*body).least(e, x)
                    && crate::mir::checks::borrowck::lifetimes::live_problem(*body, e, lt.aliases@).least(l) && lifetimes_from(*body, e, x, l, lt);
            assert(lifetimes_from(*body, e, x, l, lt));
        }
        check_body(session, body, &lt, &mut out);
        proof {
            let bs = bodies.take(k + 1);
            assert(bs.drop_last() =~= bodies.take(k as int));
            assert(bs.last() == mir.bodies@[k as int].1);
            assert(out@.take(before.len() as int) == before);
            assert(body_reports(*session, bs.last(), out@.skip(before.len() as int)));
        }
        k = k + 1;
    }
    assert(bodies.take(mir.bodies@.len() as int) =~= bodies);
    out
}

} // verus!
