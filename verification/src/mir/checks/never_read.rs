//! The never-read check: a value assigned to a named local and then overwritten or dropped
//! before any read, and a parameter no path ever reads, is reported.
//!
//! The state at each point is the set of named locals holding a value that has not been read
//! yet. A read of a place removes its local; an assignment adds its target. The state at a
//! block's entry is what is unread along every path to it, so the states come from the least
//! solution of the dataflow equations, with intersection as the meet.

use vstd::prelude::*;
use crate::ast::{Ident, SrcSpan};
use crate::diag::{concat3, lemma_append_runs, lemma_matches_concat, matches_reports, Diagnostic};
use crate::mir::body::{block_successors, edge_count, BasicBlockData, Body};
use crate::mir::checks::lattice::{
    clear_bit, lemma_ops_in_range_split, lemma_run_concat, lemma_run_len, op_index, ops_in_range, run, set_bit, BitOp,
    copy_bits, apply, apply_transfer, entries_view, exits_view, problem_of, solve, subset, Lattice, Meet, Problem, Transfer,
};
use crate::mir::ids::{BasicBlock, Local};
use crate::mir::lower::Mir;
use crate::mir::operand::Operand;
use crate::mir::place::Place;
use crate::mir::rvalue::{rvalue_operands, Rvalue};
use crate::mir::statement::{Statement, StatementKind};
use crate::mir::terminator::{Terminator, TerminatorKind};
use crate::session::Session;
use crate::support::starts_with_char;

verus! {

pub open spec fn read_place(place: Place) -> Seq<BitOp> {
    seq![BitOp::Clear(place.local.0)]
}

pub open spec fn read_operand(op: Operand) -> Seq<BitOp> {
    match op {
        Operand::Copy(place) => read_place(place),
        Operand::Move(place) => read_place(place),
        Operand::Constant(_) => Seq::empty(),
    }
}

pub open spec fn read_operands(ops: Seq<Operand>) -> Seq<BitOp>
    decreases ops.len(),
{
    if ops.len() == 0 {
        Seq::empty()
    } else {
        read_operands(ops.drop_last()) + read_operand(ops.last())
    }
}

/// The locals an rvalue reads: a borrowed, inspected or measured place's, or its operands'.
pub open spec fn read_rvalue(rv: Rvalue) -> Seq<BitOp> {
    match rv {
        Rvalue::Ref { place, .. } => read_place(place),
        Rvalue::Discriminant(place) => read_place(place),
        Rvalue::Len(place) => read_place(place),
        _ => read_operands(rvalue_operands(rv)),
    }
}

/// Borrowing, inspecting the discriminant of, or measuring the length of a place reads its local
/// just as copying or moving it does: the local counts as read, its bit cleared.
pub proof fn law_place_reads_count_as_reads(p: Place)
    ensures
        read_rvalue(Rvalue::Discriminant(p)) == read_rvalue(Rvalue::Use(Operand::Copy(p))),
        read_rvalue(Rvalue::Len(p)) == read_rvalue(Rvalue::Use(Operand::Copy(p))),
        forall|m: crate::ast::Mutability| #[trigger] read_rvalue(Rvalue::Ref { mutability: m, place: p }) == read_rvalue(Rvalue::Use(Operand::Copy(p))),
        read_rvalue(Rvalue::Use(Operand::Move(p))) == read_rvalue(Rvalue::Use(Operand::Copy(p))),
        read_rvalue(Rvalue::Use(Operand::Copy(p))) == seq![BitOp::Clear(p.local.0)],
{
    let ops = rvalue_operands(Rvalue::Use(Operand::Copy(p)));
    assert(ops =~= seq![Operand::Copy(p)]);
    assert(ops.drop_last() =~= Seq::<Operand>::empty());
    let mops = rvalue_operands(Rvalue::Use(Operand::Move(p)));
    assert(mops =~= seq![Operand::Move(p)]);
    assert(mops.drop_last() =~= Seq::<Operand>::empty());
    assert(Seq::<BitOp>::empty() + seq![BitOp::Clear(p.local.0)] =~= seq![BitOp::Clear(p.local.0)]);
    assert(read_operands(ops.drop_last()) == Seq::<BitOp>::empty());
    assert(ops.last() == Operand::Copy(p));
    assert(read_operands(ops) == seq![BitOp::Clear(p.local.0)]);
    assert(read_rvalue(Rvalue::Use(Operand::Copy(p))) == seq![BitOp::Clear(p.local.0)]);
    assert(read_operands(mops.drop_last()) == Seq::<BitOp>::empty());
    assert(read_operands(mops) == seq![BitOp::Clear(p.local.0)]);
}

/// Gives `local` a value, when it is a named local the check follows.
pub open spec fn assign_to(followed: Seq<bool>, local: Local) -> Seq<BitOp> {
    if (local.0 as int) < followed.len() && followed[local.0 as int] {
        seq![BitOp::Raise(local.0)]
    } else {
        Seq::empty()
    }
}

pub open spec fn stmt_ops(followed: Seq<bool>, stmt: Statement) -> Seq<BitOp> {
    match stmt.kind {
        StatementKind::StorageLive(l) => seq![BitOp::Clear(l.0)],
        StatementKind::StorageDead(l) => seq![BitOp::Clear(l.0)],
        StatementKind::Assign(place, rv) => read_rvalue(rv) + assign_to(followed, place.local),
        StatementKind::PlaceMention(place) => read_place(place),
        _ => Seq::empty(),
    }
}

pub open spec fn stmts_ops(followed: Seq<bool>, stmts: Seq<Statement>) -> Seq<BitOp>
    decreases stmts.len(),
{
    if stmts.len() == 0 {
        Seq::empty()
    } else {
        stmts_ops(followed, stmts.drop_last()) + stmt_ops(followed, stmts.last())
    }
}

pub open spec fn terminator_ops(followed: Seq<bool>, kind: TerminatorKind) -> Seq<BitOp> {
    match kind {
        TerminatorKind::SwitchInt { discr, .. } => read_operand(discr),
        TerminatorKind::Assert { cond, .. } => read_operand(cond),
        TerminatorKind::Call { func, args, destination, .. } => read_operand(func) + read_operands(args@)
            + assign_to(followed, destination.local),
        TerminatorKind::Drop { place, .. } => read_place(place),
        TerminatorKind::DropIso { place, .. } => read_place(place),
        _ => Seq::empty(),
    }
}

/// Everything a block does to the state: its statements, then its terminator.
pub open spec fn block_ops(followed: Seq<bool>, block: BasicBlockData) -> Seq<BitOp> {
    stmts_ops(followed, block.statements@) + terminator_ops(followed, block.terminator.kind)
}

fn apply_operand(state: &mut Vec<bool>, op: &Operand)
    requires
        ops_in_range(read_operand(*op), old(state)@.len()),
    ensures
        final(state)@ == run(old(state)@, read_operand(*op)),
        final(state)@.len() == old(state)@.len(),
{
    proof {
        lemma_run_len(state@, read_operand(*op));
    }
    match op {
        Operand::Copy(place) | Operand::Move(place) => {
            assert(op_index(read_operand(*op)[0]) == place.local.0);
            clear_bit(state, place.local.0);
        },
        Operand::Constant(_) => {},
    }
}

fn apply_operands(state: &mut Vec<bool>, ops: &Vec<&Operand>)
    requires
        ops_in_range(read_operands(ops@.map_values(|o: &Operand| *o)), old(state)@.len()),
    ensures
        final(state)@ == run(old(state)@, read_operands(ops@.map_values(|o: &Operand| *o))),
        final(state)@.len() == old(state)@.len(),
{
    proof {
        lemma_run_len(state@, read_operands(ops@.map_values(|o: &Operand| *o)));
    }
    let ghost all = ops@.map_values(|o: &Operand| *o);
    let ghost s0 = state@;
    let mut i: usize = 0;
    while i < ops.len()
        invariant
            all == ops@.map_values(|o: &Operand| *o),
            i <= ops@.len(),
            state@.len() == s0.len(),
            ops_in_range(read_operands(all), s0.len()),
            state@ == run(s0, read_operands(all.take(i as int))),
        decreases ops@.len() - i,
    {
        proof {
            assert(all.take(i + 1).drop_last() =~= all.take(i as int));
            assert(all.take(i + 1).last() == *ops@[i as int]);
            assert(all =~= all.take(i + 1) + all.skip(i + 1));
            lemma_read_operands_concat(all.take(i + 1), all.skip(i + 1));
            lemma_ops_in_range_split(read_operands(all.take(i + 1)), read_operands(all.skip(i + 1)), s0.len());
            lemma_ops_in_range_split(read_operands(all.take(i as int)), read_operand(*ops@[i as int]), s0.len());
            lemma_run_concat(s0, read_operands(all.take(i as int)), read_operand(*ops@[i as int]));
        }
        apply_operand(state, ops[i]);
        i = i + 1;
    }
    assert(all.take(ops@.len() as int) =~= all);
}

/// The reads of two runs of operands, one after the other.
proof fn lemma_read_operands_concat(a: Seq<Operand>, b: Seq<Operand>)
    ensures
        read_operands(a + b) == read_operands(a) + read_operands(b),
    decreases b.len(),
{
    if b.len() == 0 {
        assert(a + b =~= a);
        assert(read_operands(a) + read_operands(b) =~= read_operands(a));
    } else {
        assert((a + b).drop_last() =~= a + b.drop_last());
        lemma_read_operands_concat(a, b.drop_last());
        assert(read_operands(a + b) =~= read_operands(a) + read_operands(b));
    }
}

fn apply_rvalue(state: &mut Vec<bool>, rvalue: &Rvalue)
    requires
        ops_in_range(read_rvalue(*rvalue), old(state)@.len()),
    ensures
        final(state)@ == run(old(state)@, read_rvalue(*rvalue)),
        final(state)@.len() == old(state)@.len(),
{
    proof {
        lemma_run_len(state@, read_rvalue(*rvalue));
    }
    match rvalue {
        Rvalue::Ref { place, .. } | Rvalue::Discriminant(place) | Rvalue::Len(place) => {
            assert(op_index(read_rvalue(*rvalue)[0]) == place.local.0);
            clear_bit(state, place.local.0);
        },
        _ => {
            let ops = rvalue.operands();
            assert(ops@.map_values(|o: &Operand| *o) =~= rvalue_operands(*rvalue));
            apply_operands(state, &ops);
        },
    }
}

/// Gives `local` a value if it is followed.
fn assign_local(state: &mut Vec<bool>, followed: &Vec<bool>, local: Local)
    requires
        ops_in_range(assign_to(followed@, local), old(state)@.len()),
    ensures
        final(state)@ == run(old(state)@, assign_to(followed@, local)),
{
    if local.index() < followed.len() && followed[local.index()] {
        assert(op_index(assign_to(followed@, local)[0]) == local.0);
        set_bit(state, local.0);
    }
}

fn apply_statement(state: &mut Vec<bool>, followed: &Vec<bool>, stmt: &Statement)
    requires
        ops_in_range(stmt_ops(followed@, *stmt), old(state)@.len()),
    ensures
        final(state)@ == run(old(state)@, stmt_ops(followed@, *stmt)),
        final(state)@.len() == old(state)@.len(),
{
    proof {
        lemma_run_len(state@, stmt_ops(followed@, *stmt));
        reveal_with_fuel(run, 2);
    }
    match &stmt.kind {
        StatementKind::StorageLive(l) | StatementKind::StorageDead(l) => {
            assert(op_index(stmt_ops(followed@, *stmt)[0]) == l.0);
            clear_bit(state, l.0);
        },
        StatementKind::Assign(place, rvalue) => {
            let ghost s0 = state@;
            proof {
                lemma_ops_in_range_split(read_rvalue(*rvalue), assign_to(followed@, place.local), s0.len());
                lemma_run_concat(s0, read_rvalue(*rvalue), assign_to(followed@, place.local));
            }
            apply_rvalue(state, rvalue);
            assign_local(state, followed, place.local);
        },
        StatementKind::PlaceMention(place) => {
            assert(op_index(stmt_ops(followed@, *stmt)[0]) == place.local.0);
            clear_bit(state, place.local.0);
        },
        _ => {},
    }
}

fn apply_terminator(state: &mut Vec<bool>, followed: &Vec<bool>, terminator: &Terminator)
    requires
        ops_in_range(terminator_ops(followed@, terminator.kind), old(state)@.len()),
    ensures
        final(state)@ == run(old(state)@, terminator_ops(followed@, terminator.kind)),
        final(state)@.len() == old(state)@.len(),
{
    proof {
        lemma_run_len(state@, terminator_ops(followed@, terminator.kind));
    }
    match &terminator.kind {
        TerminatorKind::SwitchInt { discr, .. } => {
            apply_operand(state, discr);
        },
        TerminatorKind::Assert { cond, .. } => {
            apply_operand(state, cond);
        },
        TerminatorKind::Call { func, args, destination, .. } => {
            let ghost s0 = state@;
            let ghost a = read_operand(*func);
            let ghost b = read_operands(args@);
            let ghost c = assign_to(followed@, destination.local);
            proof {
                lemma_ops_in_range_split(a + b, c, s0.len());
                lemma_ops_in_range_split(a, b, s0.len());
                lemma_run_concat(s0, a + b, c);
                lemma_run_concat(s0, a, b);
            }
            apply_operand(state, func);
            let mut refs: Vec<&Operand> = Vec::new();
            let mut i: usize = 0;
            while i < args.len()
                invariant
                    i <= args@.len(),
                    refs@.len() == i,
                    forall|j: int| 0 <= j < i ==> *refs@[j] == args@[j],
                decreases args@.len() - i,
            {
                refs.push(&args[i]);
                i = i + 1;
            }
            assert(refs@.map_values(|o: &Operand| *o) =~= args@);
            apply_operands(state, &refs);
            assign_local(state, followed, destination.local);
        },
        TerminatorKind::Drop { place, .. } | TerminatorKind::DropIso { place, .. } => {
            assert(op_index(terminator_ops(followed@, terminator.kind)[0]) == place.local.0);
            clear_bit(state, place.local.0);
        },
        _ => {},
    }
}

/// Runs a block's statements, then its terminator.
fn apply_block(state: &mut Vec<bool>, followed: &Vec<bool>, block: &BasicBlockData)
    requires
        ops_in_range(block_ops(followed@, *block), old(state)@.len()),
    ensures
        final(state)@ == run(old(state)@, block_ops(followed@, *block)),
        final(state)@.len() == old(state)@.len(),
{
    let ghost s0 = state@;
    let ghost stmts = block.statements@;
    proof {
        lemma_ops_in_range_split(stmts_ops(followed@, stmts), terminator_ops(followed@, block.terminator.kind), s0.len());
        lemma_run_concat(s0, stmts_ops(followed@, stmts), terminator_ops(followed@, block.terminator.kind));
    }
    let mut i: usize = 0;
    while i < block.statements.len()
        invariant
            stmts == block.statements@,
            i <= stmts.len(),
            state@.len() == s0.len(),
            ops_in_range(stmts_ops(followed@, stmts), s0.len()),
            state@ == run(s0, stmts_ops(followed@, stmts.take(i as int))),
        decreases stmts.len() - i,
    {
        proof {
            assert(stmts.take(i + 1).drop_last() =~= stmts.take(i as int));
            lemma_stmts_ops_prefix(followed@, stmts, i + 1, s0.len());
            lemma_ops_in_range_split(stmts_ops(followed@, stmts.take(i as int)), stmt_ops(followed@, stmts[i as int]), s0.len());
            lemma_run_concat(s0, stmts_ops(followed@, stmts.take(i as int)), stmt_ops(followed@, stmts[i as int]));
        }
        apply_statement(state, followed, &block.statements[i]);
        i = i + 1;
    }
    assert(stmts.take(stmts.len() as int) =~= stmts);
    apply_terminator(state, followed, &block.terminator);
}

/// The ops of a prefix of `stmts` stay in range when all of them do.
proof fn lemma_stmts_ops_prefix(followed: Seq<bool>, stmts: Seq<Statement>, i: int, n: nat)
    requires
        0 <= i <= stmts.len(),
        ops_in_range(stmts_ops(followed, stmts), n),
    ensures
        ops_in_range(stmts_ops(followed, stmts.take(i)), n),
    decreases stmts.len() - i,
{
    if i == stmts.len() {
        assert(stmts.take(i) =~= stmts);
    } else {
        lemma_stmts_ops_prefix(followed, stmts, i + 1, n);
        assert(stmts.take(i + 1).drop_last() =~= stmts.take(i));
        lemma_ops_in_range_split(stmts_ops(followed, stmts.take(i)), stmt_ops(followed, stmts[i]), n);
    }
}

fn all_bits(width: usize) -> (r: Vec<bool>)
    ensures
        r@ == Seq::new(width as nat, |i: int| true),
{
    let mut r: Vec<bool> = Vec::new();
    let mut i: usize = 0;
    while i < width
        invariant
            i <= width,
            r@ == Seq::new(i as nat, |j: int| true),
        decreases width - i,
    {
        r.push(true);
        i = i + 1;
        assert(r@ =~= Seq::new(i as nat, |j: int| true));
    }
    r
}

/// A block's effect as a gen/kill pair: what it gives a value starting from nothing, and the
/// complement of what it keeps of everything.
fn block_transfer(followed: &Vec<bool>, block: &BasicBlockData, width: usize) -> (t: Transfer)
    requires
        ops_in_range(block_ops(followed@, *block), width as nat),
    ensures
        t.gen@ == run(Seq::new(width as nat, |i: int| false), block_ops(followed@, *block)),
        t.kill@ == Seq::new(width as nat, |i: int| !run(Seq::new(width as nat, |j: int| true), block_ops(followed@, *block))[i]),
{
    let mut gen = all_bits(width);
    let mut i: usize = 0;
    while i < width
        invariant
            i <= width,
            gen@.len() == width,
            forall|j: int| 0 <= j < i ==> !#[trigger] gen@[j],
        decreases width - i,
    {
        gen.set(i, false);
        i = i + 1;
    }
    assert(gen@ =~= Seq::new(width as nat, |i: int| false));
    apply_block(&mut gen, followed, block);
    let mut keep = all_bits(width);
    apply_block(&mut keep, followed, block);
    let mut kill: Vec<bool> = Vec::new();
    let mut k: usize = 0;
    while k < width
        invariant
            k <= width,
            keep@.len() == width,
            kill@ == Seq::new(k as nat, |j: int| !keep@[j]),
        decreases width - k,
    {
        kill.push(!keep[k]);
        k = k + 1;
        assert(kill@ =~= Seq::new(k as nat, |j: int| !keep@[j]));
    }
    assert(kill@ =~= Seq::new(width as nat, |i: int| !run(Seq::new(width as nat, |j: int| true), block_ops(followed@, *block))[i]));
    Transfer { gen, kill }
}

/// The locals the check follows: the named ones.
pub open spec fn followed_of(body: Body) -> Seq<bool> {
    Seq::new(body.local_decls@.len(), |i: int| body.local_decls@[i].name is Some)
}

/// The state on entry to the body: every followed parameter holds an unread value.
pub open spec fn initial_unread(body: Body) -> Seq<bool> {
    Seq::new(body.local_decls@.len(), |i: int| 1 <= i <= body.param_count && followed_of(body)[i])
}

pub open spec fn none_of(n: nat) -> Seq<bool> {
    Seq::new(n, |i: int| false)
}

pub open spec fn all_of(n: nat) -> Seq<bool> {
    Seq::new(n, |i: int| true)
}

/// The dataflow problem of `body`: intersection over predecessors, each block summarized by
/// the gen/kill pair of its ops.
pub open spec fn nr_problem(body: Body) -> Problem {
    let nb = body.basic_blocks@.len();
    let n = body.local_decls@.len();
    let f = followed_of(body);
    Problem {
        preds: Seq::new(nb, |b: int| crate::mir::body::preds_among(body.basic_blocks@, nb as int, BasicBlock(b as u32))),
        width: n,
        meet: Meet::Intersection,
        init: initial_unread(body),
        gens: Seq::new(nb, |b: int| run(none_of(n), block_ops(f, body.basic_blocks@[b]))),
        kills: Seq::new(nb, |b: int| Seq::new(n, |i: int| !run(all_of(n), block_ops(f, body.basic_blocks@[b]))[i])),
    }
}

/// What the check needs of a body: blocks whose edges stay inside it, parameters and locals
/// that fit their tables, ops on existing locals, and names `session` knows.
pub open spec fn nr_checkable(session: Session, body: Body) -> bool {
    let n = body.local_decls@.len();
    &&& body.basic_blocks@.len() > 0
    &&& body.targets_in_range()
    &&& edge_count(body.basic_blocks@, body.basic_blocks@.len() as int) < usize::MAX
    &&& body.param_count < n
    &&& n <= u32::MAX
    &&& forall|b: int|
        0 <= b < body.basic_blocks@.len() ==> ops_in_range(block_ops(followed_of(body), #[trigger] body.basic_blocks@[b]), n)
    &&& forall|i: int| 0 <= i < n ==> ((#[trigger] body.local_decls@[i]).name matches Some(nm) ==> session.has(nm.text))
}

/// A named local whose name does not start with `_`.
pub open spec fn reportable(session: Session, body: Body, l: int) -> bool {
    &&& 0 <= l < body.local_decls@.len()
    &&& body.local_decls@[l].name matches Some(nm)
    &&& !(session.text(nm.text).len() > 0 && session.text(nm.text)[0] == '_')
}

pub open spec fn name_text(session: Session, body: Body, l: int) -> Seq<char> {
    session.text(body.local_decls@[l].name.unwrap().text)
}

pub open spec fn value_message(name: Seq<char>) -> Seq<char> {
    "value assigned to `"@ + name + "` is never read"@
}

pub open spec fn parameter_message(name: Seq<char>) -> Seq<char> {
    "parameter `"@ + name + "` is never read"@
}

/// A report when local `l` still holds an unread value in `s` and is reportable.
pub open spec fn flag(session: Session, body: Body, s: Seq<bool>, l: Local, span: SrcSpan) -> Seq<(Seq<char>, SrcSpan)> {
    if (l.0 as int) < s.len() && s[l.0 as int] && reportable(session, body, l.0 as int) {
        seq![(value_message(name_text(session, body, l.0 as int)), span)]
    } else {
        Seq::empty()
    }
}

/// One statement of the walk from state `s`: a report if it overwrites, or ends the scope
/// of, a value that was never read, and the state after it.
pub open spec fn walk_step(session: Session, body: Body, s: Seq<bool>, st: Statement) -> (Seq<(Seq<char>, SrcSpan)>, Seq<bool>) {
    let f = followed_of(body);
    match st.kind {
        StatementKind::StorageDead(l) => (flag(session, body, s, l, st.span), run(s, stmt_ops(f, st))),
        StatementKind::Assign(place, rv) => {
            let s2 = run(s, read_rvalue(rv));
            (flag(session, body, s2, place.local, st.span), run(s2, assign_to(f, place.local)))
        },
        _ => (Seq::empty(), run(s, stmt_ops(f, st))),
    }
}

/// Walks `stmts` from state `s`: the reports of values overwritten or going out of scope
/// unread, and the state after the walk.
pub open spec fn walk(session: Session, body: Body, s: Seq<bool>, stmts: Seq<Statement>) -> (Seq<(Seq<char>, SrcSpan)>, Seq<bool>)
    decreases stmts.len(),
{
    if stmts.len() == 0 {
        (Seq::empty(), s)
    } else {
        let (r, s1) = walk(session, body, s, stmts.drop_last());
        let (r2, s2) = walk_step(session, body, s1, stmts.last());
        (r + r2, s2)
    }
}

/// The reports of the first `m` blocks, each walked from its entry state in `entries`.
pub open spec fn blocks_reports(session: Session, body: Body, entries: Seq<Seq<bool>>, m: int) -> Seq<(Seq<char>, SrcSpan)>
    decreases m,
{
    if m <= 0 {
        Seq::empty()
    } else {
        blocks_reports(session, body, entries, m - 1) + walk(session, body, entries[m - 1], body.basic_blocks@[m - 1].statements@).0
    }
}

/// The intersection of the exit states of the first `m` blocks that have no successor.
pub open spec fn exit_meet(body: Body, exits: Seq<Seq<bool>>, m: int) -> Option<Seq<bool>>
    decreases m,
{
    if m <= 0 {
        None
    } else {
        let prev = exit_meet(body, exits, m - 1);
        if block_successors(body.basic_blocks@, m - 1).len() == 0 {
            match prev {
                None => Some(exits[m - 1]),
                Some(a) => Some(Seq::new(a.len(), |i: int| a[i] && exits[m - 1][i])),
            }
        } else {
            prev
        }
    }
}

/// The reports, among the first `m` locals, of values still unread when the body returns.
pub open spec fn exit_reports(session: Session, body: Body, exit: Seq<bool>, m: int) -> Seq<(Seq<char>, SrcSpan)>
    decreases m,
{
    if m <= 0 {
        Seq::empty()
    } else {
        let l = m - 1;
        exit_reports(session, body, exit, m - 1) + if exit[l] && reportable(session, body, l) {
            seq![(
                if l <= body.param_count {
                    parameter_message(name_text(session, body, l))
                } else {
                    value_message(name_text(session, body, l))
                },
                body.local_decls@[l].span,
            )]
        } else {
            Seq::empty()
        }
    }
}

/// Everything the check reports of `body`, given the exit state of each block.
pub open spec fn expected_reports(session: Session, body: Body, exits: Seq<Seq<bool>>) -> Seq<(Seq<char>, SrcSpan)> {
    let p = nr_problem(body);
    let entries = Seq::new(body.basic_blocks@.len(), |b: int| p.entry_of(exits, b));
    blocks_reports(session, body, entries, body.basic_blocks@.len() as int) + match exit_meet(
        body,
        exits,
        body.basic_blocks@.len() as int,
    ) {
        Some(exit) => exit_reports(session, body, exit, body.local_decls@.len() as int),
        None => Seq::empty(),
    }
}

/// The diagnostics of `body` are those its least dataflow solution gives.
pub open spec fn body_reports(session: Session, body: Body, diags: Seq<Diagnostic>) -> bool {
    exists|exits: Seq<Seq<bool>>| #[trigger] nr_problem(body).least(exits) && matches_reports(diags, expected_reports(session, body, exits))
}


fn report_value_never_read(session: &Session, name: Ident, span: SrcSpan) -> (d: Diagnostic)
    requires
        session.has(name.text),
    ensures
        d.message@ == value_message(session.text(name.text)),
        d.span == span,
{
    let message = concat3("value assigned to `", session.resolve(name.text), "` is never read");
    proof {
        reveal_strlit("value assigned to `");
        reveal_strlit("` is never read");
    }
    Diagnostic::error(message, span)
}

fn report_parameter_never_read(session: &Session, name: Ident, span: SrcSpan) -> (d: Diagnostic)
    requires
        session.has(name.text),
    ensures
        d.message@ == parameter_message(session.text(name.text)),
        d.span == span,
{
    let message = concat3("parameter `", session.resolve(name.text), "` is never read");
    proof {
        reveal_strlit("parameter `");
        reveal_strlit("` is never read");
    }
    Diagnostic::error(message, span)
}

/// The name of `local` if a report may name it: it is named, and not with a leading `_`.
fn reported_name(session: &Session, body: &Body, local: Local) -> (r: Option<Ident>)
    requires
        nr_checkable(*session, *body),
        (local.0 as int) < body.local_decls@.len(),
    ensures
        r is Some <==> reportable(*session, *body, local.0 as int),
        r matches Some(nm) ==> body.local_decls@[local.0 as int].name == Some(nm),
{
    match body.local_decls[local.index()].name {
        Some(name) => {
            assert(session.has(name.text));
            if starts_with_char(session.resolve(name.text), '_') {
                None
            } else {
                Some(name)
            }
        },
        None => None,
    }
}

/// Appends the report `flag` gives for `local` in `state`.
fn check_never_read(session: &Session, state: &Vec<bool>, body: &Body, local: Local, span: SrcSpan, out: &mut Vec<Diagnostic>)
    requires
        nr_checkable(*session, *body),
        state@.len() == body.local_decls@.len(),
    ensures
        matches_reports(final(out)@.skip(old(out)@.len() as int), flag(*session, *body, state@, local, span)),
        final(out)@.take(old(out)@.len() as int) == old(out)@,
        final(out)@.len() >= old(out)@.len(),
{
    let ghost start = out@;
    if local.index() < state.len() && state[local.index()] {
        match reported_name(session, body, local) {
            Some(name) => {
                assert(session.has(name.text));
                out.push(report_value_never_read(session, name, span));
                assert(out@.skip(start.len() as int) =~= seq![out@[start.len() as int]]);
            },
            None => {},
        }
    }
    assert(out@.take(start.len() as int) =~= start);
}

/// Checks one statement against `state` and then applies it.
fn check_statement(session: &Session, state: &mut Vec<bool>, followed: &Vec<bool>, body: &Body, stmt: &Statement, out: &mut Vec<Diagnostic>)
    requires
        nr_checkable(*session, *body),
        followed@ == followed_of(*body),
        old(state)@.len() == body.local_decls@.len(),
        ops_in_range(stmt_ops(followed@, *stmt), body.local_decls@.len()),
    ensures
        final(state)@ == walk_step(*session, *body, old(state)@, *stmt).1,
        final(state)@.len() == old(state)@.len(),
        matches_reports(final(out)@.skip(old(out)@.len() as int), walk_step(*session, *body, old(state)@, *stmt).0),
        final(out)@.take(old(out)@.len() as int) == old(out)@,
        final(out)@.len() >= old(out)@.len(),
{
    let ghost s0 = state@;
    let ghost start = out@;
    match &stmt.kind {
        StatementKind::StorageDead(local) => {
            check_never_read(session, state, body, *local, stmt.span, out);
            apply_statement(state, followed, stmt);
        },
        StatementKind::Assign(place, rvalue) => {
            proof {
                lemma_ops_in_range_split(read_rvalue(*rvalue), assign_to(followed@, place.local), s0.len());
            }
            apply_rvalue(state, rvalue);
            check_never_read(session, state, body, place.local, stmt.span, out);
            assign_local(state, followed, place.local);
            proof {
                lemma_run_len(state@, Seq::<BitOp>::empty());
                lemma_run_len(run(s0, read_rvalue(*rvalue)), assign_to(followed@, place.local));
            }
        },
        _ => {
            apply_statement(state, followed, stmt);
            assert(out@.skip(start.len() as int) =~= Seq::<Diagnostic>::empty());
            assert(out@.take(start.len() as int) =~= start);
        },
    }
}

/// The ops of each statement of a block stay in range when the block's do.
proof fn lemma_stmt_ops_in_range(followed: Seq<bool>, block: BasicBlockData, i: int, n: nat)
    requires
        0 <= i < block.statements@.len(),
        ops_in_range(block_ops(followed, block), n),
    ensures
        ops_in_range(stmt_ops(followed, block.statements@[i]), n),
{
    let stmts = block.statements@;
    lemma_ops_in_range_split(stmts_ops(followed, stmts), terminator_ops(followed, block.terminator.kind), n);
    lemma_stmts_ops_prefix(followed, stmts, i + 1, n);
    assert(stmts.take(i + 1).drop_last() =~= stmts.take(i));
    assert(stmts.take(i + 1).last() == stmts[i]);
    lemma_ops_in_range_split(stmts_ops(followed, stmts.take(i)), stmt_ops(followed, stmts[i]), n);
}

/// Walks every block from its entry state in `lattice`, appending the reports of values
/// overwritten or going out of scope unread.
fn report_blocks(session: &Session, body: &Body, followed: &Vec<bool>, lattice: &Lattice<Vec<bool>>, out: &mut Vec<Diagnostic>)
    requires
        nr_checkable(*session, *body),
        followed@ == followed_of(*body),
        crate::mir::checks::lattice::covers(*lattice, body.basic_blocks@.len(), body.local_decls@.len()),
    ensures
        matches_reports(
            final(out)@.skip(old(out)@.len() as int),
            blocks_reports(*session, *body, entries_view(*lattice, body.basic_blocks@.len()), body.basic_blocks@.len() as int),
        ),
        final(out)@.take(old(out)@.len() as int) == old(out)@,
        final(out)@.len() >= old(out)@.len(),
{
    let ghost start = out@;
    let ghost nb = body.basic_blocks@.len();
    let ghost entries = entries_view(*lattice, nb);
    let mut b: usize = 0;
    while b < body.basic_blocks.len()
        invariant
            nr_checkable(*session, *body),
            followed@ == followed_of(*body),
            nb == body.basic_blocks@.len(),
            entries == entries_view(*lattice, nb),
            crate::mir::checks::lattice::covers(*lattice, nb, body.local_decls@.len()),
            b <= nb,
            out@.len() >= start.len(),
            out@.take(start.len() as int) == start,
            matches_reports(out@.skip(start.len() as int), blocks_reports(*session, *body, entries, b as int)),
        decreases nb - b,
    {
        assert(lattice.entry@.dom().contains(b as u32) && lattice.entry@[b as u32]@.len() == body.local_decls@.len());
        let entry = lattice.entry(BasicBlock(b as u32));
        let mut state = copy_bits(entry.unwrap());
        assert(state@ == entries[b as int]);
        let block = &body.basic_blocks[b];
        let ghost at_block = out@;
        let ghost s_b = entries[b as int];
        let mut i: usize = 0;
        while i < block.statements.len()
            invariant
                nr_checkable(*session, *body),
                followed@ == followed_of(*body),
                *block == body.basic_blocks@[b as int],
                b < nb,
                nb == body.basic_blocks@.len(),
                i <= block.statements@.len(),
                s_b.len() == body.local_decls@.len(),
                state@ == walk(*session, *body, s_b, block.statements@.take(i as int)).1,
                state@.len() == body.local_decls@.len(),
                out@.len() >= at_block.len(),
                out@.take(at_block.len() as int) == at_block,
                matches_reports(out@.skip(at_block.len() as int), walk(*session, *body, s_b, block.statements@.take(i as int)).0),
            decreases block.statements@.len() - i,
        {
            let ghost before = out@;
            proof {
                lemma_stmt_ops_in_range(followed@, *block, i as int, body.local_decls@.len());
                assert(block.statements@.take(i + 1).drop_last() =~= block.statements@.take(i as int));
                assert(block.statements@.take(i + 1).last() == block.statements@[i as int]);
            }
            check_statement(session, &mut state, followed, body, &block.statements[i], out);
            proof {
                lemma_append_runs(at_block, before, out@);
                lemma_matches_concat(
                    before.skip(at_block.len() as int),
                    walk(*session, *body, s_b, block.statements@.take(i as int)).0,
                    out@.skip(before.len() as int),
                    walk_step(*session, *body, walk(*session, *body, s_b, block.statements@.take(i as int)).1, block.statements@[i as int]).0,
                );
            }
            i = i + 1;
        }
        proof {
            assert(block.statements@.take(block.statements@.len() as int) =~= block.statements@);
            lemma_append_runs(start, at_block, out@);
            lemma_matches_concat(
                at_block.skip(start.len() as int),
                blocks_reports(*session, *body, entries, b as int),
                out@.skip(at_block.len() as int),
                walk(*session, *body, s_b, block.statements@).0,
            );
        }
        b = b + 1;
    }
}

/// The intersection of the exit states of the blocks without successors, if there are any.
fn exit_state(body: &Body, lattice: &Lattice<Vec<bool>>) -> (r: Option<Vec<bool>>)
    requires
        body.targets_in_range(),
        crate::mir::checks::lattice::covers(*lattice, body.basic_blocks@.len(), body.local_decls@.len()),
    ensures
        match exit_meet(*body, exits_view(*lattice, body.basic_blocks@.len()), body.basic_blocks@.len() as int) {
            Some(e) => r matches Some(v) && v@ == e,
            None => r is None,
        },
        r matches Some(v) ==> v@.len() == body.local_decls@.len(),
{
    let ghost exits = exits_view(*lattice, body.basic_blocks@.len());
    let mut acc: Option<Vec<bool>> = None;
    let mut b: usize = 0;
    while b < body.basic_blocks.len()
        invariant
            body.targets_in_range(),
            b <= body.basic_blocks@.len(),
            exits == exits_view(*lattice, body.basic_blocks@.len()),
            crate::mir::checks::lattice::covers(*lattice, body.basic_blocks@.len(), body.local_decls@.len()),
            match exit_meet(*body, exits, b as int) {
                Some(e) => acc matches Some(v) && v@ == e && e.len() == body.local_decls@.len(),
                None => acc is None,
            },
        decreases body.basic_blocks@.len() - b,
    {
        let id = BasicBlock(b as u32);
        if body.successors(id).len() == 0 {
            assert(lattice.entry@.dom().contains(b as u32));
            assert(lattice.exit@.dom().contains(b as u32) && lattice.exit@[b as u32]@.len() == body.local_decls@.len());
            let state = lattice.exit(id).unwrap();
            assert(state@ == exits[b as int]);
            acc = match acc {
                None => Some(copy_bits(state)),
                Some(prev) => {
                    let mut merged: Vec<bool> = Vec::new();
                    let mut i: usize = 0;
                    while i < prev.len()
                        invariant
                            i <= prev@.len(),
                            prev@.len() == state@.len(),
                            merged@ == Seq::new(i as nat, |j: int| prev@[j] && state@[j]),
                        decreases prev@.len() - i,
                    {
                        merged.push(prev[i] && state[i]);
                        i = i + 1;
                        assert(merged@ =~= Seq::new(i as nat, |j: int| prev@[j] && state@[j]));
                    }
                    Some(merged)
                },
            };
        }
        b = b + 1;
    }
    acc
}

/// Appends, for each local that still holds an unread value when the body returns, a
/// parameter or value report at its declaration.
fn report_exit(session: &Session, body: &Body, exit: &Vec<bool>, out: &mut Vec<Diagnostic>)
    requires
        nr_checkable(*session, *body),
        exit@.len() == body.local_decls@.len(),
    ensures
        matches_reports(final(out)@.skip(old(out)@.len() as int), exit_reports(*session, *body, exit@, body.local_decls@.len() as int)),
        final(out)@.take(old(out)@.len() as int) == old(out)@,
        final(out)@.len() >= old(out)@.len(),
{
    let ghost start = out@;
    let mut index: usize = 0;
    while index < body.local_decls.len()
        invariant
            nr_checkable(*session, *body),
            exit@.len() == body.local_decls@.len(),
            index <= body.local_decls@.len(),
            out@.len() >= start.len(),
            out@.take(start.len() as int) == start,
            matches_reports(out@.skip(start.len() as int), exit_reports(*session, *body, exit@, index as int)),
        decreases body.local_decls@.len() - index,
    {
        let ghost before = out@;
        let local = Local(index as u32);
        if exit[index] {
            match reported_name(session, body, local) {
                Some(name) => {
                    let span = body.local_decls[index].span;
                    if index <= body.param_count {
                        out.push(report_parameter_never_read(session, name, span));
                    } else {
                        out.push(report_value_never_read(session, name, span));
                    }
                },
                None => {},
            }
        }
        proof {
            assert(out@.take(before.len() as int) =~= before);
            lemma_append_runs(start, before, out@);
            let tail = exit_reports(*session, *body, exit@, index + 1).skip(exit_reports(*session, *body, exit@, index as int).len() as int);
            assert(exit_reports(*session, *body, exit@, index + 1) =~= exit_reports(*session, *body, exit@, index as int) + tail);
            assert(matches_reports(out@.skip(before.len() as int), tail)) by {
                if out@.len() > before.len() {
                    assert(out@.skip(before.len() as int) =~= seq![out@[before.len() as int]]);
                }
            }
            lemma_matches_concat(before.skip(start.len() as int), exit_reports(*session, *body, exit@, index as int), out@.skip(before.len() as int), tail);
        }
        index = index + 1;
    }
}

/// Checks one body, appending its reports: the values overwritten or going out of scope
/// unread, block by block, then the locals still unread when the body returns.
pub fn check_body(session: &Session, body: &Body, out: &mut Vec<Diagnostic>)
    requires
        nr_checkable(*session, *body),
    ensures
        body_reports(*session, *body, final(out)@.skip(old(out)@.len() as int)),
        final(out)@.take(old(out)@.len() as int) == old(out)@,
        final(out)@.len() >= old(out)@.len(),
{
    let n = body.local_decls.len();
    let ghost nb = body.basic_blocks@.len();
    let mut followed: Vec<bool> = Vec::new();
    let mut i: usize = 0;
    while i < n
        invariant
            n == body.local_decls@.len(),
            i <= n,
            followed@ == followed_of(*body).take(i as int),
        decreases n - i,
    {
        followed.push(body.local_decls[i].name.is_some());
        i = i + 1;
        assert(followed@ =~= followed_of(*body).take(i as int));
    }
    assert(followed@ =~= followed_of(*body));
    let mut initial: Vec<bool> = Vec::new();
    let mut k: usize = 0;
    while k < n
        invariant
            n == body.local_decls@.len(),
            followed@ == followed_of(*body),
            k <= n,
            initial@ == initial_unread(*body).take(k as int),
        decreases n - k,
    {
        initial.push(1 <= k && k <= body.param_count && followed[k]);
        k = k + 1;
        assert(initial@ =~= initial_unread(*body).take(k as int));
    }
    assert(initial@ =~= initial_unread(*body));
    let mut transfers: Vec<Transfer> = Vec::new();
    let mut b: usize = 0;
    while b < body.basic_blocks.len()
        invariant
            nr_checkable(*session, *body),
            n == body.local_decls@.len(),
            followed@ == followed_of(*body),
            b <= body.basic_blocks@.len(),
            transfers@.len() == b,
            forall|c: int| 0 <= c < b ==> (#[trigger] transfers@[c]).gen@ == nr_problem(*body).gens[c] && transfers@[c].kill@
                == nr_problem(*body).kills[c],
        decreases body.basic_blocks@.len() - b,
    {
        assert(ops_in_range(block_ops(followed@, body.basic_blocks@[b as int]), n as nat));
        let t = block_transfer(&followed, &body.basic_blocks[b], n);
        transfers.push(t);
        b = b + 1;
    }
    let ghost p = nr_problem(*body);
    proof {
        let q = problem_of(*body, n as nat, Meet::Intersection, initial@, transfers@);
        assert(q.gens =~= p.gens);
        assert(q.kills =~= p.kills);
        assert(q.preds =~= p.preds);
        assert(q == p);
        assert forall|c: int| 0 <= c < transfers@.len() implies (#[trigger] transfers@[c]).gen@.len() == n && transfers@[c].kill@.len() == n by {
            lemma_run_len(none_of(n as nat), block_ops(followed_of(*body), body.basic_blocks@[c]));
        }
    }
    let lattice = solve(body, n, &initial, &transfers, Meet::Intersection);
    let ghost exits = exits_view(lattice, nb);
    proof {
        assert(p.least(exits));
        assert forall|c: int| 0 <= c < nb implies #[trigger] lattice.entry@.dom().contains(c as u32) && lattice.entry@[c as u32]@.len() == n by {
            assert(entries_view(lattice, nb)[c] == p.entry_of(exits, c));
            crate::mir::checks::lattice::lemma_entry_len(p, exits, c);
        }
        assert forall|c: int| 0 <= c < nb implies #[trigger] lattice.exit@.dom().contains(c as u32) && lattice.exit@[c as u32]@.len() == n by {
            assert(lattice.entry@.dom().contains(c as u32));
            assert(exits[c] == lattice.exit@[c as u32]@);
        }
        assert(entries_view(lattice, nb) =~= Seq::new(nb, |c: int| p.entry_of(exits, c)));
    }
    let ghost start = out@;
    assert(crate::mir::checks::lattice::covers(lattice, nb, n as nat));
    report_blocks(session, body, &followed, &lattice, out);
    let ghost mid = out@;
    match exit_state(body, &lattice) {
        Some(exit) => {
            report_exit(session, body, &exit, out);
        },
        None => {
            assert(out@.skip(mid.len() as int) =~= Seq::<Diagnostic>::empty());
            assert(out@.take(mid.len() as int) =~= mid);
        },
    }
    proof {
        lemma_append_runs(start, mid, out@);
        let tail = match exit_meet(*body, exits, nb as int) {
            Some(e) => exit_reports(*session, *body, e, n as int),
            None => Seq::empty(),
        };
        lemma_matches_concat(
            mid.skip(start.len() as int),
            blocks_reports(*session, *body, entries_view(lattice, nb), nb as int),
            out@.skip(mid.len() as int),
            tail,
        );
        assert(matches_reports(out@.skip(start.len() as int), expected_reports(*session, *body, exits)));
    }
}

/// The never-read reports of every body of `mir`, body by body.
pub open spec fn program_reports(session: Session, bodies: Seq<Body>, diags: Seq<Diagnostic>) -> bool
    decreases bodies.len(),
{
    if bodies.len() == 0 {
        diags.len() == 0
    } else {
        exists|split: int|
            0 <= split <= diags.len() && program_reports(session, bodies.drop_last(), diags.take(split))
                && #[trigger] body_reports(session, bodies.last(), diags.skip(split))
    }
}

/// Checks every body of `mir`, in order.
pub fn check(session: &Session, mir: &Mir) -> (diags: Vec<Diagnostic>)
    requires
        forall|k: int| 0 <= k < mir.bodies@.len() ==> nr_checkable(*session, #[trigger] mir.bodies@[k].1),
    ensures
        program_reports(*session, crate::mir::constck::program_bodies(*mir), diags@),
{
    let ghost bodies = crate::mir::constck::program_bodies(*mir);
    let mut out: Vec<Diagnostic> = Vec::new();
    let mut k: usize = 0;
    while k < mir.bodies.len()
        invariant
            forall|j: int| 0 <= j < mir.bodies@.len() ==> nr_checkable(*session, #[trigger] mir.bodies@[j].1),
            bodies == crate::mir::constck::program_bodies(*mir),
            k <= mir.bodies@.len(),
            program_reports(*session, bodies.take(k as int), out@),
        decreases mir.bodies@.len() - k,
    {
        let ghost before = out@;
        check_body(session, &mir.bodies[k].1, &mut out);
        proof {
            let bs = bodies.take(k + 1);
            assert(bs.drop_last() =~= bodies.take(k as int));
            assert(bs.last() == mir.bodies@[k as int].1);
            assert(out@.take(before.len() as int) == before);
            assert(body_reports(*session, bs.last(), out@.skip(before.len() as int)));
        }
        k = k + 1;
    }
    assert(bodies.take(mir.bodies@.len() as int) =~= bodies);
    out
}

} // verus!
