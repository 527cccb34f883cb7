//! The definite-initialization check: reading a named, non-copy value after it, or a part of
//! it, may have been moved out is reported.
//!
//! The state at each point is the set of dead registers: those moved out of, or not yet
//! initialized, along some path. A move kills its register; an assignment revives every
//! register under its target; `StorageLive` and `StorageDead` leave the whole local dead. The
//! registers the body can ever kill form a finite universe, so a state is one flag per member
//! of that universe, and the states at block entries come from the least solution of the
//! dataflow equations, with union as the meet.

use vstd::prelude::*;
use crate::ast::{Ident, SrcSpan};
use crate::diag::{concat3, lemma_append_runs, lemma_matches_concat, matches_reports, Diagnostic};
use crate::mir::body::{edge_count, BasicBlockData, Body};
use crate::mir::checks::borrowck::{
    copy_register, is_prefix, place_reg, prefix_of, reg_eq, reg_view, regs_view, register_of, steps_of, Register, SubRegisters,
};
use crate::mir::checks::lattice::{
    apply, copy_bits, entries_view, exits_view, lemma_ops_in_range_split, lemma_run_concat, lemma_run_len, op_index,
    ops_in_range, problem_of, run, solve, BitOp, Lattice, Meet, Problem, Transfer,
};
use crate::mir::ids::Local;
use crate::mir::lower::Mir;
use crate::mir::operand::Operand;
use crate::mir::place::Place;
use crate::mir::rvalue::{rvalue_operands, Rvalue};
use crate::mir::statement::{Statement, StatementKind};
use crate::mir::terminator::{terminator_operands, Terminator, TerminatorKind};
use crate::session::Session;
use crate::typeck::{copy_within, TyCtx};

verus! {

// ---------------------------------------------------------------------------------------------
// The universe: every register the body can kill, in body order
// ---------------------------------------------------------------------------------------------

/// The registers the operands `ops` move out of, in order.
pub open spec fn moved_regs(ops: Seq<Operand>) -> Seq<(Local, Seq<SubRegisters>)>
    decreases ops.len(),
{
    if ops.len() == 0 {
        Seq::empty()
    } else {
        moved_regs(ops.drop_last()) + match ops.last() {
            Operand::Move(place) => seq![place_reg(place)],
            _ => Seq::empty(),
        }
    }
}

pub open spec fn stmt_candidates(stmt: Statement) -> Seq<(Local, Seq<SubRegisters>)> {
    match stmt.kind {
        StatementKind::StorageLive(l) => seq![(l, Seq::<SubRegisters>::empty())],
        StatementKind::StorageDead(l) => seq![(l, Seq::<SubRegisters>::empty())],
        StatementKind::Assign(_, rv) => moved_regs(rvalue_operands(rv)),
        _ => Seq::empty(),
    }
}

pub open spec fn stmts_candidates(stmts: Seq<Statement>) -> Seq<(Local, Seq<SubRegisters>)>
    decreases stmts.len(),
{
    if stmts.len() == 0 {
        Seq::empty()
    } else {
        stmts_candidates(stmts.drop_last()) + stmt_candidates(stmts.last())
    }
}

pub open spec fn terminator_candidates(kind: TerminatorKind) -> Seq<(Local, Seq<SubRegisters>)> {
    match kind {
        TerminatorKind::Drop { place, .. } => seq![place_reg(place)],
        TerminatorKind::DropIso { place, .. } => seq![place_reg(place)],
        _ => moved_regs(terminator_operands(kind)),
    }
}

/// The registers of the first `m` blocks of `blocks`.
pub open spec fn candidates(blocks: Seq<BasicBlockData>, m: int) -> Seq<(Local, Seq<SubRegisters>)>
    decreases m,
{
    if m <= 0 {
        Seq::empty()
    } else {
        candidates(blocks, m - 1) + stmts_candidates(blocks[m - 1].statements@) + terminator_candidates(
            blocks[m - 1].terminator.kind,
        )
    }
}

pub open spec fn universe_of(body: Body) -> Seq<(Local, Seq<SubRegisters>)> {
    candidates(body.basic_blocks@, body.basic_blocks@.len() as int)
}


/// Appends the registers `ops` move out of.
fn push_moved(ops: &Vec<&Operand>, out: &mut Vec<Register>)
    ensures
        regs_view(final(out)@) == regs_view(old(out)@) + moved_regs(ops@.map_values(|o: &Operand| *o)),
{
    let ghost all = ops@.map_values(|o: &Operand| *o);
    let ghost start = regs_view(out@);
    let mut i: usize = 0;
    while i < ops.len()
        invariant
            all == ops@.map_values(|o: &Operand| *o),
            i <= ops@.len(),
            regs_view(out@) == start + moved_regs(all.take(i as int)),
        decreases ops@.len() - i,
    {
        assert(all.take(i + 1).drop_last() =~= all.take(i as int));
        assert(all.take(i + 1).last() == *ops@[i as int]);
        let ghost before = out@;
        match ops[i] {
            Operand::Move(place) => {
                let r = register_of(place);
                out.push(r);
                assert(regs_view(out@) =~= regs_view(before) + seq![place_reg(*place)]);
            },
            _ => {
                assert(regs_view(out@) =~= regs_view(before));
            },
        }
        i = i + 1;
        assert(regs_view(out@) =~= start + moved_regs(all.take(i as int)));
    }
    assert(all.take(ops@.len() as int) =~= all);
}

/// Every register the body can kill, in body order.
pub fn universe(body: &Body) -> (u: Vec<Register>)
    ensures
        regs_view(u@) == universe_of(*body),
{
    let mut u: Vec<Register> = Vec::new();
    let mut b: usize = 0;
    while b < body.basic_blocks.len()
        invariant
            b <= body.basic_blocks@.len(),
            regs_view(u@) == candidates(body.basic_blocks@, b as int),
        decreases body.basic_blocks@.len() - b,
    {
        let block = &body.basic_blocks[b];
        let ghost at_block = regs_view(u@);
        let mut i: usize = 0;
        while i < block.statements.len()
            invariant
                i <= block.statements@.len(),
                regs_view(u@) == at_block + stmts_candidates(block.statements@.take(i as int)),
            decreases block.statements@.len() - i,
        {
            assert(block.statements@.take(i + 1).drop_last() =~= block.statements@.take(i as int));
            assert(block.statements@.take(i + 1).last() == block.statements@[i as int]);
            let ghost before = regs_view(u@);
            match &block.statements[i].kind {
                StatementKind::StorageLive(l) | StatementKind::StorageDead(l) => {
                    u.push(Register { owner: *l, subregister: Vec::new() });
                    assert(regs_view(u@) =~= before + seq![(*l, Seq::<SubRegisters>::empty())]);
                },
                StatementKind::Assign(_, rv) => {
                    let ops = rv.operands();
                    assert(ops@.map_values(|o: &Operand| *o) =~= rvalue_operands(*rv));
                    push_moved(&ops, &mut u);
                },
                _ => {
                    assert(regs_view(u@) =~= before);
                },
            }
            i = i + 1;
            assert(regs_view(u@) =~= at_block + stmts_candidates(block.statements@.take(i as int)));
        }
        assert(block.statements@.take(block.statements@.len() as int) =~= block.statements@);
        let ghost mid = regs_view(u@);
        match &block.terminator.kind {
            TerminatorKind::Drop { place, .. } | TerminatorKind::DropIso { place, .. } => {
                u.push(register_of(place));
                assert(regs_view(u@) =~= mid + seq![place_reg(*place)]);
            },
            _ => {
                let ops = block.terminator.kind.operands();
                assert(ops@.map_values(|o: &Operand| *o) =~= terminator_operands(block.terminator.kind));
                push_moved(&ops, &mut u);
            },
        }
        b = b + 1;
        assert(regs_view(u@) =~= candidates(body.basic_blocks@, b as int));
    }
    u
}

// ---------------------------------------------------------------------------------------------
// What each statement and terminator does to the set of dead registers
// ---------------------------------------------------------------------------------------------

/// Raises each of the first `m` members of `u` that is `r`.
pub open spec fn raise_equal(u: Seq<(Local, Seq<SubRegisters>)>, r: (Local, Seq<SubRegisters>), m: int) -> Seq<BitOp>
    decreases m,
{
    if m <= 0 {
        Seq::empty()
    } else {
        raise_equal(u, r, m - 1) + if u[m - 1] == r { seq![BitOp::Raise((m - 1) as u32)] } else { Seq::empty() }
    }
}

/// Clears each of the first `m` members of `u` that is `r` or lies under it.
pub open spec fn clear_extending(u: Seq<(Local, Seq<SubRegisters>)>, r: (Local, Seq<SubRegisters>), m: int) -> Seq<BitOp>
    decreases m,
{
    if m <= 0 {
        Seq::empty()
    } else {
        clear_extending(u, r, m - 1) + if u[m - 1].0 == r.0 && is_prefix(r.1, u[m - 1].1) {
            seq![BitOp::Clear((m - 1) as u32)]
        } else {
            Seq::empty()
        }
    }
}

/// Clears each of the first `m` members of `u` that `l` owns.
pub open spec fn clear_owned(u: Seq<(Local, Seq<SubRegisters>)>, l: Local, m: int) -> Seq<BitOp>
    decreases m,
{
    if m <= 0 {
        Seq::empty()
    } else {
        clear_owned(u, l, m - 1) + if u[m - 1].0 == l { seq![BitOp::Clear((m - 1) as u32)] } else { Seq::empty() }
    }
}

/// Whether the check follows local `l`: a named local of a type that is moved, not copied.
pub open spec fn follows(mv: Seq<bool>, l: Local) -> bool {
    (l.0 as int) < mv.len() && mv[l.0 as int]
}

pub open spec fn mark_dead(u: Seq<(Local, Seq<SubRegisters>)>, mv: Seq<bool>, r: (Local, Seq<SubRegisters>)) -> Seq<BitOp> {
    if follows(mv, r.0) { raise_equal(u, r, u.len() as int) } else { Seq::empty() }
}

pub open spec fn mark_live(u: Seq<(Local, Seq<SubRegisters>)>, mv: Seq<bool>, r: (Local, Seq<SubRegisters>)) -> Seq<BitOp> {
    if follows(mv, r.0) { clear_extending(u, r, u.len() as int) } else { Seq::empty() }
}

/// A local entering or leaving its scope is wholly dead: every register it owns is cleared,
/// then the whole local is raised.
pub open spec fn storage(u: Seq<(Local, Seq<SubRegisters>)>, mv: Seq<bool>, l: Local) -> Seq<BitOp> {
    if follows(mv, l) {
        clear_owned(u, l, u.len() as int) + raise_equal(u, (l, Seq::<SubRegisters>::empty()), u.len() as int)
    } else {
        Seq::empty()
    }
}

pub open spec fn move_ops(u: Seq<(Local, Seq<SubRegisters>)>, mv: Seq<bool>, op: Operand) -> Seq<BitOp> {
    match op {
        Operand::Move(place) => mark_dead(u, mv, place_reg(place)),
        _ => Seq::empty(),
    }
}

pub open spec fn moves_ops(u: Seq<(Local, Seq<SubRegisters>)>, mv: Seq<bool>, ops: Seq<Operand>) -> Seq<BitOp>
    decreases ops.len(),
{
    if ops.len() == 0 {
        Seq::empty()
    } else {
        moves_ops(u, mv, ops.drop_last()) + move_ops(u, mv, ops.last())
    }
}

pub open spec fn stmt_ops(u: Seq<(Local, Seq<SubRegisters>)>, mv: Seq<bool>, stmt: Statement) -> Seq<BitOp> {
    match stmt.kind {
        StatementKind::StorageLive(l) => storage(u, mv, l),
        StatementKind::StorageDead(l) => storage(u, mv, l),
        StatementKind::Assign(place, rv) => moves_ops(u, mv, rvalue_operands(rv)) + mark_live(u, mv, place_reg(place)),
        _ => Seq::empty(),
    }
}

pub open spec fn stmts_ops(u: Seq<(Local, Seq<SubRegisters>)>, mv: Seq<bool>, stmts: Seq<Statement>) -> Seq<BitOp>
    decreases stmts.len(),
{
    if stmts.len() == 0 {
        Seq::empty()
    } else {
        stmts_ops(u, mv, stmts.drop_last()) + stmt_ops(u, mv, stmts.last())
    }
}

pub open spec fn terminator_ops(u: Seq<(Local, Seq<SubRegisters>)>, mv: Seq<bool>, kind: TerminatorKind) -> Seq<BitOp> {
    match kind {
        TerminatorKind::SwitchInt { discr, .. } => move_ops(u, mv, discr),
        TerminatorKind::Assert { cond, .. } => move_ops(u, mv, cond),
        TerminatorKind::Call { func, args, destination, .. } => move_ops(u, mv, func) + moves_ops(u, mv, args@) + mark_live(
            u,
            mv,
            place_reg(destination),
        ),
        TerminatorKind::Drop { place, .. } => mark_dead(u, mv, place_reg(place)),
        TerminatorKind::DropIso { place, .. } => mark_dead(u, mv, place_reg(place)),
        _ => Seq::empty(),
    }
}

pub open spec fn block_ops(u: Seq<(Local, Seq<SubRegisters>)>, mv: Seq<bool>, block: BasicBlockData) -> Seq<BitOp> {
    stmts_ops(u, mv, block.statements@) + terminator_ops(u, mv, block.terminator.kind)
}

proof fn lemma_in_range_concat(a: Seq<BitOp>, b: Seq<BitOp>, n: nat)
    requires
        ops_in_range(a, n),
        ops_in_range(b, n),
    ensures
        ops_in_range(a + b, n),
{
    assert forall|k: int| 0 <= k < (a + b).len() implies (op_index(#[trigger] (a + b)[k]) as int) < n by {
        if k >= a.len() {
            assert((a + b)[k] == b[k - a.len()]);
        }
    }
}

proof fn lemma_scans_in_range(u: Seq<(Local, Seq<SubRegisters>)>, r: (Local, Seq<SubRegisters>), l: Local, m: int)
    requires
        0 <= m <= u.len(),
        u.len() <= u32::MAX,
    ensures
        ops_in_range(raise_equal(u, r, m), u.len()),
        ops_in_range(clear_extending(u, r, m), u.len()),
        ops_in_range(clear_owned(u, l, m), u.len()),
    decreases m,
{
    if m > 0 {
        lemma_scans_in_range(u, r, l, m - 1);
        let one_r: Seq<BitOp> = seq![BitOp::Raise((m - 1) as u32)];
        let one_c: Seq<BitOp> = seq![BitOp::Clear((m - 1) as u32)];
        assert(ops_in_range(one_r, u.len()));
        assert(ops_in_range(one_c, u.len()));
        assert(ops_in_range(Seq::<BitOp>::empty(), u.len()));
        lemma_in_range_concat(raise_equal(u, r, m - 1), if u[m - 1] == r { one_r } else { Seq::empty() }, u.len());
        lemma_in_range_concat(
            clear_extending(u, r, m - 1),
            if u[m - 1].0 == r.0 && is_prefix(r.1, u[m - 1].1) { one_c } else { Seq::empty() },
            u.len(),
        );
        lemma_in_range_concat(clear_owned(u, l, m - 1), if u[m - 1].0 == l { one_c } else { Seq::empty() }, u.len());
    }
}

proof fn lemma_moves_in_range(u: Seq<(Local, Seq<SubRegisters>)>, mv: Seq<bool>, ops: Seq<Operand>)
    requires
        u.len() <= u32::MAX,
    ensures
        ops_in_range(moves_ops(u, mv, ops), u.len()),
    decreases ops.len(),
{
    if ops.len() > 0 {
        lemma_moves_in_range(u, mv, ops.drop_last());
        match ops.last() {
            Operand::Move(place) => {
                lemma_scans_in_range(u, place_reg(place), place.local, u.len() as int);
            },
            _ => {},
        }
        assert(ops_in_range(Seq::<BitOp>::empty(), u.len()));
        lemma_in_range_concat(moves_ops(u, mv, ops.drop_last()), move_ops(u, mv, ops.last()), u.len());
    }
}


proof fn lemma_stmt_in_range(u: Seq<(Local, Seq<SubRegisters>)>, mv: Seq<bool>, stmt: Statement)
    requires
        u.len() <= u32::MAX,
    ensures
        ops_in_range(stmt_ops(u, mv, stmt), u.len()),
{
    let n = u.len();
    assert(ops_in_range(Seq::<BitOp>::empty(), n));
    match stmt.kind {
        StatementKind::StorageLive(l) => {
            lemma_scans_in_range(u, (l, Seq::<SubRegisters>::empty()), l, n as int);
            lemma_in_range_concat(clear_owned(u, l, n as int), raise_equal(u, (l, Seq::<SubRegisters>::empty()), n as int), n);
        },
        StatementKind::StorageDead(l) => {
            lemma_scans_in_range(u, (l, Seq::<SubRegisters>::empty()), l, n as int);
            lemma_in_range_concat(clear_owned(u, l, n as int), raise_equal(u, (l, Seq::<SubRegisters>::empty()), n as int), n);
        },
        StatementKind::Assign(place, rv) => {
            lemma_moves_in_range(u, mv, rvalue_operands(rv));
            lemma_scans_in_range(u, place_reg(place), place.local, n as int);
            lemma_in_range_concat(moves_ops(u, mv, rvalue_operands(rv)), mark_live(u, mv, place_reg(place)), n);
        },
        _ => {},
    }
}

proof fn lemma_stmts_in_range(u: Seq<(Local, Seq<SubRegisters>)>, mv: Seq<bool>, stmts: Seq<Statement>)
    requires
        u.len() <= u32::MAX,
    ensures
        ops_in_range(stmts_ops(u, mv, stmts), u.len()),
    decreases stmts.len(),
{
    assert(ops_in_range(Seq::<BitOp>::empty(), u.len()));
    if stmts.len() > 0 {
        lemma_stmts_in_range(u, mv, stmts.drop_last());
        lemma_stmt_in_range(u, mv, stmts.last());
        lemma_in_range_concat(stmts_ops(u, mv, stmts.drop_last()), stmt_ops(u, mv, stmts.last()), u.len());
    }
}

proof fn lemma_raise_equal(s: Seq<bool>, u: Seq<(Local, Seq<SubRegisters>)>, r: (Local, Seq<SubRegisters>), m: int)
    requires
        s.len() == u.len(),
        0 <= m <= u.len(),
        u.len() <= u32::MAX,
    ensures
        run(s, raise_equal(u, r, m)).len() == s.len(),
        forall|k: int| 0 <= k < s.len() ==> #[trigger] run(s, raise_equal(u, r, m))[k] == (s[k] || (k < m && u[k] == r)),
    decreases m,
{
    if m > 0 {
        lemma_raise_equal(s, u, r, m - 1);
        let prior = raise_equal(u, r, m - 1);
        if u[m - 1] == r {
            lemma_run_concat(s, prior, seq![BitOp::Raise((m - 1) as u32)]);
            assert(seq![BitOp::Raise((m - 1) as u32)].drop_last() =~= Seq::<BitOp>::empty());
            reveal_with_fuel(run, 2);
        } else {
            assert(raise_equal(u, r, m) =~= prior);
        }
    }
}

proof fn lemma_clear_extending(s: Seq<bool>, u: Seq<(Local, Seq<SubRegisters>)>, r: (Local, Seq<SubRegisters>), m: int)
    requires
        s.len() == u.len(),
        0 <= m <= u.len(),
        u.len() <= u32::MAX,
    ensures
        run(s, clear_extending(u, r, m)).len() == s.len(),
        forall|k: int|
            0 <= k < s.len() ==> #[trigger] run(s, clear_extending(u, r, m))[k] == (s[k] && !(k < m && u[k].0 == r.0 && is_prefix(r.1, u[k].1))),
    decreases m,
{
    if m > 0 {
        lemma_clear_extending(s, u, r, m - 1);
        let prior = clear_extending(u, r, m - 1);
        if u[m - 1].0 == r.0 && is_prefix(r.1, u[m - 1].1) {
            lemma_run_concat(s, prior, seq![BitOp::Clear((m - 1) as u32)]);
            assert(seq![BitOp::Clear((m - 1) as u32)].drop_last() =~= Seq::<BitOp>::empty());
            reveal_with_fuel(run, 2);
        } else {
            assert(clear_extending(u, r, m) =~= prior);
        }
    }
}

/// Moving out of a followed register that the universe holds leaves it dead.
pub proof fn law_move_kills(s: Seq<bool>, u: Seq<(Local, Seq<SubRegisters>)>, mv: Seq<bool>, r: (Local, Seq<SubRegisters>), k: int)
    requires
        s.len() == u.len(),
        u.len() <= u32::MAX,
        follows(mv, r.0),
        0 <= k < u.len(),
        u[k] == r,
    ensures
        is_dead(u, mv, run(s, mark_dead(u, mv, r)), r),
{
    lemma_raise_equal(s, u, r, u.len() as int);
    let after = run(s, mark_dead(u, mv, r));
    assert(after[k]);
    assert(is_prefix(u[k].1, r.1)) by {
        assert(r.1.take(r.1.len() as int) =~= r.1);
    }
}

/// Assigning to a followed register revives it and every register under it.
pub proof fn law_assignment_revives(s: Seq<bool>, u: Seq<(Local, Seq<SubRegisters>)>, mv: Seq<bool>, r: (Local, Seq<SubRegisters>))
    requires
        s.len() == u.len(),
        u.len() <= u32::MAX,
        follows(mv, r.0),
    ensures
        forall|k: int|
            0 <= k < u.len() && u[k].0 == r.0 && is_prefix(r.1, u[k].1) ==> !#[trigger] run(s, mark_live(u, mv, r))[k],
{
    lemma_clear_extending(s, u, r, u.len() as int);
}

/// The three scans over the universe: raise the members equal to a register, clear those
/// under it, clear those a local owns.
#[derive(Clone, Copy, PartialEq, Eq, Structural)]
enum Scan {
    RaiseEqual,
    ClearExtending,
    ClearOwned,
}

pub open spec fn scan_ops(u: Seq<(Local, Seq<SubRegisters>)>, scan_raise: bool, scan_ext: bool, r: (Local, Seq<SubRegisters>), m: int) -> Seq<BitOp> {
    if scan_raise {
        raise_equal(u, r, m)
    } else if scan_ext {
        clear_extending(u, r, m)
    } else {
        clear_owned(u, r.0, m)
    }
}

fn scan(state: &mut Vec<bool>, u: &Vec<Register>, r: &Register, how: Scan)
    requires
        old(state)@.len() == u@.len(),
        u@.len() <= u32::MAX,
    ensures
        final(state)@ == run(old(state)@, scan_ops(regs_view(u@), how == Scan::RaiseEqual, how == Scan::ClearExtending, reg_view(*r), u@.len() as int)),
        final(state)@.len() == old(state)@.len(),
{
    let ghost uv = regs_view(u@);
    let ghost s0 = state@;
    let ghost raise = how == Scan::RaiseEqual;
    let ghost ext = how == Scan::ClearExtending;
    let mut i: usize = 0;
    while i < u.len()
        invariant
            uv == regs_view(u@),
            raise == (how == Scan::RaiseEqual),
            ext == (how == Scan::ClearExtending),
            u@.len() <= u32::MAX,
            i <= u@.len(),
            state@.len() == u@.len(),
            s0.len() == u@.len(),
            state@ == run(s0, scan_ops(uv, raise, ext, reg_view(*r), i as int)),
        decreases u@.len() - i,
    {
        let hit = match how {
            Scan::RaiseEqual => reg_eq(&u[i], r),
            Scan::ClearExtending => u[i].owner == r.owner && prefix_of(&r.subregister, &u[i].subregister),
            Scan::ClearOwned => u[i].owner == r.owner,
        };
        assert(uv[i as int] == reg_view(u@[i as int]));
        let ghost prior = scan_ops(uv, raise, ext, reg_view(*r), i as int);
        if hit {
            let ghost op = if raise { BitOp::Raise(i as u32) } else { BitOp::Clear(i as u32) };
            proof {
                lemma_run_concat(s0, prior, seq![op]);
                assert(scan_ops(uv, raise, ext, reg_view(*r), i + 1) == prior + seq![op]);
            }
            if how == Scan::RaiseEqual {
                crate::mir::checks::lattice::set_bit(state, i as u32);
            } else {
                crate::mir::checks::lattice::clear_bit(state, i as u32);
            }
        } else {
            assert(scan_ops(uv, raise, ext, reg_view(*r), i + 1) =~= prior);
        }
        proof {
            lemma_run_len(s0, scan_ops(uv, raise, ext, reg_view(*r), i + 1));
        }
        i = i + 1;
    }
}

fn follows_exec(mv: &Vec<bool>, l: Local) -> (r: bool)
    ensures
        r == follows(mv@, l),
{
    l.index() < mv.len() && mv[l.index()]
}

fn mark_dead_exec(state: &mut Vec<bool>, u: &Vec<Register>, mv: &Vec<bool>, r: &Register)
    requires
        old(state)@.len() == u@.len(),
        u@.len() <= u32::MAX,
    ensures
        final(state)@ == run(old(state)@, mark_dead(regs_view(u@), mv@, reg_view(*r))),
        final(state)@.len() == old(state)@.len(),
{
    if follows_exec(mv, r.owner) {
        scan(state, u, r, Scan::RaiseEqual);
    }
}

fn mark_live_exec(state: &mut Vec<bool>, u: &Vec<Register>, mv: &Vec<bool>, r: &Register)
    requires
        old(state)@.len() == u@.len(),
        u@.len() <= u32::MAX,
    ensures
        final(state)@ == run(old(state)@, mark_live(regs_view(u@), mv@, reg_view(*r))),
        final(state)@.len() == old(state)@.len(),
{
    if follows_exec(mv, r.owner) {
        scan(state, u, r, Scan::ClearExtending);
    }
}

fn storage_exec(state: &mut Vec<bool>, u: &Vec<Register>, mv: &Vec<bool>, l: Local)
    requires
        old(state)@.len() == u@.len(),
        u@.len() <= u32::MAX,
    ensures
        final(state)@ == run(old(state)@, storage(regs_view(u@), mv@, l)),
        final(state)@.len() == old(state)@.len(),
{
    if follows_exec(mv, l) {
        let whole = Register { owner: l, subregister: Vec::new() };
        assert(reg_view(whole) == (l, Seq::<SubRegisters>::empty()));
        let ghost s0 = state@;
        scan(state, u, &whole, Scan::ClearOwned);
        scan(state, u, &whole, Scan::RaiseEqual);
        proof {
            lemma_run_concat(s0, clear_owned(regs_view(u@), l, u@.len() as int), raise_equal(regs_view(u@), (l, Seq::<SubRegisters>::empty()), u@.len() as int));
        }
    }
}

fn apply_operand(state: &mut Vec<bool>, u: &Vec<Register>, mv: &Vec<bool>, op: &Operand)
    requires
        old(state)@.len() == u@.len(),
        u@.len() <= u32::MAX,
    ensures
        final(state)@ == run(old(state)@, move_ops(regs_view(u@), mv@, *op)),
        final(state)@.len() == old(state)@.len(),
{
    match op {
        Operand::Move(place) => {
            let r = register_of(place);
            mark_dead_exec(state, u, mv, &r);
        },
        _ => {},
    }
}

fn apply_operands(state: &mut Vec<bool>, u: &Vec<Register>, mv: &Vec<bool>, ops: &Vec<&Operand>)
    requires
        old(state)@.len() == u@.len(),
        u@.len() <= u32::MAX,
    ensures
        final(state)@ == run(old(state)@, moves_ops(regs_view(u@), mv@, ops@.map_values(|o: &Operand| *o))),
        final(state)@.len() == old(state)@.len(),
{
    let ghost all = ops@.map_values(|o: &Operand| *o);
    let ghost s0 = state@;
    let ghost uv = regs_view(u@);
    let mut i: usize = 0;
    while i < ops.len()
        invariant
            all == ops@.map_values(|o: &Operand| *o),
            uv == regs_view(u@),
            u@.len() <= u32::MAX,
            i <= ops@.len(),
            state@.len() == u@.len(),
            s0.len() == u@.len(),
            state@ == run(s0, moves_ops(uv, mv@, all.take(i as int))),
        decreases ops@.len() - i,
    {
        proof {
            assert(all.take(i + 1).drop_last() =~= all.take(i as int));
            assert(all.take(i + 1).last() == *ops@[i as int]);
            lemma_run_concat(s0, moves_ops(uv, mv@, all.take(i as int)), move_ops(uv, mv@, *ops@[i as int]));
        }
        apply_operand(state, u, mv, ops[i]);
        i = i + 1;
    }
    assert(all.take(ops@.len() as int) =~= all);
}

pub(crate) fn apply_statement(state: &mut Vec<bool>, u: &Vec<Register>, mv: &Vec<bool>, stmt: &Statement)
    requires
        old(state)@.len() == u@.len(),
        u@.len() <= u32::MAX,
    ensures
        final(state)@ == run(old(state)@, stmt_ops(regs_view(u@), mv@, *stmt)),
        final(state)@.len() == old(state)@.len(),
{
    match &stmt.kind {
        StatementKind::StorageLive(l) | StatementKind::StorageDead(l) => {
            storage_exec(state, u, mv, *l);
        },
        StatementKind::Assign(place, rvalue) => {
            let ghost s0 = state@;
            let ops = rvalue.operands();
            assert(ops@.map_values(|o: &Operand| *o) =~= rvalue_operands(*rvalue));
            apply_operands(state, u, mv, &ops);
            let r = register_of(place);
            mark_live_exec(state, u, mv, &r);
            proof {
                lemma_run_concat(s0, moves_ops(regs_view(u@), mv@, rvalue_operands(*rvalue)), mark_live(regs_view(u@), mv@, place_reg(*place)));
            }
        },
        _ => {},
    }
}

pub(crate) fn apply_terminator(state: &mut Vec<bool>, u: &Vec<Register>, mv: &Vec<bool>, terminator: &Terminator)
    requires
        old(state)@.len() == u@.len(),
        u@.len() <= u32::MAX,
    ensures
        final(state)@ == run(old(state)@, terminator_ops(regs_view(u@), mv@, terminator.kind)),
        final(state)@.len() == old(state)@.len(),
{
    match &terminator.kind {
        TerminatorKind::SwitchInt { discr, .. } => {
            apply_operand(state, u, mv, discr);
        },
        TerminatorKind::Assert { cond, .. } => {
            apply_operand(state, u, mv, cond);
        },
        TerminatorKind::Call { func, args, destination, .. } => {
            let ghost s0 = state@;
            let ghost uv = regs_view(u@);
            apply_operand(state, u, mv, func);
            let ghost s1 = state@;
            let mut refs: Vec<&Operand> = Vec::new();
            let mut i: usize = 0;
            while i < args.len()
                invariant
                    i <= args@.len(),
                    refs@.len() == i,
                    forall|j: int| 0 <= j < i ==> *refs@[j] == args@[j],
                decreases args@.len() - i,
            {
                refs.push(&args[i]);
                i = i + 1;
            }
            assert(refs@.map_values(|o: &Operand| *o) =~= args@);
            apply_operands(state, u, mv, &refs);
            let r = register_of(destination);
            mark_live_exec(state, u, mv, &r);
            proof {
                lemma_run_concat(s0, move_ops(uv, mv@, *func), moves_ops(uv, mv@, args@));
                lemma_run_concat(s0, move_ops(uv, mv@, *func) + moves_ops(uv, mv@, args@), mark_live(uv, mv@, place_reg(*destination)));
            }
        },
        TerminatorKind::Drop { place, .. } | TerminatorKind::DropIso { place, .. } => {
            let r = register_of(place);
            mark_dead_exec(state, u, mv, &r);
        },
        _ => {},
    }
}

fn apply_block(state: &mut Vec<bool>, u: &Vec<Register>, mv: &Vec<bool>, block: &BasicBlockData)
    requires
        old(state)@.len() == u@.len(),
        u@.len() <= u32::MAX,
    ensures
        final(state)@ == run(old(state)@, block_ops(regs_view(u@), mv@, *block)),
        final(state)@.len() == old(state)@.len(),
{
    let ghost s0 = state@;
    let ghost uv = regs_view(u@);
    let ghost stmts = block.statements@;
    let mut i: usize = 0;
    while i < block.statements.len()
        invariant
            stmts == block.statements@,
            uv == regs_view(u@),
            u@.len() <= u32::MAX,
            i <= stmts.len(),
            state@.len() == u@.len(),
            state@ == run(s0, stmts_ops(uv, mv@, stmts.take(i as int))),
        decreases stmts.len() - i,
    {
        proof {
            assert(stmts.take(i + 1).drop_last() =~= stmts.take(i as int));
            lemma_run_concat(s0, stmts_ops(uv, mv@, stmts.take(i as int)), stmt_ops(uv, mv@, stmts[i as int]));
        }
        apply_statement(state, u, mv, &block.statements[i]);
        i = i + 1;
    }
    assert(stmts.take(stmts.len() as int) =~= stmts);
    apply_terminator(state, u, mv, &block.terminator);
    proof {
        lemma_run_concat(s0, stmts_ops(uv, mv@, stmts), terminator_ops(uv, mv@, block.terminator.kind));
    }
}

pub(crate) fn block_transfer(u: &Vec<Register>, mv: &Vec<bool>, block: &BasicBlockData) -> (t: Transfer)
    requires
        u@.len() <= u32::MAX,
    ensures
        t.gen@ == run(Seq::new(u@.len(), |i: int| false), block_ops(regs_view(u@), mv@, *block)),
        t.kill@ == Seq::new(u@.len(), |i: int| !run(Seq::new(u@.len(), |j: int| true), block_ops(regs_view(u@), mv@, *block))[i]),
{
    let width = u.len();
    let mut gen: Vec<bool> = Vec::new();
    let mut keep: Vec<bool> = Vec::new();
    let mut i: usize = 0;
    while i < width
        invariant
            i <= width,
            gen@ == Seq::new(i as nat, |j: int| false),
            keep@ == Seq::new(i as nat, |j: int| true),
        decreases width - i,
    {
        gen.push(false);
        keep.push(true);
        i = i + 1;
        assert(gen@ =~= Seq::new(i as nat, |j: int| false));
        assert(keep@ =~= Seq::new(i as nat, |j: int| true));
    }
    apply_block(&mut gen, u, mv, block);
    apply_block(&mut keep, u, mv, block);
    let mut kill: Vec<bool> = Vec::new();
    let mut k: usize = 0;
    while k < width
        invariant
            k <= width,
            keep@.len() == width,
            kill@ == Seq::new(k as nat, |j: int| !keep@[j]),
        decreases width - k,
    {
        kill.push(!keep[k]);
        k = k + 1;
        assert(kill@ =~= Seq::new(k as nat, |j: int| !keep@[j]));
    }
    Transfer { gen, kill }
}

// ---------------------------------------------------------------------------------------------
// The dataflow problem and the reports
// ---------------------------------------------------------------------------------------------

/// The locals the check follows: named locals whose type is moved rather than copied.
pub open spec fn movable_of(tcx: TyCtx, body: Body) -> Seq<bool> {
    Seq::new(
        body.local_decls@.len(),
        |i: int| body.local_decls@[i].name is Some && !copy_within(tcx.kinds_view(), body.local_decls@[i].ty.0 as int),
    )
}

/// The dataflow problem of `body`: union over predecessors, nothing dead on entry, each block
/// summarized by the gen/kill pair of its ops over the universe.
pub open spec fn di_problem(tcx: TyCtx, body: Body) -> Problem {
    let nb = body.basic_blocks@.len();
    let u = universe_of(body);
    let mv = movable_of(tcx, body);
    Problem {
        preds: Seq::new(nb, |b: int| crate::mir::body::preds_among(body.basic_blocks@, nb as int, crate::mir::ids::BasicBlock(b as u32))),
        width: u.len(),
        meet: Meet::Union,
        init: Seq::new(u.len(), |i: int| false),
        gens: Seq::new(nb, |b: int| run(Seq::new(u.len(), |i: int| false), block_ops(u, mv, body.basic_blocks@[b]))),
        kills: Seq::new(nb, |b: int| Seq::new(u.len(), |i: int| !run(Seq::new(u.len(), |j: int| true), block_ops(u, mv, body.basic_blocks@[b]))[i])),
    }
}

/// What the check needs of a body: a control-flow graph that stays inside it, a universe that
/// fits its `u32` indices, locals whose types `tcx` holds, and names `session` knows.
pub open spec fn di_checkable(session: Session, tcx: TyCtx, body: Body) -> bool {
    &&& tcx.wf()
    &&& body.basic_blocks@.len() > 0
    &&& body.targets_in_range()
    &&& edge_count(body.basic_blocks@, body.basic_blocks@.len() as int) < usize::MAX
    &&& universe_of(body).len() <= u32::MAX
    &&& forall|i: int| 0 <= i < body.local_decls@.len() ==> tcx.has(#[trigger] body.local_decls@[i].ty)
    &&& forall|i: int| 0 <= i < body.local_decls@.len() ==> ((#[trigger] body.local_decls@[i]).name matches Some(nm) ==> session.has(nm.text))
}

/// Whether register `r` is dead in state `s`: a dead member of the universe is `r`, lies above
/// it or lies under it.
pub open spec fn is_dead(u: Seq<(Local, Seq<SubRegisters>)>, mv: Seq<bool>, s: Seq<bool>, r: (Local, Seq<SubRegisters>)) -> bool {
    &&& follows(mv, r.0)
    &&& exists|k: int|
        0 <= k < u.len() && #[trigger] s[k] && u[k].0 == r.0 && (is_prefix(u[k].1, r.1) || is_prefix(r.1, u[k].1))
}

pub open spec fn moved_message(name: Seq<char>) -> Seq<char> {
    "use of moved value `"@ + name + "`"@
}

/// The context a walk reads: the session, the body, the universe and the followed locals.
pub struct Ctx {
    pub session: Session,
    pub body: Body,
    pub u: Seq<(Local, Seq<SubRegisters>)>,
    pub mv: Seq<bool>,
}

pub open spec fn read_report(c: Ctx, s: Seq<bool>, place: Place, span: SrcSpan) -> Seq<(Seq<char>, SrcSpan)> {
    if is_dead(c.u, c.mv, s, place_reg(place)) {
        seq![(moved_message(c.session.text(c.body.local_decls@[place.local.0 as int].name.unwrap().text)), span)]
    } else {
        Seq::empty()
    }
}

pub open spec fn walk_operand(c: Ctx, s: Seq<bool>, op: Operand, span: SrcSpan) -> (Seq<(Seq<char>, SrcSpan)>, Seq<bool>) {
    match op {
        Operand::Copy(place) => (read_report(c, s, place, span), s),
        Operand::Move(place) => (read_report(c, s, place, span), run(s, move_ops(c.u, c.mv, op))),
        Operand::Constant(_) => (Seq::empty(), s),
    }
}

pub open spec fn walk_operands(c: Ctx, s: Seq<bool>, ops: Seq<Operand>, span: SrcSpan) -> (Seq<(Seq<char>, SrcSpan)>, Seq<bool>)
    decreases ops.len(),
{
    if ops.len() == 0 {
        (Seq::empty(), s)
    } else {
        let (r, s1) = walk_operands(c, s, ops.drop_last(), span);
        let (r2, s2) = walk_operand(c, s1, ops.last(), span);
        (r + r2, s2)
    }
}

pub open spec fn walk_rvalue(c: Ctx, s: Seq<bool>, rv: Rvalue, span: SrcSpan) -> (Seq<(Seq<char>, SrcSpan)>, Seq<bool>) {
    match rv {
        Rvalue::Ref { place, .. } => (read_report(c, s, place, span), s),
        Rvalue::Discriminant(place) => (read_report(c, s, place, span), s),
        Rvalue::Len(place) => (read_report(c, s, place, span), s),
        _ => walk_operands(c, s, rvalue_operands(rv), span),
    }
}

/// Borrowing, inspecting the discriminant of, or measuring the length of a place reads it just
/// as copying it does: the same `use of moved value` report when the place is dead, none when
/// it is live, and the state left unchanged.
pub proof fn law_place_reads_report_like_copies(c: Ctx, s: Seq<bool>, m: crate::ast::Mutability, p: Place, span: SrcSpan)
    ensures
        walk_rvalue(c, s, Rvalue::Ref { mutability: m, place: p }, span) == walk_rvalue(c, s, Rvalue::Use(Operand::Copy(p)), span),
        walk_rvalue(c, s, Rvalue::Discriminant(p), span) == walk_rvalue(c, s, Rvalue::Use(Operand::Copy(p)), span),
        walk_rvalue(c, s, Rvalue::Len(p), span) == walk_rvalue(c, s, Rvalue::Use(Operand::Copy(p)), span),
        walk_rvalue(c, s, Rvalue::Ref { mutability: m, place: p }, span).1 == s,
        is_dead(c.u, c.mv, s, place_reg(p)) ==> walk_rvalue(c, s, Rvalue::Ref { mutability: m, place: p }, span).0 == seq![
            (moved_message(c.session.text(c.body.local_decls@[p.local.0 as int].name.unwrap().text)), span),
        ],
        !is_dead(c.u, c.mv, s, place_reg(p)) ==> walk_rvalue(c, s, Rvalue::Ref { mutability: m, place: p }, span).0.len() == 0,
{
    let ops = rvalue_operands(Rvalue::Use(Operand::Copy(p)));
    assert(ops =~= seq![Operand::Copy(p)]);
    assert(ops.drop_last() =~= Seq::<Operand>::empty());
    assert(walk_operands(c, s, ops.drop_last(), span) == (Seq::<(Seq<char>, SrcSpan)>::empty(), s));
    let r = read_report(c, s, p, span);
    assert(Seq::<(Seq<char>, SrcSpan)>::empty() + r =~= r);
}

pub open spec fn walk_step(c: Ctx, s: Seq<bool>, st: Statement) -> (Seq<(Seq<char>, SrcSpan)>, Seq<bool>) {
    match st.kind {
        StatementKind::Assign(place, rv) => {
            let (r, s1) = walk_rvalue(c, s, rv, st.span);
            (r, run(s1, mark_live(c.u, c.mv, place_reg(place))))
        },
        StatementKind::PlaceMention(place) => (read_report(c, s, place, st.span), s),
        _ => (Seq::empty(), run(s, stmt_ops(c.u, c.mv, st))),
    }
}

/// Mentioning a place (as a `match` on it does) reads it just as copying it does, and changes
/// nothing.
pub proof fn law_place_mention_reports_like_copy(c: Ctx, s: Seq<bool>, st: Statement, p: Place)
    requires
        st.kind == StatementKind::PlaceMention(p),
    ensures
        walk_step(c, s, st) == walk_rvalue(c, s, Rvalue::Use(Operand::Copy(p)), st.span),
{
    law_place_reads_report_like_copies(c, s, crate::ast::Mutability::Immutable, p, st.span);
}

pub open spec fn walk(c: Ctx, s: Seq<bool>, stmts: Seq<Statement>) -> (Seq<(Seq<char>, SrcSpan)>, Seq<bool>)
    decreases stmts.len(),
{
    if stmts.len() == 0 {
        (Seq::empty(), s)
    } else {
        let (r, s1) = walk(c, s, stmts.drop_last());
        let (r2, s2) = walk_step(c, s1, stmts.last());
        (r + r2, s2)
    }
}

/// The reports of a terminator's reads from state `s`.
pub open spec fn terminator_reports(c: Ctx, s: Seq<bool>, t: Terminator) -> Seq<(Seq<char>, SrcSpan)> {
    match t.kind {
        TerminatorKind::SwitchInt { discr, .. } => walk_operand(c, s, discr, t.span).0,
        TerminatorKind::Assert { cond, .. } => walk_operand(c, s, cond, t.span).0,
        TerminatorKind::Call { func, args, .. } => {
            let (r, s1) = walk_operand(c, s, func, t.span);
            r + walk_operands(c, s1, args@, t.span).0
        },
        _ => Seq::empty(),
    }
}

/// The reports of one block walked from state `s`: its statements, then its terminator.
pub open spec fn block_reports(c: Ctx, s: Seq<bool>, block: BasicBlockData) -> Seq<(Seq<char>, SrcSpan)> {
    let (r, s1) = walk(c, s, block.statements@);
    r + terminator_reports(c, s1, block.terminator)
}

pub open spec fn blocks_reports(c: Ctx, entries: Seq<Seq<bool>>, m: int) -> Seq<(Seq<char>, SrcSpan)>
    decreases m,
{
    if m <= 0 {
        Seq::empty()
    } else {
        blocks_reports(c, entries, m - 1) + block_reports(c, entries[m - 1], c.body.basic_blocks@[m - 1])
    }
}

pub open spec fn ctx_of(session: Session, tcx: TyCtx, body: Body) -> Ctx {
    Ctx { session, body, u: universe_of(body), mv: movable_of(tcx, body) }
}

/// Everything the check reports of `body`, given the exit state of each block.
pub open spec fn expected_reports(session: Session, tcx: TyCtx, body: Body, exits: Seq<Seq<bool>>) -> Seq<(Seq<char>, SrcSpan)> {
    let p = di_problem(tcx, body);
    let entries = Seq::new(body.basic_blocks@.len(), |b: int| p.entry_of(exits, b));
    blocks_reports(ctx_of(session, tcx, body), entries, body.basic_blocks@.len() as int)
}

/// The diagnostics of `body` are those its least dataflow solution gives.
pub open spec fn body_reports(session: Session, tcx: TyCtx, body: Body, diags: Seq<Diagnostic>) -> bool {
    exists|exits: Seq<Seq<bool>>| #[trigger] di_problem(tcx, body).least(exits) && matches_reports(diags, expected_reports(session, tcx, body, exits))
}

// ---------------------------------------------------------------------------------------------
// The check
// ---------------------------------------------------------------------------------------------

fn report_use_of_moved_value(session: &Session, name: Ident, span: SrcSpan) -> (d: Diagnostic)
    requires
        session.has(name.text),
    ensures
        d.message@ == moved_message(session.text(name.text)),
        d.span == span,
{
    let message = concat3("use of moved value `", session.resolve(name.text), "`");
    proof {
        reveal_strlit("use of moved value `");
        reveal_strlit("`");
    }
    Diagnostic::error(message, span)
}

fn is_dead_exec(state: &Vec<bool>, u: &Vec<Register>, mv: &Vec<bool>, r: &Register) -> (d: bool)
    requires
        state@.len() == u@.len(),
    ensures
        d == is_dead(regs_view(u@), mv@, state@, reg_view(*r)),
{
    let ghost uv = regs_view(u@);
    if !follows_exec(mv, r.owner) {
        return false;
    }
    let mut k: usize = 0;
    while k < u.len()
        invariant
            follows(mv@, reg_view(*r).0),
            uv == regs_view(u@),
            state@.len() == u@.len(),
            k <= u@.len(),
            forall|j: int|
                0 <= j < k ==> !(#[trigger] state@[j] && uv[j].0 == reg_view(*r).0 && (is_prefix(uv[j].1, reg_view(*r).1)
                    || is_prefix(reg_view(*r).1, uv[j].1))),
        decreases u@.len() - k,
    {
        assert(uv[k as int] == reg_view(u@[k as int]));
        if state[k] && u[k].owner == r.owner && (prefix_of(&u[k].subregister, &r.subregister) || prefix_of(&r.subregister, &u[k].subregister)) {
            assert(state@[k as int] && uv[k as int].0 == reg_view(*r).0 && (is_prefix(uv[k as int].1, reg_view(*r).1) || is_prefix(
                reg_view(*r).1,
                uv[k as int].1,
            )));
            assert(follows(mv@, reg_view(*r).0));
            assert(exists|j: int|
                0 <= j < uv.len() && #[trigger] state@[j] && uv[j].0 == reg_view(*r).0 && (is_prefix(uv[j].1, reg_view(*r).1)
                    || is_prefix(reg_view(*r).1, uv[j].1)));
            return true;
        }
        k = k + 1;
    }
    false
}

/// The facts every walking function relies on: the universe and the followed locals are those
/// of `body`, and the state covers the universe.
pub open spec fn walking(session: Session, tcx: TyCtx, body: Body, u: Seq<Register>, mv: Seq<bool>) -> bool {
    &&& di_checkable(session, tcx, body)
    &&& regs_view(u) == universe_of(body)
    &&& mv == movable_of(tcx, body)
}

fn check_read(session: &Session, tcx: &TyCtx, body: &Body, u: &Vec<Register>, mv: &Vec<bool>, state: &Vec<bool>, place: &Place, span: SrcSpan, out: &mut Vec<Diagnostic>)
    requires
        walking(*session, *tcx, *body, u@, mv@),
        state@.len() == u@.len(),
    ensures
        matches_reports(final(out)@.skip(old(out)@.len() as int), read_report(ctx_of(*session, *tcx, *body), state@, *place, span)),
        final(out)@.take(old(out)@.len() as int) == old(out)@,
        final(out)@.len() >= old(out)@.len(),
{
    let ghost start = out@;
    let r = register_of(place);
    if is_dead_exec(state, u, mv, &r) {
        assert(follows(mv@, place.local));
        let name = body.local_decls[place.local.index()].name.unwrap();
        assert(session.has(name.text));
        out.push(report_use_of_moved_value(session, name, span));
        assert(out@.skip(start.len() as int) =~= seq![out@[start.len() as int]]);
    }
    assert(out@.take(start.len() as int) =~= start);
}

fn check_operand(session: &Session, tcx: &TyCtx, body: &Body, u: &Vec<Register>, mv: &Vec<bool>, state: &mut Vec<bool>, op: &Operand, span: SrcSpan, out: &mut Vec<Diagnostic>)
    requires
        walking(*session, *tcx, *body, u@, mv@),
        old(state)@.len() == u@.len(),
    ensures
        final(state)@ == walk_operand(ctx_of(*session, *tcx, *body), old(state)@, *op, span).1,
        final(state)@.len() == old(state)@.len(),
        matches_reports(final(out)@.skip(old(out)@.len() as int), walk_operand(ctx_of(*session, *tcx, *body), old(state)@, *op, span).0),
        final(out)@.take(old(out)@.len() as int) == old(out)@,
        final(out)@.len() >= old(out)@.len(),
{
    match op {
        Operand::Copy(place) => {
            check_read(session, tcx, body, u, mv, state, place, span, out);
        },
        Operand::Move(place) => {
            check_read(session, tcx, body, u, mv, state, place, span, out);
            apply_operand(state, u, mv, op);
        },
        Operand::Constant(_) => {
            assert(out@.skip(out@.len() as int) =~= Seq::<Diagnostic>::empty());
            assert(out@.take(out@.len() as int) =~= out@);
        },
    }
}

fn check_operands(session: &Session, tcx: &TyCtx, body: &Body, u: &Vec<Register>, mv: &Vec<bool>, state: &mut Vec<bool>, ops: &Vec<&Operand>, span: SrcSpan, out: &mut Vec<Diagnostic>)
    requires
        walking(*session, *tcx, *body, u@, mv@),
        old(state)@.len() == u@.len(),
    ensures
        final(state)@ == walk_operands(ctx_of(*session, *tcx, *body), old(state)@, ops@.map_values(|o: &Operand| *o), span).1,
        final(state)@.len() == old(state)@.len(),
        matches_reports(
            final(out)@.skip(old(out)@.len() as int),
            walk_operands(ctx_of(*session, *tcx, *body), old(state)@, ops@.map_values(|o: &Operand| *o), span).0,
        ),
        final(out)@.take(old(out)@.len() as int) == old(out)@,
        final(out)@.len() >= old(out)@.len(),
{
    let ghost c = ctx_of(*session, *tcx, *body);
    let ghost all = ops@.map_values(|o: &Operand| *o);
    let ghost s0 = state@;
    let ghost start = out@;
    let mut i: usize = 0;
    while i < ops.len()
        invariant
            walking(*session, *tcx, *body, u@, mv@),
            c == ctx_of(*session, *tcx, *body),
            all == ops@.map_values(|o: &Operand| *o),
            i <= ops@.len(),
            state@.len() == u@.len(),
            state@ == walk_operands(c, s0, all.take(i as int), span).1,
            out@.len() >= start.len(),
            out@.take(start.len() as int) == start,
            matches_reports(out@.skip(start.len() as int), walk_operands(c, s0, all.take(i as int), span).0),
        decreases ops@.len() - i,
    {
        let ghost before = out@;
        proof {
            assert(all.take(i + 1).drop_last() =~= all.take(i as int));
            assert(all.take(i + 1).last() == *ops@[i as int]);
        }
        check_operand(session, tcx, body, u, mv, state, ops[i], span, out);
        proof {
            lemma_append_runs(start, before, out@);
            lemma_matches_concat(
                before.skip(start.len() as int),
                walk_operands(c, s0, all.take(i as int), span).0,
                out@.skip(before.len() as int),
                walk_operand(c, walk_operands(c, s0, all.take(i as int), span).1, *ops@[i as int], span).0,
            );
        }
        i = i + 1;
    }
    assert(all.take(ops@.len() as int) =~= all);
}

fn check_statement(session: &Session, tcx: &TyCtx, body: &Body, u: &Vec<Register>, mv: &Vec<bool>, state: &mut Vec<bool>, stmt: &Statement, out: &mut Vec<Diagnostic>)
    requires
        walking(*session, *tcx, *body, u@, mv@),
        old(state)@.len() == u@.len(),
    ensures
        final(state)@ == walk_step(ctx_of(*session, *tcx, *body), old(state)@, *stmt).1,
        final(state)@.len() == old(state)@.len(),
        matches_reports(final(out)@.skip(old(out)@.len() as int), walk_step(ctx_of(*session, *tcx, *body), old(state)@, *stmt).0),
        final(out)@.take(old(out)@.len() as int) == old(out)@,
        final(out)@.len() >= old(out)@.len(),
{
    let ghost start = out@;
    match &stmt.kind {
        StatementKind::Assign(place, rvalue) => {
            match rvalue {
                Rvalue::Ref { place: read, .. } | Rvalue::Discriminant(read) | Rvalue::Len(read) => {
                    check_read(session, tcx, body, u, mv, state, read, stmt.span, out);
                },
                _ => {
                    let ops = rvalue.operands();
                    assert(ops@.map_values(|o: &Operand| *o) =~= rvalue_operands(*rvalue));
                    check_operands(session, tcx, body, u, mv, state, &ops, stmt.span, out);
                },
            }
            let r = register_of(place);
            mark_live_exec(state, u, mv, &r);
        },
        StatementKind::PlaceMention(place) => {
            check_read(session, tcx, body, u, mv, state, place, stmt.span, out);
        },
        _ => {
            apply_statement(state, u, mv, stmt);
            assert(out@.skip(start.len() as int) =~= Seq::<Diagnostic>::empty());
            assert(out@.take(start.len() as int) =~= start);
        },
    }
}

fn check_terminator(session: &Session, tcx: &TyCtx, body: &Body, u: &Vec<Register>, mv: &Vec<bool>, state: &mut Vec<bool>, terminator: &Terminator, out: &mut Vec<Diagnostic>)
    requires
        walking(*session, *tcx, *body, u@, mv@),
        old(state)@.len() == u@.len(),
    ensures
        matches_reports(final(out)@.skip(old(out)@.len() as int), terminator_reports(ctx_of(*session, *tcx, *body), old(state)@, *terminator)),
        final(out)@.take(old(out)@.len() as int) == old(out)@,
        final(out)@.len() >= old(out)@.len(),
{
    let ghost start = out@;
    let ghost c = ctx_of(*session, *tcx, *body);
    let ghost s0 = state@;
    match &terminator.kind {
        TerminatorKind::SwitchInt { discr, .. } => {
            check_operand(session, tcx, body, u, mv, state, discr, terminator.span, out);
        },
        TerminatorKind::Assert { cond, .. } => {
            check_operand(session, tcx, body, u, mv, state, cond, terminator.span, out);
        },
        TerminatorKind::Call { func, args, destination, .. } => {
            check_operand(session, tcx, body, u, mv, state, func, terminator.span, out);
            let ghost mid = out@;
            let mut refs: Vec<&Operand> = Vec::new();
            let mut i: usize = 0;
            while i < args.len()
                invariant
                    i <= args@.len(),
                    refs@.len() == i,
                    forall|j: int| 0 <= j < i ==> *refs@[j] == args@[j],
                decreases args@.len() - i,
            {
                refs.push(&args[i]);
                i = i + 1;
            }
            assert(refs@.map_values(|o: &Operand| *o) =~= args@);
            check_operands(session, tcx, body, u, mv, state, &refs, terminator.span, out);
            let r = register_of(destination);
            mark_live_exec(state, u, mv, &r);
            proof {
                lemma_append_runs(start, mid, out@);
                lemma_matches_concat(
                    mid.skip(start.len() as int),
                    walk_operand(c, s0, *func, terminator.span).0,
                    out@.skip(mid.len() as int),
                    walk_operands(c, walk_operand(c, s0, *func, terminator.span).1, args@, terminator.span).0,
                );
            }
        },
        _ => {
            assert(out@.skip(start.len() as int) =~= Seq::<Diagnostic>::empty());
            assert(out@.take(start.len() as int) =~= start);
        },
    }
}

/// Walks every block from its entry state in `lattice`, appending the reports of reads of dead
/// registers.
fn report_blocks(session: &Session, tcx: &TyCtx, body: &Body, u: &Vec<Register>, mv: &Vec<bool>, lattice: &Lattice<Vec<bool>>, out: &mut Vec<Diagnostic>)
    requires
        walking(*session, *tcx, *body, u@, mv@),
        crate::mir::checks::lattice::covers(*lattice, body.basic_blocks@.len(), u@.len()),
    ensures
        matches_reports(
            final(out)@.skip(old(out)@.len() as int),
            blocks_reports(ctx_of(*session, *tcx, *body), entries_view(*lattice, body.basic_blocks@.len()), body.basic_blocks@.len() as int),
        ),
        final(out)@.take(old(out)@.len() as int) == old(out)@,
        final(out)@.len() >= old(out)@.len(),
{
    let ghost c = ctx_of(*session, *tcx, *body);
    let ghost start = out@;
    let ghost nb = body.basic_blocks@.len();
    let ghost entries = entries_view(*lattice, nb);
    let mut b: usize = 0;
    while b < body.basic_blocks.len()
        invariant
            walking(*session, *tcx, *body, u@, mv@),
            c == ctx_of(*session, *tcx, *body),
            nb == body.basic_blocks@.len(),
            entries == entries_view(*lattice, nb),
            crate::mir::checks::lattice::covers(*lattice, nb, u@.len()),
            b <= nb,
            out@.len() >= start.len(),
            out@.take(start.len() as int) == start,
            matches_reports(out@.skip(start.len() as int), blocks_reports(c, entries, b as int)),
        decreases nb - b,
    {
        assert(lattice.entry@.dom().contains(b as u32) && lattice.entry@[b as u32]@.len() == u@.len());
        let entry = lattice.entry(crate::mir::ids::BasicBlock(b as u32));
        let mut state = copy_bits(entry.unwrap());
        assert(state@ == entries[b as int]);
        let block = &body.basic_blocks[b];
        let ghost at_block = out@;
        let ghost s_b = entries[b as int];
        let mut i: usize = 0;
        while i < block.statements.len()
            invariant
                walking(*session, *tcx, *body, u@, mv@),
                c == ctx_of(*session, *tcx, *body),
                *block == body.basic_blocks@[b as int],
                i <= block.statements@.len(),
                state@ == walk(c, s_b, block.statements@.take(i as int)).1,
                state@.len() == u@.len(),
                out@.len() >= at_block.len(),
                out@.take(at_block.len() as int) == at_block,
                matches_reports(out@.skip(at_block.len() as int), walk(c, s_b, block.statements@.take(i as int)).0),
            decreases block.statements@.len() - i,
        {
            let ghost before = out@;
            proof {
                assert(block.statements@.take(i + 1).drop_last() =~= block.statements@.take(i as int));
                assert(block.statements@.take(i + 1).last() == block.statements@[i as int]);
            }
            check_statement(session, tcx, body, u, mv, &mut state, &block.statements[i], out);
            proof {
                lemma_append_runs(at_block, before, out@);
                lemma_matches_concat(
                    before.skip(at_block.len() as int),
                    walk(c, s_b, block.statements@.take(i as int)).0,
                    out@.skip(before.len() as int),
                    walk_step(c, walk(c, s_b, block.statements@.take(i as int)).1, block.statements@[i as int]).0,
                );
            }
            i = i + 1;
        }
        assert(block.statements@.take(block.statements@.len() as int) =~= block.statements@);
        let ghost mid = out@;
        check_terminator(session, tcx, body, u, mv, &mut state, &block.terminator, out);
        proof {
            lemma_append_runs(at_block, mid, out@);
            lemma_matches_concat(
                mid.skip(at_block.len() as int),
                walk(c, s_b, block.statements@).0,
                out@.skip(mid.len() as int),
                terminator_reports(c, walk(c, s_b, block.statements@).1, block.terminator),
            );
            lemma_append_runs(start, at_block, out@);
            lemma_matches_concat(
                at_block.skip(start.len() as int),
                blocks_reports(c, entries, b as int),
                out@.skip(at_block.len() as int),
                block_reports(c, s_b, *block),
            );
        }
        b = b + 1;
    }
}

/// Checks one body, appending a report for each read of a value that may have been moved out.
pub fn check_body(session: &Session, tcx: &TyCtx, body: &Body, out: &mut Vec<Diagnostic>)
    requires
        di_checkable(*session, *tcx, *body),
    ensures
        body_reports(*session, *tcx, *body, final(out)@.skip(old(out)@.len() as int)),
        final(out)@.take(old(out)@.len() as int) == old(out)@,
        final(out)@.len() >= old(out)@.len(),
{
    let ghost nb = body.basic_blocks@.len();
    let u = universe(body);
    let width = u.len();
    let n = body.local_decls.len();
    let mut mv: Vec<bool> = Vec::new();
    let mut i: usize = 0;
    while i < n
        invariant
            di_checkable(*session, *tcx, *body),
            n == body.local_decls@.len(),
            i <= n,
            mv@ == movable_of(*tcx, *body).take(i as int),
        decreases n - i,
    {
        let decl = &body.local_decls[i];
        assert(tcx.has(body.local_decls@[i as int].ty));
        let m = decl.name.is_some() && !tcx.trivially_copyable(decl.ty);
        mv.push(m);
        i = i + 1;
        assert(mv@ =~= movable_of(*tcx, *body).take(i as int));
    }
    assert(mv@ =~= movable_of(*tcx, *body));
    let mut init: Vec<bool> = Vec::new();
    let mut k: usize = 0;
    while k < width
        invariant
            k <= width,
            init@ == Seq::new(k as nat, |j: int| false),
        decreases width - k,
    {
        init.push(false);
        k = k + 1;
        assert(init@ =~= Seq::new(k as nat, |j: int| false));
    }
    let ghost p = di_problem(*tcx, *body);
    let mut transfers: Vec<Transfer> = Vec::new();
    let mut b: usize = 0;
    while b < body.basic_blocks.len()
        invariant
            di_checkable(*session, *tcx, *body),
            regs_view(u@) == universe_of(*body),
            width == u@.len(),
            mv@ == movable_of(*tcx, *body),
            p == di_problem(*tcx, *body),
            b <= body.basic_blocks@.len(),
            transfers@.len() == b,
            forall|c: int| 0 <= c < b ==> (#[trigger] transfers@[c]).gen@ == p.gens[c] && transfers@[c].kill@ == p.kills[c],
        decreases body.basic_blocks@.len() - b,
    {
        let t = block_transfer(&u, &mv, &body.basic_blocks[b]);
        transfers.push(t);
        b = b + 1;
    }
    proof {
        let q = problem_of(*body, width as nat, Meet::Union, init@, transfers@);
        assert(q.gens =~= p.gens);
        assert(q.kills =~= p.kills);
        assert(q.preds =~= p.preds);
        assert(q.init =~= p.init);
        assert(q == p);
        assert forall|c: int| 0 <= c < transfers@.len() implies (#[trigger] transfers@[c]).gen@.len() == width && transfers@[c].kill@.len() == width by {
            lemma_run_len(Seq::new(width as nat, |j: int| false), block_ops(universe_of(*body), movable_of(*tcx, *body), body.basic_blocks@[c]));
        }
    }
    let lattice = solve(body, width, &init, &transfers, Meet::Union);
    let ghost exits = exits_view(lattice, nb);
    proof {
        assert(p.least(exits));
        assert forall|c: int| 0 <= c < nb implies #[trigger] lattice.entry@.dom().contains(c as u32) && lattice.exit@.dom().contains(c as u32)
            && lattice.entry@[c as u32]@.len() == width && lattice.exit@[c as u32]@.len() == width by {
            assert(lattice.entry@.dom().contains(c as u32));
            assert(entries_view(lattice, nb)[c] == p.entry_of(exits, c));
            crate::mir::checks::lattice::lemma_entry_len(p, exits, c);
            assert(exits[c] == lattice.exit@[c as u32]@);
        }
        assert(crate::mir::checks::lattice::covers(lattice, nb, width as nat));
        assert(entries_view(lattice, nb) =~= Seq::new(nb, |c: int| p.entry_of(exits, c)));
    }
    let ghost start = out@;
    report_blocks(session, tcx, body, &u, &mv, &lattice, out);
    proof {
        assert(matches_reports(out@.skip(start.len() as int), expected_reports(*session, *tcx, *body, exits)));
    }
}

/// The reports of every body of a program, body by body.
pub open spec fn program_reports(session: Session, tcx: TyCtx, bodies: Seq<Body>, diags: Seq<Diagnostic>) -> bool
    decreases bodies.len(),
{
    if bodies.len() == 0 {
        diags.len() == 0
    } else {
        exists|split: int|
            0 <= split <= diags.len() && program_reports(session, tcx, bodies.drop_last(), diags.take(split))
                && #[trigger] body_reports(session, tcx, bodies.last(), diags.skip(split))
    }
}

/// Checks every body of `mir`, in order.
pub fn check(session: &Session, tcx: &TyCtx, mir: &Mir) -> (diags: Vec<Diagnostic>)
    requires
        forall|k: int| 0 <= k < mir.bodies@.len() ==> di_checkable(*session, *tcx, #[trigger] mir.bodies@[k].1),
    ensures
        program_reports(*session, *tcx, crate::mir::constck::program_bodies(*mir), diags@),
{
    let ghost bodies = crate::mir::constck::program_bodies(*mir);
    let mut out: Vec<Diagnostic> = Vec::new();
    let mut k: usize = 0;
    while k < mir.bodies.len()
        invariant
            forall|j: int| 0 <= j < mir.bodies@.len() ==> di_checkable(*session, *tcx, #[trigger] mir.bodies@[j].1),
            bodies == crate::mir::constck::program_bodies(*mir),
            k <= mir.bodies@.len(),
            program_reports(*session, *tcx, bodies.take(k as int), out@),
        decreases mir.bodies@.len() - k,
    {
        let ghost before = out@;
        check_body(session, tcx, &mir.bodies[k].1, &mut out);
        proof {
            let bs = bodies.take(k + 1);
            assert(bs.drop_last() =~= bodies.take(k as int));
            assert(bs.last() == mir.bodies@[k as int].1);
            assert(out@.take(before.len() as int) == before);
            assert(body_reports(*session, *tcx, bs.last(), out@.skip(before.len() as int)));
        }
        k = k + 1;
    }
    assert(bodies.take(mir.bodies@.len() as int) =~= bodies);
    out
}

} // verus!
