//! How long each borrow of a body lives.
//!
//! Every `&` or `&mut` assignment gives birth to an alias. A forward analysis follows which
//! alias each register holds: a borrow is held by the register it is assigned to, a copy
//! shares it, a move hands it over, and anything else written to the register lets it go.
//! A backward analysis then finds, at each point, the aliases some later use still reads
//! through. An alias lent by a `with` block lives as long as some register holds it; any
//! other lives from its birth to its last use.
//!
//! The registers that can hold an alias are the targets of the body's assignments, taken once
//! each in body order; a held state gives each of them the index of the alias it holds, if
//! any. Aliases are numbered in body order of their births.

use vstd::prelude::*;
use crate::ast::{Mutability, SrcSpan};
use crate::mir::body::{block_successors, edge_count, preds_among, BasicBlockData, Body};
use crate::mir::checks::lattice::{
    bits_view, clear_bit, copy_bits, lemma_pred_is_edge, lemma_run_concat, lemma_run_len, lists_view, meet_states, problem_over, run, set_bit,
    solve_rounds, BitOp, Meet, Problem, Transfer,
};
use crate::mir::checks::borrowck::{copy_register, place_reg, reg_eq, reg_view, regs_view, register_of, Register, SubRegisters};
use crate::mir::ids::{Local, StatementId};
use crate::mir::ids::BasicBlock;
use crate::mir::operand::Operand;
use crate::mir::place::{contains_deref, has_deref, Place, Projection};
use crate::mir::rvalue::{rvalue_operands, Rvalue};
use crate::mir::statement::{Statement, StatementKind};
use crate::mir::terminator::{terminator_operands, TerminatorKind};

verus! {

/// One borrow of a body, named by the statement that creates it.
#[derive(Clone, Debug)]
pub struct Alias {
    pub id: StatementId,
    /// Every register that holds this alias at some point, each once.
    pub attached: Vec<Register>,
    /// The register whose memory the alias points into.
    pub borrows: Register,
    pub kind: Mutability,
    /// Whether a `with` block lends it, which makes it live as long as it is held.
    pub with_lend: bool,
    /// Where the borrow is written.
    pub span: SrcSpan,
}

// ---------------------------------------------------------------------------------------------
// Births
// ---------------------------------------------------------------------------------------------

/// Whether `s` creates an alias: it assigns a borrow.
pub open spec fn is_birth(s: Statement) -> bool {
    s.kind matches StatementKind::Assign(_, Rvalue::Ref { .. })
}

/// The number of births among `stmts`.
pub open spec fn births_in(stmts: Seq<Statement>) -> nat
    decreases stmts.len(),
{
    if stmts.len() == 0 {
        0
    } else {
        births_in(stmts.drop_last()) + if is_birth(stmts.last()) { 1nat } else { 0nat }
    }
}

/// The number of births in the first `m` blocks.
pub open spec fn births_before(blocks: Seq<BasicBlockData>, m: int) -> nat
    decreases m,
{
    if m <= 0 {
        0
    } else {
        births_before(blocks, m - 1) + births_in(blocks[m - 1].statements@)
    }
}

/// The index of the alias statement `i` of block `b` gives birth to.
pub open spec fn birth_index(blocks: Seq<BasicBlockData>, b: int, i: int) -> nat {
    births_before(blocks, b) + births_in(blocks[b].statements@.take(i))
}

/// The number of aliases of the body with blocks `blocks`.
pub open spec fn birth_count(blocks: Seq<BasicBlockData>) -> nat {
    births_before(blocks, blocks.len() as int)
}

/// Whether, after `stmts`, the next borrow assigned to local `l` is lent by a `with` block:
/// the last of `stmts` that is a `WithLend` of `l` or a borrow assigned to `l` is the former.
pub open spec fn lend_pending(stmts: Seq<Statement>, l: Local) -> bool
    decreases stmts.len(),
{
    if stmts.len() == 0 {
        false
    } else {
        match stmts.last().kind {
            StatementKind::WithLend(m) => if m == l {
                true
            } else {
                lend_pending(stmts.drop_last(), l)
            },
            StatementKind::Assign(place, Rvalue::Ref { .. }) => if place.local == l {
                false
            } else {
                lend_pending(stmts.drop_last(), l)
            },
            _ => lend_pending(stmts.drop_last(), l),
        }
    }
}

/// `a` is the alias statement `i` of `stmts` gives birth to, as yet held by no register.
pub open spec fn born_as(a: Alias, stmts: Seq<Statement>, i: int) -> bool {
    match stmts[i].kind {
        StatementKind::Assign(place, Rvalue::Ref { mutability, place: borrowed }) => {
            &&& a.id == stmts[i].id
            &&& reg_view(a.borrows) == place_reg(borrowed)
            &&& a.kind == mutability
            &&& a.with_lend == lend_pending(stmts.take(i), place.local)
            &&& a.span == stmts[i].span
        },
        _ => false,
    }
}

proof fn lemma_births_in_take(stmts: Seq<Statement>, i: int)
    requires
        0 <= i <= stmts.len(),
    ensures
        births_in(stmts.take(i)) <= births_in(stmts),
    decreases stmts.len() - i,
{
    if i < stmts.len() {
        lemma_births_in_take(stmts, i + 1);
        assert(stmts.take(i + 1).drop_last() =~= stmts.take(i));
    } else {
        assert(stmts.take(i) =~= stmts);
    }
}

proof fn lemma_births_before_mono(blocks: Seq<BasicBlockData>, a: int, b: int)
    requires
        0 <= a <= b,
    ensures
        births_before(blocks, a) <= births_before(blocks, b),
    decreases b - a,
{
    if a < b {
        lemma_births_before_mono(blocks, a, b - 1);
    }
}

/// A birth's index is below the number of births up to the end of its block.
pub proof fn lemma_birth_index_bound(blocks: Seq<BasicBlockData>, b: int, i: int)
    requires
        0 <= b < blocks.len(),
        0 <= i < blocks[b].statements@.len(),
        is_birth(blocks[b].statements@[i]),
    ensures
        birth_index(blocks, b, i) < births_before(blocks, b + 1),
        birth_index(blocks, b, i) < birth_count(blocks),
{
    let stmts = blocks[b].statements@;
    assert(stmts.take(i + 1).drop_last() =~= stmts.take(i));
    lemma_births_in_take(stmts, i + 1);
    lemma_births_before_mono(blocks, b + 1, blocks.len() as int);
}

proof fn lemma_birth_in_block(stmts: Seq<Statement>, k: int) -> (i: int)
    requires
        0 <= k < births_in(stmts),
    ensures
        0 <= i < stmts.len(),
        is_birth(stmts[i]),
        births_in(stmts.take(i)) == k,
    decreases stmts.len(),
{
    let prev = stmts.drop_last();
    if k < births_in(prev) {
        let i = lemma_birth_in_block(prev, k);
        assert(prev.take(i) =~= stmts.take(i));
        i
    } else {
        assert(stmts.take(stmts.len() - 1) =~= prev);
        (stmts.len() - 1) as int
    }
}

proof fn lemma_block_of(blocks: Seq<BasicBlockData>, m: int, a: int) -> (b: int)
    requires
        0 <= a < births_before(blocks, m),
        m <= blocks.len(),
    ensures
        0 <= b < m,
        births_before(blocks, b) <= a < births_before(blocks, b + 1),
    decreases m,
{
    if a < births_before(blocks, m - 1) {
        lemma_block_of(blocks, m - 1, a)
    } else {
        m - 1
    }
}

/// Every alias index is the index of some birth.
pub proof fn lemma_birth_site(blocks: Seq<BasicBlockData>, a: int) -> (site: (int, int))
    requires
        0 <= a < birth_count(blocks),
    ensures
        0 <= site.0 < blocks.len(),
        0 <= site.1 < blocks[site.0].statements@.len(),
        is_birth(blocks[site.0].statements@[site.1]),
        birth_index(blocks, site.0, site.1) == a,
{
    let b = lemma_block_of(blocks, blocks.len() as int, a);
    let i = lemma_birth_in_block(blocks[b].statements@, a - births_before(blocks, b));
    (b, i)
}

fn has_local(set: &Vec<Local>, l: Local) -> (r: bool)
    ensures
        r == set@.contains(l),
{
    let mut i: usize = 0;
    while i < set.len()
        invariant
            i <= set@.len(),
            forall|j: int| 0 <= j < i ==> set@[j] != l,
        decreases set@.len() - i,
    {
        if set[i] == l {
            return true;
        }
        i = i + 1;
    }
    false
}

fn without_local(set: &Vec<Local>, l: Local) -> (r: Vec<Local>)
    ensures
        forall|m: Local| r@.contains(m) <==> set@.contains(m) && m != l,
{
    let mut r: Vec<Local> = Vec::new();
    let mut i: usize = 0;
    while i < set.len()
        invariant
            i <= set@.len(),
            forall|m: Local| r@.contains(m) <==> set@.take(i as int).contains(m) && m != l,
        decreases set@.len() - i,
    {
        let ghost before = r@;
        if set[i] != l {
            r.push(set[i]);
        }
        proof {
            let t = set@.take(i + 1);
            assert(t =~= set@.take(i as int).push(set@[i as int]));
            assert forall|m: Local| r@.contains(m) <==> t.contains(m) && m != l by {
                if r@.contains(m) {
                    let k = choose|k: int| 0 <= k < r@.len() && #[trigger] r@[k] == m;
                    if k < before.len() {
                        assert(before[k] == m);
                        assert(before.contains(m));
                        let q = choose|q: int| 0 <= q < i && #[trigger] set@.take(i as int)[q] == m;
                        assert(t[q] == m);
                    } else {
                        assert(m == set@[i as int]);
                        assert(t[i as int] == m);
                    }
                }
                if t.contains(m) && m != l {
                    let k = choose|k: int| 0 <= k < t.len() && #[trigger] t[k] == m;
                    if k < i {
                        assert(set@.take(i as int)[k] == m);
                        assert(before.contains(m));
                        let q = choose|q: int| 0 <= q < before.len() && #[trigger] before[q] == m;
                        assert(r@[q] == m);
                    } else {
                        assert(r@[r@.len() - 1] == m);
                    }
                }
            }
        }
        i = i + 1;
    }
    assert(set@.take(set@.len() as int) =~= set@);
    r
}

/// The aliases `body` gives birth to, in body order, as yet held by no register.
fn collect_alias_births(body: &Body) -> (aliases: Vec<Alias>)
    ensures
        aliases@.len() == birth_count(body.basic_blocks@),
        forall|b: int, i: int|
            0 <= b < body.basic_blocks@.len() && 0 <= i < body.basic_blocks@[b].statements@.len() && is_birth(
                #[trigger] body.basic_blocks@[b].statements@[i],
            ) ==> born_as(aliases@[birth_index(body.basic_blocks@, b, i) as int], body.basic_blocks@[b].statements@, i),
        forall|k: int| 0 <= k < aliases@.len() ==> (#[trigger] aliases@[k]).attached@.len() == 0,
{
    let ghost blocks = body.basic_blocks@;
    let mut aliases: Vec<Alias> = Vec::new();
    let mut b: usize = 0;
    while b < body.basic_blocks.len()
        invariant
            blocks == body.basic_blocks@,
            b <= blocks.len(),
            aliases@.len() == births_before(blocks, b as int),
            forall|c: int, i: int|
                0 <= c < b && 0 <= i < blocks[c].statements@.len() && is_birth(#[trigger] blocks[c].statements@[i])
                    ==> born_as(aliases@[birth_index(blocks, c, i) as int], blocks[c].statements@, i),
            forall|k: int| 0 <= k < aliases@.len() ==> (#[trigger] aliases@[k]).attached@.len() == 0,
        decreases blocks.len() - b,
    {
        let stmts = &body.basic_blocks[b].statements;
        let ghost start = aliases@.len();
        let mut pending: Vec<Local> = Vec::new();
        let mut i: usize = 0;
        while i < stmts.len()
            invariant
                blocks == body.basic_blocks@,
                b < blocks.len(),
                stmts@ == blocks[b as int].statements@,
                i <= stmts@.len(),
                start == births_before(blocks, b as int),
                aliases@.len() == start + births_in(stmts@.take(i as int)),
                forall|l: Local| #[trigger] pending@.contains(l) <==> lend_pending(stmts@.take(i as int), l),
                forall|c: int, j: int|
                    0 <= c < b && 0 <= j < blocks[c].statements@.len() && is_birth(#[trigger] blocks[c].statements@[j])
                        ==> born_as(aliases@[birth_index(blocks, c, j) as int], blocks[c].statements@, j),
                forall|j: int|
                    0 <= j < i && is_birth(#[trigger] stmts@[j]) ==> born_as(aliases@[birth_index(blocks, b as int, j) as int], stmts@, j),
                forall|k: int| 0 <= k < aliases@.len() ==> (#[trigger] aliases@[k]).attached@.len() == 0,
            decreases stmts@.len() - i,
        {
            let ghost before = aliases@;
            let ghost pre = stmts@.take(i as int);
            proof {
                assert(stmts@.take(i + 1).drop_last() =~= pre);
                assert(stmts@.take(i + 1).last() == stmts@[i as int]);
            }
            let ghost old_pending = pending@;
            let stmt = &stmts[i];
            match &stmt.kind {
                StatementKind::WithLend(l) => {
                    if !has_local(&pending, *l) {
                        pending.push(*l);
                        proof {
                            assert forall|m: Local| pending@.contains(m) <==> old_pending.contains(m) || m == *l by {
                                if pending@.contains(m) {
                                    let k = choose|k: int| 0 <= k < pending@.len() && #[trigger] pending@[k] == m;
                                    if k < old_pending.len() {
                                        assert(old_pending[k] == m);
                                    }
                                }
                                if old_pending.contains(m) {
                                    let k = choose|k: int| 0 <= k < old_pending.len() && #[trigger] old_pending[k] == m;
                                    assert(pending@[k] == m);
                                }
                                if m == *l {
                                    assert(pending@[pending@.len() - 1] == m);
                                }
                            }
                        }
                    }
                    proof {
                        assert(old_pending.contains(*l) ==> pending@ == old_pending);
                        assert forall|m: Local| #[trigger] pending@.contains(m) <==> lend_pending(stmts@.take(i + 1), m) by {
                            assert(old_pending.contains(m) <==> lend_pending(pre, m));
                            assert(lend_pending(stmts@.take(i + 1), m) == if m == *l { true } else { lend_pending(pre, m) });
                        }
                    }
                },
                StatementKind::Assign(place, Rvalue::Ref { mutability, place: borrowed }) => {
                    let with_lend = has_local(&pending, place.local);
                    pending = without_local(&pending, place.local);
                    aliases.push(
                        Alias {
                            id: stmt.id,
                            attached: Vec::new(),
                            borrows: register_of(borrowed),
                            kind: *mutability,
                            with_lend,
                            span: stmt.span,
                        },
                    );
                },
                _ => {},
            }
            proof {
                match stmts@[i as int].kind {
                    StatementKind::WithLend(_) => {},
                    StatementKind::Assign(place, Rvalue::Ref { .. }) => {
                        assert forall|m: Local| #[trigger] pending@.contains(m) <==> lend_pending(stmts@.take(i + 1), m) by {
                            assert(lend_pending(stmts@.take(i + 1), m) == if place.local == m { false } else { lend_pending(pre, m) });
                        }
                    },
                    _ => {
                        assert(pending@ == old_pending);
                        assert forall|m: Local| #[trigger] pending@.contains(m) <==> lend_pending(stmts@.take(i + 1), m) by {
                            assert(lend_pending(stmts@.take(i + 1), m) == lend_pending(pre, m));
                        }
                    },
                }
                assert(birth_index(blocks, b as int, i as int) == before.len());
                assert forall|c: int, j: int|
                    0 <= c < b && 0 <= j < blocks[c].statements@.len() && is_birth(#[trigger] blocks[c].statements@[j])
                        implies born_as(aliases@[birth_index(blocks, c, j) as int], blocks[c].statements@, j) by {
                    lemma_birth_index_bound(blocks, c, j);
                    lemma_births_before_mono(blocks, c + 1, b as int);
                    assert(birth_index(blocks, c, j) < before.len());
                    assert(aliases@[birth_index(blocks, c, j) as int] == before[birth_index(blocks, c, j) as int]);
                }
                assert forall|j: int| 0 <= j < i + 1 && is_birth(#[trigger] stmts@[j]) implies born_as(
                    aliases@[birth_index(blocks, b as int, j) as int],
                    stmts@,
                    j,
                ) by {
                    if j < i {
                        assert(stmts@.take(j + 1).drop_last() =~= stmts@.take(j));
                        lemma_births_in_take(pre, j + 1);
                        assert(pre.take(j + 1) =~= stmts@.take(j + 1));
                        assert(aliases@[birth_index(blocks, b as int, j) as int] == before[birth_index(blocks, b as int, j) as int]);
                    }
                }
            }
            i = i + 1;
        }
        proof {
            assert(stmts@.take(stmts@.len() as int) =~= stmts@);
        }
        b = b + 1;
    }
    aliases
}

// ---------------------------------------------------------------------------------------------
// The registers that can hold an alias
// ---------------------------------------------------------------------------------------------

/// The registers `stmts` assign to, in order.
pub open spec fn dests_in(stmts: Seq<Statement>) -> Seq<(Local, Seq<SubRegisters>)>
    decreases stmts.len(),
{
    if stmts.len() == 0 {
        Seq::empty()
    } else {
        dests_in(stmts.drop_last()) + match stmts.last().kind {
            StatementKind::Assign(place, _) => seq![place_reg(place)],
            _ => Seq::empty(),
        }
    }
}

/// The registers the first `m` blocks assign to, in order.
pub open spec fn dests_before(blocks: Seq<BasicBlockData>, m: int) -> Seq<(Local, Seq<SubRegisters>)>
    decreases m,
{
    if m <= 0 {
        Seq::empty()
    } else {
        dests_before(blocks, m - 1) + dests_in(blocks[m - 1].statements@)
    }
}

/// `s` with every element after its first occurrence left out.
pub open spec fn dedup(s: Seq<(Local, Seq<SubRegisters>)>) -> Seq<(Local, Seq<SubRegisters>)>
    decreases s.len(),
{
    if s.len() == 0 {
        Seq::empty()
    } else {
        let d = dedup(s.drop_last());
        if d.contains(s.last()) {
            d
        } else {
            d.push(s.last())
        }
    }
}

/// The registers that can hold an alias: those the body assigns to, each once, in body order.
pub open spec fn held_keys(body: Body) -> Seq<(Local, Seq<SubRegisters>)> {
    dedup(dests_before(body.basic_blocks@, body.basic_blocks@.len() as int))
}

fn has_register(keys: &Vec<Register>, r: &Register) -> (found: bool)
    ensures
        found == regs_view(keys@).contains(reg_view(*r)),
{
    let mut i: usize = 0;
    while i < keys.len()
        invariant
            i <= keys@.len(),
            forall|j: int| 0 <= j < i ==> reg_view(#[trigger] keys@[j]) != reg_view(*r),
        decreases keys@.len() - i,
    {
        if reg_eq(&keys[i], r) {
            assert(regs_view(keys@)[i as int] == reg_view(*r));
            return true;
        }
        i = i + 1;
    }
    proof {
        if regs_view(keys@).contains(reg_view(*r)) {
            let k = choose|k: int| 0 <= k < regs_view(keys@).len() && #[trigger] regs_view(keys@)[k] == reg_view(*r);
            assert(reg_view(keys@[k]) == reg_view(*r));
        }
    }
    false
}

/// The registers that can hold an alias in `body`.
fn held_keys_of(body: &Body) -> (keys: Vec<Register>)
    ensures
        regs_view(keys@) == held_keys(*body),
{
    let ghost blocks = body.basic_blocks@;
    let mut keys: Vec<Register> = Vec::new();
    let mut b: usize = 0;
    while b < body.basic_blocks.len()
        invariant
            blocks == body.basic_blocks@,
            b <= blocks.len(),
            regs_view(keys@) == dedup(dests_before(blocks, b as int)),
        decreases blocks.len() - b,
    {
        let stmts = &body.basic_blocks[b].statements;
        let mut i: usize = 0;
        while i < stmts.len()
            invariant
                blocks == body.basic_blocks@,
                b < blocks.len(),
                stmts@ == blocks[b as int].statements@,
                i <= stmts@.len(),
                regs_view(keys@) == dedup(dests_before(blocks, b as int) + dests_in(stmts@.take(i as int))),
            decreases stmts@.len() - i,
        {
            let ghost pre = dests_before(blocks, b as int) + dests_in(stmts@.take(i as int));
            proof {
                assert(stmts@.take(i + 1).drop_last() =~= stmts@.take(i as int));
                assert(stmts@.take(i + 1).last() == stmts@[i as int]);
            }
            if let StatementKind::Assign(place, _) = &stmts[i].kind {
                let r = register_of(place);
                let ghost all = dests_before(blocks, b as int) + dests_in(stmts@.take(i + 1));
                assert(all =~= pre.push(place_reg(*place)));
                assert(all.drop_last() =~= pre);
                if !has_register(&keys, &r) {
                    let ghost kv = regs_view(keys@);
                    keys.push(r);
                    assert(regs_view(keys@) =~= kv.push(reg_view(r)));
                }
            } else {
                assert(dests_before(blocks, b as int) + dests_in(stmts@.take(i + 1)) =~= pre);
            }
            i = i + 1;
        }
        proof {
            assert(stmts@.take(stmts@.len() as int) =~= stmts@);
            assert(dests_before(blocks, b + 1) =~= dests_before(blocks, b as int) + dests_in(stmts@));
        }
        b = b + 1;
    }
    keys
}

/// The first position of `r` in `keys`, or -1.
pub open spec fn key_index(keys: Seq<(Local, Seq<SubRegisters>)>, r: (Local, Seq<SubRegisters>)) -> int
    decreases keys.len(),
{
    if keys.len() == 0 {
        -1
    } else {
        let j = key_index(keys.drop_last(), r);
        if j >= 0 {
            j
        } else if keys.last() == r {
            keys.len() - 1
        } else {
            -1
        }
    }
}

proof fn lemma_key_index(keys: Seq<(Local, Seq<SubRegisters>)>, r: (Local, Seq<SubRegisters>))
    ensures
        -1 <= key_index(keys, r) < keys.len(),
        key_index(keys, r) >= 0 ==> keys[key_index(keys, r)] == r,
        forall|j: int| 0 <= j < keys.len() && (key_index(keys, r) < 0 || j < key_index(keys, r)) ==> keys[j] != r,
    decreases keys.len(),
{
    if keys.len() > 0 {
        lemma_key_index(keys.drop_last(), r);
        assert forall|j: int| 0 <= j < keys.len() - 1 implies keys.drop_last()[j] == keys[j] by {}
    }
}

fn find_key(keys: &Vec<Register>, r: &Register) -> (k: Option<usize>)
    ensures
        match k {
            Some(j) => j == key_index(regs_view(keys@), reg_view(*r)),
            None => key_index(regs_view(keys@), reg_view(*r)) < 0,
        },
{
    let ghost kv = regs_view(keys@);
    proof {
        lemma_key_index(kv, reg_view(*r));
    }
    let mut i: usize = 0;
    while i < keys.len()
        invariant
            kv == regs_view(keys@),
            i <= keys@.len(),
            forall|j: int| 0 <= j < i ==> kv[j] != reg_view(*r),
            -1 <= key_index(kv, reg_view(*r)) < kv.len(),
            key_index(kv, reg_view(*r)) >= 0 ==> kv[key_index(kv, reg_view(*r))] == reg_view(*r),
            forall|j: int| 0 <= j < kv.len() && (key_index(kv, reg_view(*r)) < 0 || j < key_index(kv, reg_view(*r))) ==> kv[j] != reg_view(*r),
        decreases keys@.len() - i,
    {
        if reg_eq(&keys[i], r) {
            assert(kv[i as int] == reg_view(*r));
            return Some(i);
        }
        assert(kv[i as int] != reg_view(*r));
        i = i + 1;
    }
    None
}

// ---------------------------------------------------------------------------------------------
// Held states: for each register that can hold an alias, the index of the alias it holds
// ---------------------------------------------------------------------------------------------

/// The alias `r` holds in `s`.
pub open spec fn held_get(keys: Seq<(Local, Seq<SubRegisters>)>, s: Seq<Option<usize>>, r: (Local, Seq<SubRegisters>)) -> Option<usize> {
    let j = key_index(keys, r);
    if 0 <= j < s.len() {
        s[j]
    } else {
        None
    }
}

/// `s` with `r` holding `v`.
pub open spec fn held_set(
    keys: Seq<(Local, Seq<SubRegisters>)>,
    s: Seq<Option<usize>>,
    r: (Local, Seq<SubRegisters>),
    v: Option<usize>,
) -> Seq<Option<usize>> {
    let j = key_index(keys, r);
    if 0 <= j < s.len() {
        s.update(j, v)
    } else {
        s
    }
}

/// `s` with no register of local `l` holding anything.
pub open spec fn held_drop_owner(keys: Seq<(Local, Seq<SubRegisters>)>, s: Seq<Option<usize>>, l: Local) -> Seq<Option<usize>> {
    Seq::new(s.len(), |j: int| if j < keys.len() && keys[j].0 == l { None } else { s[j] })
}

/// `s` after `r` is overwritten with something that is no borrow: the whole local lets go of
/// everything when `r` is a whole local, else just `r`.
pub open spec fn held_drop(keys: Seq<(Local, Seq<SubRegisters>)>, s: Seq<Option<usize>>, r: (Local, Seq<SubRegisters>)) -> Seq<Option<usize>> {
    if r.1.len() == 0 {
        held_drop_owner(keys, s, r.0)
    } else {
        held_set(keys, s, r, None)
    }
}

/// The held state after statement `st`, which gives birth to alias `a` if it is a birth.
pub open spec fn held_step(keys: Seq<(Local, Seq<SubRegisters>)>, s: Seq<Option<usize>>, st: Statement, a: usize) -> Seq<Option<usize>> {
    match st.kind {
        StatementKind::StorageLive(l) => held_drop_owner(keys, s, l),
        StatementKind::StorageDead(l) => held_drop_owner(keys, s, l),
        StatementKind::Assign(place, rv) => {
            let target = place_reg(place);
            match rv {
                Rvalue::Ref { .. } => held_set(keys, s, target, Some(a)),
                Rvalue::Use(Operand::Copy(src)) => match held_get(keys, s, place_reg(src)) {
                    Some(x) => held_set(keys, s, target, Some(x)),
                    None => held_drop(keys, s, target),
                },
                Rvalue::Use(Operand::Move(src)) => match held_get(keys, s, place_reg(src)) {
                    Some(x) => held_set(keys, held_set(keys, s, place_reg(src), None), target, Some(x)),
                    None => held_drop(keys, s, target),
                },
                _ => held_drop(keys, s, target),
            }
        },
        _ => s,
    }
}

/// The held state after `stmts`, the first birth among them being alias `base`.
pub open spec fn held_run(keys: Seq<(Local, Seq<SubRegisters>)>, s: Seq<Option<usize>>, stmts: Seq<Statement>, base: nat) -> Seq<Option<usize>>
    decreases stmts.len(),
{
    if stmts.len() == 0 {
        s
    } else {
        held_step(keys, held_run(keys, s, stmts.drop_last(), base), stmts.last(), (base + births_in(stmts.drop_last())) as usize)
    }
}

/// The held state after a terminator: a call lets its destination go, and so does a drop.
pub open spec fn held_exit(keys: Seq<(Local, Seq<SubRegisters>)>, s: Seq<Option<usize>>, kind: TerminatorKind) -> Seq<Option<usize>> {
    match kind {
        TerminatorKind::Call { destination, .. } => held_drop(keys, s, place_reg(destination)),
        TerminatorKind::Drop { place, .. } => held_drop(keys, s, place_reg(place)),
        TerminatorKind::DropIso { place, .. } => held_drop(keys, s, place_reg(place)),
        _ => s,
    }
}

/// The held state at the end of `block`, from `s` at its start.
pub open spec fn held_block(keys: Seq<(Local, Seq<SubRegisters>)>, s: Seq<Option<usize>>, block: BasicBlockData, base: nat) -> Seq<Option<usize>> {
    held_exit(keys, held_run(keys, s, block.statements@, base), block.terminator.kind)
}

/// The registers on which every predecessor's exit state agrees, with what they hold there;
/// nothing for a block without predecessors.
pub open spec fn held_meet(preds: Seq<BasicBlock>, exits: Seq<Seq<Option<usize>>>, w: nat) -> Seq<Option<usize>> {
    if preds.len() == 0 {
        Seq::new(w, |j: int| None)
    } else {
        Seq::new(
            w,
            |j: int|
                if forall|k: int| 0 <= k < preds.len() ==> #[trigger] exits[preds[k].0 as int][j] == exits[preds[0].0 as int][j] {
                    exits[preds[0].0 as int][j]
                } else {
                    None
                },
        )
    }
}

/// `s` holds a subset of what `t` holds: every register holding something in `s` holds the same
/// in `t`.
pub open spec fn below(s: Seq<Option<usize>>, t: Seq<Option<usize>>) -> bool {
    s.len() == t.len() && forall|j: int| 0 <= j < s.len() && (#[trigger] s[j]) is Some ==> t[j] == s[j]
}

/// Every alias held in `s` is below `m`.
pub open spec fn bounded(s: Seq<Option<usize>>, m: nat) -> bool {
    forall|j: int| 0 <= j < s.len() ==> ((#[trigger] s[j]) matches Some(v) ==> (v as int) < m)
}


proof fn lemma_set_below(
    keys: Seq<(Local, Seq<SubRegisters>)>,
    s: Seq<Option<usize>>,
    t: Seq<Option<usize>>,
    r: (Local, Seq<SubRegisters>),
    v: Option<usize>,
)
    requires
        below(s, t),
    ensures
        below(held_set(keys, s, r, v), held_set(keys, t, r, v)),
        held_set(keys, s, r, v).len() == s.len(),
{
}

proof fn lemma_drop_below(keys: Seq<(Local, Seq<SubRegisters>)>, s: Seq<Option<usize>>, t: Seq<Option<usize>>, r: (Local, Seq<SubRegisters>))
    requires
        below(s, t),
    ensures
        below(held_drop(keys, s, r), held_drop(keys, t, r)),
        below(held_drop(keys, s, r), s),
        held_drop(keys, s, r).len() == s.len(),
{
}

proof fn lemma_step_below(keys: Seq<(Local, Seq<SubRegisters>)>, s: Seq<Option<usize>>, t: Seq<Option<usize>>, st: Statement, a: usize)
    requires
        below(s, t),
    ensures
        below(held_step(keys, s, st, a), held_step(keys, t, st, a)),
        held_step(keys, s, st, a).len() == s.len(),
{
    match st.kind {
        StatementKind::Assign(place, rv) => {
            let target = place_reg(place);
            lemma_drop_below(keys, s, t, target);
            match rv {
                Rvalue::Use(Operand::Copy(src)) => {
                    let gs = held_get(keys, s, place_reg(src));
                    let gt = held_get(keys, t, place_reg(src));
                    if gs is None && gt is Some {
                        lemma_key_index(keys, target);
                        let ds = held_drop(keys, s, target);
                        let st2 = held_set(keys, t, target, gt);
                        assert forall|j: int| 0 <= j < ds.len() && (#[trigger] ds[j]) is Some implies st2[j] == ds[j] by {
                            assert(s[j] == ds[j]);
                        }
                    }
                },
                Rvalue::Use(Operand::Move(src)) => {
                    let sr = place_reg(src);
                    let gs = held_get(keys, s, sr);
                    let gt = held_get(keys, t, sr);
                    lemma_set_below(keys, s, t, sr, None);
                    if gs is None && gt is Some {
                        lemma_key_index(keys, target);
                        lemma_key_index(keys, sr);
                        let ds = held_drop(keys, s, target);
                        let st2 = held_set(keys, held_set(keys, t, sr, None), target, gt);
                        assert forall|j: int| 0 <= j < ds.len() && (#[trigger] ds[j]) is Some implies st2[j] == ds[j] by {
                            assert(s[j] == ds[j]);
                        }
                    } else if gs is Some {
                        lemma_set_below(keys, held_set(keys, s, sr, None), held_set(keys, t, sr, None), target, gs);
                    }
                },
                _ => {},
            }
        },
        _ => {},
    }
}

proof fn lemma_run_below(keys: Seq<(Local, Seq<SubRegisters>)>, s: Seq<Option<usize>>, t: Seq<Option<usize>>, stmts: Seq<Statement>, base: nat)
    requires
        below(s, t),
    ensures
        below(held_run(keys, s, stmts, base), held_run(keys, t, stmts, base)),
        held_run(keys, s, stmts, base).len() == s.len(),
    decreases stmts.len(),
{
    if stmts.len() > 0 {
        lemma_run_below(keys, s, t, stmts.drop_last(), base);
        lemma_step_below(
            keys,
            held_run(keys, s, stmts.drop_last(), base),
            held_run(keys, t, stmts.drop_last(), base),
            stmts.last(),
            (base + births_in(stmts.drop_last())) as usize,
        );
    }
}

proof fn lemma_block_below(keys: Seq<(Local, Seq<SubRegisters>)>, s: Seq<Option<usize>>, t: Seq<Option<usize>>, block: BasicBlockData, base: nat)
    requires
        below(s, t),
    ensures
        below(held_block(keys, s, block, base), held_block(keys, t, block, base)),
        held_block(keys, s, block, base).len() == s.len(),
{
    lemma_run_below(keys, s, t, block.statements@, base);
    let rs = held_run(keys, s, block.statements@, base);
    let rt = held_run(keys, t, block.statements@, base);
    match block.terminator.kind {
        TerminatorKind::Call { destination, .. } => lemma_drop_below(keys, rs, rt, place_reg(destination)),
        TerminatorKind::Drop { place, .. } => lemma_drop_below(keys, rs, rt, place_reg(place)),
        TerminatorKind::DropIso { place, .. } => lemma_drop_below(keys, rs, rt, place_reg(place)),
        _ => {},
    }
}

proof fn lemma_meet_below(preds: Seq<BasicBlock>, x: Seq<Seq<Option<usize>>>, y: Seq<Seq<Option<usize>>>, w: nat)
    requires
        forall|k: int| 0 <= k < preds.len() ==> (#[trigger] preds[k]).0 < x.len() && preds[k].0 < y.len(),
        forall|k: int| 0 <= k < preds.len() ==> below(#[trigger] x[preds[k].0 as int], y[preds[k].0 as int]),
        forall|k: int| 0 <= k < preds.len() ==> (#[trigger] x[preds[k].0 as int]).len() == w,
    ensures
        below(held_meet(preds, x, w), held_meet(preds, y, w)),
        held_meet(preds, x, w).len() == w,
{
    if preds.len() > 0 {
        let mx = held_meet(preds, x, w);
        let my = held_meet(preds, y, w);
        assert forall|j: int| 0 <= j < mx.len() && (#[trigger] mx[j]) is Some implies my[j] == mx[j] by {
            let first = preds[0].0 as int;
            assert(below(x[first], y[first]));
            assert forall|k: int| 0 <= k < preds.len() implies #[trigger] y[preds[k].0 as int][j] == y[first][j] by {
                assert(x[preds[k].0 as int][j] == x[first][j]);
                assert(below(x[preds[k].0 as int], y[preds[k].0 as int]));
            }
        }
    }
}

proof fn lemma_step_bounded(keys: Seq<(Local, Seq<SubRegisters>)>, s: Seq<Option<usize>>, st: Statement, a: usize, m: nat)
    requires
        bounded(s, m),
        is_birth(st) ==> (a as int) < m,
    ensures
        bounded(held_step(keys, s, st, a), m),
{
    match st.kind {
        StatementKind::Assign(place, rv) => {
            match rv {
                Rvalue::Use(Operand::Move(src)) => {
                    assert(bounded(held_set(keys, s, place_reg(src), None), m));
                },
                _ => {},
            }
        },
        _ => {},
    }
}

proof fn lemma_run_bounded(keys: Seq<(Local, Seq<SubRegisters>)>, s: Seq<Option<usize>>, stmts: Seq<Statement>, base: nat, m: nat)
    requires
        bounded(s, m),
        base + births_in(stmts) <= m,
        m <= usize::MAX,
    ensures
        bounded(held_run(keys, s, stmts, base), m),
    decreases stmts.len(),
{
    if stmts.len() > 0 {
        lemma_run_bounded(keys, s, stmts.drop_last(), base, m);
        lemma_step_bounded(
            keys,
            held_run(keys, s, stmts.drop_last(), base),
            stmts.last(),
            (base + births_in(stmts.drop_last())) as usize,
            m,
        );
    }
}

proof fn lemma_block_bounded(keys: Seq<(Local, Seq<SubRegisters>)>, s: Seq<Option<usize>>, block: BasicBlockData, base: nat, m: nat)
    requires
        bounded(s, m),
        base + births_in(block.statements@) <= m,
        m <= usize::MAX,
    ensures
        bounded(held_block(keys, s, block, base), m),
{
    lemma_run_bounded(keys, s, block.statements@, base, m);
}

proof fn lemma_meet_bounded(preds: Seq<BasicBlock>, x: Seq<Seq<Option<usize>>>, w: nat, m: nat)
    requires
        forall|k: int| 0 <= k < preds.len() ==> (#[trigger] preds[k]).0 < x.len(),
        forall|k: int| 0 <= k < preds.len() ==> bounded(#[trigger] x[preds[k].0 as int], m),
        forall|k: int| 0 <= k < preds.len() ==> (#[trigger] x[preds[k].0 as int]).len() == w,
    ensures
        bounded(held_meet(preds, x, w), m),
{
    if preds.len() > 0 {
        let mx = held_meet(preds, x, w);
        assert forall|j: int| 0 <= j < mx.len() implies ((#[trigger] mx[j]) matches Some(v) ==> (v as int) < m) by {
            assert(bounded(x[preds[0].0 as int], m));
        }
    }
}

proof fn lemma_below_trans(a: Seq<Option<usize>>, b: Seq<Option<usize>>, c: Seq<Option<usize>>)
    requires
        below(a, b),
        below(b, c),
    ensures
        below(a, c),
{
}

// ---------------------------------------------------------------------------------------------
// Held states, computed
// ---------------------------------------------------------------------------------------------

fn held_lookup(keys: &Vec<Register>, state: &Vec<Option<usize>>, r: &Register) -> (v: Option<usize>)
    requires
        state@.len() == keys@.len(),
    ensures
        v == held_get(regs_view(keys@), state@, reg_view(*r)),
{
    proof {
        lemma_key_index(regs_view(keys@), reg_view(*r));
    }
    match find_key(keys, r) {
        Some(j) => state[j],
        None => None,
    }
}

fn held_assign(keys: &Vec<Register>, state: &mut Vec<Option<usize>>, r: &Register, v: Option<usize>)
    requires
        old(state)@.len() == keys@.len(),
    ensures
        final(state)@ == held_set(regs_view(keys@), old(state)@, reg_view(*r), v),
{
    proof {
        lemma_key_index(regs_view(keys@), reg_view(*r));
    }
    match find_key(keys, r) {
        Some(j) => {
            state.set(j, v);
        },
        None => {},
    }
}

fn held_clear_owner(keys: &Vec<Register>, state: &mut Vec<Option<usize>>, l: Local)
    requires
        old(state)@.len() == keys@.len(),
    ensures
        final(state)@ == held_drop_owner(regs_view(keys@), old(state)@, l),
{
    let ghost kv = regs_view(keys@);
    let ghost start = state@;
    let mut j: usize = 0;
    while j < state.len()
        invariant
            kv == regs_view(keys@),
            state@.len() == start.len(),
            start.len() == keys@.len(),
            j <= state@.len(),
            forall|i: int| 0 <= i < j ==> #[trigger] state@[i] == held_drop_owner(kv, start, l)[i],
            forall|i: int| j <= i < state@.len() ==> #[trigger] state@[i] == start[i],
        decreases state@.len() - j,
    {
        if keys[j].owner == l {
            state.set(j, None);
        }
        assert(kv[j as int] == reg_view(keys@[j as int]));
        j = j + 1;
    }
    assert(state@ =~= held_drop_owner(kv, start, l));
}

fn held_clear(keys: &Vec<Register>, state: &mut Vec<Option<usize>>, r: &Register)
    requires
        old(state)@.len() == keys@.len(),
    ensures
        final(state)@ == held_drop(regs_view(keys@), old(state)@, reg_view(*r)),
{
    if r.subregister.len() == 0 {
        held_clear_owner(keys, state, r.owner);
    } else {
        held_assign(keys, state, r, None);
    }
}

/// Applies statement `stmt`, which gives birth to alias `a` if it is a birth.
fn held_apply_statement(keys: &Vec<Register>, state: &mut Vec<Option<usize>>, stmt: &Statement, a: usize)
    requires
        old(state)@.len() == keys@.len(),
    ensures
        final(state)@ == held_step(regs_view(keys@), old(state)@, *stmt, a),
        final(state)@.len() == keys@.len(),
{
    let ghost kv = regs_view(keys@);
    let ghost start = state@;
    match &stmt.kind {
        StatementKind::StorageLive(l) | StatementKind::StorageDead(l) => {
            held_clear_owner(keys, state, *l);
        },
        StatementKind::Assign(place, rvalue) => {
            let target = register_of(place);
            match rvalue {
                Rvalue::Ref { .. } => {
                    held_assign(keys, state, &target, Some(a));
                },
                Rvalue::Use(Operand::Copy(src)) => {
                    let from = register_of(src);
                    match held_lookup(keys, state, &from) {
                        Some(x) => held_assign(keys, state, &target, Some(x)),
                        None => held_clear(keys, state, &target),
                    }
                },
                Rvalue::Use(Operand::Move(src)) => {
                    let from = register_of(src);
                    match held_lookup(keys, state, &from) {
                        Some(x) => {
                            held_assign(keys, state, &from, None);
                            held_assign(keys, state, &target, Some(x));
                        },
                        None => held_clear(keys, state, &target),
                    }
                },
                _ => {
                    held_clear(keys, state, &target);
                },
            }
        },
        _ => {},
    }
    proof {
        lemma_step_below(kv, start, start, *stmt, a);
    }
}

/// Applies a terminator's effect on what registers hold.
fn held_apply_terminator(keys: &Vec<Register>, state: &mut Vec<Option<usize>>, kind: &TerminatorKind)
    requires
        old(state)@.len() == keys@.len(),
    ensures
        final(state)@ == held_exit(regs_view(keys@), old(state)@, *kind),
{
    match kind {
        TerminatorKind::Call { destination, .. } => {
            let r = register_of(destination);
            held_clear(keys, state, &r);
        },
        TerminatorKind::Drop { place, .. } | TerminatorKind::DropIso { place, .. } => {
            let r = register_of(place);
            held_clear(keys, state, &r);
        },
        _ => {},
    }
}

fn copy_state(s: &Vec<Option<usize>>) -> (r: Vec<Option<usize>>)
    ensures
        r@ == s@,
{
    let mut r: Vec<Option<usize>> = Vec::new();
    let mut i: usize = 0;
    while i < s.len()
        invariant
            i <= s@.len(),
            r@ == s@.take(i as int),
        decreases s@.len() - i,
    {
        r.push(s[i]);
        i = i + 1;
        assert(r@ =~= s@.take(i as int));
    }
    assert(s@.take(s@.len() as int) =~= s@);
    r
}

fn same_state(a: &Vec<Option<usize>>, b: &Vec<Option<usize>>) -> (r: bool)
    ensures
        r == (a@ == b@),
{
    if a.len() != b.len() {
        return false;
    }
    let mut i: usize = 0;
    while i < a.len()
        invariant
            a@.len() == b@.len(),
            i <= a@.len(),
            forall|j: int| 0 <= j < i ==> a@[j] == b@[j],
        decreases a@.len() - i,
    {
        let same = match (a[i], b[i]) {
            (Some(x), Some(y)) => x == y,
            (None, None) => true,
            _ => false,
        };
        if !same {
            return false;
        }
        i = i + 1;
    }
    assert(a@ =~= b@);
    true
}

/// The held state before each statement of `block` and after the last, from `entry`.
fn held_through(keys: &Vec<Register>, entry: &Vec<Option<usize>>, block: &BasicBlockData, base: usize) -> (states: Vec<Vec<Option<usize>>>)
    requires
        entry@.len() == keys@.len(),
        base + births_in(block.statements@) <= usize::MAX,
    ensures
        states@.len() == block.statements@.len() + 1,
        forall|i: int|
            0 <= i <= block.statements@.len() ==> (#[trigger] states@[i])@ == held_run(
                regs_view(keys@),
                entry@,
                block.statements@.take(i),
                base as nat,
            ),
{
    let ghost kv = regs_view(keys@);
    let stmts = &block.statements;
    let mut states: Vec<Vec<Option<usize>>> = Vec::new();
    let mut current = copy_state(entry);
    let mut a: usize = base;
    let mut i: usize = 0;
    proof {
        assert(stmts@.take(0) =~= Seq::<Statement>::empty());
    }
    while i < stmts.len()
        invariant
            kv == regs_view(keys@),
            i <= stmts@.len(),
            stmts@ == block.statements@,
            entry@.len() == keys@.len(),
            current@.len() == keys@.len(),
            a == base + births_in(stmts@.take(i as int)),
            base + births_in(stmts@) <= usize::MAX,
            current@ == held_run(kv, entry@, stmts@.take(i as int), base as nat),
            states@.len() == i,
            forall|j: int| 0 <= j < i ==> (#[trigger] states@[j])@ == held_run(kv, entry@, stmts@.take(j), base as nat),
        decreases stmts@.len() - i,
    {
        states.push(copy_state(&current));
        let ghost pre = stmts@.take(i as int);
        proof {
            assert(stmts@.take(i + 1).drop_last() =~= pre);
            assert(stmts@.take(i + 1).last() == stmts@[i as int]);
            lemma_births_in_take(stmts@, i + 1);
        }
        held_apply_statement(keys, &mut current, &stmts[i], a);
        if is_birth_exec(&stmts[i]) {
            a = a + 1;
        }
        i = i + 1;
    }
    assert(stmts@.take(stmts@.len() as int) =~= stmts@);
    states.push(current);
    states
}

fn is_birth_exec(stmt: &Statement) -> (r: bool)
    ensures
        r == is_birth(*stmt),
{
    match &stmt.kind {
        StatementKind::Assign(_, Rvalue::Ref { .. }) => true,
        _ => false,
    }
}

/// The held state at the end of `block`, from `entry` at its start.
fn held_block_exec(keys: &Vec<Register>, entry: &Vec<Option<usize>>, block: &BasicBlockData, base: usize) -> (exit: Vec<Option<usize>>)
    requires
        entry@.len() == keys@.len(),
        base + births_in(block.statements@) <= usize::MAX,
    ensures
        exit@ == held_block(regs_view(keys@), entry@, *block, base as nat),
{
    let mut states = held_through(keys, entry, block, base);
    let last = states.len() - 1;
    let mut current = copy_state(&states[last]);
    proof {
        assert(block.statements@.take(block.statements@.len() as int) =~= block.statements@);
        lemma_run_below(regs_view(keys@), entry@, entry@, block.statements@, base as nat);
    }
    held_apply_terminator(keys, &mut current, &block.terminator.kind);
    current
}

pub open spec fn states_view(v: Seq<Vec<Option<usize>>>) -> Seq<Seq<Option<usize>>> {
    v.map_values(|x: Vec<Option<usize>>| x@)
}

/// The meet of the exit states of the predecessors `preds`.
fn held_meet_exec(preds: &[BasicBlock], exits: &Vec<Vec<Option<usize>>>, w: usize) -> (m: Vec<Option<usize>>)
    requires
        forall|k: int| 0 <= k < preds@.len() ==> (#[trigger] preds@[k]).0 < exits@.len(),
        forall|b: int| 0 <= b < exits@.len() ==> (#[trigger] exits@[b])@.len() == w,
    ensures
        m@ == held_meet(preds@, states_view(exits@), w as nat),
{
    let ghost xs = states_view(exits@);
    let mut m: Vec<Option<usize>> = Vec::new();
    if preds.len() == 0 {
        let mut j: usize = 0;
        while j < w
            invariant
                j <= w,
                m@ == Seq::new(j as nat, |i: int| None::<usize>),
            decreases w - j,
        {
            m.push(None);
            j = j + 1;
            assert(m@ =~= Seq::new(j as nat, |i: int| None::<usize>));
        }
        return m;
    }
    let first = preds[0].index();
    let mut j: usize = 0;
    while j < w
        invariant
            xs == states_view(exits@),
            preds@.len() > 0,
            first == preds@[0].0,
            forall|k: int| 0 <= k < preds@.len() ==> (#[trigger] preds@[k]).0 < exits@.len(),
            forall|b: int| 0 <= b < exits@.len() ==> (#[trigger] exits@[b])@.len() == w,
            j <= w,
            m@.len() == j,
            forall|i: int| 0 <= i < j ==> m@[i] == #[trigger] held_meet(preds@, xs, w as nat)[i],
        decreases w - j,
    {
        let v = exits[first][j];
        let mut agree = true;
        let mut k: usize = 0;
        while k < preds.len()
            invariant
                xs == states_view(exits@),
                forall|q: int| 0 <= q < preds@.len() ==> (#[trigger] preds@[q]).0 < exits@.len(),
                forall|b: int| 0 <= b < exits@.len() ==> (#[trigger] exits@[b])@.len() == w,
                j < w,
                first == preds@[0].0,
                v == xs[first as int][j as int],
                k <= preds@.len(),
                agree == forall|q: int| 0 <= q < k ==> #[trigger] xs[preds@[q].0 as int][j as int] == v,
            decreases preds@.len() - k,
        {
            let here = exits[preds[k].index()][j];
            let same = match (here, v) {
                (Some(x), Some(y)) => x == y,
                (None, None) => true,
                _ => false,
            };
            assert(xs[preds@[k as int].0 as int] == exits@[preds@[k as int].0 as int]@);
            if !same {
                agree = false;
            }
            k = k + 1;
        }
        assert(xs[first as int] == exits@[first as int]@);
        m.push(if agree { v } else { None });
        j = j + 1;
    }
    assert(m@ =~= held_meet(preds@, xs, w as nat));
    m
}

// ---------------------------------------------------------------------------------------------
// The held-alias equations and their least solution
// ---------------------------------------------------------------------------------------------

/// The forward equations of what each register holds at each block's entry and exit.
pub struct HeldProblem {
    pub keys: Seq<(Local, Seq<SubRegisters>)>,
    pub blocks: Seq<BasicBlockData>,
    pub preds: Seq<Seq<BasicBlock>>,
}

pub open spec fn held_problem(body: Body) -> HeldProblem {
    let n = body.basic_blocks@.len();
    HeldProblem {
        keys: held_keys(body),
        blocks: body.basic_blocks@,
        preds: Seq::new(n, |b: int| preds_among(body.basic_blocks@, n as int, BasicBlock(b as u32))),
    }
}

impl HeldProblem {
    pub open spec fn n(self) -> nat {
        self.blocks.len()
    }

    pub open spec fn w(self) -> nat {
        self.keys.len()
    }

    /// Block `b`'s entry state, given every block's exit state.
    pub open spec fn entry_of(self, exits: Seq<Seq<Option<usize>>>, b: int) -> Seq<Option<usize>> {
        held_meet(self.preds[b], exits, self.w())
    }

    /// Block `b`'s exit state, given its entry state.
    pub open spec fn step(self, entry: Seq<Option<usize>>, b: int) -> Seq<Option<usize>> {
        held_block(self.keys, entry, self.blocks[b], births_before(self.blocks, b))
    }

    pub open spec fn shaped(self, states: Seq<Seq<Option<usize>>>) -> bool {
        states.len() == self.n() && forall|b: int| 0 <= b < self.n() ==> (#[trigger] states[b]).len() == self.w()
    }

    pub open spec fn solves(self, entries: Seq<Seq<Option<usize>>>, exits: Seq<Seq<Option<usize>>>) -> bool {
        &&& self.shaped(entries)
        &&& self.shaped(exits)
        &&& forall|b: int|
            0 <= b < self.n() ==> #[trigger] entries[b] == self.entry_of(exits, b) && exits[b] == self.step(entries[b], b)
    }

    /// A solution below every solution, block by block.
    pub open spec fn least(self, entries: Seq<Seq<Option<usize>>>, exits: Seq<Seq<Option<usize>>>) -> bool {
        &&& self.solves(entries, exits)
        &&& forall|e2: Seq<Seq<Option<usize>>>, x2: Seq<Seq<Option<usize>>>|
            #[trigger] self.solves(e2, x2) ==> forall|b: int|
                0 <= b < self.n() ==> below(#[trigger] entries[b], e2[b]) && below(exits[b], x2[b])
    }
}

/// The held equations have at most one least solution.
pub proof fn law_held_least_unique(p: HeldProblem, e1: Seq<Seq<Option<usize>>>, x1: Seq<Seq<Option<usize>>>, e2: Seq<Seq<Option<usize>>>, x2: Seq<Seq<Option<usize>>>)
    requires
        p.least(e1, x1),
        p.least(e2, x2),
    ensures
        e1 == e2,
        x1 == x2,
{
    assert(p.solves(e2, x2));
    assert(p.solves(e1, x1));
    assert forall|b: int| 0 <= b < p.n() implies e1[b] == e2[b] && x1[b] == x2[b] by {
        assert(below(e1[b], e2[b]) && below(x1[b], x2[b]));
        assert(below(e2[b], e1[b]) && below(x2[b], x1[b]));
        assert(e1[b] =~= e2[b]);
        assert(x1[b] =~= x2[b]);
    }
    assert(e1 =~= e2);
    assert(x1 =~= x2);
}

pub open spec fn count_held(s: Seq<Option<usize>>) -> nat
    decreases s.len(),
{
    if s.len() == 0 {
        0
    } else {
        count_held(s.drop_last()) + if s.last() is Some { 1nat } else { 0nat }
    }
}

pub open spec fn total_held(states: Seq<Seq<Option<usize>>>) -> nat
    decreases states.len(),
{
    if states.len() == 0 {
        0
    } else {
        total_held(states.drop_last()) + count_held(states.last())
    }
}

proof fn lemma_count_held(a: Seq<Option<usize>>, b: Seq<Option<usize>>)
    requires
        below(a, b),
    ensures
        count_held(a) <= count_held(b),
        count_held(b) <= b.len(),
        a != b ==> count_held(a) < count_held(b),
    decreases a.len(),
{
    if a.len() > 0 {
        let (a0, b0) = (a.drop_last(), b.drop_last());
        assert(below(a0, b0)) by {
            assert forall|i: int| 0 <= i < a0.len() && (#[trigger] a0[i]) is Some implies b0[i] == a0[i] by {
                assert(a[i] is Some);
            }
        }
        lemma_count_held(a0, b0);
        if a.last() is Some {
            assert(a[a.len() - 1] is Some);
        }
        if a != b && a0 == b0 && a.last() == b.last() {
            assert(a =~= b) by {
                assert forall|i: int| 0 <= i < a.len() implies a[i] == b[i] by {
                    if i < a.len() - 1 {
                        assert(a[i] == a0[i]);
                        assert(b[i] == b0[i]);
                    }
                }
            }
        }
    } else {
        assert(a =~= b);
    }
}

proof fn lemma_total_held_update(states: Seq<Seq<Option<usize>>>, b: int, s: Seq<Option<usize>>)
    requires
        0 <= b < states.len(),
    ensures
        total_held(states.update(b, s)) + count_held(states[b]) == total_held(states) + count_held(s),
    decreases states.len(),
{
    let t = states.update(b, s);
    if b == states.len() - 1 {
        assert(t.drop_last() =~= states.drop_last());
    } else {
        assert(t.drop_last() =~= states.drop_last().update(b, s));
        lemma_total_held_update(states.drop_last(), b, s);
    }
}

proof fn lemma_total_held_bound(states: Seq<Seq<Option<usize>>>, w: nat)
    requires
        forall|b: int| 0 <= b < states.len() ==> (#[trigger] states[b]).len() == w,
    ensures
        total_held(states) <= states.len() * w,
    decreases states.len(),
{
    if states.len() > 0 {
        lemma_total_held_bound(states.drop_last(), w);
        lemma_count_held(states.last(), states.last());
        assert(total_held(states) <= (states.len() - 1) * w + w);
        assert((states.len() - 1) * w + w == states.len() * w) by (nonlinear_arith);
    }
}

fn empty_state(w: usize) -> (s: Vec<Option<usize>>)
    ensures
        s@ == Seq::new(w as nat, |j: int| None::<usize>),
{
    let mut s: Vec<Option<usize>> = Vec::new();
    let mut j: usize = 0;
    while j < w
        invariant
            j <= w,
            s@ == Seq::new(j as nat, |i: int| None::<usize>),
        decreases w - j,
    {
        s.push(None);
        j = j + 1;
        assert(s@ =~= Seq::new(j as nat, |i: int| None::<usize>));
    }
    s
}

/// The number of births in each of the first `m` blocks, summed: `bases[b]` is the number of
/// births before block `b`.
fn birth_bases(body: &Body) -> (bases: Vec<usize>)
    requires
        birth_count(body.basic_blocks@) <= usize::MAX,
    ensures
        bases@.len() == body.basic_blocks@.len() + 1,
        forall|b: int| 0 <= b <= body.basic_blocks@.len() ==> #[trigger] bases@[b] == births_before(body.basic_blocks@, b),
{
    let ghost blocks = body.basic_blocks@;
    let mut bases: Vec<usize> = Vec::new();
    bases.push(0);
    let mut total: usize = 0;
    let mut b: usize = 0;
    while b < body.basic_blocks.len()
        invariant
            blocks == body.basic_blocks@,
            birth_count(blocks) <= usize::MAX,
            b <= blocks.len(),
            total == births_before(blocks, b as int),
            bases@.len() == b + 1,
            forall|c: int| 0 <= c <= b ==> #[trigger] bases@[c] == births_before(blocks, c),
        decreases blocks.len() - b,
    {
        let stmts = &body.basic_blocks[b].statements;
        proof {
            lemma_births_before_mono(blocks, b + 1, blocks.len() as int);
        }
        let mut i: usize = 0;
        while i < stmts.len()
            invariant
                blocks == body.basic_blocks@,
                b < blocks.len(),
                stmts@ == blocks[b as int].statements@,
                i <= stmts@.len(),
                total == births_before(blocks, b as int) + births_in(stmts@.take(i as int)),
                births_before(blocks, b as int) + births_in(stmts@) <= usize::MAX,
            decreases stmts@.len() - i,
        {
            proof {
                assert(stmts@.take(i + 1).drop_last() =~= stmts@.take(i as int));
                lemma_births_in_take(stmts@, i + 1);
            }
            if is_birth_exec(&stmts[i]) {
                total = total + 1;
            }
            i = i + 1;
        }
        assert(stmts@.take(stmts@.len() as int) =~= stmts@);
        bases.push(total);
        b = b + 1;
    }
    bases
}

/// The least solution of the held equations, by rounds over all blocks until none changes.
fn compute_held(body: &Body, keys: &Vec<Register>, bases: &Vec<usize>) -> (r: (Vec<Vec<Option<usize>>>, Vec<Vec<Option<usize>>>))
    requires
        body.targets_in_range(),
        edge_count(body.basic_blocks@, body.basic_blocks@.len() as int) < usize::MAX,
        regs_view(keys@) == held_keys(*body),
        birth_count(body.basic_blocks@) <= usize::MAX,
        bases@.len() == body.basic_blocks@.len() + 1,
        forall|b: int| 0 <= b <= body.basic_blocks@.len() ==> #[trigger] bases@[b] == births_before(body.basic_blocks@, b),
    ensures
        held_problem(*body).least(states_view(r.0@), states_view(r.1@)),
        forall|b: int| 0 <= b < body.basic_blocks@.len() ==> bounded(#[trigger] r.0@[b]@, birth_count(body.basic_blocks@)),
        forall|b: int| 0 <= b < body.basic_blocks@.len() ==> bounded(#[trigger] r.1@[b]@, birth_count(body.basic_blocks@)),
{
    let ghost blocks = body.basic_blocks@;
    let ghost p = held_problem(*body);
    let ghost kv = regs_view(keys@);
    let ghost m = birth_count(blocks);
    let n = body.basic_blocks.len();
    let w = keys.len();
    let preds = body.predecessors();
    let mut entries: Vec<Vec<Option<usize>>> = Vec::new();
    let mut exits: Vec<Vec<Option<usize>>> = Vec::new();
    let mut i: usize = 0;
    while i < n
        invariant
            i <= n,
            entries@.len() == i,
            exits@.len() == i,
            forall|b: int| 0 <= b < i ==> (#[trigger] entries@[b])@ == Seq::new(w as nat, |j: int| None::<usize>),
            forall|b: int| 0 <= b < i ==> (#[trigger] exits@[b])@ == Seq::new(w as nat, |j: int| None::<usize>),
        decreases n - i,
    {
        entries.push(empty_state(w));
        exits.push(empty_state(w));
        i = i + 1;
    }
    proof {
        let es = states_view(entries@);
        let xs = states_view(exits@);
        assert forall|b: int| 0 <= b < n implies below(#[trigger] es[b], p.entry_of(xs, b)) && below(xs[b], p.step(es[b], b)) by {
            lemma_pred_range(blocks, b);
            lemma_meet_below(p.preds[b], xs, xs, w as nat);
            lemma_block_below(kv, es[b], es[b], blocks[b], births_before(blocks, b));
        }
        assert forall|e2: Seq<Seq<Option<usize>>>, x2: Seq<Seq<Option<usize>>>| #[trigger] p.solves(e2, x2) implies forall|b: int|
            0 <= b < n ==> below(#[trigger] es[b], e2[b]) && below(xs[b], x2[b]) by {
            assert forall|b: int| 0 <= b < n implies below(#[trigger] es[b], e2[b]) && below(xs[b], x2[b]) by {
                assert(e2[b].len() == w && x2[b].len() == w);
            }
        }
        lemma_total_held_bound(es, w as nat);
        lemma_total_held_bound(xs, w as nat);
    }
    let mut changed = true;
    while changed
        invariant
            blocks == body.basic_blocks@,
            n == blocks.len(),
            p == held_problem(*body),
            kv == regs_view(keys@),
            kv == p.keys,
            w == kv.len(),
            m == birth_count(blocks),
            m <= usize::MAX,
            body.targets_in_range(),
            preds.len() == n,
            forall|b: int| 0 <= b < n ==> #[trigger] preds.preds(b) == p.preds[b],
            bases@.len() == n + 1,
            forall|b: int| 0 <= b <= n ==> #[trigger] bases@[b] == births_before(blocks, b),
            entries@.len() == n,
            exits@.len() == n,
            p.shaped(states_view(entries@)),
            p.shaped(states_view(exits@)),
            forall|b: int| 0 <= b < n ==> (#[trigger] entries@[b])@.len() == w,
            forall|b: int| 0 <= b < n ==> (#[trigger] exits@[b])@.len() == w,
            forall|b: int|
                0 <= b < n ==> below(#[trigger] states_view(entries@)[b], p.entry_of(states_view(exits@), b)) && below(
                    states_view(exits@)[b],
                    p.step(states_view(entries@)[b], b),
                ),
            forall|e2: Seq<Seq<Option<usize>>>, x2: Seq<Seq<Option<usize>>>|
                #[trigger] p.solves(e2, x2) ==> forall|b: int|
                    0 <= b < n ==> below(#[trigger] states_view(entries@)[b], e2[b]) && below(states_view(exits@)[b], x2[b]),
            forall|b: int| 0 <= b < n ==> bounded(#[trigger] entries@[b]@, m),
            forall|b: int| 0 <= b < n ==> bounded(#[trigger] exits@[b]@, m),
            !changed ==> p.solves(states_view(entries@), states_view(exits@)),
            total_held(states_view(entries@)) + total_held(states_view(exits@)) <= 2 * (n * w),
        decreases 2 * (n * w) - (total_held(states_view(entries@)) + total_held(states_view(exits@))), if changed { 1int } else { 0int },
    {
        changed = false;
        let ghost start = total_held(states_view(entries@)) + total_held(states_view(exits@));
        let mut id: usize = 0;
        while id < n
            invariant
                blocks == body.basic_blocks@,
                n == blocks.len(),
                p == held_problem(*body),
                kv == regs_view(keys@),
                kv == p.keys,
                w == kv.len(),
                m == birth_count(blocks),
                m <= usize::MAX,
                body.targets_in_range(),
                preds.len() == n,
                forall|b: int| 0 <= b < n ==> #[trigger] preds.preds(b) == p.preds[b],
                bases@.len() == n + 1,
                forall|b: int| 0 <= b <= n ==> #[trigger] bases@[b] == births_before(blocks, b),
                id <= n,
                entries@.len() == n,
                exits@.len() == n,
                p.shaped(states_view(entries@)),
                p.shaped(states_view(exits@)),
                forall|b: int| 0 <= b < n ==> (#[trigger] entries@[b])@.len() == w,
            forall|b: int| 0 <= b < n ==> (#[trigger] exits@[b])@.len() == w,
                forall|b: int|
                    0 <= b < n ==> below(#[trigger] states_view(entries@)[b], p.entry_of(states_view(exits@), b)) && below(
                        states_view(exits@)[b],
                        p.step(states_view(entries@)[b], b),
                    ),
                forall|e2: Seq<Seq<Option<usize>>>, x2: Seq<Seq<Option<usize>>>|
                    #[trigger] p.solves(e2, x2) ==> forall|b: int|
                        0 <= b < n ==> below(#[trigger] states_view(entries@)[b], e2[b]) && below(states_view(exits@)[b], x2[b]),
                forall|b: int| 0 <= b < n ==> bounded(#[trigger] entries@[b]@, m),
            forall|b: int| 0 <= b < n ==> bounded(#[trigger] exits@[b]@, m),
                !changed ==> forall|b: int|
                    0 <= b < id ==> #[trigger] states_view(entries@)[b] == p.entry_of(states_view(exits@), b) && states_view(exits@)[b]
                        == p.step(states_view(entries@)[b], b),
                total_held(states_view(entries@)) + total_held(states_view(exits@)) <= 2 * (n * w),
                start <= total_held(states_view(entries@)) + total_held(states_view(exits@)),
                changed ==> start < total_held(states_view(entries@)) + total_held(states_view(exits@)),
            decreases n - id,
        {
            let ghost e0 = states_view(entries@);
            let ghost x0 = states_view(exits@);
            let bid = BasicBlock::from_usize(id);
            let pred_list = preds.of(bid);
            proof {
                lemma_pred_range(blocks, id as int);
                assert(pred_list@ == p.preds[id as int]);
                assert forall|b: int| 0 <= b < exits@.len() implies (#[trigger] exits@[b])@.len() == w by {}
            }
            let new_entry = held_meet_exec(pred_list, &exits, w);
            assert(states_view(exits@) == x0);
            let ghost ne = new_entry@;
            assert(ne == p.entry_of(x0, id as int));
            proof {
                lemma_births_before_mono(blocks, id + 1, n as int);
                lemma_meet_below(p.preds[id as int], x0, x0, w as nat);
            }
            let new_exit = held_block_exec(keys, &new_entry, &body.basic_blocks[id], bases[id]);
            let ghost nx = new_exit@;
            if !same_state(&entries[id], &new_entry) {
                changed = true;
            }
            if !same_state(&exits[id], &new_exit) {
                changed = true;
            }
            entries.set(id, new_entry);
            exits.set(id, new_exit);
            proof {
                let e1 = states_view(entries@);
                let x1 = states_view(exits@);
                assert(e1 =~= e0.update(id as int, ne));
                assert(x1 =~= x0.update(id as int, nx));
                let base = births_before(blocks, id as int);
                assert(nx == p.step(ne, id as int));
                lemma_block_below(kv, e0[id as int], ne, blocks[id as int], base);
                lemma_below_trans(x0[id as int], p.step(e0[id as int], id as int), nx);
                assert forall|c: int| 0 <= c < n implies below(#[trigger] x0[c], x1[c]) by {
                    if c != id {
                        assert(x1[c] == x0[c]);
                    }
                }
                assert forall|b: int| 0 <= b < n implies below(#[trigger] e1[b], p.entry_of(x1, b)) && below(x1[b], p.step(e1[b], b)) by {
                    lemma_pred_range(blocks, b);
                    lemma_meet_below(p.preds[b], x0, x1, w as nat);
                    if b == id {
                        lemma_block_below(kv, ne, ne, blocks[b], base);
                    } else {
                        assert(e1[b] == e0[b]);
                        assert(x1[b] == x0[b]);
                        lemma_below_trans(e0[b], p.entry_of(x0, b), p.entry_of(x1, b));
                    }
                }
                assert forall|e2: Seq<Seq<Option<usize>>>, x2: Seq<Seq<Option<usize>>>| #[trigger] p.solves(e2, x2) implies forall|b: int|
                    0 <= b < n ==> below(#[trigger] e1[b], e2[b]) && below(x1[b], x2[b]) by {
                    assert forall|b: int| 0 <= b < n implies below(#[trigger] e1[b], e2[b]) && below(x1[b], x2[b]) by {
                        if b == id {
                            lemma_pred_range(blocks, b);
                            assert forall|c: int| 0 <= c < n implies below(#[trigger] x0[c], x2[c]) by {
                                assert(below(e0[c], e2[c]));
                            }
                            lemma_meet_below(p.preds[b], x0, x2, w as nat);
                            assert(e2[b] == p.entry_of(x2, b));
                            lemma_block_below(kv, ne, e2[b], blocks[b], base);
                        } else {
                            assert(e1[b] == e0[b]);
                            assert(x1[b] == x0[b]);
                        }
                    }
                }
                lemma_meet_bounded(p.preds[id as int], x0, w as nat, m);
                lemma_block_bounded(kv, ne, blocks[id as int], base, m);
                assert forall|b: int| 0 <= b < n implies bounded(#[trigger] entries@[b]@, m) by {
                    if b != id {
                        assert(entries@[b]@ == e0[b]);
                    }
                }
                assert forall|b: int| 0 <= b < n implies bounded(#[trigger] exits@[b]@, m) by {
                    if b != id {
                        assert(exits@[b]@ == x0[b]);
                    }
                }
                lemma_count_held(e0[id as int], ne);
                lemma_count_held(x0[id as int], nx);
                lemma_total_held_update(e0, id as int, ne);
                lemma_total_held_update(x0, id as int, nx);
                lemma_total_held_bound(e1, w as nat);
                lemma_total_held_bound(x1, w as nat);
                assert(n * w + n * w == 2 * (n * w));
                if !changed {
                    assert(e1 == e0);
                    assert(x1 == x0);
                }
            }
            id = id + 1;
        }
    }
    (entries, exits)
}

/// Every predecessor of block `b` is a block of the body.
proof fn lemma_pred_range(blocks: Seq<BasicBlockData>, b: int)
    requires
        blocks.len() <= u32::MAX,
    ensures
        forall|k: int|
            0 <= k < preds_among(blocks, blocks.len() as int, BasicBlock(b as u32)).len() ==> (#[trigger] preds_among(
                blocks,
                blocks.len() as int,
                BasicBlock(b as u32),
            )[k]).0 < blocks.len(),
{
    assert forall|k: int| 0 <= k < preds_among(blocks, blocks.len() as int, BasicBlock(b as u32)).len() implies (#[trigger] preds_among(
        blocks,
        blocks.len() as int,
        BasicBlock(b as u32),
    )[k]).0 < blocks.len() by {
        lemma_pred_is_edge(blocks, blocks.len() as int, BasicBlock(b as u32), k);
    }
}

// ---------------------------------------------------------------------------------------------
// Uses: the aliases a place reads through
// ---------------------------------------------------------------------------------------------

/// The register each alias points into, by alias index.
pub open spec fn borrows_view(aliases: Seq<Alias>) -> Seq<(Local, Seq<SubRegisters>)> {
    aliases.map_values(|a: Alias| reg_view(a.borrows))
}

/// The aliases used by reaching, from register `reg`, through the projections `projs`: each
/// dereference goes through the alias the register so far holds, on into the register that
/// alias points into, and the register reached at the end is used too. A dereference of a
/// register that holds nothing ends the walk.
pub open spec fn marks(
    keys: Seq<(Local, Seq<SubRegisters>)>,
    s: Seq<Option<usize>>,
    borrows: Seq<(Local, Seq<SubRegisters>)>,
    reg: (Local, Seq<SubRegisters>),
    projs: Seq<Projection>,
) -> Seq<usize>
    decreases projs.len(),
{
    if projs.len() == 0 {
        match held_get(keys, s, reg) {
            Some(a) => seq![a],
            None => Seq::empty(),
        }
    } else {
        let rest = projs.drop_first();
        match projs[0] {
            Projection::Field(n) => marks(keys, s, borrows, (reg.0, reg.1.push(SubRegisters::Field(n))), rest),
            Projection::ConstantIndex(n) => marks(keys, s, borrows, (reg.0, reg.1.push(SubRegisters::ConstantIndex(n))), rest),
            Projection::Deref => match held_get(keys, s, reg) {
                None => Seq::empty(),
                Some(a) => seq![a] + if (a as int) < borrows.len() {
                    marks(keys, s, borrows, borrows[a as int], rest)
                } else {
                    Seq::empty()
                },
            },
            _ => marks(keys, s, borrows, reg, rest),
        }
    }
}

pub open spec fn place_marks(keys: Seq<(Local, Seq<SubRegisters>)>, s: Seq<Option<usize>>, borrows: Seq<(Local, Seq<SubRegisters>)>, place: Place) -> Seq<usize> {
    marks(keys, s, borrows, (place.local, Seq::empty()), place.projections@)
}

pub open spec fn operand_marks(keys: Seq<(Local, Seq<SubRegisters>)>, s: Seq<Option<usize>>, borrows: Seq<(Local, Seq<SubRegisters>)>, op: Operand) -> Seq<usize> {
    match op {
        Operand::Copy(place) => place_marks(keys, s, borrows, place),
        Operand::Move(place) => place_marks(keys, s, borrows, place),
        Operand::Constant(_) => Seq::empty(),
    }
}

pub open spec fn operands_marks(keys: Seq<(Local, Seq<SubRegisters>)>, s: Seq<Option<usize>>, borrows: Seq<(Local, Seq<SubRegisters>)>, ops: Seq<Operand>) -> Seq<usize>
    decreases ops.len(),
{
    if ops.len() == 0 {
        Seq::empty()
    } else {
        operands_marks(keys, s, borrows, ops.drop_last()) + operand_marks(keys, s, borrows, ops.last())
    }
}

pub open spec fn rvalue_marks(keys: Seq<(Local, Seq<SubRegisters>)>, s: Seq<Option<usize>>, borrows: Seq<(Local, Seq<SubRegisters>)>, rv: Rvalue) -> Seq<usize> {
    match rv {
        Rvalue::Ref { place, .. } => place_marks(keys, s, borrows, place),
        Rvalue::Discriminant(place) => place_marks(keys, s, borrows, place),
        Rvalue::Len(place) => place_marks(keys, s, borrows, place),
        _ => operands_marks(keys, s, borrows, rvalue_operands(rv)),
    }
}

/// The aliases statement `st` uses: a write through a dereference uses the aliases on the way,
/// and so does every place it reads.
pub open spec fn stmt_marks(keys: Seq<(Local, Seq<SubRegisters>)>, s: Seq<Option<usize>>, borrows: Seq<(Local, Seq<SubRegisters>)>, st: Statement) -> Seq<usize> {
    match st.kind {
        StatementKind::Assign(place, rv) => (if has_deref(place) {
            place_marks(keys, s, borrows, place)
        } else {
            Seq::empty()
        }) + rvalue_marks(keys, s, borrows, rv),
        StatementKind::PlaceMention(place) => place_marks(keys, s, borrows, place),
        StatementKind::SetDiscriminant { place, .. } => place_marks(keys, s, borrows, place),
        _ => Seq::empty(),
    }
}

/// The aliases a terminator uses.
pub open spec fn terminator_marks(keys: Seq<(Local, Seq<SubRegisters>)>, s: Seq<Option<usize>>, borrows: Seq<(Local, Seq<SubRegisters>)>, kind: TerminatorKind) -> Seq<usize> {
    match kind {
        TerminatorKind::SwitchInt { .. } => operands_marks(keys, s, borrows, terminator_operands(kind)),
        TerminatorKind::Assert { .. } => operands_marks(keys, s, borrows, terminator_operands(kind)),
        TerminatorKind::Call { destination, .. } => operands_marks(keys, s, borrows, terminator_operands(kind)) + if has_deref(destination) {
            place_marks(keys, s, borrows, destination)
        } else {
            Seq::empty()
        },
        TerminatorKind::Drop { place, .. } => place_marks(keys, s, borrows, place),
        TerminatorKind::DropIso { place, .. } => place_marks(keys, s, borrows, place),
        _ => Seq::empty(),
    }
}

/// Each use, as a step that sets the alias's flag.
pub open spec fn raises(m: Seq<usize>) -> Seq<BitOp> {
    m.map_values(|a: usize| BitOp::Raise(a as u32))
}

proof fn lemma_raises_concat(a: Seq<usize>, b: Seq<usize>)
    ensures
        raises(a + b) == raises(a) + raises(b),
{
    assert(raises(a + b) =~= raises(a) + raises(b));
}

/// Sets the flag of every alias reaching `place` uses.
fn mark_place(keys: &Vec<Register>, held: &Vec<Option<usize>>, aliases: &Vec<Alias>, place: &Place, live: &mut Vec<bool>)
    requires
        held@.len() == keys@.len(),
        bounded(held@, aliases@.len() as nat),
        old(live)@.len() == aliases@.len(),
        aliases@.len() <= u32::MAX,
    ensures
        final(live)@ == run(old(live)@, raises(place_marks(regs_view(keys@), held@, borrows_view(aliases@), *place))),
        final(live)@.len() == old(live)@.len(),
{
    let ghost kv = regs_view(keys@);
    let ghost bv = borrows_view(aliases@);
    let ghost projs = place.projections@;
    let ghost target = run(live@, raises(place_marks(kv, held@, bv, *place)));
    let ghost l_start = live@;
    let mut reg = Register { owner: place.local, subregister: Vec::new() };
    let mut i: usize = 0;
    assert(projs.skip(0) =~= projs);
    assert(reg.subregister@ =~= Seq::<SubRegisters>::empty());
    while i < place.projections.len()
        invariant
            kv == regs_view(keys@),
            bv == borrows_view(aliases@),
            projs == place.projections@,
            held@.len() == keys@.len(),
            bounded(held@, aliases@.len() as nat),
            live@.len() == aliases@.len(),
            aliases@.len() <= u32::MAX,
            i <= projs.len(),
            l_start.len() == aliases@.len(),
            l_start == old(live)@,
            target == run(l_start, raises(place_marks(kv, held@, bv, *place))),
            run(live@, raises(marks(kv, held@, bv, reg_view(reg), projs.skip(i as int)))) == target,
        decreases projs.len() - i,
    {
        let ghost rest = projs.skip(i + 1);
        let ghost here = projs.skip(i as int);
        assert(here.drop_first() =~= rest);
        assert(here[0] == projs[i as int]);
        match place.projections[i] {
            Projection::Field(n) => {
                reg.subregister.push(SubRegisters::Field(n));
            },
            Projection::ConstantIndex(n) => {
                reg.subregister.push(SubRegisters::ConstantIndex(n));
            },
            Projection::Deref => {
                match held_lookup(keys, held, &reg) {
                    None => {
                        assert(marks(kv, held@, bv, reg_view(reg), here) =~= Seq::<usize>::empty());
                        assert(raises(Seq::<usize>::empty()) =~= Seq::<BitOp>::empty());
                        assert(run(live@, Seq::<BitOp>::empty()) == live@);
                        return;
                    },
                    Some(a) => {
                        let ghost l0 = live@;
                        let ghost tail = marks(kv, held@, bv, bv[a as int], rest);
                        proof {
                            lemma_key_index(kv, reg_view(reg));
                            assert(held@[key_index(kv, reg_view(reg))] == Some(a));
                            lemma_raises_concat(seq![a], tail);
                            assert(raises(seq![a]) =~= seq![BitOp::Raise(a as u32)]);
                            lemma_run_concat(l0, seq![BitOp::Raise(a as u32)], raises(tail));
                        }
                        set_bit(live, a as u32);
                        proof {
                            lemma_run_len(l0, seq![BitOp::Raise(a as u32)]);
                        }
                        reg = copy_register(&aliases[a].borrows);
                        assert(reg_view(reg) == bv[a as int]);
                    },
                }
            },
            _ => {},
        }
        i = i + 1;
    }
    assert(projs.skip(projs.len() as int) =~= Seq::<Projection>::empty());
    match held_lookup(keys, held, &reg) {
        Some(a) => {
            proof {
                lemma_key_index(kv, reg_view(reg));
                assert(held@[key_index(kv, reg_view(reg))] == Some(a));
                assert(raises(seq![a]) =~= seq![BitOp::Raise(a as u32)]);
                lemma_run_len(live@, seq![BitOp::Raise(a as u32)]);
            }
            set_bit(live, a as u32);
        },
        None => {
            assert(raises(Seq::<usize>::empty()) =~= Seq::<BitOp>::empty());
        },
    }
}

fn mark_operand(keys: &Vec<Register>, held: &Vec<Option<usize>>, aliases: &Vec<Alias>, op: &Operand, live: &mut Vec<bool>)
    requires
        held@.len() == keys@.len(),
        bounded(held@, aliases@.len() as nat),
        old(live)@.len() == aliases@.len(),
        aliases@.len() <= u32::MAX,
    ensures
        final(live)@ == run(old(live)@, raises(operand_marks(regs_view(keys@), held@, borrows_view(aliases@), *op))),
        final(live)@.len() == old(live)@.len(),
{
    match op {
        Operand::Copy(place) | Operand::Move(place) => mark_place(keys, held, aliases, place, live),
        Operand::Constant(_) => {
            assert(raises(Seq::<usize>::empty()) =~= Seq::<BitOp>::empty());
        },
    }
}

fn mark_operands(keys: &Vec<Register>, held: &Vec<Option<usize>>, aliases: &Vec<Alias>, ops: &Vec<&Operand>, live: &mut Vec<bool>)
    requires
        held@.len() == keys@.len(),
        bounded(held@, aliases@.len() as nat),
        old(live)@.len() == aliases@.len(),
        aliases@.len() <= u32::MAX,
    ensures
        final(live)@ == run(old(live)@, raises(operands_marks(regs_view(keys@), held@, borrows_view(aliases@), ops@.map_values(|o: &Operand| *o)))),
        final(live)@.len() == old(live)@.len(),
{
    let ghost kv = regs_view(keys@);
    let ghost bv = borrows_view(aliases@);
    let ghost all = ops@.map_values(|o: &Operand| *o);
    let ghost l0 = live@;
    let mut i: usize = 0;
    assert(raises(operands_marks(kv, held@, bv, all.take(0))) =~= Seq::<BitOp>::empty());
    while i < ops.len()
        invariant
            kv == regs_view(keys@),
            bv == borrows_view(aliases@),
            all == ops@.map_values(|o: &Operand| *o),
            held@.len() == keys@.len(),
            bounded(held@, aliases@.len() as nat),
            live@.len() == aliases@.len(),
            aliases@.len() <= u32::MAX,
            i <= ops@.len(),
            live@ == run(l0, raises(operands_marks(kv, held@, bv, all.take(i as int)))),
        decreases ops@.len() - i,
    {
        proof {
            assert(all.take(i + 1).drop_last() =~= all.take(i as int));
            assert(all.take(i + 1).last() == *ops@[i as int]);
            lemma_raises_concat(operands_marks(kv, held@, bv, all.take(i as int)), operand_marks(kv, held@, bv, *ops@[i as int]));
            lemma_run_concat(l0, raises(operands_marks(kv, held@, bv, all.take(i as int))), raises(operand_marks(kv, held@, bv, *ops@[i as int])));
        }
        mark_operand(keys, held, aliases, ops[i], live);
        i = i + 1;
    }
    assert(all.take(ops@.len() as int) =~= all);
}

fn mark_rvalue(keys: &Vec<Register>, held: &Vec<Option<usize>>, aliases: &Vec<Alias>, rvalue: &Rvalue, live: &mut Vec<bool>)
    requires
        held@.len() == keys@.len(),
        bounded(held@, aliases@.len() as nat),
        old(live)@.len() == aliases@.len(),
        aliases@.len() <= u32::MAX,
    ensures
        final(live)@ == run(old(live)@, raises(rvalue_marks(regs_view(keys@), held@, borrows_view(aliases@), *rvalue))),
        final(live)@.len() == old(live)@.len(),
{
    match rvalue {
        Rvalue::Ref { place, .. } | Rvalue::Discriminant(place) | Rvalue::Len(place) => {
            mark_place(keys, held, aliases, place, live);
        },
        _ => {
            let ops = rvalue.operands();
            assert(ops@.map_values(|o: &Operand| *o) =~= rvalue_operands(*rvalue));
            mark_operands(keys, held, aliases, &ops, live);
        },
    }
}

fn mark_statement(keys: &Vec<Register>, held: &Vec<Option<usize>>, aliases: &Vec<Alias>, stmt: &Statement, live: &mut Vec<bool>)
    requires
        held@.len() == keys@.len(),
        bounded(held@, aliases@.len() as nat),
        old(live)@.len() == aliases@.len(),
        aliases@.len() <= u32::MAX,
    ensures
        final(live)@ == run(old(live)@, raises(stmt_marks(regs_view(keys@), held@, borrows_view(aliases@), *stmt))),
        final(live)@.len() == old(live)@.len(),
{
    let ghost kv = regs_view(keys@);
    let ghost bv = borrows_view(aliases@);
    let ghost l0 = live@;
    match &stmt.kind {
        StatementKind::Assign(place, rvalue) => {
            let ghost first = if has_deref(*place) { place_marks(kv, held@, bv, *place) } else { Seq::empty() };
            proof {
                lemma_raises_concat(first, rvalue_marks(kv, held@, bv, *rvalue));
                lemma_run_concat(l0, raises(first), raises(rvalue_marks(kv, held@, bv, *rvalue)));
            }
            if contains_deref(place) {
                mark_place(keys, held, aliases, place, live);
            } else {
                assert(raises(first) =~= Seq::<BitOp>::empty());
            }
            mark_rvalue(keys, held, aliases, rvalue, live);
        },
        StatementKind::PlaceMention(place) => {
            mark_place(keys, held, aliases, place, live);
        },
        StatementKind::SetDiscriminant { place, .. } => {
            mark_place(keys, held, aliases, place, live);
        },
        _ => {
            assert(raises(Seq::<usize>::empty()) =~= Seq::<BitOp>::empty());
        },
    }
}

fn mark_terminator(keys: &Vec<Register>, held: &Vec<Option<usize>>, aliases: &Vec<Alias>, kind: &TerminatorKind, live: &mut Vec<bool>)
    requires
        held@.len() == keys@.len(),
        bounded(held@, aliases@.len() as nat),
        old(live)@.len() == aliases@.len(),
        aliases@.len() <= u32::MAX,
    ensures
        final(live)@ == run(old(live)@, raises(terminator_marks(regs_view(keys@), held@, borrows_view(aliases@), *kind))),
        final(live)@.len() == old(live)@.len(),
{
    let ghost kv = regs_view(keys@);
    let ghost bv = borrows_view(aliases@);
    let ghost l0 = live@;
    match kind {
        TerminatorKind::SwitchInt { .. } | TerminatorKind::Assert { .. } => {
            let ops = kind.operands();
            assert(ops@.map_values(|o: &Operand| *o) =~= terminator_operands(*kind));
            mark_operands(keys, held, aliases, &ops, live);
        },
        TerminatorKind::Call { destination, .. } => {
            let ops = kind.operands();
            assert(ops@.map_values(|o: &Operand| *o) =~= terminator_operands(*kind));
            let ghost first = operands_marks(kv, held@, bv, terminator_operands(*kind));
            let ghost second = if has_deref(*destination) { place_marks(kv, held@, bv, *destination) } else { Seq::empty() };
            proof {
                lemma_raises_concat(first, second);
                lemma_run_concat(l0, raises(first), raises(second));
            }
            mark_operands(keys, held, aliases, &ops, live);
            if contains_deref(destination) {
                mark_place(keys, held, aliases, destination, live);
            } else {
                assert(raises(second) =~= Seq::<BitOp>::empty());
            }
        },
        TerminatorKind::Drop { place, .. } | TerminatorKind::DropIso { place, .. } => {
            mark_place(keys, held, aliases, place, live);
        },
        _ => {
            assert(raises(Seq::<usize>::empty()) =~= Seq::<BitOp>::empty());
        },
    }
}

// ---------------------------------------------------------------------------------------------
// Liveness: the aliases some later use still reads through
// ---------------------------------------------------------------------------------------------

/// Statement `st` in the backward walk: the alias `a` it gives birth to, if it is a birth, is
/// dead before it, and the aliases it uses are live.
pub open spec fn stmt_live_ops(keys: Seq<(Local, Seq<SubRegisters>)>, s: Seq<Option<usize>>, borrows: Seq<(Local, Seq<SubRegisters>)>, st: Statement, a: usize) -> Seq<BitOp> {
    (if is_birth(st) {
        seq![BitOp::Clear(a as u32)]
    } else {
        Seq::empty()
    }) + raises(stmt_marks(keys, s, borrows, st))
}

/// The backward walk of `block` from its end down to statement `p`: the terminator's uses,
/// then each statement from the last down to `p`, each against the held state before it.
pub open spec fn live_ops_from(
    keys: Seq<(Local, Seq<SubRegisters>)>,
    entry: Seq<Option<usize>>,
    borrows: Seq<(Local, Seq<SubRegisters>)>,
    block: BasicBlockData,
    base: nat,
    p: int,
) -> Seq<BitOp>
    decreases block.statements@.len() - p,
{
    let stmts = block.statements@;
    if p < 0 || p >= stmts.len() {
        raises(terminator_marks(keys, held_run(keys, entry, stmts, base), borrows, block.terminator.kind))
    } else {
        live_ops_from(keys, entry, borrows, block, base, p + 1) + stmt_live_ops(
            keys,
            held_run(keys, entry, stmts.take(p), base),
            borrows,
            stmts[p],
            (base + births_in(stmts.take(p))) as usize,
        )
    }
}

/// The aliases live at point `p` of `block` (before statement `p`, or before the terminator
/// when `p` is the number of statements), from `exit` live at its end. An alias is live right
/// after its birth.
pub open spec fn live_point(
    keys: Seq<(Local, Seq<SubRegisters>)>,
    entry: Seq<Option<usize>>,
    borrows: Seq<(Local, Seq<SubRegisters>)>,
    block: BasicBlockData,
    base: nat,
    exit: Seq<bool>,
    p: int,
) -> Seq<bool> {
    let cur = run(exit, live_ops_from(keys, entry, borrows, block, base, p));
    let stmts = block.statements@;
    if 0 < p <= stmts.len() && is_birth(stmts[p - 1]) {
        cur.update((base + births_in(stmts.take(p - 1))) as int, true)
    } else {
        cur
    }
}

/// The live aliases at each point of `block`, from `exit` at its end.
fn live_points(
    keys: &Vec<Register>,
    entry: &Vec<Option<usize>>,
    held_states: &Vec<Vec<Option<usize>>>,
    aliases: &Vec<Alias>,
    block: &BasicBlockData,
    base: usize,
    end: usize,
    exit: &Vec<bool>,
) -> (pts: Vec<Vec<bool>>)
    requires
        entry@.len() == keys@.len(),
        held_states@.len() == block.statements@.len() + 1,
        forall|i: int|
            0 <= i <= block.statements@.len() ==> (#[trigger] held_states@[i])@ == held_run(
                regs_view(keys@),
                entry@,
                block.statements@.take(i),
                base as nat,
            ),
        forall|i: int| 0 <= i <= block.statements@.len() ==> bounded(#[trigger] held_states@[i]@, aliases@.len() as nat),
        end == base + births_in(block.statements@),
        end <= aliases@.len(),
        aliases@.len() <= u32::MAX,
        exit@.len() == aliases@.len(),
    ensures
        pts@.len() == block.statements@.len() + 1,
        forall|p: int|
            0 <= p <= block.statements@.len() ==> (#[trigger] pts@[p])@ == live_point(
                regs_view(keys@),
                entry@,
                borrows_view(aliases@),
                *block,
                base as nat,
                exit@,
                p,
            ),
{
    let ghost kv = regs_view(keys@);
    let ghost bv = borrows_view(aliases@);
    let stmts = &block.statements;
    let len = stmts.len();
    proof {
        assert forall|i: int| 0 <= i <= len implies (#[trigger] held_states@[i])@.len() == keys@.len() by {
            lemma_run_below(kv, entry@, entry@, stmts@.take(i), base as nat);
        }
    }
    let mut pts: Vec<Vec<bool>> = Vec::new();
    let total = held_states.len();
    let mut k: usize = 0;
    while k <= len
        invariant
            total == len + 1,
            k <= len + 1,
            pts@.len() == k,
        decreases len + 1 - k,
    {
        pts.push(Vec::new());
        k = k + 1;
    }
    let mut current = copy_bits(exit);
    assert(stmts@.take(len as int) =~= stmts@);
    mark_terminator(keys, &held_states[len], aliases, &block.terminator.kind, &mut current);
    let mut idx: usize = len;
    let mut count: usize = end;
    proof {
        assert(current@ == run(exit@, live_ops_from(kv, entry@, bv, *block, base as nat, len as int)));
    }
    while idx > 0
        invariant
            kv == regs_view(keys@),
            bv == borrows_view(aliases@),
            stmts@ == block.statements@,
            len == stmts@.len(),
            entry@.len() == keys@.len(),
            held_states@.len() == len + 1,
            forall|i: int| 0 <= i <= len ==> (#[trigger] held_states@[i])@ == held_run(kv, entry@, stmts@.take(i), base as nat),
            forall|i: int| 0 <= i <= len ==> (#[trigger] held_states@[i])@.len() == keys@.len(),
            forall|i: int| 0 <= i <= len ==> bounded(#[trigger] held_states@[i]@, aliases@.len() as nat),
            end == base + births_in(stmts@),
            end <= aliases@.len(),
            aliases@.len() <= u32::MAX,
            exit@.len() == aliases@.len(),
            idx <= len,
            count == base + births_in(stmts@.take(idx as int)),
            current@ == run(exit@, live_ops_from(kv, entry@, bv, *block, base as nat, idx as int)),
            current@.len() == aliases@.len(),
            pts@.len() == len + 1,
            forall|p: int| idx < p <= len ==> (#[trigger] pts@[p])@ == live_point(kv, entry@, bv, *block, base as nat, exit@, p),
        decreases idx,
    {
        let i = idx - 1;
        let ghost cur_next = current@;
        let mut pending = copy_bits(&current);
        proof {
            assert(stmts@.take(i + 1).drop_last() =~= stmts@.take(i as int));
            assert(stmts@.take(i + 1).last() == stmts@[i as int]);
            lemma_births_in_take(stmts@, i + 1);
            lemma_births_in_take(stmts@.take(i + 1), i as int);
            assert(stmts@.take(i + 1).take(i as int) =~= stmts@.take(i as int));
        }
        let ghost a = (base + births_in(stmts@.take(i as int))) as usize;
        let ghost marks_ops = raises(stmt_marks(kv, held_states@[i as int]@, bv, stmts@[i as int]));
        let ghost lead = if is_birth(stmts@[i as int]) { seq![BitOp::Clear(a as u32)] } else { Seq::<BitOp>::empty() };
        proof {
            assert(live_ops_from(kv, entry@, bv, *block, base as nat, i as int) == live_ops_from(kv, entry@, bv, *block, base as nat, idx as int)
                + (lead + marks_ops));
            lemma_run_concat(exit@, live_ops_from(kv, entry@, bv, *block, base as nat, idx as int), lead + marks_ops);
            lemma_run_concat(cur_next, lead, marks_ops);
        }
        if is_birth_exec(&stmts[i]) {
            count = count - 1;
            assert(count == a);
            clear_bit(&mut current, count as u32);
            pending.set(count, true);
        } else {
            assert(count == a);
            assert(lead =~= Seq::<BitOp>::empty());
        }
        proof {
            lemma_run_len(cur_next, lead);
        }
        pts.set(idx, pending);
        mark_statement(keys, &held_states[i], aliases, &stmts[i], &mut current);
        idx = i;
    }
    pts.set(0, current);
    pts
}

fn negated(v: &Vec<bool>) -> (r: Vec<bool>)
    ensures
        r@ == Seq::new(v@.len(), |i: int| !v@[i]),
{
    let mut r: Vec<bool> = Vec::new();
    let mut i: usize = 0;
    while i < v.len()
        invariant
            i <= v@.len(),
            r@ == Seq::new(i as nat, |j: int| !v@[j]),
        decreases v@.len() - i,
    {
        r.push(!v[i]);
        i = i + 1;
        assert(r@ =~= Seq::new(i as nat, |j: int| !v@[j]));
    }
    r
}

fn bits_of(width: usize, value: bool) -> (r: Vec<bool>)
    ensures
        r@ == Seq::new(width as nat, |i: int| value),
{
    let mut r: Vec<bool> = Vec::new();
    let mut i: usize = 0;
    while i < width
        invariant
            i <= width,
            r@ == Seq::new(i as nat, |j: int| value),
        decreases width - i,
    {
        r.push(value);
        i = i + 1;
        assert(r@ =~= Seq::new(i as nat, |j: int| value));
    }
    r
}

// ---------------------------------------------------------------------------------------------
// Lifetimes
// ---------------------------------------------------------------------------------------------

/// How long each borrow of a body lives.
#[derive(Clone, Debug)]
pub struct Lifetimes {
    /// The aliases, in body order of their births.
    pub aliases: Vec<Alias>,
    /// For each block, for each alias: the points of the block from the first at which the
    /// alias is live to just past the last, if it is live at any. Point `p` is the one before
    /// statement `p`, or before the terminator when `p` is the number of statements.
    pub live_ranges: Vec<Vec<Option<(usize, usize)>>>,
}

/// The backward liveness equations of `body`, given the held state at each block's entry: a
/// block's live set at its end is the union of its successors' at their starts.
pub open spec fn live_problem(body: Body, entries: Seq<Seq<Option<usize>>>, aliases: Seq<Alias>) -> Problem {
    let blocks = body.basic_blocks@;
    let n = blocks.len();
    let w = aliases.len();
    let keys = held_keys(body);
    let bv = borrows_view(aliases);
    Problem {
        preds: Seq::new(n, |b: int| block_successors(blocks, b)),
        width: w,
        meet: Meet::Union,
        init: Seq::new(w, |i: int| false),
        gens: Seq::new(n, |b: int| run(Seq::new(w, |i: int| false), live_ops_from(keys, entries[b], bv, blocks[b], births_before(blocks, b), 0))),
        kills: Seq::new(
            n,
            |b: int|
                Seq::new(
                    w,
                    |i: int| !run(Seq::new(w, |j: int| true), live_ops_from(keys, entries[b], bv, blocks[b], births_before(blocks, b), 0))[i],
                ),
        ),
    }
}

/// The held state at point `i` of block `b`, from the entry states `entries`.
pub open spec fn held_at(body: Body, entries: Seq<Seq<Option<usize>>>, b: int, i: int) -> Seq<Option<usize>> {
    let blocks = body.basic_blocks@;
    held_run(held_keys(body), entries[b], blocks[b].statements@.take(i), births_before(blocks, b))
}

/// The held states of block `b`: at each of its points, then at its exit.
pub open spec fn block_held_points(body: Body, entries: Seq<Seq<Option<usize>>>, exits: Seq<Seq<Option<usize>>>, b: int) -> Seq<Seq<Option<usize>>> {
    Seq::new(body.basic_blocks@[b].statements@.len() + 1, |i: int| held_at(body, entries, b, i)).push(exits[b])
}

/// The held states of the first `m` blocks, block by block.
pub open spec fn held_points(body: Body, entries: Seq<Seq<Option<usize>>>, exits: Seq<Seq<Option<usize>>>, m: int) -> Seq<Seq<Option<usize>>>
    decreases m,
{
    if m <= 0 {
        Seq::empty()
    } else {
        held_points(body, entries, exits, m - 1) + block_held_points(body, entries, exits, m - 1)
    }
}

/// Register `r` holds alias `a` in some held state of the body.
pub open spec fn holds_somewhere(body: Body, entries: Seq<Seq<Option<usize>>>, exits: Seq<Seq<Option<usize>>>, a: usize, r: (Local, Seq<SubRegisters>)) -> bool {
    let pts = held_points(body, entries, exits, body.basic_blocks@.len() as int);
    let keys = held_keys(body);
    exists|t: int, j: int| 0 <= t < pts.len() && 0 <= j < keys.len() && keys[j] == r && #[trigger] pts[t][j] == Some(a)
}

/// From the first true point of `alive` to just past the last, if there is one.
pub open spec fn range_of(alive: Seq<bool>) -> Option<(usize, usize)>
    decreases alive.len(),
{
    if alive.len() == 0 {
        None
    } else {
        let prev = range_of(alive.drop_last());
        if alive.last() {
            match prev {
                Some((start, _)) => Some((start, alive.len() as usize)),
                None => Some(((alive.len() - 1) as usize, alive.len() as usize)),
            }
        } else {
            prev
        }
    }
}

/// Whether alias `a` is live at point `p` of block `b`: one a `with` block lends while some
/// register holds it, any other while some later use reads through it.
pub open spec fn alive_at(body: Body, entries: Seq<Seq<Option<usize>>>, live: Seq<Seq<bool>>, aliases: Seq<Alias>, b: int, a: int, p: int) -> bool {
    let keys = held_keys(body);
    let blocks = body.basic_blocks@;
    if aliases[a].with_lend {
        exists|j: int| 0 <= j < keys.len() && #[trigger] held_at(body, entries, b, p)[j] == Some(a as usize)
    } else {
        live_point(
            keys,
            entries[b],
            borrows_view(aliases),
            blocks[b],
            births_before(blocks, b),
            live_problem(body, entries, aliases).entry_of(live, b),
            p,
        )[a]
    }
}

pub open spec fn alive_seq(body: Body, entries: Seq<Seq<Option<usize>>>, live: Seq<Seq<bool>>, aliases: Seq<Alias>, b: int, a: int) -> Seq<bool> {
    Seq::new(body.basic_blocks@[b].statements@.len() + 1, |p: int| alive_at(body, entries, live, aliases, b, a, p))
}

/// `lt` is what the analyses give with held entry and exit states `entries` and `exits` and
/// live sets `live` at block starts.
pub open spec fn lifetimes_from(body: Body, entries: Seq<Seq<Option<usize>>>, exits: Seq<Seq<Option<usize>>>, live: Seq<Seq<bool>>, lt: Lifetimes) -> bool {
    let blocks = body.basic_blocks@;
    let n = blocks.len();
    let al = lt.aliases@;
    &&& al.len() == birth_count(blocks)
    &&& forall|b: int, i: int|
        0 <= b < n && 0 <= i < blocks[b].statements@.len() && is_birth(#[trigger] blocks[b].statements@[i]) ==> born_as(
            al[birth_index(blocks, b, i) as int],
            blocks[b].statements@,
            i,
        )
    &&& forall|a: int| 0 <= a < al.len() ==> regs_view((#[trigger] al[a]).attached@).no_duplicates()
    &&& forall|a: int, r: (Local, Seq<SubRegisters>)|
        0 <= a < al.len() ==> (#[trigger] regs_view(al[a].attached@).contains(r) <==> holds_somewhere(body, entries, exits, a as usize, r))
    &&& lt.live_ranges@.len() == n
    &&& forall|b: int| 0 <= b < n ==> (#[trigger] lt.live_ranges@[b])@.len() == al.len()
    &&& forall|b: int, a: int|
        0 <= b < n && 0 <= a < al.len() ==> #[trigger] lt.live_ranges@[b]@[a] == range_of(alive_seq(body, entries, live, al, b, a))
}

/// `lt` is the lifetimes of `body`: what the least solutions of both analyses give.
pub open spec fn lifetimes_of(body: Body, lt: Lifetimes) -> bool {
    exists|entries: Seq<Seq<Option<usize>>>, exits: Seq<Seq<Option<usize>>>, live: Seq<Seq<bool>>|
        #![trigger held_problem(body).least(entries, exits), live_problem(body, entries, lt.aliases@).least(live)]
        held_problem(body).least(entries, exits) && live_problem(body, entries, lt.aliases@).least(live) && lifetimes_from(
            body,
            entries,
            exits,
            live,
            lt,
        )
}

/// A borrow that no `with` block lends is live at the point right after the statement that
/// creates it, used or not.
pub proof fn law_live_right_after_birth(body: Body, entries: Seq<Seq<Option<usize>>>, live: Seq<Seq<bool>>, al: Seq<Alias>, b: int, i: int)
    requires
        body.targets_in_range(),
        live_problem(body, entries, al).solves(live),
        al.len() == birth_count(body.basic_blocks@),
        0 <= b < body.basic_blocks@.len(),
        0 <= i < body.basic_blocks@[b].statements@.len(),
        is_birth(body.basic_blocks@[b].statements@[i]),
        !al[birth_index(body.basic_blocks@, b, i) as int].with_lend,
    ensures
        alive_at(body, entries, live, al, b, birth_index(body.basic_blocks@, b, i) as int, i + 1),
        alive_seq(body, entries, live, al, b, birth_index(body.basic_blocks@, b, i) as int)[i + 1],
{
    let blocks = body.basic_blocks@;
    let lp = live_problem(body, entries, al);
    let a = birth_index(blocks, b, i);
    lemma_birth_index_bound(blocks, b, i);
    assert(blocks[b].statements@.take(i + 1 - 1) =~= blocks[b].statements@.take(i));
    assert(lp.wf()) by {
        assert forall|c: int, k: int| 0 <= c < lp.n() && 0 <= k < lp.preds[c].len() implies (#[trigger] lp.preds[c][k]).0 < lp.n() by {
            assert(lp.preds[c] == block_successors(blocks, c));
        }
        assert forall|c: int| 0 <= c < lp.n() implies (#[trigger] lp.gens[c]).len() == lp.width by {
            lemma_run_len(
                Seq::new(al.len(), |j: int| false),
                live_ops_from(held_keys(body), entries[c], borrows_view(al), blocks[c], births_before(blocks, c), 0),
            );
        }
        assert forall|c: int| 0 <= c < lp.n() implies (#[trigger] lp.kills[c]).len() == lp.width by {}
    }
    crate::mir::checks::lattice::lemma_entry_len(lp, live, b);
    lemma_run_len(
        lp.entry_of(live, b),
        live_ops_from(held_keys(body), entries[b], borrows_view(al), blocks[b], births_before(blocks, b), i + 1),
    );
}

/// What the analyses need of a body: edges inside it, and aliases numbered by `u32`.
pub open spec fn lifetimes_computable(body: Body) -> bool {
    &&& body.targets_in_range()
    &&& edge_count(body.basic_blocks@, body.basic_blocks@.len() as int) < usize::MAX
    &&& birth_count(body.basic_blocks@) <= u32::MAX
}

fn range_scan(alive: &Vec<bool>) -> (r: Option<(usize, usize)>)
    ensures
        r == range_of(alive@),
{
    let mut r: Option<(usize, usize)> = None;
    let mut p: usize = 0;
    while p < alive.len()
        invariant
            p <= alive@.len(),
            r == range_of(alive@.take(p as int)),
        decreases alive@.len() - p,
    {
        assert(alive@.take(p + 1).drop_last() =~= alive@.take(p as int));
        if alive[p] {
            r = match r {
                Some((start, _)) => Some((start, p + 1)),
                None => Some((p, p + 1)),
            };
        }
        p = p + 1;
    }
    assert(alive@.take(alive@.len() as int) =~= alive@);
    r
}

fn holds_alias(state: &Vec<Option<usize>>, a: usize) -> (r: bool)
    ensures
        r == exists|j: int| 0 <= j < state@.len() && #[trigger] state@[j] == Some(a),
{
    let mut j: usize = 0;
    while j < state.len()
        invariant
            j <= state@.len(),
            forall|i: int| 0 <= i < j ==> state@[i] != Some(a),
        decreases state@.len() - j,
    {
        if let Some(x) = state[j] {
            if x == a {
                return true;
            }
        }
        j = j + 1;
    }
    false
}

/// The registers among `keys` that hold alias `a` in some state of `points`, each once.
fn attached_to(keys: &Vec<Register>, points: &Vec<Vec<Option<usize>>>, a: usize) -> (row: Vec<Register>)
    requires
        forall|t: int| 0 <= t < points@.len() ==> (#[trigger] points@[t])@.len() == keys@.len(),
    ensures
        regs_view(row@).no_duplicates(),
        forall|r: (Local, Seq<SubRegisters>)|
            regs_view(row@).contains(r) <==> exists|t: int, j: int|
                0 <= t < points@.len() && 0 <= j < keys@.len() && regs_view(keys@)[j] == r && #[trigger] points@[t]@[j] == Some(a),
{
    let ghost kv = regs_view(keys@);
    let mut row: Vec<Register> = Vec::new();
    let mut t: usize = 0;
    while t < points.len()
        invariant
            kv == regs_view(keys@),
            forall|q: int| 0 <= q < points@.len() ==> (#[trigger] points@[q])@.len() == keys@.len(),
            t <= points@.len(),
            regs_view(row@).no_duplicates(),
            forall|r: (Local, Seq<SubRegisters>)|
                regs_view(row@).contains(r) <==> exists|q: int, j: int|
                    0 <= q < t && 0 <= j < keys@.len() && kv[j] == r && #[trigger] points@[q]@[j] == Some(a),
        decreases points@.len() - t,
    {
        let state = &points[t];
        let mut j: usize = 0;
        while j < keys.len()
            invariant
                kv == regs_view(keys@),
                forall|q: int| 0 <= q < points@.len() ==> (#[trigger] points@[q])@.len() == keys@.len(),
                t < points@.len(),
                state@ == points@[t as int]@,
                j <= keys@.len(),
                regs_view(row@).no_duplicates(),
                forall|r: (Local, Seq<SubRegisters>)|
                    regs_view(row@).contains(r) <==> (exists|q: int, i: int|
                        0 <= q < t && 0 <= i < keys@.len() && kv[i] == r && #[trigger] points@[q]@[i] == Some(a)) || (exists|i: int|
                        0 <= i < j && kv[i] == r && #[trigger] points@[t as int]@[i] == Some(a)),
            decreases keys@.len() - j,
        {
            let here = match state[j] {
                Some(x) => x == a,
                None => false,
            };
            let ghost old_row = regs_view(row@);
            if here && !has_register(&row, &keys[j]) {
                row.push(copy_register(&keys[j]));
                proof {
                    assert(regs_view(row@) =~= old_row.push(kv[j as int]));
                    assert forall|x: int, y: int| 0 <= x < y < regs_view(row@).len() implies regs_view(row@)[x] != regs_view(row@)[y] by {
                        if y == old_row.len() {
                            assert(old_row[x] == regs_view(row@)[x]);
                        }
                    }
                }
            }
            proof {
                let new_row = regs_view(row@);
                assert(here <==> points@[t as int]@[j as int] == Some(a));
                assert forall|r: (Local, Seq<SubRegisters>)| new_row.contains(r) <==> old_row.contains(r) || (here && r == kv[j as int]) by {
                    if new_row.contains(r) && !old_row.contains(r) {
                        let k = choose|k: int| 0 <= k < new_row.len() && #[trigger] new_row[k] == r;
                        if new_row.len() == old_row.len() {
                            assert(new_row == old_row);
                        } else {
                            assert(new_row == old_row.push(kv[j as int]));
                            if k < old_row.len() {
                                assert(old_row[k] == r);
                            }
                        }
                    }
                    if old_row.contains(r) {
                        let k = choose|k: int| 0 <= k < old_row.len() && #[trigger] old_row[k] == r;
                        if new_row.len() != old_row.len() {
                            assert(new_row == old_row.push(kv[j as int]));
                            assert(new_row[k] == r);
                        } else {
                            assert(new_row == old_row);
                        }
                    }
                    if here && r == kv[j as int] && !old_row.contains(r) {
                        assert(new_row == old_row.push(kv[j as int]));
                        assert(new_row[new_row.len() - 1] == r);
                    }
                }
                assert forall|r: (Local, Seq<SubRegisters>)|
                    new_row.contains(r) <==> (exists|q: int, i: int|
                        0 <= q < t && 0 <= i < keys@.len() && kv[i] == r && #[trigger] points@[q]@[i] == Some(a)) || (exists|i: int|
                        0 <= i < j + 1 && kv[i] == r && #[trigger] points@[t as int]@[i] == Some(a)) by {
                    if exists|i: int| 0 <= i < j + 1 && kv[i] == r && #[trigger] points@[t as int]@[i] == Some(a) {
                        let i = choose|i: int| 0 <= i < j + 1 && kv[i] == r && #[trigger] points@[t as int]@[i] == Some(a);
                        if i == j {
                            assert(here && r == kv[j as int]);
                        } else {
                            assert(old_row.contains(r));
                        }
                    }
                    if here && r == kv[j as int] {
                        assert(kv[j as int] == r && points@[t as int]@[j as int] == Some(a));
                    }
                }
            }
            j = j + 1;
        }
        t = t + 1;
    }
    row
}

/// How long each borrow of `body` lives.
pub fn compute_lifetimes(body: &Body) -> (lt: Lifetimes)
    requires
        lifetimes_computable(*body),
    ensures
        lifetimes_of(*body, lt),
{
    let ghost blocks = body.basic_blocks@;
    let births = collect_alias_births(body);
    let keys = held_keys_of(body);
    let bases = birth_bases(body);
    let (entries, exits) = compute_held(body, &keys, &bases);
    let ghost kv = regs_view(keys@);
    let ghost es = states_view(entries@);
    let ghost xs = states_view(exits@);
    let ghost bv = borrows_view(births@);
    let n = body.basic_blocks.len();
    let w = births.len();
    proof {
        assert forall|b: int| 0 <= b < n implies (#[trigger] entries@[b])@.len() == keys@.len() by {
            assert(es[b] == entries@[b]@);
        }
        assert forall|b: int| 0 <= b < n implies (#[trigger] exits@[b])@.len() == keys@.len() by {
            assert(xs[b] == exits@[b]@);
        }
    }
    // The held state at each point of each block, and every held state in one list.
    let mut through: Vec<Vec<Vec<Option<usize>>>> = Vec::new();
    let mut points: Vec<Vec<Option<usize>>> = Vec::new();
    let mut b: usize = 0;
    while b < n
        invariant
            blocks == body.basic_blocks@,
            n == blocks.len(),
            kv == regs_view(keys@),
            kv == held_keys(*body),
            es == states_view(entries@),
            xs == states_view(exits@),
            entries@.len() == n,
            exits@.len() == n,
            forall|c: int| 0 <= c < n ==> (#[trigger] entries@[c])@.len() == keys@.len(),
            forall|c: int| 0 <= c < n ==> (#[trigger] exits@[c])@.len() == keys@.len(),
            birth_count(blocks) <= u32::MAX,
            w == birth_count(blocks),
            bases@.len() == n + 1,
            forall|c: int| 0 <= c <= n ==> #[trigger] bases@[c] == births_before(blocks, c),
            forall|c: int| 0 <= c < n ==> bounded(#[trigger] entries@[c]@, w as nat),
            b <= n,
            through@.len() == b,
            forall|c: int| 0 <= c < b ==> (#[trigger] through@[c])@.len() == blocks[c].statements@.len() + 1,
            forall|c: int, i: int|
                0 <= c < b && 0 <= i <= blocks[c].statements@.len() ==> (#[trigger] through@[c]@[i])@ == held_at(*body, es, c, i),
            states_view(points@) == held_points(*body, es, xs, b as int),
        decreases n - b,
    {
        proof {
            lemma_births_before_mono(blocks, b + 1, n as int);
        }
        let st = held_through(&keys, &entries[b], &body.basic_blocks[b], bases[b]);
        let ghost before = states_view(points@);
        let mut i: usize = 0;
        while i < st.len()
            invariant
                st@.len() == blocks[b as int].statements@.len() + 1,
                forall|k: int| 0 <= k < st@.len() ==> (#[trigger] st@[k])@ == held_at(*body, es, b as int, k),
                i <= st@.len(),
                states_view(points@) == before + Seq::new(i as nat, |k: int| held_at(*body, es, b as int, k)),
            decreases st@.len() - i,
        {
            let ghost prev = states_view(points@);
            assert(st@[i as int]@ == held_at(*body, es, b as int, i as int));
            points.push(copy_state(&st[i]));
            assert(states_view(points@) =~= prev.push(held_at(*body, es, b as int, i as int)));
            i = i + 1;
            assert(states_view(points@) =~= before + Seq::new(i as nat, |k: int| held_at(*body, es, b as int, k)));
        }
        let ghost mid = states_view(points@);
        points.push(copy_state(&exits[b]));
        proof {
            let len = blocks[b as int].statements@.len();
            assert(xs[b as int] == exits@[b as int]@);
            assert(states_view(points@) =~= mid.push(xs[b as int]));
            assert(mid == before + Seq::new((len + 1) as nat, |k: int| held_at(*body, es, b as int, k)));
            assert(block_held_points(*body, es, xs, b as int) == Seq::new((len + 1) as nat, |k: int| held_at(*body, es, b as int, k)).push(
                xs[b as int],
            ));
            assert(held_points(*body, es, xs, b + 1) == before + block_held_points(*body, es, xs, b as int));
            assert(states_view(points@) =~= held_points(*body, es, xs, b + 1));
        }
        through.push(st);
        b = b + 1;
    }
    // The liveness equations: each block's uses against its held states.
    let mut transfers: Vec<Transfer> = Vec::new();
    let mut reads: Vec<Vec<BasicBlock>> = Vec::new();
    let none = bits_of(w, false);
    let all = bits_of(w, true);
    let mut b: usize = 0;
    while b < n
        invariant
            blocks == body.basic_blocks@,
            n == blocks.len(),
            body.targets_in_range(),
            kv == regs_view(keys@),
            kv == held_keys(*body),
            es == states_view(entries@),
            bv == borrows_view(births@),
            entries@.len() == n,
            forall|c: int| 0 <= c < n ==> (#[trigger] entries@[c])@.len() == keys@.len(),
            w == births@.len(),
            w <= u32::MAX,
            w == birth_count(blocks),
            none@ == Seq::new(w as nat, |i: int| false),
            all@ == Seq::new(w as nat, |i: int| true),
            bases@.len() == n + 1,
            forall|c: int| 0 <= c <= n ==> #[trigger] bases@[c] == births_before(blocks, c),
            through@.len() == n,
            forall|c: int| 0 <= c < n ==> (#[trigger] through@[c])@.len() == blocks[c].statements@.len() + 1,
            forall|c: int, i: int|
                0 <= c < n && 0 <= i <= blocks[c].statements@.len() ==> (#[trigger] through@[c]@[i])@ == held_at(*body, es, c, i),
            forall|c: int| 0 <= c < n ==> bounded(#[trigger] entries@[c]@, w as nat),
            b <= n,
            transfers@.len() == b,
            reads@.len() == b,
            forall|c: int| 0 <= c < b ==> (#[trigger] reads@[c])@ == block_successors(blocks, c),
            forall|c: int|
                0 <= c < b ==> (#[trigger] transfers@[c]).gen@ == live_problem(*body, es, births@).gens[c] && transfers@[c].kill@
                    == live_problem(*body, es, births@).kills[c],
        decreases n - b,
    {
        let ghost base = births_before(blocks, b as int);
        proof {
            lemma_births_before_mono(blocks, b + 1, n as int);
            assert forall|i: int| 0 <= i <= blocks[b as int].statements@.len() implies bounded(#[trigger] through@[b as int]@[i]@, w as nat) by {
                lemma_births_in_take(blocks[b as int].statements@, i);
                assert(es[b as int] == entries@[b as int]@);
                assert(bounded(entries@[b as int]@, w as nat));
                lemma_run_bounded(kv, es[b as int], blocks[b as int].statements@.take(i), base, w as nat);
            }
            assert forall|i: int| 0 <= i <= blocks[b as int].statements@.len() implies (#[trigger] through@[b as int]@[i])@ == held_run(
                kv,
                entries@[b as int]@,
                blocks[b as int].statements@.take(i),
                bases@[b as int] as nat,
            ) by {
                assert(es[b as int] == entries@[b as int]@);
            }
        }
        let g = live_points(&keys, &entries[b], &through[b], &births, &body.basic_blocks[b], bases[b], bases[b + 1], &none);
        let k = live_points(&keys, &entries[b], &through[b], &births, &body.basic_blocks[b], bases[b], bases[b + 1], &all);
        let gen = copy_bits(&g[0]);
        let kill = negated(&k[0]);
        proof {
            let lp = live_problem(*body, es, births@);
            assert(es[b as int] == entries@[b as int]@);
            assert(gen@ == lp.gens[b as int]);
            lemma_run_len(all@, live_ops_from(kv, es[b as int], bv, blocks[b as int], base, 0));
            assert(kill@ =~= lp.kills[b as int]);
        }
        transfers.push(Transfer { gen, kill });
        reads.push(body.successors(BasicBlock::from_usize(b)));
        b = b + 1;
    }
    let ghost lp = live_problem(*body, es, births@);
    proof {
        assert forall|c: int, q: int| 0 <= c < reads@.len() && 0 <= q < reads@[c]@.len() implies (#[trigger] reads@[c]@[q]).0 < reads@.len() by {
            assert(reads@[c]@ == block_successors(blocks, c));
        }
        assert forall|c: int| 0 <= c < transfers@.len() implies (#[trigger] transfers@[c]).gen@.len() == w && transfers@[c].kill@.len() == w by {
            lemma_run_len(Seq::new(w as nat, |i: int| false), live_ops_from(kv, es[c], bv, blocks[c], births_before(blocks, c), 0));
        }
    }
    let live = solve_rounds(&reads, w, &none, &transfers, Meet::Union);
    let ghost lv = bits_view(live@);
    proof {
        assert forall|c: int| 0 <= c < n implies (#[trigger] live@[c])@.len() == w by {
            assert(lv[c] == live@[c]@);
        }
        let po = problem_over(lists_view(reads@), w as nat, Meet::Union, none@, transfers@);
        assert(po.preds =~= lp.preds) by {
            assert forall|c: int| 0 <= c < n implies po.preds[c] == lp.preds[c] by {
                assert(reads@[c]@ == block_successors(blocks, c));
            }
        }
        assert(po.gens =~= lp.gens);
        assert(po.kills =~= lp.kills);
        assert(po.init =~= lp.init);
        assert(po == lp);
    }
    // The live range of each alias in each block.
    let mut live_ranges: Vec<Vec<Option<(usize, usize)>>> = Vec::new();
    let mut b: usize = 0;
    while b < n
        invariant
            blocks == body.basic_blocks@,
            n == blocks.len(),
            body.targets_in_range(),
            kv == regs_view(keys@),
            kv == held_keys(*body),
            es == states_view(entries@),
            bv == borrows_view(births@),
            lv == bits_view(live@),
            lp == live_problem(*body, es, births@),
            lp.least(lv),
            entries@.len() == n,
            forall|c: int| 0 <= c < n ==> (#[trigger] entries@[c])@.len() == keys@.len(),
            w == births@.len(),
            w <= u32::MAX,
            w == birth_count(blocks),
            none@ == Seq::new(w as nat, |i: int| false),
            bases@.len() == n + 1,
            forall|c: int| 0 <= c <= n ==> #[trigger] bases@[c] == births_before(blocks, c),
            through@.len() == n,
            forall|c: int| 0 <= c < n ==> (#[trigger] through@[c])@.len() == blocks[c].statements@.len() + 1,
            forall|c: int, i: int|
                0 <= c < n && 0 <= i <= blocks[c].statements@.len() ==> (#[trigger] through@[c]@[i])@ == held_at(*body, es, c, i),
            forall|c: int| 0 <= c < n ==> bounded(#[trigger] entries@[c]@, w as nat),
            reads@.len() == n,
            forall|c: int| 0 <= c < n ==> (#[trigger] reads@[c])@ == block_successors(blocks, c),
            live@.len() == n,
            forall|c: int| 0 <= c < n ==> (#[trigger] live@[c])@.len() == w,
            b <= n,
            live_ranges@.len() == b,
            forall|c: int| 0 <= c < b ==> (#[trigger] live_ranges@[c])@.len() == w,
            forall|c: int, a: int|
                0 <= c < b && 0 <= a < w ==> #[trigger] live_ranges@[c]@[a] == range_of(alive_seq(*body, es, lv, births@, c, a)),
        decreases n - b,
    {
        let ghost base = births_before(blocks, b as int);
        let stmts_len = body.basic_blocks[b].statements.len();
        proof {
            lemma_births_before_mono(blocks, b + 1, n as int);
            assert forall|i: int| 0 <= i <= blocks[b as int].statements@.len() implies bounded(#[trigger] through@[b as int]@[i]@, w as nat) by {
                lemma_births_in_take(blocks[b as int].statements@, i);
                assert(es[b as int] == entries@[b as int]@);
                assert(bounded(entries@[b as int]@, w as nat));
                lemma_run_bounded(kv, es[b as int], blocks[b as int].statements@.take(i), base, w as nat);
            }
            assert forall|i: int| 0 <= i <= blocks[b as int].statements@.len() implies (#[trigger] through@[b as int]@[i])@ == held_run(
                kv,
                entries@[b as int]@,
                blocks[b as int].statements@.take(i),
                bases@[b as int] as nat,
            ) by {
                assert(es[b as int] == entries@[b as int]@);
            }
            assert forall|q: int| 0 <= q < reads@[b as int]@.len() implies ((#[trigger] reads@[b as int]@[q]).0 as int) < live@.len() by {}
        }
        let exit_live = meet_states(Meet::Union, &none, reads[b].as_slice(), &live, w);
        proof {
            assert forall|i: int| 0 <= i <= stmts_len implies (#[trigger] through@[b as int]@[i])@.len() == kv.len() by {
                lemma_run_below(kv, es[b as int], es[b as int], blocks[b as int].statements@.take(i), base);
            }
        }
        proof {
            assert(live@.map_values(|v: Vec<bool>| v@) =~= lv);
            assert(exit_live@ == lp.entry_of(lv, b as int));
        }
        let pts = live_points(&keys, &entries[b], &through[b], &births, &body.basic_blocks[b], bases[b], bases[b + 1], &exit_live);
        proof {
            assert(exit_live@.len() == w);
            assert forall|p: int| 0 <= p <= stmts_len implies (#[trigger] pts@[p])@.len() == w by {
                assert(pts@[p]@ == live_point(kv, entries@[b as int]@, bv, blocks[b as int], base, exit_live@, p));
                if 0 < p && is_birth(blocks[b as int].statements@[p - 1]) {
                    lemma_birth_index_bound(blocks, b as int, p - 1);
                }
                lemma_run_len(exit_live@, live_ops_from(kv, entries@[b as int]@, bv, blocks[b as int], base, p));
            }
        }
        let mut row: Vec<Option<(usize, usize)>> = Vec::new();
        let mut a: usize = 0;
        while a < w
            invariant
                blocks == body.basic_blocks@,
                b < n,
                n == blocks.len(),
                kv == regs_view(keys@),
                kv == held_keys(*body),
                es == states_view(entries@),
                bv == borrows_view(births@),
                lv == bits_view(live@),
                lp == live_problem(*body, es, births@),
                entries@.len() == n,
                w == births@.len(),
                stmts_len == blocks[b as int].statements@.len(),
                through@.len() == n,
                through@[b as int]@.len() == stmts_len + 1,
                forall|i: int| 0 <= i <= stmts_len ==> (#[trigger] through@[b as int]@[i])@ == held_at(*body, es, b as int, i),
                forall|i: int| 0 <= i <= stmts_len ==> (#[trigger] through@[b as int]@[i])@.len() == kv.len(),
                pts@.len() == stmts_len + 1,
                forall|p: int|
                    0 <= p <= stmts_len ==> (#[trigger] pts@[p])@ == live_point(kv, entries@[b as int]@, bv, blocks[b as int], base, exit_live@, p),
                forall|p: int| 0 <= p <= stmts_len ==> (#[trigger] pts@[p])@.len() == w,
                exit_live@ == lp.entry_of(lv, b as int),
                base == births_before(blocks, b as int),
                es[b as int] == entries@[b as int]@,
                a <= w,
                row@.len() == a,
                forall|q: int| 0 <= q < a ==> #[trigger] row@[q] == range_of(alive_seq(*body, es, lv, births@, b as int, q)),
            decreases w - a,
        {
            let mut alive: Vec<bool> = Vec::new();
            let mut p: usize = 0;
            while p < pts.len()
                invariant
                    blocks == body.basic_blocks@,
                    b < n,
                    n == blocks.len(),
                    kv == held_keys(*body),
                    es == states_view(entries@),
                    bv == borrows_view(births@),
                    lp == live_problem(*body, es, births@),
                    w == births@.len(),
                    a < w,
                    stmts_len == blocks[b as int].statements@.len(),
                    through@.len() == n,
                    through@[b as int]@.len() == stmts_len + 1,
                    forall|i: int| 0 <= i <= stmts_len ==> (#[trigger] through@[b as int]@[i])@ == held_at(*body, es, b as int, i),
                    forall|i: int| 0 <= i <= stmts_len ==> (#[trigger] through@[b as int]@[i])@.len() == kv.len(),
                    pts@.len() == stmts_len + 1,
                    forall|q: int|
                        0 <= q <= stmts_len ==> (#[trigger] pts@[q])@ == live_point(kv, entries@[b as int]@, bv, blocks[b as int], base, exit_live@, q),
                    forall|q: int| 0 <= q <= stmts_len ==> (#[trigger] pts@[q])@.len() == w,
                    exit_live@ == lp.entry_of(lv, b as int),
                    base == births_before(blocks, b as int),
                    es[b as int] == entries@[b as int]@,
                    p <= stmts_len + 1,
                    alive@ == alive_seq(*body, es, lv, births@, b as int, a as int).take(p as int),
                decreases stmts_len + 1 - p,
            {
                let here = if births[a].with_lend {
                    holds_alias(&through[b][p], a)
                } else {
                    pts[p][a]
                };
                proof {
                    let st = through@[b as int]@[p as int]@;
                    assert(st == held_at(*body, es, b as int, p as int));
                    assert(st.len() == kv.len());
                    if births@[a as int].with_lend {
                        assert(here == exists|j: int| 0 <= j < kv.len() && #[trigger] held_at(*body, es, b as int, p as int)[j] == Some(a));
                        assert(alive_at(*body, es, lv, births@, b as int, a as int, p as int) == exists|j: int|
                            0 <= j < kv.len() && #[trigger] held_at(*body, es, b as int, p as int)[j] == Some(a as usize));
                    } else {
                        assert(!births@[a as int].with_lend);
                        assert(pts@[p as int]@ == live_point(kv, es[b as int], bv, blocks[b as int], base, lp.entry_of(lv, b as int), p as int));
                        assert(here == pts@[p as int]@[a as int]);
                        assert(alive_at(*body, es, lv, births@, b as int, a as int, p as int) == live_point(
                            kv,
                            es[b as int],
                            bv,
                            blocks[b as int],
                            base,
                            lp.entry_of(lv, b as int),
                            p as int,
                        )[a as int]);
                    }
                    assert(here == alive_at(*body, es, lv, births@, b as int, a as int, p as int));
                }
                alive.push(here);
                p = p + 1;
                assert(alive@ =~= alive_seq(*body, es, lv, births@, b as int, a as int).take(p as int));
            }
            assert(alive@ =~= alive_seq(*body, es, lv, births@, b as int, a as int));
            row.push(range_scan(&alive));
            a = a + 1;
        }
        live_ranges.push(row);
        b = b + 1;
    }
    // The aliases, each with the registers that ever hold it.
    let mut aliases: Vec<Alias> = Vec::new();
    let mut a: usize = 0;
    proof {
        assert forall|t: int| 0 <= t < points@.len() implies (#[trigger] points@[t])@.len() == keys@.len() by {
            lemma_points_shaped(*body, es, xs, n as int, t);
        }
    }
    while a < w
        invariant
            kv == regs_view(keys@),
            w == births@.len(),
            forall|t: int| 0 <= t < points@.len() ==> (#[trigger] points@[t])@.len() == keys@.len(),
            a <= w,
            aliases@.len() == a,
            forall|q: int|
                0 <= q < a ==> {
                    let x = #[trigger] aliases@[q];
                    let y = births@[q];
                    x.id == y.id && reg_view(x.borrows) == reg_view(y.borrows) && x.kind == y.kind && x.with_lend == y.with_lend && x.span
                        == y.span
                },
            forall|q: int| 0 <= q < a ==> regs_view((#[trigger] aliases@[q]).attached@).no_duplicates(),
            forall|q: int, r: (Local, Seq<SubRegisters>)|
                0 <= q < a ==> (#[trigger] regs_view(aliases@[q].attached@).contains(r) <==> exists|t: int, j: int|
                    0 <= t < points@.len() && 0 <= j < keys@.len() && kv[j] == r && #[trigger] points@[t]@[j] == Some(q as usize)),
        decreases w - a,
    {
        let row = attached_to(&keys, &points, a);
        let src = &births[a];
        aliases.push(
            Alias {
                id: src.id,
                attached: row,
                borrows: copy_register(&src.borrows),
                kind: src.kind,
                with_lend: src.with_lend,
                span: src.span,
            },
        );
        a = a + 1;
    }
    let lt = Lifetimes { aliases, live_ranges };
    proof {
        let al = lt.aliases@;
        assert(borrows_view(al) =~= bv);
        assert forall|q: int| 0 <= q < w implies #[trigger] al[q].with_lend == births@[q].with_lend by {}
        assert(live_problem(*body, es, al) == lp) by {
            assert(borrows_view(al) == borrows_view(births@));
        }
        assert forall|c: int, q: int| 0 <= c < n && 0 <= q < w implies #[trigger] lt.live_ranges@[c]@[q] == range_of(alive_seq(*body, es, lv, al, c, q)) by {
            assert(alive_seq(*body, es, lv, al, c, q) =~= alive_seq(*body, es, lv, births@, c, q));
        }
        assert forall|c: int, i: int|
            0 <= c < n && 0 <= i < blocks[c].statements@.len() && is_birth(#[trigger] blocks[c].statements@[i]) implies born_as(
            al[birth_index(blocks, c, i) as int],
            blocks[c].statements@,
            i,
        ) by {
            lemma_birth_index_bound(blocks, c, i);
            assert(born_as(births@[birth_index(blocks, c, i) as int], blocks[c].statements@, i));
        }
        assert forall|q: int, r: (Local, Seq<SubRegisters>)|
            0 <= q < al.len() implies (#[trigger] regs_view(al[q].attached@).contains(r) <==> holds_somewhere(*body, es, xs, q as usize, r)) by {
            let pts = held_points(*body, es, xs, n as int);
            assert(states_view(points@) == pts);
            if regs_view(al[q].attached@).contains(r) {
                let (t, j) = choose|t: int, j: int|
                    0 <= t < points@.len() && 0 <= j < keys@.len() && kv[j] == r && #[trigger] points@[t]@[j] == Some(q as usize);
                assert(pts[t][j] == Some(q as usize));
            }
            if holds_somewhere(*body, es, xs, q as usize, r) {
                let (t, j) = choose|t: int, j: int| 0 <= t < pts.len() && 0 <= j < kv.len() && kv[j] == r && #[trigger] pts[t][j] == Some(q as usize);
                assert(points@[t]@[j] == Some(q as usize));
            }
        }
        assert(lifetimes_from(*body, es, xs, lv, lt));
    }
    lt
}

proof fn lemma_points_shaped(body: Body, es: Seq<Seq<Option<usize>>>, xs: Seq<Seq<Option<usize>>>, m: int, t: int)
    requires
        0 <= m <= body.basic_blocks@.len(),
        held_problem(body).shaped(es),
        held_problem(body).shaped(xs),
        0 <= t < held_points(body, es, xs, m).len(),
    ensures
        held_points(body, es, xs, m)[t].len() == held_keys(body).len(),
    decreases m,
{
    if m > 0 {
        let prev = held_points(body, es, xs, m - 1);
        if t < prev.len() {
            lemma_points_shaped(body, es, xs, m - 1, t);
        } else {
            let b = m - 1;
            let i = t - prev.len();
            let blk = block_held_points(body, es, xs, b);
            assert(held_points(body, es, xs, m)[t] == blk[i]);
            if i < body.basic_blocks@[b].statements@.len() + 1 {
                lemma_run_below(
                    held_keys(body),
                    es[b],
                    es[b],
                    body.basic_blocks@[b].statements@.take(i),
                    births_before(body.basic_blocks@, b),
                );
            }
        }
    }
}

} // verus!
