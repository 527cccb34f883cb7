//! The returned-reference check: a function may not return a reference into its own locals.
//!
//! A borrow held by the return place is followed through the aliases it was taken from: a
//! register reached without a dereference is memory of its own, which is a local of the body
//! unless it is a parameter; a dereference goes on through every alias the dereferenced
//! register held, on into what that alias borrows. A local that holds, by plain copies and
//! moves or as the result of a call that may hand back a reference reaching a local, a
//! reference into the body's own memory is tainted, and reaching a tainted local counts too.
//! A tainted return place is reported as well.

use vstd::prelude::*;
use crate::ast::{Ident, SrcSpan};
use crate::diag::{concat3, lemma_append_runs, lemma_matches_concat, matches_reports, Diagnostic};
use crate::mir::body::Body;
use crate::mir::checks::borrowck::lifetimes::{compute_lifetimes, lifetimes_computable, lifetimes_from, lifetimes_of, Alias, Lifetimes};
use crate::mir::checks::borrowck::{copy_register, place_reg, reg_eq, reg_view, regs_view, register_of, Register, SubRegisters};
use crate::mir::checks::lattice::{count, lemma_count_bounds, subset};
use crate::mir::ids::Local;
use crate::mir::lower::Mir;
use crate::mir::operand::Operand;
use crate::mir::place::Place;
use crate::mir::rvalue::Rvalue;
use crate::mir::statement::StatementKind;
use crate::mir::terminator::TerminatorKind;
use crate::session::Session;
use crate::typeck::{TyCtx, TyKind};

verus! {

/// Flagging one more alias on the stack counts one more.
pub proof fn lemma_count_raise(s: Seq<bool>, a: int)
    requires
        0 <= a < s.len(),
        !s[a],
    ensures
        count(s.update(a, true)) == count(s) + 1,
        count(s.update(a, true)) <= s.len(),
    decreases s.len(),
{
    let t = s.update(a, true);
    if a == s.len() - 1 {
        assert(t.drop_last() =~= s.drop_last());
    } else {
        assert(t.drop_last() =~= s.drop_last().update(a, true));
        lemma_count_raise(s.drop_last(), a);
    }
    lemma_count_bounds(t, t);
}

/// The register an alias's borrowed register extends to with the steps `rest`.
pub open spec fn pointee(a: Alias, rest: Seq<SubRegisters>) -> (Local, Seq<SubRegisters>) {
    (a.borrows.owner, a.borrows.subregister@ + rest)
}

/// Whether reaching from `reg` through the aliases `al`, none of those flagged on `stack`
/// again, can end in memory of the body's own: a register without a leading dereference
/// whose owner is neither the return place nor a parameter, or a tainted local.
pub open spec fn reaches(body: Body, al: Seq<Alias>, tainted: Seq<bool>, reg: (Local, Seq<SubRegisters>), stack: Seq<bool>) -> bool
    decreases al.len() - count(stack), al.len() + 1,
{
    if reg.1.len() == 0 || reg.1[0] != SubRegisters::Deref {
        reg.0.0 > body.param_count
    } else {
        reaches_via(body, al, tainted, reg, stack, al.len() as int) || ((reg.0.0 as int) < tainted.len() && tainted[reg.0.0 as int])
    }
}

/// Whether, among the first `k` aliases, one that the dereferenced register of `reg` held and
/// that is not on `stack` reaches on.
pub open spec fn reaches_via(body: Body, al: Seq<Alias>, tainted: Seq<bool>, reg: (Local, Seq<SubRegisters>), stack: Seq<bool>, k: int) -> bool
    decreases al.len() - count(stack), k,
{
    if k <= 0 || k > al.len() || stack.len() != al.len() {
        false
    } else {
        let a = k - 1;
        reaches_via(body, al, tainted, reg, stack, k - 1) || (regs_view(al[a].attached@).contains((reg.0, Seq::<SubRegisters>::empty()))
            && !stack[a] && {
            proof {
                lemma_count_raise(stack, a);
            }
            reaches(body, al, tainted, pointee(al[a], reg.1.skip(1)), stack.update(a, true))
        })
    }
}

pub open spec fn no_stack(n: nat) -> Seq<bool> {
    Seq::new(n, |i: int| false)
}

/// Whether `op` hands a call a reference reaching the body's own memory: some alias the
/// operand's register held reaches it, or the operand's local is tainted.
pub open spec fn through_arg(body: Body, al: Seq<Alias>, tainted: Seq<bool>, op: Operand) -> bool {
    match op {
        Operand::Copy(place) => arg_place_reaches(body, al, tainted, place),
        Operand::Move(place) => arg_place_reaches(body, al, tainted, place),
        Operand::Constant(_) => false,
    }
}

pub open spec fn arg_place_reaches(body: Body, al: Seq<Alias>, tainted: Seq<bool>, place: Place) -> bool {
    (exists|a: int|
        0 <= a < al.len() && #[trigger] regs_view(al[a].attached@).contains(place_reg(place)) && reaches(
            body,
            al,
            tainted,
            reg_view(al[a].borrows),
            no_stack(al.len()),
        )) || ((place.local.0 as int) < tainted.len() && tainted[place.local.0 as int])
}

/// Whether `place`'s local has a reference type.
pub open spec fn is_reference(tcx: TyCtx, body: Body, place: Place) -> bool {
    tcx.kind_of(body.local_decls@[place.local.0 as int].ty) is Ref
}

/// `tainted` is closed under both rules: a plain copy or move of a tainted local taints its
/// target, and a call that returns a reference and is handed one reaching the body's own
/// memory taints its destination.
pub open spec fn taint_closed(tcx: TyCtx, body: Body, al: Seq<Alias>, tainted: Seq<bool>) -> bool {
    &&& forall|b: int, i: int|
        0 <= b < body.basic_blocks@.len() && 0 <= i < body.basic_blocks@[b].statements@.len() ==> copy_rule(
            #[trigger] body.basic_blocks@[b].statements@[i].kind,
            tainted,
        )
    &&& forall|b: int|
        0 <= b < body.basic_blocks@.len() ==> call_rule(tcx, body, al, #[trigger] body.basic_blocks@[b].terminator.kind, tainted)
}

pub open spec fn copy_rule(kind: StatementKind, tainted: Seq<bool>) -> bool {
    match kind {
        StatementKind::Assign(dest, Rvalue::Use(Operand::Copy(src))) => plain_copy(dest, src, tainted),
        StatementKind::Assign(dest, Rvalue::Use(Operand::Move(src))) => plain_copy(dest, src, tainted),
        _ => true,
    }
}

pub open spec fn plain_copy(dest: Place, src: Place, tainted: Seq<bool>) -> bool {
    dest.projections@.len() == 0 && src.projections@.len() == 0 && tainted[src.local.0 as int] ==> tainted[dest.local.0 as int]
}

pub open spec fn call_rule(tcx: TyCtx, body: Body, al: Seq<Alias>, kind: TerminatorKind, tainted: Seq<bool>) -> bool {
    match kind {
        TerminatorKind::Call { args, destination, .. } => is_reference(tcx, body, destination) && (exists|k: int|
            0 <= k < args@.len() && #[trigger] through_arg(body, al, tainted, args@[k])) ==> tainted[destination.local.0 as int],
        _ => true,
    }
}

/// `tainted` is the least set of locals closed under both rules.
pub open spec fn taint_least(tcx: TyCtx, body: Body, al: Seq<Alias>, tainted: Seq<bool>) -> bool {
    &&& tainted.len() == body.local_decls@.len()
    &&& taint_closed(tcx, body, al, tainted)
    &&& forall|other: Seq<bool>|
        other.len() == tainted.len() && #[trigger] taint_closed(tcx, body, al, other) ==> subset(tainted, other)
}

proof fn lemma_reaches_mono(body: Body, al: Seq<Alias>, t1: Seq<bool>, t2: Seq<bool>, reg: (Local, Seq<SubRegisters>), stack: Seq<bool>)
    requires
        subset(t1, t2),
        reaches(body, al, t1, reg, stack),
    ensures
        reaches(body, al, t2, reg, stack),
    decreases al.len() - count(stack), al.len() + 1,
{
    if reg.1.len() == 0 || reg.1[0] != SubRegisters::Deref {
    } else {
        if reaches_via(body, al, t1, reg, stack, al.len() as int) {
            lemma_reaches_via_mono(body, al, t1, t2, reg, stack, al.len() as int);
        }
    }
}

proof fn lemma_reaches_via_mono(body: Body, al: Seq<Alias>, t1: Seq<bool>, t2: Seq<bool>, reg: (Local, Seq<SubRegisters>), stack: Seq<bool>, k: int)
    requires
        subset(t1, t2),
        reaches_via(body, al, t1, reg, stack, k),
    ensures
        reaches_via(body, al, t2, reg, stack, k),
    decreases al.len() - count(stack), k,
{
    if k <= 0 || k > al.len() || stack.len() != al.len() {
    } else {
        let a = k - 1;
        if reaches_via(body, al, t1, reg, stack, k - 1) {
            lemma_reaches_via_mono(body, al, t1, t2, reg, stack, k - 1);
        } else {
            lemma_count_raise(stack, a);
            lemma_reaches_mono(body, al, t1, t2, pointee(al[a], reg.1.skip(1)), stack.update(a, true));
        }
    }
}

proof fn lemma_through_arg_mono(body: Body, al: Seq<Alias>, t1: Seq<bool>, t2: Seq<bool>, op: Operand)
    requires
        subset(t1, t2),
        through_arg(body, al, t1, op),
    ensures
        through_arg(body, al, t2, op),
{
    match op {
        Operand::Copy(place) | Operand::Move(place) => {
            if exists|a: int|
                0 <= a < al.len() && #[trigger] regs_view(al[a].attached@).contains(place_reg(place)) && reaches(
                    body,
                    al,
                    t1,
                    reg_view(al[a].borrows),
                    no_stack(al.len()),
                ) {
                let a = choose|a: int|
                    0 <= a < al.len() && #[trigger] regs_view(al[a].attached@).contains(place_reg(place)) && reaches(
                        body,
                        al,
                        t1,
                        reg_view(al[a].borrows),
                        no_stack(al.len()),
                    );
                lemma_reaches_mono(body, al, t1, t2, reg_view(al[a].borrows), no_stack(al.len()));
            }
        },
        Operand::Constant(_) => {},
    }
}

proof fn lemma_via_grow(body: Body, al: Seq<Alias>, tainted: Seq<bool>, reg: (Local, Seq<SubRegisters>), stack: Seq<bool>, k: int, m: int)
    requires
        0 <= k <= m <= al.len(),
        reaches_via(body, al, tainted, reg, stack, k),
    ensures
        reaches_via(body, al, tainted, reg, stack, m),
    decreases m - k,
{
    if k < m {
        lemma_via_grow(body, al, tainted, reg, stack, k, m - 1);
    }
}

/// Whether the register `r` is among `regs`.
fn holds_register(regs: &Vec<Register>, r: &Register) -> (found: bool)
    ensures
        found == regs_view(regs@).contains(reg_view(*r)),
{
    let mut i: usize = 0;
    while i < regs.len()
        invariant
            i <= regs@.len(),
            forall|j: int| 0 <= j < i ==> reg_view(#[trigger] regs@[j]) != reg_view(*r),
        decreases regs@.len() - i,
    {
        if reg_eq(&regs[i], r) {
            assert(regs_view(regs@)[i as int] == reg_view(*r));
            return true;
        }
        i = i + 1;
    }
    proof {
        if regs_view(regs@).contains(reg_view(*r)) {
            let k = choose|k: int| 0 <= k < regs_view(regs@).len() && #[trigger] regs_view(regs@)[k] == reg_view(*r);
            assert(reg_view(regs@[k]) == reg_view(*r));
        }
    }
    false
}

fn tainted_at(tainted: &Vec<bool>, l: Local) -> (r: bool)
    ensures
        r == ((l.0 as int) < tainted@.len() && tainted@[l.0 as int]),
{
    l.index() < tainted.len() && tainted[l.index()]
}

/// Whether reaching from `reg` through the aliases can end in the body's own memory, with the
/// aliases flagged on `stack` left out; `stack` is as it was when this returns.
fn reaches_exec(body: &Body, aliases: &Vec<Alias>, tainted: &Vec<bool>, reg: &Register, stack: &mut Vec<bool>) -> (r: bool)
    requires
        old(stack)@.len() == aliases@.len(),
    ensures
        r == reaches(*body, aliases@, tainted@, reg_view(*reg), old(stack)@),
        final(stack)@ == old(stack)@,
    decreases aliases@.len() - count(stack@),
{
    if reg.subregister.len() == 0 || reg.subregister[0] != SubRegisters::Deref {
        return reg.owner.index() > body.param_count;
    }
    let ghost s0 = stack@;
    let ghost rv = reg_view(*reg);
    let base = Register { owner: reg.owner, subregister: Vec::new() };
    assert(reg_view(base) == (rv.0, Seq::<SubRegisters>::empty()));
    let mut a: usize = 0;
    while a < aliases.len()
        invariant
            stack@ == s0,
            s0 == old(stack)@,
            s0.len() == aliases@.len(),
            rv == reg_view(*reg),
            rv.1.len() > 0,
            rv.1[0] == SubRegisters::Deref,
            reg_view(base) == (rv.0, Seq::<SubRegisters>::empty()),
            a <= aliases@.len(),
            !reaches_via(*body, aliases@, tainted@, rv, s0, a as int),
        decreases aliases@.len() - a,
    {
        let alias = &aliases[a];
        if holds_register(&alias.attached, &base) && !stack[a] {
            proof {
                lemma_count_raise(s0, a as int);
            }
            stack.set(a, true);
            let mut next = copy_register(&alias.borrows);
            let mut i: usize = 1;
            while i < reg.subregister.len()
                invariant
                    1 <= i <= reg.subregister@.len(),
                    reg.subregister@.len() == rv.1.len(),
                    rv == reg_view(*reg),
                    reg_view(next) == (alias.borrows.owner, alias.borrows.subregister@ + rv.1.subrange(1, i as int)),
                decreases reg.subregister@.len() - i,
            {
                next.subregister.push(reg.subregister[i]);
                i = i + 1;
                assert(reg_view(next).1 =~= alias.borrows.subregister@ + rv.1.subrange(1, i as int));
            }
            assert(rv.1.subrange(1, rv.1.len() as int) =~= rv.1.skip(1));
            let found = reaches_exec(body, aliases, tainted, &next, stack);
            stack.set(a, false);
            assert(stack@ =~= s0);
            if found {
                proof {
                    assert(reaches_via(*body, aliases@, tainted@, rv, s0, a + 1));
                    lemma_via_grow(*body, aliases@, tainted@, rv, s0, a + 1, aliases@.len() as int);
                }
                return true;
            }
        }
        a = a + 1;
    }
    tainted_at(tainted, reg.owner)
}

/// Whether the operand hands a call a reference reaching the body's own memory.
fn through_arg_exec(body: &Body, aliases: &Vec<Alias>, tainted: &Vec<bool>, op: &Operand) -> (r: bool)
    ensures
        r == through_arg(*body, aliases@, tainted@, *op),
{
    match op {
        Operand::Copy(place) => arg_place_reaches_exec(body, aliases, tainted, place),
        Operand::Move(place) => arg_place_reaches_exec(body, aliases, tainted, place),
        Operand::Constant(_) => false,
    }
}

fn arg_place_reaches_exec(body: &Body, aliases: &Vec<Alias>, tainted: &Vec<bool>, place: &Place) -> (r: bool)
    ensures
        r == arg_place_reaches(*body, aliases@, tainted@, *place),
{
    let reg = register_of(place);
    let mut a: usize = 0;
    while a < aliases.len()
        invariant
            reg_view(reg) == place_reg(*place),
            a <= aliases@.len(),
            forall|q: int|
                0 <= q < a ==> !(#[trigger] regs_view(aliases@[q].attached@).contains(place_reg(*place)) && reaches(
                    *body,
                    aliases@,
                    tainted@,
                    reg_view(aliases@[q].borrows),
                    no_stack(aliases@.len()),
                )),
        decreases aliases@.len() - a,
    {
        let alias = &aliases[a];
        if holds_register(&alias.attached, &reg) {
            let mut stack: Vec<bool> = Vec::new();
            let mut i: usize = 0;
            while i < aliases.len()
                invariant
                    i <= aliases@.len(),
                    stack@ == no_stack(i as nat),
                decreases aliases@.len() - i,
            {
                stack.push(false);
                i = i + 1;
                assert(stack@ =~= no_stack(i as nat));
            }
            if reaches_exec(body, aliases, tainted, &alias.borrows, &mut stack) {
                assert(regs_view(aliases@[a as int].attached@).contains(place_reg(*place)));
                assert(arg_place_reaches(*body, aliases@, tainted@, *place));
                return true;
            }
        }
        a = a + 1;
    }
    tainted_at(tainted, place.local)
}

/// What the check needs of a body: what the lifetimes need, declared locals wherever the
/// rules or the reports index them, types `tcx` knows, and names `session` knows.
pub open spec fn rr_checkable(session: Session, tcx: TyCtx, body: Body) -> bool {
    let n = body.local_decls@.len();
    &&& lifetimes_computable(body)
    &&& n > 0
    &&& forall|i: int| 0 <= i < n ==> tcx.has(#[trigger] body.local_decls@[i].ty)
    &&& forall|i: int| 0 <= i < n ==> ((#[trigger] body.local_decls@[i]).name matches Some(nm) ==> session.has(nm.text))
    &&& forall|b: int, i: int|
        0 <= b < body.basic_blocks@.len() && 0 <= i < body.basic_blocks@[b].statements@.len() ==> locals_declared(
            #[trigger] body.basic_blocks@[b].statements@[i].kind,
            n,
        )
    &&& forall|b: int|
        0 <= b < body.basic_blocks@.len() ==> (#[trigger] body.basic_blocks@[b].terminator.kind matches TerminatorKind::Call {
            destination,
            ..
        } ==> (destination.local.0 as int) < n)
}

/// The locals an assignment names as target, source or borrowed place are declared.
pub open spec fn locals_declared(kind: StatementKind, n: nat) -> bool {
    match kind {
        StatementKind::Assign(dest, rv) => (dest.local.0 as int) < n && match rv {
            Rvalue::Use(Operand::Copy(src)) => (src.local.0 as int) < n,
            Rvalue::Use(Operand::Move(src)) => (src.local.0 as int) < n,
            Rvalue::Ref { place, .. } => (place.local.0 as int) < n,
            _ => true,
        },
        _ => true,
    }
}

/// The least tainted set of `body`'s locals, by rounds over the body until none taints more.
fn tainted_locals(tcx: &TyCtx, body: &Body, aliases: &Vec<Alias>) -> (tainted: Vec<bool>)
    requires
        forall|i: int| 0 <= i < body.local_decls@.len() ==> tcx.has(#[trigger] body.local_decls@[i].ty),
        forall|b: int, i: int|
            0 <= b < body.basic_blocks@.len() && 0 <= i < body.basic_blocks@[b].statements@.len() ==> locals_declared(
                #[trigger] body.basic_blocks@[b].statements@[i].kind,
                body.local_decls@.len(),
            ),
        forall|b: int|
            0 <= b < body.basic_blocks@.len() ==> (#[trigger] body.basic_blocks@[b].terminator.kind matches TerminatorKind::Call {
                destination,
                ..
            } ==> (destination.local.0 as int) < body.local_decls@.len()),
    ensures
        taint_least(*tcx, *body, aliases@, tainted@),
{
    let n = body.local_decls.len();
    let ghost al = aliases@;
    let mut tainted: Vec<bool> = Vec::new();
    let mut i: usize = 0;
    while i < n
        invariant
            i <= n,
            tainted@ == Seq::new(i as nat, |j: int| false),
        decreases n - i,
    {
        tainted.push(false);
        i = i + 1;
        assert(tainted@ =~= Seq::new(i as nat, |j: int| false));
    }
    proof {
        lemma_count_bounds(tainted@, tainted@);
        assert forall|other: Seq<bool>| other.len() == tainted@.len() && #[trigger] taint_closed(*tcx, *body, al, other) implies subset(
            tainted@,
            other,
        ) by {}
    }
    let mut changed = true;
    while changed
        invariant
            n == body.local_decls@.len(),
            al == aliases@,
            forall|i: int| 0 <= i < body.local_decls@.len() ==> tcx.has(#[trigger] body.local_decls@[i].ty),
            forall|b: int, i: int|
                0 <= b < body.basic_blocks@.len() && 0 <= i < body.basic_blocks@[b].statements@.len() ==> locals_declared(
                    #[trigger] body.basic_blocks@[b].statements@[i].kind,
                    body.local_decls@.len(),
                ),
            forall|b: int|
                0 <= b < body.basic_blocks@.len() ==> (#[trigger] body.basic_blocks@[b].terminator.kind matches TerminatorKind::Call {
                    destination,
                    ..
                } ==> (destination.local.0 as int) < body.local_decls@.len()),
            tainted@.len() == n,
            count(tainted@) <= n,
            forall|other: Seq<bool>| other.len() == n && #[trigger] taint_closed(*tcx, *body, al, other) ==> subset(tainted@, other),
            !changed ==> taint_closed(*tcx, *body, al, tainted@),
        decreases n - count(tainted@), if changed { 1int } else { 0int },
    {
        changed = false;
        let ghost start = count(tainted@);
        let mut b: usize = 0;
        while b < body.basic_blocks.len()
            invariant
                n == body.local_decls@.len(),
                al == aliases@,
                forall|i: int| 0 <= i < body.local_decls@.len() ==> tcx.has(#[trigger] body.local_decls@[i].ty),
                forall|b: int, i: int|
                    0 <= b < body.basic_blocks@.len() && 0 <= i < body.basic_blocks@[b].statements@.len() ==> locals_declared(
                        #[trigger] body.basic_blocks@[b].statements@[i].kind,
                        body.local_decls@.len(),
                    ),
                forall|b: int|
                    0 <= b < body.basic_blocks@.len() ==> (#[trigger] body.basic_blocks@[b].terminator.kind matches TerminatorKind::Call {
                        destination,
                        ..
                    } ==> (destination.local.0 as int) < body.local_decls@.len()),
                b <= body.basic_blocks@.len(),
                tainted@.len() == n,
                count(tainted@) <= n,
                start <= count(tainted@),
                changed ==> start < count(tainted@),
                forall|other: Seq<bool>| other.len() == n && #[trigger] taint_closed(*tcx, *body, al, other) ==> subset(tainted@, other),
                !changed ==> forall|c: int, i: int|
                    0 <= c < b && 0 <= i < body.basic_blocks@[c].statements@.len() ==> copy_rule(
                        #[trigger] body.basic_blocks@[c].statements@[i].kind,
                        tainted@,
                    ),
                !changed ==> forall|c: int| 0 <= c < b ==> call_rule(*tcx, *body, al, #[trigger] body.basic_blocks@[c].terminator.kind, tainted@),
            decreases body.basic_blocks@.len() - b,
        {
            let block = &body.basic_blocks[b];
            let mut i: usize = 0;
            while i < block.statements.len()
                invariant
                    n == body.local_decls@.len(),
                    al == aliases@,
                    *block == body.basic_blocks@[b as int],
                    b < body.basic_blocks@.len(),
                    forall|b: int, i: int|
                        0 <= b < body.basic_blocks@.len() && 0 <= i < body.basic_blocks@[b].statements@.len() ==> locals_declared(
                            #[trigger] body.basic_blocks@[b].statements@[i].kind,
                            body.local_decls@.len(),
                        ),
                    i <= block.statements@.len(),
                    tainted@.len() == n,
                    count(tainted@) <= n,
                    start <= count(tainted@),
                    changed ==> start < count(tainted@),
                    forall|other: Seq<bool>| other.len() == n && #[trigger] taint_closed(*tcx, *body, al, other) ==> subset(tainted@, other),
                    !changed ==> forall|c: int, j: int|
                        0 <= c < b && 0 <= j < body.basic_blocks@[c].statements@.len() ==> copy_rule(
                            #[trigger] body.basic_blocks@[c].statements@[j].kind,
                            tainted@,
                        ),
                    !changed ==> forall|c: int| 0 <= c < b ==> call_rule(*tcx, *body, al, #[trigger] body.basic_blocks@[c].terminator.kind, tainted@),
                    !changed ==> forall|j: int| 0 <= j < i ==> copy_rule(#[trigger] block.statements@[j].kind, tainted@),
                decreases block.statements@.len() - i,
            {
                let ghost t0 = tainted@;
                let kind = &block.statements[i].kind;
                assert(locals_declared(body.basic_blocks@[b as int].statements@[i as int].kind, n as nat));
                let taint = match kind {
                    StatementKind::Assign(dest, Rvalue::Use(Operand::Copy(src) | Operand::Move(src))) => {
                        if dest.projections.len() == 0 && src.projections.len() == 0 && tainted[src.local.index()]
                            && !tainted[dest.local.index()] {
                            Some(dest.local.index())
                        } else {
                            None
                        }
                    },
                    _ => None,
                };
                if let Some(d) = taint {
                    tainted.set(d, true);
                    changed = true;
                    proof {
                        lemma_count_raise(t0, d as int);
                        assert forall|other: Seq<bool>| other.len() == n && #[trigger] taint_closed(*tcx, *body, al, other) implies subset(
                            tainted@,
                            other,
                        ) by {
                            assert(subset(t0, other));
                            assert(copy_rule(body.basic_blocks@[b as int].statements@[i as int].kind, other));
                        }
                    }
                }
                i = i + 1;
            }
            let ghost t1 = tainted@;
            let mut fire = false;
            if let TerminatorKind::Call { args, destination, .. } = &block.terminator.kind {
                assert(body.basic_blocks@[b as int].terminator.kind == block.terminator.kind);
                let d = destination.local.index();
                let is_ref = match tcx.kind(body.local_decls[d].ty) {
                    TyKind::Ref { .. } => true,
                    _ => false,
                };
                if is_ref && !tainted[d] {
                    let mut k: usize = 0;
                    while k < args.len()
                        invariant
                            k <= args@.len(),
                            !fire ==> forall|q: int| 0 <= q < k ==> !#[trigger] through_arg(*body, al, tainted@, args@[q]),
                            fire ==> exists|q: int| 0 <= q < args@.len() && #[trigger] through_arg(*body, al, tainted@, args@[q]),
                            al == aliases@,
                        decreases args@.len() - k,
                    {
                        if !fire && through_arg_exec(body, aliases, &tainted, &args[k]) {
                            fire = true;
                        }
                        k = k + 1;
                    }
                    if fire {
                        tainted.set(d, true);
                        changed = true;
                        proof {
                            lemma_count_raise(t1, d as int);
                            assert forall|other: Seq<bool>| other.len() == n && #[trigger] taint_closed(*tcx, *body, al, other) implies subset(
                                tainted@,
                                other,
                            ) by {
                                assert(subset(t1, other));
                                assert(call_rule(*tcx, *body, al, body.basic_blocks@[b as int].terminator.kind, other));
                                let q = choose|q: int| 0 <= q < args@.len() && #[trigger] through_arg(*body, al, t1, args@[q]);
                                lemma_through_arg_mono(*body, al, t1, other, args@[q]);
                            }
                        }
                    }
                }
            }
            b = b + 1;
        }
    }
    tainted
}

pub open spec fn rr_message(name: Option<Seq<char>>) -> Seq<char> {
    match name {
        Some(n) => "cannot return a reference to `"@ + n + "`"@,
        None => "cannot return a reference to a local variable"@,
    }
}

/// The name a report gives the register `reg` reaches: the name of its local when it is that
/// local's own memory, none when it is behind a dereference or a temporary.
pub open spec fn named_local(session: Session, body: Body, reg: (Local, Seq<SubRegisters>)) -> Option<Seq<char>> {
    if reg.1.contains(SubRegisters::Deref) {
        None
    } else {
        match body.local_decls@[reg.0.0 as int].name {
            Some(nm) => Some(session.text(nm.text)),
            None => None,
        }
    }
}

/// Whether the return place holds alias `a` at some point and it reaches the body's own memory.
pub open spec fn returned_local(body: Body, al: Seq<Alias>, tainted: Seq<bool>, a: int) -> bool {
    regs_view(al[a].attached@).contains((Local(0), Seq::<SubRegisters>::empty())) && reaches(
        body,
        al,
        tainted,
        reg_view(al[a].borrows),
        no_stack(al.len()),
    )
}

/// The reports of the first `m` aliases.
pub open spec fn alias_reports(session: Session, body: Body, al: Seq<Alias>, tainted: Seq<bool>, m: int) -> Seq<(Seq<char>, SrcSpan)>
    decreases m,
{
    if m <= 0 {
        Seq::empty()
    } else {
        alias_reports(session, body, al, tainted, m - 1) + if returned_local(body, al, tainted, m - 1) {
            seq![(rr_message(named_local(session, body, reg_view(al[m - 1].borrows))), al[m - 1].span)]
        } else {
            Seq::empty()
        }
    }
}

/// The span of the first `return` among the first `m` blocks, if there is one.
pub open spec fn first_return(body: Body, m: int) -> Option<SrcSpan>
    decreases m,
{
    if m <= 0 {
        None
    } else {
        match first_return(body, m - 1) {
            Some(s) => Some(s),
            None => if body.basic_blocks@[m - 1].terminator.kind is Return {
                Some(body.basic_blocks@[m - 1].terminator.span)
            } else {
                None
            },
        }
    }
}

/// Where a tainted return place is reported: the first `return`, or the body.
pub open spec fn return_span(body: Body) -> SrcSpan {
    match first_return(body, body.basic_blocks@.len() as int) {
        Some(s) => s,
        None => body.span,
    }
}

/// The reports of `body` with aliases `al` and tainted locals `tainted`: each alias the return
/// place holds that reaches the body's own memory, in order, then a tainted return place.
pub open spec fn rr_reports(session: Session, body: Body, al: Seq<Alias>, tainted: Seq<bool>) -> Seq<(Seq<char>, SrcSpan)> {
    alias_reports(session, body, al, tainted, al.len() as int) + if tainted[0] {
        seq![(rr_message(None), return_span(body))]
    } else {
        Seq::empty()
    }
}

fn report_returned_local_reference(session: &Session, name: Option<Ident>, span: SrcSpan) -> (d: Diagnostic)
    requires
        name matches Some(nm) ==> session.has(nm.text),
    ensures
        d.message@ == rr_message(
            match name {
                Some(nm) => Some(session.text(nm.text)),
                None => None,
            },
        ),
        d.span == span,
{
    match name {
        Some(nm) => Diagnostic::error(concat3("cannot return a reference to `", session.resolve(nm.text), "`"), span),
        None => Diagnostic::error(String::from_str("cannot return a reference to a local variable"), span),
    }
}

fn has_deref_step(sub: &Vec<SubRegisters>) -> (r: bool)
    ensures
        r == sub@.contains(SubRegisters::Deref),
{
    let mut i: usize = 0;
    while i < sub.len()
        invariant
            i <= sub@.len(),
            forall|j: int| 0 <= j < i ==> sub@[j] != SubRegisters::Deref,
        decreases sub@.len() - i,
    {
        if sub[i] == SubRegisters::Deref {
            return true;
        }
        i = i + 1;
    }
    false
}

fn find_return_span(body: &Body) -> (s: SrcSpan)
    ensures
        s == return_span(*body),
{
    let mut b: usize = 0;
    while b < body.basic_blocks.len()
        invariant
            b <= body.basic_blocks@.len(),
            first_return(*body, b as int) is None,
        decreases body.basic_blocks@.len() - b,
    {
        if let TerminatorKind::Return = body.basic_blocks[b].terminator.kind {
            proof {
                lemma_first_return_stays(*body, b + 1, body.basic_blocks@.len() as int);
            }
            return body.basic_blocks[b].terminator.span;
        }
        b = b + 1;
    }
    body.span
}

proof fn lemma_first_return_stays(body: Body, a: int, m: int)
    requires
        0 < a <= m,
        first_return(body, a) is Some,
    ensures
        first_return(body, m) == first_return(body, a),
    decreases m - a,
{
    if a < m {
        lemma_first_return_stays(body, a, m - 1);
    }
}

/// Appends the reports of `body`, whose lifetimes are `lt`, given its tainted locals.
fn report_body(session: &Session, body: &Body, lt: &Lifetimes, tainted: &Vec<bool>, out: &mut Vec<Diagnostic>)
    requires
        tainted@.len() == body.local_decls@.len(),
        body.local_decls@.len() > 0,
        forall|a: int| 0 <= a < lt.aliases@.len() ==> (#[trigger] lt.aliases@[a]).borrows.owner.0 < body.local_decls@.len(),
        forall|i: int| 0 <= i < body.local_decls@.len() ==> ((#[trigger] body.local_decls@[i]).name matches Some(nm) ==> session.has(nm.text)),
    ensures
        final(out)@.len() >= old(out)@.len(),
        final(out)@.take(old(out)@.len() as int) == old(out)@,
        matches_reports(final(out)@.skip(old(out)@.len() as int), rr_reports(*session, *body, lt.aliases@, tainted@)),
{
    let ghost start = out@;
    let ghost al = lt.aliases@;
    let ret = Register { owner: Local(0), subregister: Vec::new() };
    assert(reg_view(ret) == (Local(0), Seq::<SubRegisters>::empty()));
    let mut a: usize = 0;
    while a < lt.aliases.len()
        invariant
            al == lt.aliases@,
            reg_view(ret) == (Local(0), Seq::<SubRegisters>::empty()),
            forall|q: int| 0 <= q < al.len() ==> (#[trigger] al[q]).borrows.owner.0 < body.local_decls@.len(),
            forall|i: int| 0 <= i < body.local_decls@.len() ==> ((#[trigger] body.local_decls@[i]).name matches Some(nm) ==> session.has(nm.text)),
            a <= al.len(),
            out@.len() >= start.len(),
            out@.take(start.len() as int) == start,
            matches_reports(out@.skip(start.len() as int), alias_reports(*session, *body, al, tainted@, a as int)),
        decreases al.len() - a,
    {
        let ghost before = out@;
        let alias = &lt.aliases[a];
        let mut report = false;
        if holds_register(&alias.attached, &ret) {
            let mut stack: Vec<bool> = Vec::new();
            let mut i: usize = 0;
            while i < lt.aliases.len()
                invariant
                    i <= lt.aliases@.len(),
                    stack@ == no_stack(i as nat),
                decreases lt.aliases@.len() - i,
            {
                stack.push(false);
                i = i + 1;
                assert(stack@ =~= no_stack(i as nat));
            }
            if reaches_exec(body, &lt.aliases, tainted, &alias.borrows, &mut stack) {
                report = true;
                let name = if has_deref_step(&alias.borrows.subregister) {
                    None
                } else {
                    body.local_decls[alias.borrows.owner.index()].name
                };
                out.push(report_returned_local_reference(session, name, alias.span));
            }
        }
        proof {
            let tail = if returned_local(*body, al, tainted@, a as int) {
                seq![(rr_message(named_local(*session, *body, reg_view(al[a as int].borrows))), al[a as int].span)]
            } else {
                Seq::<(Seq<char>, SrcSpan)>::empty()
            };
            assert(report == returned_local(*body, al, tainted@, a as int));
            assert(matches_reports(out@.skip(before.len() as int), tail)) by {
                if report {
                    assert(out@.skip(before.len() as int) =~= seq![out@[before.len() as int]]);
                } else {
                    assert(out@.skip(before.len() as int) =~= Seq::<Diagnostic>::empty());
                }
            }
            assert(out@.take(before.len() as int) =~= before);
            lemma_append_runs(start, before, out@);
            lemma_matches_concat(
                before.skip(start.len() as int),
                alias_reports(*session, *body, al, tainted@, a as int),
                out@.skip(before.len() as int),
                tail,
            );
        }
        a = a + 1;
    }
    let ghost mid = out@;
    let last = tainted[0];
    if last {
        let span = find_return_span(body);
        out.push(report_returned_local_reference(session, None, span));
    }
    proof {
        let tail = if tainted@[0] {
            seq![(rr_message(None), return_span(*body))]
        } else {
            Seq::<(Seq<char>, SrcSpan)>::empty()
        };
        assert(matches_reports(out@.skip(mid.len() as int), tail)) by {
            if last {
                assert(out@.skip(mid.len() as int) =~= seq![out@[mid.len() as int]]);
            } else {
                assert(out@.skip(mid.len() as int) =~= Seq::<Diagnostic>::empty());
            }
        }
        assert(out@.take(mid.len() as int) =~= mid);
        lemma_append_runs(start, mid, out@);
        lemma_matches_concat(
            mid.skip(start.len() as int),
            alias_reports(*session, *body, al, tainted@, al.len() as int),
            out@.skip(mid.len() as int),
            tail,
        );
    }
}

/// The reports of `body`: those its lifetimes and its least tainted set give.
pub open spec fn body_reports(session: Session, tcx: TyCtx, body: Body, diags: Seq<Diagnostic>) -> bool {
    exists|lt: Lifetimes, tainted: Seq<bool>|
        #![trigger lifetimes_of(body, lt), taint_least(tcx, body, lt.aliases@, tainted)]
        lifetimes_of(body, lt) && taint_least(tcx, body, lt.aliases@, tainted) && matches_reports(
            diags,
            rr_reports(session, body, lt.aliases@, tainted),
        )
}

/// Appends the reports of `body`, whose lifetimes are `lt`.
pub fn check_body(session: &Session, tcx: &TyCtx, body: &Body, lt: &Lifetimes, out: &mut Vec<Diagnostic>)
    requires
        rr_checkable(*session, *tcx, *body),
        lifetimes_of(*body, *lt),
    ensures
        final(out)@.len() >= old(out)@.len(),
        final(out)@.take(old(out)@.len() as int) == old(out)@,
        body_reports(*session, *tcx, *body, final(out)@.skip(old(out)@.len() as int)),
{
    let tainted = tainted_locals(tcx, body, &lt.aliases);
    proof {
        let (e, x, l) = choose|e: Seq<Seq<Option<usize>>>, x: Seq<Seq<Option<usize>>>, l: Seq<Seq<bool>>|
            crate::mir::checks::borrowck::lifetimes::held_problem(*body).least(e, x)
                && crate::mir::checks::borrowck::lifetimes::live_problem(*body, e, lt.aliases@).least(l) && lifetimes_from(*body, e, x, l, *lt);
        let blocks = body.basic_blocks@;
        assert forall|a: int| 0 <= a < lt.aliases@.len() implies (#[trigger] lt.aliases@[a]).borrows.owner.0 < body.local_decls@.len() by {
            let (b, i) = lemma_alias_born(*body, lt.aliases@, a);
            assert(crate::mir::checks::borrowck::lifetimes::born_as(
                lt.aliases@[crate::mir::checks::borrowck::lifetimes::birth_index(blocks, b, i) as int],
                blocks[b].statements@,
                i,
            ));
            assert(locals_declared(blocks[b].statements@[i].kind, body.local_decls@.len()));
        }
    }
    report_body(session, body, lt, &tainted, out);
}

/// Every alias of a body is born at some statement.
proof fn lemma_alias_born(body: Body, al: Seq<Alias>, a: int) -> (site: (int, int))
    requires
        0 <= a < al.len(),
        al.len() == crate::mir::checks::borrowck::lifetimes::birth_count(body.basic_blocks@),
    ensures
        0 <= site.0 < body.basic_blocks@.len(),
        0 <= site.1 < body.basic_blocks@[site.0].statements@.len(),
        crate::mir::checks::borrowck::lifetimes::is_birth(body.basic_blocks@[site.0].statements@[site.1]),
        crate::mir::checks::borrowck::lifetimes::birth_index(body.basic_blocks@, site.0, site.1) == a,
{
    crate::mir::checks::borrowck::lifetimes::lemma_birth_site(body.basic_blocks@, a)
}

/// The reports of every body of a program, body by body.
pub open spec fn program_reports(session: Session, tcx: TyCtx, bodies: Seq<Body>, diags: Seq<Diagnostic>) -> bool
    decreases bodies.len(),
{
    if bodies.len() == 0 {
        diags.len() == 0
    } else {
        exists|split: int|
            0 <= split <= diags.len() && program_reports(session, tcx, bodies.drop_last(), diags.take(split))
                && #[trigger] body_reports(session, tcx, bodies.last(), diags.skip(split))
    }
}

/// Computes the lifetimes of every body of `mir` and checks each against them, in order.
pub fn check(session: &Session, tcx: &TyCtx, mir: &Mir) -> (diags: Vec<Diagnostic>)
    requires
        forall|k: int| 0 <= k < mir.bodies@.len() ==> rr_checkable(*session, *tcx, #[trigger] mir.bodies@[k].1),
    ensures
        program_reports(*session, *tcx, crate::mir::constck::program_bodies(*mir), diags@),
{
    let ghost bodies = crate::mir::constck::program_bodies(*mir);
    let mut out: Vec<Diagnostic> = Vec::new();
    let mut k: usize = 0;
    while k < mir.bodies.len()
        invariant
            forall|j: int| 0 <= j < mir.bodies@.len() ==> rr_checkable(*session, *tcx, #[trigger] mir.bodies@[j].1),
            bodies == crate::mir::constck::program_bodies(*mir),
            k <= mir.bodies@.len(),
            program_reports(*session, *tcx, bodies.take(k as int), out@),
        decreases mir.bodies@.len() - k,
    {
        let body = &mir.bodies[k].1;
        let ghost before = out@;
        let lt = compute_lifetimes(body);
        check_body(session, tcx, body, &lt, &mut out);
        proof {
            let bs = bodies.take(k + 1);
            assert(bs.drop_last() =~= bodies.take(k as int));
            assert(bs.last() == mir.bodies@[k as int].1);
            assert(out@.take(before.len() as int) == before);
            assert(body_reports(*session, *tcx, bs.last(), out@.skip(before.len() as int)));
        }
        k = k + 1;
    }
    assert(bodies.take(mir.bodies@.len() as int) =~= bodies);
    out
}

} // verus!
