//! Drop elaboration: turns each owned local's implicit end-of-scope drop into explicit `Drop`
//! terminators.
//!
//! At every `StorageDead`, at every assignment that overwrites a place, and, before a
//! `Return`, for every parameter, the pass asks whether the place still owns a value whose
//! drop runs code. Moved out on every path: nothing. On some paths: a drop flag, a `bool`
//! local kept up to date at every move and every initialization, guards the drop. A struct
//! or tuple drops its fields one by one, an enum switches on its discriminant, and an `iso`
//! whose pointee was partly moved out drops what is left and releases the allocation.
//! The block holding the point is split there, the drops run in blocks of their own, and
//! control resumes with the statement the drops came before.

pub mod move_state;
pub mod tree;
pub mod editor;

use vstd::prelude::*;
use crate::mir::body::{block_successors, BasicBlockData, Body, LocalDecl};
use crate::mir::checks::borrowck::definite_init::{stmt_ops, stmts_ops, universe_of};
use crate::mir::checks::borrowck::{regs_view, Register, SubRegisters};
use crate::mir::checks::lattice::{count, lemma_count_bounds, lemma_run_concat, run, subset, Meet};
use crate::mir::drop_elaboration::move_state::{droppable_of, least_entries, move_problem, MoveAnalysis, MoveState};
use crate::mir::drop_elaboration::tree::{
    distinct_flags, law_plan_flags_distinct, lemma_plan_grows, opt_tree, plan, plan_ctx, plan_spec, tree_of, trees_of, DropNode,
    DropTree, FlagLocals, PlanCtx,
};
use crate::mir::ids::{BasicBlock, Local};
use crate::mir::instance::Instance;
use crate::mir::place::{place_ty, type_of_place, Place, Projection};
use crate::mir::statement::{Statement, StatementKind};
use crate::mir::terminator::TerminatorKind;
use crate::typeck::{drop_within, Ty, TyCtx};

verus! {

// ---------------------------------------------------------------------------------------------
// Reachability
// ---------------------------------------------------------------------------------------------

/// `s` holds the start block and every successor of a block it holds.
pub open spec fn closed_from_start(blocks: Seq<BasicBlockData>, s: Seq<bool>) -> bool {
    &&& s.len() == blocks.len()
    &&& blocks.len() > 0 ==> s[0]
    &&& forall|a: int, k: int|
        0 <= a < blocks.len() && s[a] && 0 <= k < block_successors(blocks, a).len() ==> s[(#[trigger] block_successors(blocks, a)[k]).0 as int]
}

/// Block `b` is reachable from the start block: every set closed from the start holds it.
pub open spec fn reachable_in(blocks: Seq<BasicBlockData>, b: int) -> bool {
    forall|s: Seq<bool>| #[trigger] closed_from_start(blocks, s) ==> s[b]
}

pub open spec fn listed_block(w: Seq<BasicBlock>, b: int) -> bool {
    exists|k: int| 0 <= k < w.len() && (#[trigger] w[k]).0 == b
}

/// For each block, whether control can reach it from the start block.
pub fn reachable_blocks(body: &Body) -> (r: Vec<bool>)
    requires
        body.targets_in_range(),
    ensures
        r@.len() == body.basic_blocks@.len(),
        forall|b: int| 0 <= b < r@.len() ==> r@[b] == reachable_in(body.basic_blocks@, b),
{
    let ghost blocks = body.basic_blocks@;
    let n = body.basic_blocks.len();
    let mut reachable: Vec<bool> = Vec::new();
    let mut i: usize = 0;
    while i < n
        invariant
            i <= n,
            reachable@ == Seq::new(i as nat, |j: int| false),
        decreases n - i,
    {
        reachable.push(false);
        i = i + 1;
        assert(reachable@ =~= Seq::new(i as nat, |j: int| false));
    }
    let mut worklist: Vec<BasicBlock> = Vec::new();
    if n > 0 {
        worklist.push(BasicBlock(0));
        assert(worklist@[0].0 == 0);
        assert forall|s: Seq<bool>| #[trigger] closed_from_start(blocks, s) implies s[0] by {}
    }
    while worklist.len() > 0
        invariant
            blocks == body.basic_blocks@,
            body.targets_in_range(),
            n == blocks.len(),
            reachable@.len() == n,
            forall|k: int| 0 <= k < worklist@.len() ==> (#[trigger] worklist@[k]).0 < n,
            forall|b: int| 0 <= b < n && #[trigger] reachable@[b] ==> reachable_in(blocks, b),
            forall|k: int| 0 <= k < worklist@.len() ==> reachable_in(blocks, (#[trigger] worklist@[k]).0 as int),
            n > 0 ==> reachable@[0] || listed_block(worklist@, 0),
            forall|a: int, k: int|
                0 <= a < n && reachable@[a] && 0 <= k < block_successors(blocks, a).len() ==> reachable@[(#[trigger] block_successors(blocks, a)[k]).0 as int]
                    || listed_block(worklist@, block_successors(blocks, a)[k].0 as int),
        decreases n - count(reachable@), worklist@.len(),
    {
        let ghost w0 = worklist@;
        let b = worklist.pop().unwrap();
        assert(w0 =~= worklist@.push(b));
        assert(w0[w0.len() - 1] == b);
        proof {
            lemma_count_bounds(reachable@, reachable@);
        }
        if reachable[b.index()] {
            proof {
                assert forall|a: int, k: int|
                    0 <= a < n && reachable@[a] && 0 <= k < block_successors(blocks, a).len() implies reachable@[(#[trigger] block_successors(blocks, a)[k]).0 as int]
                        || listed_block(worklist@, block_successors(blocks, a)[k].0 as int) by {
                    let t = block_successors(blocks, a)[k].0 as int;
                    if !reachable@[t] {
                        assert(listed_block(w0, t));
                        let j = choose|j: int| 0 <= j < w0.len() && (#[trigger] w0[j]).0 == t;
                        assert(j != w0.len() - 1);
                        assert(worklist@[j] == w0[j]);
                    }
                }
                if n > 0 && !reachable@[0] {
                    let j = choose|j: int| 0 <= j < w0.len() && (#[trigger] w0[j]).0 == 0;
                    assert(j != w0.len() - 1);
                    assert(worklist@[j] == w0[j]);
                }
                assert forall|k: int| 0 <= k < worklist@.len() implies reachable_in(blocks, (#[trigger] worklist@[k]).0 as int) by {
                    assert(worklist@[k] == w0[k]);
                }
            }
            continue;
        }
        let ghost before = reachable@;
        reachable.set(b.index(), true);
        proof {
            assert(subset(before, reachable@));
            assert(before[b.0 as int] != reachable@[b.0 as int]);
            lemma_count_bounds(before, reachable@);
            assert(reachable_in(blocks, b.0 as int)) by {
                assert(w0[w0.len() - 1] == b);
            }
        }
        let succs = body.successors(b);
        let ghost w1 = worklist@;
        let mut j: usize = 0;
        while j < succs.len()
            invariant
                blocks == body.basic_blocks@,
                body.targets_in_range(),
                n == blocks.len(),
                b.0 < n,
                reachable@.len() == n,
                reachable@[b.0 as int],
                reachable_in(blocks, b.0 as int),
                succs@ == block_successors(blocks, b.0 as int),
                j <= succs@.len(),
                worklist@.len() == w1.len() + j,
                forall|k: int| 0 <= k < w1.len() ==> worklist@[k] == w1[k],
                forall|k: int| 0 <= k < j ==> worklist@[w1.len() + k] == succs@[k],
                forall|k: int| 0 <= k < worklist@.len() ==> (#[trigger] worklist@[k]).0 < n,
                forall|k: int| 0 <= k < worklist@.len() ==> reachable_in(blocks, (#[trigger] worklist@[k]).0 as int),
            decreases succs@.len() - j,
        {
            let s = succs[j];
            proof {
                assert(s.0 < n);
                assert forall|x: Seq<bool>| #[trigger] closed_from_start(blocks, x) implies x[s.0 as int] by {
                    assert(x[b.0 as int]);
                    assert(block_successors(blocks, b.0 as int)[j as int] == s);
                }
            }
            worklist.push(s);
            j = j + 1;
        }
        proof {
            assert forall|a: int, k: int|
                0 <= a < n && reachable@[a] && 0 <= k < block_successors(blocks, a).len() implies reachable@[(#[trigger] block_successors(blocks, a)[k]).0 as int]
                    || listed_block(worklist@, block_successors(blocks, a)[k].0 as int) by {
                let t = block_successors(blocks, a)[k].0 as int;
                if a == b.0 {
                    assert(worklist@[w1.len() + k] == succs@[k]);
                } else if !reachable@[t] {
                    assert(before[a]);
                    assert(!before[t]);
                    assert(listed_block(w0, t));
                    let jj = choose|jj: int| 0 <= jj < w0.len() && (#[trigger] w0[jj]).0 == t;
                    assert(jj != w0.len() - 1);
                    assert(worklist@[jj] == w0[jj]);
                }
            }
            if n > 0 && !reachable@[0] {
                let jj = choose|jj: int| 0 <= jj < w0.len() && (#[trigger] w0[jj]).0 == 0;
                assert(jj != w0.len() - 1);
                assert(worklist@[jj] == w0[jj]);
            }
        }
    }
    proof {
        assert(closed_from_start(blocks, reachable@));
    }
    reachable
}

// ---------------------------------------------------------------------------------------------
// Where the drops go
// ---------------------------------------------------------------------------------------------

/// A drop tree to run right before the statement at index `before` of its block, or before
/// the terminator when `before` is the number of statements.
pub struct Insertion {
    pub before: usize,
    pub tree: DropNode,
}

pub open spec fn insertions_view(v: Seq<Insertion>) -> Seq<(nat, DropTree)> {
    Seq::new(v.len(), |i: int| (v[i].before as nat, tree_of(v[i].tree)))
}

pub open spec fn all_insertions_view(v: Seq<Vec<Insertion>>) -> Seq<Seq<(nat, DropTree)>> {
    Seq::new(v.len(), |i: int| insertions_view(v[i]@))
}

/// How deep a drop tree may look into a type: as deep as the type table is large.
pub open spec fn fuel_of(tcx: TyCtx) -> nat {
    tcx.kinds_view().len() + 1
}

/// What the planning of a body reads: its types, universe, followed locals, locals, number of
/// parameters, and the local the first flag will take.
pub struct ElabCtx {
    pub tcx: TyCtx,
    pub u: Seq<(Local, Seq<SubRegisters>)>,
    pub dr: Seq<bool>,
    pub decls: Seq<LocalDecl>,
    pub param_count: nat,
    pub first: nat,
}

pub open spec fn elab_ctx(tcx: TyCtx, body: Body) -> ElabCtx {
    ElabCtx {
        tcx,
        u: universe_of(body),
        dr: droppable_of(tcx, body),
        decls: body.local_decls@,
        param_count: body.param_count as nat,
        first: body.local_decls@.len(),
    }
}

pub open spec fn pctx(ec: ElabCtx, may: Seq<bool>, must: Seq<bool>) -> PlanCtx {
    PlanCtx { tcx: ec.tcx, u: ec.u, may, must, first: ec.first }
}

/// The place a statement may leave needing a drop, and its type: the local a `StorageDead`
/// ends, or the place an assignment overwrites; never the return place.
pub open spec fn stmt_target(tcx: TyCtx, decls: Seq<LocalDecl>, stmt: Statement) -> Option<((Local, Seq<Projection>), Ty)> {
    match stmt.kind {
        StatementKind::StorageDead(l) => if l.0 == 0 {
            None
        } else {
            Some(((l, Seq::<Projection>::empty()), decls[l.0 as int].ty))
        },
        StatementKind::Assign(p, _) => if p.local.0 == 0 {
            None
        } else {
            match type_of_place(tcx, decls, p) {
                Some(t) => Some(((p.local, p.projections@), t)),
                None => None,
            }
        },
        _ => None,
    }
}

/// The state after the first `k` statements, from `(may0, must0)`.
pub open spec fn state_at(ec: ElabCtx, may0: Seq<bool>, must0: Seq<bool>, stmts: Seq<Statement>, k: int) -> (Seq<bool>, Seq<bool>) {
    (run(may0, stmts_ops(ec.u, ec.dr, stmts.take(k))), run(must0, stmts_ops(ec.u, ec.dr, stmts.take(k))))
}

/// The drops before the first `i` statements, each planned in the state before it, and the
/// flags after them.
pub open spec fn stmts_plan(
    ec: ElabCtx,
    may0: Seq<bool>,
    must0: Seq<bool>,
    stmts: Seq<Statement>,
    flags: Seq<(Local, Seq<SubRegisters>)>,
    i: nat,
) -> (Seq<(nat, DropTree)>, Seq<(Local, Seq<SubRegisters>)>)
    decreases i,
{
    if i == 0 {
        (Seq::empty(), flags)
    } else {
        let (prev, f1) = stmts_plan(ec, may0, must0, stmts, flags, (i - 1) as nat);
        let k = i - 1;
        let (may, must) = state_at(ec, may0, must0, stmts, k);
        match stmt_target(ec.tcx, ec.decls, stmts[k]) {
            Some((pv, ty)) => {
                let (n, f2) = plan_spec(pctx(ec, may, must), f1, pv, ty, None, fuel_of(ec.tcx));
                (
                    match n {
                        Some(t) => prev.push((k as nat, t)),
                        None => prev,
                    },
                    f2,
                )
            },
            None => (prev, f1),
        }
    }
}

/// The drops of the last `m` parameters, the last first, and the flags after them.
pub open spec fn params_plan(
    ec: ElabCtx,
    may: Seq<bool>,
    must: Seq<bool>,
    flags: Seq<(Local, Seq<SubRegisters>)>,
    m: nat,
) -> (Seq<DropTree>, Seq<(Local, Seq<SubRegisters>)>)
    decreases m,
{
    if m == 0 || m > ec.param_count {
        (Seq::empty(), flags)
    } else {
        let (prev, f1) = params_plan(ec, may, must, flags, (m - 1) as nat);
        let index = ec.param_count - (m - 1);
        let (n, f2) = plan_spec(pctx(ec, may, must), f1, (Local(index as u32), Seq::<Projection>::empty()), ec.decls[index].ty, None, fuel_of(ec.tcx));
        (
            match n {
                Some(t) => prev.push(t),
                None => prev,
            },
            f2,
        )
    }
}

/// The drops of one block entered in state `(may0, must0)`: before its statements, and, when
/// it returns, of the parameters before the terminator. An unreachable block gets none.
pub open spec fn block_plan(
    ec: ElabCtx,
    reachable: bool,
    may0: Seq<bool>,
    must0: Seq<bool>,
    block: BasicBlockData,
    flags: Seq<(Local, Seq<SubRegisters>)>,
) -> (Seq<(nat, DropTree)>, Seq<(Local, Seq<SubRegisters>)>) {
    if !reachable {
        (Seq::empty(), flags)
    } else {
        let stmts = block.statements@;
        let (ins, f1) = stmts_plan(ec, may0, must0, stmts, flags, stmts.len());
        if block.terminator.kind is Return {
            let (may, must) = state_at(ec, may0, must0, stmts, stmts.len() as int);
            let (nodes, f2) = params_plan(ec, may, must, f1, ec.param_count);
            (if nodes.len() > 0 { ins.push((stmts.len(), DropTree::Sequence(nodes))) } else { ins }, f2)
        } else {
            (ins, f1)
        }
    }
}

/// The drops of the first `n` blocks of `body`, and the flags after them.
pub open spec fn blocks_plan(tcx: TyCtx, body: Body, n: nat) -> (Seq<Seq<(nat, DropTree)>>, Seq<(Local, Seq<SubRegisters>)>)
    decreases n,
{
    if n == 0 {
        (Seq::empty(), Seq::empty())
    } else {
        let (prev, f1) = blocks_plan(tcx, body, (n - 1) as nat);
        let b = n - 1;
        let (ins, f2) = block_plan(
            elab_ctx(tcx, body),
            reachable_in(body.basic_blocks@, b),
            least_entries(move_problem(tcx, body, Meet::Union))[b],
            least_entries(move_problem(tcx, body, Meet::Intersection))[b],
            body.basic_blocks@[b],
            f1,
        );
        (prev.push(ins), f2)
    }
}

/// Every drop `body` needs, block by block, and the flags they reserve.
pub open spec fn drop_plan(tcx: TyCtx, body: Body) -> (Seq<Seq<(nat, DropTree)>>, Seq<(Local, Seq<SubRegisters>)>) {
    blocks_plan(tcx, body, body.basic_blocks@.len())
}

proof fn lemma_stmts_plan_mono(ec: ElabCtx, may0: Seq<bool>, must0: Seq<bool>, stmts: Seq<Statement>, flags: Seq<(Local, Seq<SubRegisters>)>, i: nat, j: nat)
    requires
        i <= j,
    ensures
        flags.len() <= stmts_plan(ec, may0, must0, stmts, flags, i).1.len() <= stmts_plan(ec, may0, must0, stmts, flags, j).1.len(),
    decreases j,
{
    if j > 0 {
        if i < j {
            lemma_stmts_plan_mono(ec, may0, must0, stmts, flags, i, (j - 1) as nat);
        } else {
            lemma_stmts_plan_mono(ec, may0, must0, stmts, flags, (j - 1) as nat, (j - 1) as nat);
        }
        let (prev, f1) = stmts_plan(ec, may0, must0, stmts, flags, (j - 1) as nat);
        let (may, must) = state_at(ec, may0, must0, stmts, j - 1);
        match stmt_target(ec.tcx, ec.decls, stmts[j - 1]) {
            Some((pv, ty)) => {
                lemma_plan_grows(pctx(ec, may, must), f1, pv, ty, None, fuel_of(ec.tcx));
            },
            None => {},
        }
    }
}

proof fn lemma_params_plan_mono(ec: ElabCtx, may: Seq<bool>, must: Seq<bool>, flags: Seq<(Local, Seq<SubRegisters>)>, i: nat, j: nat)
    requires
        i <= j <= ec.param_count,
    ensures
        flags.len() <= params_plan(ec, may, must, flags, i).1.len() <= params_plan(ec, may, must, flags, j).1.len(),
    decreases j,
{
    if j > 0 {
        if i < j {
            lemma_params_plan_mono(ec, may, must, flags, i, (j - 1) as nat);
        } else {
            lemma_params_plan_mono(ec, may, must, flags, (j - 1) as nat, (j - 1) as nat);
        }
        let (prev, f1) = params_plan(ec, may, must, flags, (j - 1) as nat);
        let index = ec.param_count - (j - 1);
        lemma_plan_grows(pctx(ec, may, must), f1, (Local(index as u32), Seq::<Projection>::empty()), ec.decls[index].ty, None, fuel_of(ec.tcx));
    }
}

proof fn lemma_block_plan_grows(ec: ElabCtx, reachable: bool, may0: Seq<bool>, must0: Seq<bool>, block: BasicBlockData, flags: Seq<(Local, Seq<SubRegisters>)>)
    ensures
        flags.len() <= block_plan(ec, reachable, may0, must0, block, flags).1.len(),
{
    if reachable {
        let stmts = block.statements@;
        lemma_stmts_plan_mono(ec, may0, must0, stmts, flags, stmts.len(), stmts.len());
        let (ins, f1) = stmts_plan(ec, may0, must0, stmts, flags, stmts.len());
        let (may, must) = state_at(ec, may0, must0, stmts, stmts.len() as int);
        lemma_params_plan_mono(ec, may, must, f1, ec.param_count, ec.param_count);
    }
}

proof fn lemma_blocks_plan_mono(tcx: TyCtx, body: Body, i: nat, j: nat)
    requires
        i <= j,
    ensures
        blocks_plan(tcx, body, i).1.len() <= blocks_plan(tcx, body, j).1.len(),
        blocks_plan(tcx, body, j).0.len() == j,
    decreases j,
{
    if j > 0 {
        if i < j {
            lemma_blocks_plan_mono(tcx, body, i, (j - 1) as nat);
        } else {
            lemma_blocks_plan_mono(tcx, body, (j - 1) as nat, (j - 1) as nat);
        }
        let (prev, f1) = blocks_plan(tcx, body, (j - 1) as nat);
        let b = j - 1;
        lemma_block_plan_grows(
            elab_ctx(tcx, body),
            reachable_in(body.basic_blocks@, b),
            least_entries(move_problem(tcx, body, Meet::Union))[b],
            least_entries(move_problem(tcx, body, Meet::Intersection))[b],
            body.basic_blocks@[b],
            f1,
        );
    }
}

/// A statement `plan_at_statement` can plan: the local it ends is declared, and the place
/// it assigns has a type.
pub open spec fn stmt_typed(tcx: TyCtx, decls: Seq<LocalDecl>, stmt: Statement) -> bool {
    match stmt.kind {
        StatementKind::StorageDead(l) => l.0 < decls.len(),
        StatementKind::Assign(p, _) => p.local.0 != 0 ==> type_of_place(tcx, decls, p) is Some,
        _ => true,
    }
}

/// Every place the pass asks about has a type: the parameters are declared, and the
/// statements of reachable blocks can be planned.
pub open spec fn elab_typed(tcx: TyCtx, body: Body) -> bool {
    &&& body.param_count < body.local_decls@.len()
    &&& forall|b: int, i: int|
        0 <= b < body.basic_blocks@.len() && reachable_in(body.basic_blocks@, b) && 0 <= i < body.basic_blocks@[b].statements@.len()
            ==> stmt_typed(tcx, body.local_decls@, #[trigger] body.basic_blocks@[b].statements@[i])
}

/// What the planning reads of the analysis: it is the analysis of `body`.
pub open spec fn analysis_of(tcx: TyCtx, body: Body, a: MoveAnalysis) -> bool {
    &&& regs_view(a.universe@) == universe_of(body)
    &&& a.droppable@ == droppable_of(tcx, body)
    &&& a.entries@.len() == body.basic_blocks@.len()
    &&& forall|b: int| 0 <= b < a.entries@.len() ==> (#[trigger] a.entries@[b]).may@ == least_entries(move_problem(tcx, body, Meet::Union))[b]
        && a.entries@[b].must@ == least_entries(move_problem(tcx, body, Meet::Intersection))[b]
    &&& forall|b: int| 0 <= b < a.entries@.len() ==> (#[trigger] a.entries@[b]).may@.len() == a.universe@.len()
        && a.entries@[b].must@.len() == a.universe@.len()
    &&& a.universe@.len() <= u32::MAX
}

/// The drop tree a statement needs right before it, in `state`.
fn plan_at_statement(tcx: &TyCtx, body: &Body, u: &Vec<Register>, state: &MoveState, flags: &mut FlagLocals, statement: &Statement) -> (n: Option<DropNode>)
    requires
        tcx.wf(),
        state.may@.len() == u@.len(),
        state.must@.len() == u@.len(),
        old(flags).wf(),
        stmt_typed(*tcx, body.local_decls@, *statement),
        old(flags).first + match stmt_target(*tcx, body.local_decls@, *statement) {
            Some((pv, ty)) => plan_spec(plan_ctx(*tcx, u@, *state, old(flags).first), old(flags).regs(), pv, ty, None, fuel_of(*tcx)).1.len(),
            None => 0,
        } <= u32::MAX,
    ensures
        final(flags).wf(),
        final(flags).first == old(flags).first,
        final(flags).bool_ty == old(flags).bool_ty,
        match stmt_target(*tcx, body.local_decls@, *statement) {
            Some((pv, ty)) => (opt_tree(n), final(flags).regs()) == plan_spec(plan_ctx(*tcx, u@, *state, old(flags).first), old(flags).regs(), pv, ty, None, fuel_of(*tcx)),
            None => n is None && final(flags).regs() == old(flags).regs(),
        },
{
    let place = match &statement.kind {
        StatementKind::StorageDead(local) => Place::from_local(*local),
        StatementKind::Assign(place, _) => crate::mir::drop_elaboration::tree::projected_copy(place),
        _ => {
            return None;
        },
    };
    if place.local.0 == 0 {
        return None;
    }
    let ty = place_ty(tcx, &body.local_decls, &place);
    proof {
        if let StatementKind::StorageDead(l) = statement.kind {
            assert(place.projections@ =~= Seq::<Projection>::empty());
        }
    }
    plan(tcx, u, state, flags, place, ty, None, tcx.type_count() + 1)
}

/// The drop trees of the parameters, the last first, in `state`.
fn plan_parameter_drops(tcx: &TyCtx, body: &Body, u: &Vec<Register>, state: &MoveState, flags: &mut FlagLocals) -> (n: Option<DropNode>)
    requires
        tcx.wf(),
        state.may@.len() == u@.len(),
        state.must@.len() == u@.len(),
        old(flags).wf(),
        body.param_count < body.local_decls@.len(),
        body.local_decls@.len() <= u32::MAX,
        old(flags).first + params_plan(
            ElabCtx { tcx: *tcx, u: regs_view(u@), dr: Seq::empty(), decls: body.local_decls@, param_count: body.param_count as nat, first: old(flags).first as nat },
            state.may@, state.must@, old(flags).regs(), body.param_count as nat,
        ).1.len() <= u32::MAX,
    ensures
        final(flags).wf(),
        final(flags).first == old(flags).first,
        final(flags).bool_ty == old(flags).bool_ty,
        ({
            let (nodes, f) = params_plan(
                ElabCtx { tcx: *tcx, u: regs_view(u@), dr: Seq::empty(), decls: body.local_decls@, param_count: body.param_count as nat, first: old(flags).first as nat },
                state.may@, state.must@, old(flags).regs(), body.param_count as nat,
            );
            &&& opt_tree(n) == if nodes.len() > 0 { Some(DropTree::Sequence(nodes)) } else { None::<DropTree> }
            &&& final(flags).regs() == f
        }),
{
    let ghost ec = ElabCtx { tcx: *tcx, u: regs_view(u@), dr: Seq::empty(), decls: body.local_decls@, param_count: body.param_count as nat, first: flags.first as nat };
    let ghost f0 = flags.regs();
    let pc = body.param_count;
    let mut nodes: Vec<DropNode> = Vec::new();
    let mut m: usize = 0;
    while m < pc
        invariant
            tcx.wf(),
            state.may@.len() == u@.len(),
            state.must@.len() == u@.len(),
            pc == body.param_count,
            pc < body.local_decls@.len(),
            body.local_decls@.len() <= u32::MAX,
            ec == (ElabCtx { tcx: *tcx, u: regs_view(u@), dr: Seq::empty(), decls: body.local_decls@, param_count: pc as nat, first: flags.first as nat }),
            flags.wf(),
            flags.first == old(flags).first,
            flags.bool_ty == old(flags).bool_ty,
            f0 == old(flags).regs(),
            m <= pc,
            flags.first + params_plan(ec, state.may@, state.must@, f0, pc as nat).1.len() <= u32::MAX,
            (trees_of(nodes@), flags.regs()) == params_plan(ec, state.may@, state.must@, f0, m as nat),
        decreases pc - m,
    {
        let index = pc - m;
        proof {
            lemma_params_plan_mono(ec, state.may@, state.must@, f0, (m + 1) as nat, pc as nat);
            assert(pctx(ec, state.may@, state.must@) == plan_ctx(*tcx, u@, *state, flags.first));
        }
        let place = Place::from_local(Local::from_usize(index));
        assert(place.projections@ =~= Seq::<Projection>::empty());
        let n = plan(tcx, u, state, flags, place, body.local_decls[index].ty, None, tcx.type_count() + 1);
        match n {
            Some(t) => {
                let ghost before = nodes@;
                nodes.push(t);
                proof {
                    assert(nodes@.subrange(0, nodes@.len() - 1) =~= before);
                }
            },
            None => {},
        }
        m = m + 1;
    }
    if nodes.len() > 0 {
        Some(DropNode::Sequence(nodes))
    } else {
        None
    }
}

/// The drops one reachable block needs, entered in the state the analysis gives it.
fn plan_block(tcx: &TyCtx, body: &Body, analysis: &MoveAnalysis, b: usize, flags: &mut FlagLocals) -> (ins: Vec<Insertion>)
    requires
        tcx.wf(),
        analysis_of(*tcx, *body, *analysis),
        elab_typed(*tcx, *body),
        b < body.basic_blocks@.len(),
        reachable_in(body.basic_blocks@, b as int),
        old(flags).wf(),
        old(flags).first == body.local_decls@.len(),
        old(flags).first + block_plan(
            elab_ctx(*tcx, *body), true,
            least_entries(move_problem(*tcx, *body, Meet::Union))[b as int],
            least_entries(move_problem(*tcx, *body, Meet::Intersection))[b as int],
            body.basic_blocks@[b as int], old(flags).regs(),
        ).1.len() <= u32::MAX,
    ensures
        final(flags).wf(),
        final(flags).first == old(flags).first,
        final(flags).bool_ty == old(flags).bool_ty,
        (insertions_view(ins@), final(flags).regs()) == block_plan(
            elab_ctx(*tcx, *body), true,
            least_entries(move_problem(*tcx, *body, Meet::Union))[b as int],
            least_entries(move_problem(*tcx, *body, Meet::Intersection))[b as int],
            body.basic_blocks@[b as int], old(flags).regs(),
        ),
{
    let ghost ec = elab_ctx(*tcx, *body);
    let ghost f_b = flags.regs();
    let ghost may0 = least_entries(move_problem(*tcx, *body, Meet::Union))[b as int];
    let ghost must0 = least_entries(move_problem(*tcx, *body, Meet::Intersection))[b as int];
    let u = &analysis.universe;
    let data = &body.basic_blocks[b];
    let ghost stmts = data.statements@;
    let mut block_insertions: Vec<Insertion> = Vec::new();
    let mut state = analysis.entries[b].copy();
    proof {
        lemma_stmts_plan_mono(ec, may0, must0, stmts, f_b, stmts.len(), stmts.len());
        let (ins1, f1) = stmts_plan(ec, may0, must0, stmts, f_b, stmts.len());
        let (may1, must1) = state_at(ec, may0, must0, stmts, stmts.len() as int);
        lemma_params_plan_mono(ec, may1, must1, f1, ec.param_count, ec.param_count);
        assert(stmts.take(0) =~= Seq::<Statement>::empty());
        assert(insertions_view(block_insertions@) =~= Seq::<(nat, DropTree)>::empty());
    }
    let mut i: usize = 0;
    while i < data.statements.len()
        invariant
            tcx.wf(),
            analysis_of(*tcx, *body, *analysis),
            elab_typed(*tcx, *body),
            u == &analysis.universe,
            ec == elab_ctx(*tcx, *body),
            b < body.basic_blocks@.len(),
            reachable_in(body.basic_blocks@, b as int),
            *data == body.basic_blocks@[b as int],
            stmts == data.statements@,
            flags.wf(),
            flags.first == body.local_decls@.len(),
            flags.bool_ty == old(flags).bool_ty,
            i <= stmts.len(),
            state.may@ == state_at(ec, may0, must0, stmts, i as int).0,
            state.must@ == state_at(ec, may0, must0, stmts, i as int).1,
            state.may@.len() == u@.len(),
            state.must@.len() == u@.len(),
            flags.first + stmts_plan(ec, may0, must0, stmts, f_b, stmts.len()).1.len() <= u32::MAX,
            (insertions_view(block_insertions@), flags.regs()) == stmts_plan(ec, may0, must0, stmts, f_b, i as nat),
        decreases stmts.len() - i,
    {
        let statement = &data.statements[i];
        proof {
            lemma_stmts_plan_mono(ec, may0, must0, stmts, f_b, (i + 1) as nat, stmts.len());
            assert(pctx(ec, state.may@, state.must@) == plan_ctx(*tcx, u@, state, flags.first));
            assert(stmt_typed(*tcx, body.local_decls@, body.basic_blocks@[b as int].statements@[i as int]));
        }
        let n = plan_at_statement(tcx, body, u, &state, flags, statement);
        match n {
            Some(tree) => {
                let ghost before = block_insertions@;
                block_insertions.push(Insertion { before: i, tree });
                proof {
                    assert(insertions_view(block_insertions@) =~= insertions_view(before).push((i as nat, tree_of(block_insertions@[before.len() as int].tree))));
                }
            },
            None => {},
        }
        state.apply_statement(u, &analysis.droppable, statement);
        proof {
            assert(stmts.take(i + 1).drop_last() =~= stmts.take(i as int));
            assert(stmts.take(i + 1).last() == stmts[i as int]);
            lemma_run_concat(may0, stmts_ops(ec.u, ec.dr, stmts.take(i as int)), stmt_ops(ec.u, ec.dr, stmts[i as int]));
            lemma_run_concat(must0, stmts_ops(ec.u, ec.dr, stmts.take(i as int)), stmt_ops(ec.u, ec.dr, stmts[i as int]));
        }
        i = i + 1;
    }
    proof {
        assert(stmts.take(stmts.len() as int) =~= stmts);
    }
    if matches!(data.terminator.kind, TerminatorKind::Return) {
        proof {
            let (ins1, f1) = stmts_plan(ec, may0, must0, stmts, f_b, stmts.len());
            let pe = ElabCtx { tcx: *tcx, u: regs_view(u@), dr: Seq::empty(), decls: body.local_decls@, param_count: body.param_count as nat, first: flags.first as nat };
            lemma_params_same_ctx(ec, pe, state.may@, state.must@, f1, ec.param_count);
        }
        let tree = plan_parameter_drops(tcx, body, u, &state, flags);
        match tree {
            Some(tree) => {
                let ghost before = block_insertions@;
                block_insertions.push(Insertion { before: data.statements.len(), tree });
                proof {
                    assert(insertions_view(block_insertions@) =~= insertions_view(before).push((stmts.len(), tree_of(block_insertions@[before.len() as int].tree))));
                }
            },
            None => {},
        }
    }
    block_insertions
}

/// Where each block needs drops, and what they are, reserving flags as they are needed.
fn plan_insertions(tcx: &TyCtx, body: &Body, analysis: &MoveAnalysis, flags: &mut FlagLocals) -> (ins: Vec<Vec<Insertion>>)
    requires
        tcx.wf(),
        body.targets_in_range(),
        analysis_of(*tcx, *body, *analysis),
        elab_typed(*tcx, *body),
        old(flags).wf(),
        old(flags).first == body.local_decls@.len(),
        old(flags).regs() == Seq::<(Local, Seq<SubRegisters>)>::empty(),
        body.local_decls@.len() + drop_plan(*tcx, *body).1.len() <= u32::MAX,
    ensures
        final(flags).wf(),
        final(flags).first == old(flags).first,
        final(flags).bool_ty == old(flags).bool_ty,
        (all_insertions_view(ins@), final(flags).regs()) == drop_plan(*tcx, *body),
{
    let ghost ec = elab_ctx(*tcx, *body);
    let ghost blocks = body.basic_blocks@;
    let ghost nb = blocks.len();
    let reachable = reachable_blocks(body);
    let mut insertions: Vec<Vec<Insertion>> = Vec::new();
    let mut b: usize = 0;
    proof {
        lemma_blocks_plan_mono(*tcx, *body, 0, nb);
        assert(all_insertions_view(insertions@) =~= Seq::<Seq<(nat, DropTree)>>::empty());
    }
    while b < body.basic_blocks.len()
        invariant
            tcx.wf(),
            body.targets_in_range(),
            analysis_of(*tcx, *body, *analysis),
            elab_typed(*tcx, *body),
            ec == elab_ctx(*tcx, *body),
            blocks == body.basic_blocks@,
            nb == blocks.len(),
            reachable@.len() == nb,
            forall|c: int| 0 <= c < nb ==> reachable@[c] == reachable_in(blocks, c),
            flags.wf(),
            flags.first == old(flags).first,
            flags.first == body.local_decls@.len(),
            flags.bool_ty == old(flags).bool_ty,
            b <= nb,
            insertions@.len() == b,
            body.local_decls@.len() + drop_plan(*tcx, *body).1.len() <= u32::MAX,
            (all_insertions_view(insertions@), flags.regs()) == blocks_plan(*tcx, *body, b as nat),
        decreases nb - b,
    {
        let ghost f_b = flags.regs();
        proof {
            lemma_blocks_plan_mono(*tcx, *body, (b + 1) as nat, nb);
        }
        let block_insertions = if reachable[b] {
            plan_block(tcx, body, analysis, b, flags)
        } else {
            let v: Vec<Insertion> = Vec::new();
            assert(insertions_view(v@) =~= Seq::<(nat, DropTree)>::empty());
            v
        };
        let ghost prev = insertions@;
        insertions.push(block_insertions);
        proof {
            assert(all_insertions_view(insertions@) =~= all_insertions_view(prev).push(insertions_view(insertions@[b as int]@)));
        }
        b = b + 1;
    }
    insertions
}

/// The parameters' plan reads neither the followed locals nor the universe's bookkeeping
/// beyond what the planning context holds.
proof fn lemma_params_same_ctx(ec: ElabCtx, pe: ElabCtx, may: Seq<bool>, must: Seq<bool>, flags: Seq<(Local, Seq<SubRegisters>)>, m: nat)
    requires
        ec.tcx == pe.tcx,
        ec.u == pe.u,
        ec.decls == pe.decls,
        ec.param_count == pe.param_count,
        ec.first == pe.first,
    ensures
        params_plan(ec, may, must, flags, m) == params_plan(pe, may, must, flags, m),
    decreases m,
{
    if m > 0 {
        lemma_params_same_ctx(ec, pe, may, must, flags, (m - 1) as nat);
        assert(pctx(ec, may, must) == pctx(pe, may, must));
    }
}

// ---------------------------------------------------------------------------------------------
// The pass
// ---------------------------------------------------------------------------------------------

proof fn lemma_stmts_plan_sorted(ec: ElabCtx, may0: Seq<bool>, must0: Seq<bool>, stmts: Seq<Statement>, flags: Seq<(Local, Seq<SubRegisters>)>, i: nat)
    ensures
        forall|j: int| 0 <= j < stmts_plan(ec, may0, must0, stmts, flags, i).0.len() ==> (#[trigger] stmts_plan(ec, may0, must0, stmts, flags, i).0[j]).0 < i,
        forall|a: int, b: int|
            0 <= a < b < stmts_plan(ec, may0, must0, stmts, flags, i).0.len() ==> (#[trigger] stmts_plan(ec, may0, must0, stmts, flags, i).0[a]).0
                < (#[trigger] stmts_plan(ec, may0, must0, stmts, flags, i).0[b]).0,
    decreases i,
{
    if i > 0 {
        lemma_stmts_plan_sorted(ec, may0, must0, stmts, flags, (i - 1) as nat);
        let (prev, f1) = stmts_plan(ec, may0, must0, stmts, flags, (i - 1) as nat);
        let k = i - 1;
        let (may, must) = state_at(ec, may0, must0, stmts, k);
        let r = stmts_plan(ec, may0, must0, stmts, flags, i).0;
        match stmt_target(ec.tcx, ec.decls, stmts[k]) {
            Some((pv, ty)) => {
                let (n, f2) = plan_spec(pctx(ec, may, must), f1, pv, ty, None, fuel_of(ec.tcx));
                match n {
                    Some(t) => {
                        assert(r == prev.push((k as nat, t)));
                    },
                    None => {
                        assert(r == prev);
                    },
                }
            },
            None => {
                assert(r == prev);
            },
        }
    }
}

/// The insertions planned for a block come in order, each before a statement or the
/// terminator.
proof fn lemma_block_plan_sorted(ec: ElabCtx, reachable: bool, may0: Seq<bool>, must0: Seq<bool>, block: BasicBlockData, flags: Seq<(Local, Seq<SubRegisters>)>)
    ensures
        crate::mir::drop_elaboration::editor::sorted_befores(block_plan(ec, reachable, may0, must0, block, flags).0, block.statements@.len()),
{
    if reachable {
        let stmts = block.statements@;
        lemma_stmts_plan_sorted(ec, may0, must0, stmts, flags, stmts.len());
    }
}

/// One past the largest statement id among the first `n` blocks, or 0.
pub open spec fn ids_end(blocks: Seq<BasicBlockData>, n: int) -> nat
    decreases n,
{
    if n <= 0 {
        0
    } else {
        let prev = ids_end(blocks, n - 1);
        let here = stmts_ids_end(blocks[n - 1].statements@, blocks[n - 1].statements@.len() as int);
        if here > prev { here } else { prev }
    }
}

pub open spec fn stmts_ids_end(stmts: Seq<Statement>, n: int) -> nat
    decreases n,
{
    if n <= 0 {
        0
    } else {
        let prev = stmts_ids_end(stmts, n - 1);
        let here = (stmts[n - 1].id.0 + 1) as nat;
        if here > prev { here } else { prev }
    }
}

/// The first statement id no statement of `body` uses.
fn first_free_id(body: &Body) -> (id: usize)
    requires
        ids_end(body.basic_blocks@, body.basic_blocks@.len() as int) <= u32::MAX,
    ensures
        id == ids_end(body.basic_blocks@, body.basic_blocks@.len() as int),
{
    let mut best: u64 = 0;
    let mut b: usize = 0;
    while b < body.basic_blocks.len()
        invariant
            b <= body.basic_blocks@.len(),
            best == ids_end(body.basic_blocks@, b as int),
            best <= u32::MAX as u64 + 1,
        decreases body.basic_blocks@.len() - b,
    {
        let stmts = &body.basic_blocks[b].statements;
        let mut here: u64 = 0;
        let mut i: usize = 0;
        while i < stmts.len()
            invariant
                i <= stmts@.len(),
                here == stmts_ids_end(stmts@, i as int),
                here <= u32::MAX as u64 + 1,
            decreases stmts@.len() - i,
        {
            let candidate = stmts[i].id.0 as u64 + 1;
            if candidate > here {
                here = candidate;
            }
            i = i + 1;
        }
        if here > best {
            best = here;
        }
        b = b + 1;
    }
    proof {
        lemma_ids_end_le(body.basic_blocks@, body.basic_blocks@.len() as int);
    }
    best as usize
}

proof fn lemma_ids_end_le(blocks: Seq<BasicBlockData>, n: int)
    ensures
        ids_end(blocks, n) <= u32::MAX + 1,
    decreases n,
{
    if n > 0 {
        lemma_ids_end_le(blocks, n - 1);
        lemma_stmts_ids_end_le(blocks[n - 1].statements@, blocks[n - 1].statements@.len() as int);
    }
}

proof fn lemma_stmts_ids_end_le(stmts: Seq<Statement>, n: int)
    ensures
        stmts_ids_end(stmts, n) <= u32::MAX + 1,
    decreases n,
{
    if n > 0 {
        lemma_stmts_ids_end_le(stmts, n - 1);
    }
}

/// The flags as the rewriting reads them: each reserved register with its local.
pub open spec fn flag_locals(regs: Seq<(Local, Seq<SubRegisters>)>, first: nat) -> Seq<((Local, Seq<SubRegisters>), Local)> {
    Seq::new(regs.len(), |i: int| (regs[i], Local((first + i) as u32)))
}

/// Where the rewriting of the first `k` blocks leaves off, from the locals after the flags and
/// the first free statement id.
pub open spec fn rewrites_state(tcx: TyCtx, body: Body, k: nat) -> crate::mir::drop_elaboration::editor::Counts
    decreases k,
{
    let (plan, regs) = drop_plan(tcx, body);
    let first = body.local_decls@.len();
    if k == 0 {
        crate::mir::drop_elaboration::editor::Counts {
            nb: body.basic_blocks@.len(),
            nl: first + regs.len(),
            ni: ids_end(body.basic_blocks@, body.basic_blocks@.len() as int),
        }
    } else {
        crate::mir::drop_elaboration::editor::rewrite_end(
            body.basic_blocks@[k - 1],
            plan[k - 1],
            flag_locals(regs, first),
            rewrites_state(tcx, body, (k - 1) as nat),
        )
    }
}

/// What the pass needs of a body: a control-flow graph, types for every place it asks about,
/// no `any` type whose drop runs code, and room in every `u32` index for what it adds.
pub open spec fn elab_ready(tcx: TyCtx, body: Body) -> bool {
    &&& crate::mir::drop_elaboration::move_state::move_analyzable(tcx, body)
    &&& elab_typed(tcx, body)
    &&& forall|t: Ty, f: nat| tcx.has(t) && tcx.kind_of(t) is Any ==> !drop_within(tcx, t, f)
    &&& body.local_decls@.len() + drop_plan(tcx, body).1.len() <= u32::MAX
    &&& ({
        let end = rewrites_state(tcx, body, body.basic_blocks@.len());
        end.nb <= u32::MAX && end.nl <= u32::MAX && end.ni <= u32::MAX
    })
}

/// `after` is `body` with its drops elaborated: when no point needs a drop, `body` itself;
/// otherwise the same definition with a `bool` local declared for each flag after its locals,
/// and each block rewritten in turn with its planned drops, the drop code appended as new
/// blocks and locals.
pub open spec fn elaborated(tcx: TyCtx, body: Body, after: Body, bool_ty: Ty, discr_ty: Ty) -> bool {
    let (plan, regs) = drop_plan(tcx, body);
    let first = body.local_decls@.len();
    let nb = body.basic_blocks@.len();
    if forall|b: int| 0 <= b < nb ==> (#[trigger] plan[b]).len() == 0 {
        after == body
    } else {
        let env = crate::mir::drop_elaboration::editor::EmitEnv { blocks: after.basic_blocks@, decls: after.local_decls@, bool_ty, discr_ty };
        let end = rewrites_state(tcx, body, nb);
        &&& after.def_id == body.def_id
        &&& after.kind == body.kind
        &&& after.param_count == body.param_count
        &&& after.generics == body.generics
        &&& after.span == body.span
        &&& after.basic_blocks@.len() == end.nb
        &&& after.local_decls@.len() == end.nl
        &&& forall|i: int| 0 <= i < first ==> after.local_decls@[i] == body.local_decls@[i]
        &&& forall|i: int| first <= i < first + regs.len() ==> #[trigger] after.local_decls@[i] == (LocalDecl {
            ty: bool_ty,
            name: None,
            span: body.span,
            mutability: crate::ast::Mutability::Mutable,
        })
        &&& forall|b: int| 0 <= b < nb ==> crate::mir::drop_elaboration::editor::rewrite_ok(
            b as nat,
            #[trigger] body.basic_blocks@[b],
            plan[b],
            flag_locals(regs, first),
            rewrites_state(tcx, body, b as nat),
            env,
        )
    }
}

proof fn lemma_rewrites_mono(tcx: TyCtx, body: Body, k: nat, q: nat)
    requires
        k <= q <= body.basic_blocks@.len(),
    ensures
        crate::mir::drop_elaboration::editor::le(rewrites_state(tcx, body, k), rewrites_state(tcx, body, q)),
    decreases q,
{
    if k < q {
        lemma_rewrites_mono(tcx, body, k, (q - 1) as nat);
        let (plan, regs) = drop_plan(tcx, body);
        let s = rewrites_state(tcx, body, (q - 1) as nat);
        let data = body.basic_blocks@[q - 1];
        let ins = plan[q - 1];
        let fl = flag_locals(regs, body.local_decls@.len());
        let rs = crate::mir::drop_elaboration::editor::rewrite_start(data, fl, s);
        crate::mir::drop_elaboration::editor::lemma_splice_state_mono_pub(crate::mir::drop_elaboration::editor::ins_trees(ins), 0, ins.len(), rs);
    }
}

/// Elaborates the drops of one body: `bool_ty` is the type of a drop flag, `discr_ty` that of
/// a discriminant read.
#[verifier::rlimit(80)]
pub fn elaborate_body(tcx: &TyCtx, body: Body, bool_ty: Ty, discr_ty: Ty) -> (after: Body)
    requires
        elab_ready(*tcx, body),
    ensures
        elaborated(*tcx, body, after, bool_ty, discr_ty),
{
    let ghost body0 = body;
    let ghost nb = body.basic_blocks@.len();
    let analysis = crate::mir::drop_elaboration::move_state::analyze(tcx, &body);
    let mut flags = FlagLocals::new(bool_ty, body.local_decls.len());
    proof {
        lemma_blocks_plan_mono(*tcx, body, nb, nb);
    }
    let mut insertions = plan_insertions(tcx, &body, &analysis, &mut flags);
    let ghost plan = drop_plan(*tcx, body).0;
    let ghost regs = drop_plan(*tcx, body).1;
    let mut all_empty = true;
    let mut k: usize = 0;
    while k < insertions.len()
        invariant
            k <= insertions@.len(),
            insertions@.len() == nb,
            all_insertions_view(insertions@) == plan,
            all_empty == forall|b: int| 0 <= b < k ==> (#[trigger] plan[b]).len() == 0,
        decreases insertions@.len() - k,
    {
        assert(plan[k as int] == insertions_view(insertions@[k as int]@));
        if insertions[k].len() > 0 {
            all_empty = false;
        }
        k = k + 1;
    }
    if all_empty {
        return body;
    }
    proof {
        lemma_rewrites_mono(*tcx, body, 0, nb);
    }
    let next = first_free_id(&body);
    let Body { def_id, kind, basic_blocks, local_decls, param_count, generics, span } = body;
    let mut blocks = basic_blocks;
    let mut decls = local_decls;
    let ghost first = decls@.len();
    let mut f: usize = 0;
    while f < flags.reserved.len()
        invariant
            f <= flags.reserved@.len(),
            flags.regs() == regs,
            decls@.len() == first + f,
            first == body0.local_decls@.len(),
            first + regs.len() <= u32::MAX,
            forall|i: int| 0 <= i < first ==> decls@[i] == body0.local_decls@[i],
            forall|i: int| first <= i < first + f ==> #[trigger] decls@[i] == (LocalDecl {
                ty: bool_ty,
                name: None,
                span,
                mutability: crate::ast::Mutability::Mutable,
            }),
        decreases flags.reserved@.len() - f,
    {
        decls.push(LocalDecl { ty: bool_ty, name: None, span, mutability: crate::ast::Mutability::Mutable });
        f = f + 1;
    }
    let mut editor = crate::mir::drop_elaboration::editor::Editor { next_statement_id: next, bool_ty, discriminant_ty: discr_ty };
    let ghost fl = flag_locals(regs, first);
    proof {
        assert(crate::mir::drop_elaboration::editor::flags_view(flags.reserved@) =~= fl) by {
            assert forall|i: int| 0 <= i < fl.len() implies crate::mir::drop_elaboration::editor::flags_view(flags.reserved@)[i] == fl[i] by {
                assert(flags.reserved@[i].1.0 == flags.first + i);
                assert(flags.regs()[i] == crate::mir::checks::borrowck::reg_view(flags.reserved@[i].0));
            }
        }
        lemma_rewrites_mono(*tcx, body0, 0, nb);
    }
    let mut b: usize = 0;
    let n_blocks = blocks.len();
    while b < n_blocks
        invariant
            b <= nb,
            n_blocks == nb,
            nb == body0.basic_blocks@.len(),
            insertions@.len() == nb - b,
            forall|c: int| 0 <= c < nb - b ==> insertions_view(#[trigger] insertions@[c]@) == plan[c + b],
            plan == drop_plan(*tcx, body0).0,
            regs == drop_plan(*tcx, body0).1,
            first == body0.local_decls@.len(),
            fl == flag_locals(regs, first),
            crate::mir::drop_elaboration::editor::flags_view(flags.reserved@) == fl,
            editor.bool_ty == bool_ty,
            editor.discriminant_ty == discr_ty,
            ({
                let end = rewrites_state(*tcx, body0, nb);
                end.nb <= u32::MAX && end.nl <= u32::MAX && end.ni <= u32::MAX
            }),
            crate::mir::drop_elaboration::editor::le(rewrites_state(*tcx, body0, b as nat), rewrites_state(*tcx, body0, nb)),
            crate::mir::drop_elaboration::editor::start_of(editor, blocks@, decls@) == rewrites_state(*tcx, body0, b as nat),
            forall|c: int| b <= c < nb ==> blocks@[c] == body0.basic_blocks@[c],
            forall|i: int| 0 <= i < first ==> decls@[i] == body0.local_decls@[i],
            forall|i: int| first <= i < first + regs.len() ==> #[trigger] decls@[i] == (LocalDecl {
                ty: bool_ty,
                name: None,
                span,
                mutability: crate::ast::Mutability::Mutable,
            }),
            span == body0.span,
            forall|c: int| 0 <= c < b ==> crate::mir::drop_elaboration::editor::rewrite_ok(
                c as nat,
                #[trigger] body0.basic_blocks@[c],
                plan[c],
                fl,
                rewrites_state(*tcx, body0, c as nat),
                crate::mir::drop_elaboration::editor::env_of(editor, blocks@, decls@),
            ),
        decreases nb - b,
    {
        let ins = insertions.remove(0);
        proof {
            assert(insertions_view(ins@) == plan[b as int]);
            lemma_blocks_plan_mono(*tcx, body0, b as nat, b as nat);
            assert(blocks_plan(*tcx, body0, (b + 1) as nat).0[b as int] == block_plan(
                elab_ctx(*tcx, body0),
                reachable_in(body0.basic_blocks@, b as int),
                least_entries(move_problem(*tcx, body0, Meet::Union))[b as int],
                least_entries(move_problem(*tcx, body0, Meet::Intersection))[b as int],
                body0.basic_blocks@[b as int],
                blocks_plan(*tcx, body0, b as nat).1,
            ).0);
            lemma_block_plan_sorted(
                elab_ctx(*tcx, body0),
                reachable_in(body0.basic_blocks@, b as int),
                least_entries(move_problem(*tcx, body0, Meet::Union))[b as int],
                least_entries(move_problem(*tcx, body0, Meet::Intersection))[b as int],
                body0.basic_blocks@[b as int],
                blocks_plan(*tcx, body0, b as nat).1,
            );
            lemma_blocks_plan_mono(*tcx, body0, (b + 1) as nat, nb);
            lemma_blocks_plan_prefix(*tcx, body0, (b + 1) as nat, nb, b as int);
            lemma_rewrites_mono(*tcx, body0, (b + 1) as nat, nb);
            lemma_rewrites_mono(*tcx, body0, b as nat, (b + 1) as nat);
            lemma_rewrites_mono(*tcx, body0, 0, b as nat);
        }
        let ghost env0 = crate::mir::drop_elaboration::editor::env_of(editor, blocks@, decls@);
        let ghost blocks0 = blocks@;
        editor.rewrite_block(&mut blocks, &mut decls, b, ins, &flags.reserved, span);
        proof {
            let env1 = crate::mir::drop_elaboration::editor::env_of(editor, blocks@, decls@);
            lemma_rewrites_kept(*tcx, body0, plan, fl, b as nat, env0, env1);
        }
        b = b + 1;
    }
    Body { def_id, kind, basic_blocks: blocks, local_decls: decls, param_count, generics, span }
}

/// Rewriting block `b` keeps the blocks rewritten before it.
proof fn lemma_rewrites_kept(
    tcx: TyCtx,
    body0: Body,
    plan: Seq<Seq<(nat, DropTree)>>,
    fl: Seq<((Local, Seq<SubRegisters>), Local)>,
    b: nat,
    env0: crate::mir::drop_elaboration::editor::EmitEnv,
    env1: crate::mir::drop_elaboration::editor::EmitEnv,
)
    requires
        b < body0.basic_blocks@.len(),
        plan == drop_plan(tcx, body0).0,
        fl == flag_locals(drop_plan(tcx, body0).1, body0.local_decls@.len()),
        forall|c: int| 0 <= c < b ==> crate::mir::drop_elaboration::editor::rewrite_ok(
            c as nat,
            #[trigger] body0.basic_blocks@[c],
            plan[c],
            fl,
            rewrites_state(tcx, body0, c as nat),
            env0,
        ),
        crate::mir::drop_elaboration::editor::rewrite_ok(b, body0.basic_blocks@[b as int], plan[b as int], fl, rewrites_state(tcx, body0, b), env1),
        env0.bool_ty == env1.bool_ty,
        env0.discr_ty == env1.discr_ty,
        env0.blocks.len() == rewrites_state(tcx, body0, b).nb,
        env0.decls.len() == rewrites_state(tcx, body0, b).nl,
        env1.blocks.len() >= env0.blocks.len(),
        env1.decls.len() >= env0.decls.len(),
        forall|i: int| 0 <= i < env0.blocks.len() && i != b ==> env1.blocks[i] == env0.blocks[i],
        forall|i: int| 0 <= i < env0.decls.len() ==> env1.decls[i] == env0.decls[i],
    ensures
        forall|c: int| 0 <= c < b + 1 ==> crate::mir::drop_elaboration::editor::rewrite_ok(
            c as nat,
            #[trigger] body0.basic_blocks@[c],
            plan[c],
            fl,
            rewrites_state(tcx, body0, c as nat),
            env1,
        ),
{
    assert forall|c: int| 0 <= c < b + 1 implies crate::mir::drop_elaboration::editor::rewrite_ok(
        c as nat,
        #[trigger] body0.basic_blocks@[c],
        plan[c],
        fl,
        rewrites_state(tcx, body0, c as nat),
        env1,
    ) by {
        if c < b {
            lemma_rewrites_mono(tcx, body0, (c + 1) as nat, b);
            lemma_rewrites_mono(tcx, body0, c as nat, (c + 1) as nat);
            lemma_rewrites_mono(tcx, body0, 0, c as nat);
            crate::mir::drop_elaboration::editor::lemma_rewrite_frame(
                c as nat, body0.basic_blocks@[c], plan[c], fl, rewrites_state(tcx, body0, c as nat), env0, env1,
            );
        }
    }
}

/// The insertions of block `c` stay what they were once planned.
proof fn lemma_blocks_plan_prefix(tcx: TyCtx, body: Body, k: nat, q: nat, c: int)
    requires
        0 <= c < k <= q,
    ensures
        blocks_plan(tcx, body, k).0[c] == blocks_plan(tcx, body, q).0[c],
    decreases q,
{
    if k < q {
        lemma_blocks_plan_prefix(tcx, body, k, (q - 1) as nat, c);
        lemma_blocks_plan_mono(tcx, body, (q - 1) as nat, (q - 1) as nat);
    }
}

/// Elaborates the drops of every instance's body, in order, keeping the instances.
pub fn elaborate_drops(tcx: &TyCtx, bool_ty: Ty, discr_ty: Ty, instances: Vec<(Instance, Body)>) -> (out: Vec<(Instance, Body)>)
    requires
        forall|i: int| 0 <= i < instances@.len() ==> elab_ready(*tcx, (#[trigger] instances@[i]).1),
    ensures
        out@.len() == instances@.len(),
        forall|i: int| 0 <= i < out@.len() ==> (#[trigger] out@[i]).0 == instances@[i].0
            && elaborated(*tcx, instances@[i].1, out@[i].1, bool_ty, discr_ty),
{
    let ghost all = instances@;
    let n = instances.len();
    let mut rest = instances;
    let mut out: Vec<(Instance, Body)> = Vec::new();
    let mut i: usize = 0;
    while i < n
        invariant
            n == all.len(),
            i <= n,
            rest@ == all.subrange(i as int, n as int),
            forall|j: int| 0 <= j < all.len() ==> elab_ready(*tcx, (#[trigger] all[j]).1),
            out@.len() == i,
            forall|j: int| 0 <= j < i ==> (#[trigger] out@[j]).0 == all[j].0 && elaborated(*tcx, all[j].1, out@[j].1, bool_ty, discr_ty),
        decreases n - i,
    {
        let (instance, body) = rest.remove(0);
        assert((instance, body) == all[i as int]);
        let after = elaborate_body(tcx, body, bool_ty, discr_ty);
        out.push((instance, after));
        i = i + 1;
        assert(rest@ =~= all.subrange(i as int, n as int));
    }
    out
}

// ---------------------------------------------------------------------------------------------
// Laws
// ---------------------------------------------------------------------------------------------

proof fn lemma_stmts_plan_distinct(ec: ElabCtx, may0: Seq<bool>, must0: Seq<bool>, stmts: Seq<Statement>, flags: Seq<(Local, Seq<SubRegisters>)>, i: nat)
    requires
        distinct_flags(flags),
    ensures
        distinct_flags(stmts_plan(ec, may0, must0, stmts, flags, i).1),
    decreases i,
{
    if i > 0 {
        lemma_stmts_plan_distinct(ec, may0, must0, stmts, flags, (i - 1) as nat);
        let (prev, f1) = stmts_plan(ec, may0, must0, stmts, flags, (i - 1) as nat);
        let (may, must) = state_at(ec, may0, must0, stmts, i - 1);
        match stmt_target(ec.tcx, ec.decls, stmts[i - 1]) {
            Some((pv, ty)) => {
                law_plan_flags_distinct(pctx(ec, may, must), f1, pv, ty, None, fuel_of(ec.tcx));
            },
            None => {},
        }
    }
}

proof fn lemma_params_plan_distinct(ec: ElabCtx, may: Seq<bool>, must: Seq<bool>, flags: Seq<(Local, Seq<SubRegisters>)>, m: nat)
    requires
        distinct_flags(flags),
    ensures
        distinct_flags(params_plan(ec, may, must, flags, m).1),
    decreases m,
{
    if m > 0 && m <= ec.param_count {
        lemma_params_plan_distinct(ec, may, must, flags, (m - 1) as nat);
        let (prev, f1) = params_plan(ec, may, must, flags, (m - 1) as nat);
        let index = ec.param_count - (m - 1);
        law_plan_flags_distinct(pctx(ec, may, must), f1, (Local(index as u32), Seq::<Projection>::empty()), ec.decls[index].ty, None, fuel_of(ec.tcx));
    }
}

proof fn lemma_blocks_plan_distinct(tcx: TyCtx, body: Body, n: nat)
    ensures
        distinct_flags(blocks_plan(tcx, body, n).1),
    decreases n,
{
    if n > 0 {
        lemma_blocks_plan_distinct(tcx, body, (n - 1) as nat);
        let (prev, f1) = blocks_plan(tcx, body, (n - 1) as nat);
        let b = n - 1;
        if reachable_in(body.basic_blocks@, b) {
            let ec = elab_ctx(tcx, body);
            let may0 = least_entries(move_problem(tcx, body, Meet::Union))[b];
            let must0 = least_entries(move_problem(tcx, body, Meet::Intersection))[b];
            let stmts = body.basic_blocks@[b].statements@;
            lemma_stmts_plan_distinct(ec, may0, must0, stmts, f1, stmts.len());
            let (ins, f2) = stmts_plan(ec, may0, must0, stmts, f1, stmts.len());
            let (may, must) = state_at(ec, may0, must0, stmts, stmts.len() as int);
            lemma_params_plan_distinct(ec, may, must, f2, ec.param_count);
        }
    } else {
        assert(distinct_flags(Seq::<(Local, Seq<SubRegisters>)>::empty()));
    }
}

/// Every drop flag of a body guards its own register: no register gets two flags, so the
/// flag updates of one move or initialization never disagree.
pub proof fn law_one_flag_per_register(tcx: TyCtx, body: Body)
    ensures
        distinct_flags(drop_plan(tcx, body).1),
{
    lemma_blocks_plan_distinct(tcx, body, body.basic_blocks@.len());
}

/// A body where no point needs a drop comes out of elaboration unchanged.
pub proof fn law_nothing_to_drop_changes_nothing(tcx: TyCtx, body: Body, after: Body, bool_ty: Ty, discr_ty: Ty)
    requires
        elaborated(tcx, body, after, bool_ty, discr_ty),
        forall|b: int| 0 <= b < body.basic_blocks@.len() ==> (#[trigger] drop_plan(tcx, body).0[b]).len() == 0,
    ensures
        after == body,
{
}

/// A block that control cannot reach gets no drops.
pub proof fn law_unreachable_blocks_get_no_drops(tcx: TyCtx, body: Body, b: int)
    requires
        0 <= b < body.basic_blocks@.len(),
        !reachable_in(body.basic_blocks@, b),
    ensures
        drop_plan(tcx, body).0[b].len() == 0,
{
    lemma_blocks_plan_prefix(tcx, body, (b + 1) as nat, body.basic_blocks@.len(), b);
    lemma_blocks_plan_mono(tcx, body, b as nat, b as nat);
}

} // verus!
