//! The always-return check: every path through a body must end in a return.
//!
//! One flag per block says whether the paths reaching its end have returned: a `Return` or an
//! `Assert` terminator sets it, any other terminator passes its entry on, and a block's entry
//! holds when it holds at the end of every predecessor. The body passes when the flag holds at
//! the end of every block that has no successor.

use vstd::prelude::*;
use crate::ast::SrcSpan;
use crate::diag::Diagnostic;
use crate::mir::body::{block_successors, edge_count, Body};
use crate::mir::checks::lattice::{exits_view, problem_of, solve, Meet, Problem, Transfer};
use crate::mir::ids::BasicBlock;
use crate::mir::lower::Mir;
use crate::mir::terminator::TerminatorKind;

verus! {

/// Whether a block ending in `kind` has returned by its end.
pub open spec fn ends_in_return(kind: TerminatorKind) -> bool {
    kind is Return || kind is Assert
}

/// The problem of `body`: one flag, intersection over predecessors, set on entry to the start,
/// set by a returning terminator and passed on by any other.
pub open spec fn ar_problem(body: Body) -> Problem {
    let nb = body.basic_blocks@.len();
    Problem {
        preds: Seq::new(nb, |b: int| crate::mir::body::preds_among(body.basic_blocks@, nb as int, BasicBlock(b as u32))),
        width: 1,
        meet: Meet::Intersection,
        init: seq![true],
        gens: Seq::new(nb, |b: int| seq![ends_in_return(body.basic_blocks@[b].terminator.kind)]),
        kills: Seq::new(nb, |b: int| seq![false]),
    }
}

/// Every block without a successor has returned by its end.
pub open spec fn all_paths_return(body: Body, exits: Seq<Seq<bool>>) -> bool {
    forall|b: int|
        0 <= b < body.basic_blocks@.len() && #[trigger] block_successors(body.basic_blocks@, b).len() == 0 ==> exits[b][0]
}

/// What the check needs of a body: at least one block, and a control-flow graph that stays
/// inside it.
pub open spec fn ar_checkable(body: Body) -> bool {
    &&& body.basic_blocks@.len() > 0
    &&& body.targets_in_range()
    &&& edge_count(body.basic_blocks@, body.basic_blocks@.len() as int) < usize::MAX
}

/// Whether every path through `body` returns, by the least solution of its problem.
pub fn check_body(body: &Body) -> (r: bool)
    requires
        ar_checkable(*body),
    ensures
        exists|exits: Seq<Seq<bool>>| #[trigger] ar_problem(*body).least(exits) && r == all_paths_return(*body, exits),
{
    let ghost nb = body.basic_blocks@.len();
    let ghost p = ar_problem(*body);
    let mut transfers: Vec<Transfer> = Vec::new();
    let mut b: usize = 0;
    while b < body.basic_blocks.len()
        invariant
            b <= body.basic_blocks@.len(),
            p == ar_problem(*body),
            transfers@.len() == b,
            forall|c: int| 0 <= c < b ==> (#[trigger] transfers@[c]).gen@ == p.gens[c] && transfers@[c].kill@ == p.kills[c],
        decreases body.basic_blocks@.len() - b,
    {
        let returning = match body.basic_blocks[b].terminator.kind {
            TerminatorKind::Return | TerminatorKind::Assert { .. } => true,
            _ => false,
        };
        let t = Transfer { gen: vec![returning], kill: vec![false] };
        assert(t.gen@ =~= p.gens[b as int]);
        assert(t.kill@ =~= p.kills[b as int]);
        transfers.push(t);
        b = b + 1;
    }
    let init = vec![true];
    proof {
        let q = problem_of(*body, 1, Meet::Intersection, init@, transfers@);
        assert(q.gens =~= p.gens);
        assert(q.kills =~= p.kills);
        assert(q.preds =~= p.preds);
        assert(q.init =~= p.init);
        assert(q == p);
    }
    let lattice = solve(body, 1, &init, &transfers, Meet::Intersection);
    let ghost exits = exits_view(lattice, nb);
    let mut all = true;
    let mut k: usize = 0;
    while k < body.basic_blocks.len()
        invariant
            nb == body.basic_blocks@.len(),
            body.targets_in_range(),
            k <= nb,
            p == ar_problem(*body),
            exits == exits_view(lattice, nb),
            p.least(exits),
            forall|c: int| 0 <= c < nb ==> #[trigger] lattice.entry@.dom().contains(c as u32) && lattice.exit@.dom().contains(c as u32),
            all == forall|c: int| 0 <= c < k && #[trigger] block_successors(body.basic_blocks@, c).len() == 0 ==> exits[c][0],
        decreases nb - k,
    {
        if body.successors(BasicBlock(k as u32)).len() == 0 {
            assert(lattice.entry@.dom().contains(k as u32));
            let state = lattice.exit(BasicBlock(k as u32)).unwrap();
            assert(state@ == exits[k as int]);
            assert(exits[k as int].len() == 1);
            let returned = state[0];
            all = all && returned;
        }
        proof {
            assert((forall|c: int| 0 <= c < k + 1 && #[trigger] block_successors(body.basic_blocks@, c).len() == 0 ==> exits[c][0])
                == ((forall|c: int| 0 <= c < k && #[trigger] block_successors(body.basic_blocks@, c).len() == 0 ==> exits[c][0])
                && (block_successors(body.basic_blocks@, k as int).len() == 0 ==> exits[k as int][0])));
        }
        k = k + 1;
    }
    all
}

pub open spec fn not_all_paths_return_message() -> Seq<char> {
    "not all paths return a value"@
}

fn report_not_all_paths_return(span: SrcSpan) -> (d: Diagnostic)
    ensures
        d.message@ == not_all_paths_return_message(),
        d.span == span,
{
    proof {
        reveal_strlit("not all paths return a value");
    }
    Diagnostic::error(String::from_str("not all paths return a value"), span)
}

/// Whether `diags` holds, for each of `bodies` in order that does not always return, one
/// report at its span.
pub open spec fn program_reports(bodies: Seq<Body>, diags: Seq<Diagnostic>) -> bool
    decreases bodies.len(),
{
    if bodies.len() == 0 {
        diags.len() == 0
    } else {
        let last = bodies.last();
        let fails = exists|exits: Seq<Seq<bool>>| #[trigger] ar_problem(last).least(exits) && !all_paths_return(last, exits);
        if fails {
            diags.len() > 0 && program_reports(bodies.drop_last(), diags.drop_last()) && diags.last().message@
                == not_all_paths_return_message() && diags.last().span == last.span
        } else {
            program_reports(bodies.drop_last(), diags)
        }
    }
}

/// Checks every body of `mir`, reporting each that does not always return.
pub fn check(mir: &Mir) -> (diags: Vec<Diagnostic>)
    requires
        forall|k: int| 0 <= k < mir.bodies@.len() ==> ar_checkable(#[trigger] mir.bodies@[k].1),
    ensures
        program_reports(crate::mir::constck::program_bodies(*mir), diags@),
{
    let ghost bodies = crate::mir::constck::program_bodies(*mir);
    let mut out: Vec<Diagnostic> = Vec::new();
    let mut k: usize = 0;
    while k < mir.bodies.len()
        invariant
            forall|j: int| 0 <= j < mir.bodies@.len() ==> ar_checkable(#[trigger] mir.bodies@[j].1),
            bodies == crate::mir::constck::program_bodies(*mir),
            k <= mir.bodies@.len(),
            program_reports(bodies.take(k as int), out@),
        decreases mir.bodies@.len() - k,
    {
        let body = &mir.bodies[k].1;
        let ok = check_body(body);
        let ghost before = out@;
        if !ok {
            out.push(report_not_all_paths_return(body.span));
        }
        proof {
            let bs = bodies.take(k + 1);
            assert(bs.drop_last() =~= bodies.take(k as int));
            assert(bs.last() == *body);
            let x = choose|exits: Seq<Seq<bool>>| #[trigger] ar_problem(*body).least(exits) && ok == all_paths_return(*body, exits);
            assert forall|y: Seq<Seq<bool>>| #[trigger] ar_problem(*body).least(y) implies y == x by {
                crate::mir::checks::lattice::law_least_unique(ar_problem(*body), x, y);
            }
            if !ok {
                assert(out@.drop_last() =~= before);
            }
        }
        k = k + 1;
    }
    assert(bodies.take(mir.bodies@.len() as int) =~= bodies);
    out
}

} // verus!
