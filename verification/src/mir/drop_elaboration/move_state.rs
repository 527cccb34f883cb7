//! Which registers of a body may have been moved out, and which must have been, at each point.
//!
//! Only locals whose type needs dropping are followed. A state is a pair of sets over the
//! body's universe of registers (see the definite-initialization check, whose effects on a set
//! this pass shares): `may` holds the registers moved out along some path, `must` those moved
//! out along every path. At a block's entry, `may` is the union of its predecessors' exit
//! states and `must` their intersection; both come from the least solution of their equations.

use vstd::prelude::*;
use crate::mir::body::{edge_count, Body};
use crate::mir::checks::borrowck::definite_init::{
    apply_statement as apply_ops_statement, block_ops, block_transfer, stmt_ops, universe, universe_of,
};
use crate::mir::checks::borrowck::{is_prefix, place_reg, prefix_of, regs_view, register_of, Register, SubRegisters};
use crate::mir::checks::lattice::{
    entries_view, exits_view, law_least_unique, lemma_run_len, problem_of, run, solve, Meet, Problem, Transfer,
};
use crate::mir::ids::{BasicBlock, Local};
use crate::mir::place::Place;
use crate::mir::statement::Statement;
use crate::typeck::{drop_within, TyCtx};

verus! {

/// The locals the analysis follows: those whose type needs dropping.
pub open spec fn droppable_of(tcx: TyCtx, body: Body) -> Seq<bool> {
    Seq::new(
        body.local_decls@.len(),
        |i: int| drop_within(tcx, body.local_decls@[i].ty, tcx.kinds_view().len() + 1),
    )
}

/// The equations of `body` with the given meet: nothing moved on entry, each block summarized
/// by the gen/kill pair of its effects over the universe.
pub open spec fn move_problem(tcx: TyCtx, body: Body, meet: Meet) -> Problem {
    let nb = body.basic_blocks@.len();
    let u = universe_of(body);
    let dr = droppable_of(tcx, body);
    Problem {
        preds: Seq::new(nb, |b: int| crate::mir::body::preds_among(body.basic_blocks@, nb as int, BasicBlock(b as u32))),
        width: u.len(),
        meet,
        init: Seq::new(u.len(), |i: int| false),
        gens: Seq::new(nb, |b: int| run(Seq::new(u.len(), |i: int| false), block_ops(u, dr, body.basic_blocks@[b]))),
        kills: Seq::new(nb, |b: int| Seq::new(u.len(), |i: int| !run(Seq::new(u.len(), |j: int| true), block_ops(u, dr, body.basic_blocks@[b]))[i])),
    }
}

/// The entry states of the least solution of `p`.
pub open spec fn least_entries(p: Problem) -> Seq<Seq<bool>> {
    let x = choose|x: Seq<Seq<bool>>| p.least(x);
    Seq::new(p.n(), |b: int| p.entry_of(x, b))
}

/// What the analysis needs of a body: a control-flow graph inside it, a universe that fits its
/// `u32` indices, and a well-formed type table.
pub open spec fn move_analyzable(tcx: TyCtx, body: Body) -> bool {
    &&& tcx.wf()
    &&& body.basic_blocks@.len() > 0
    &&& body.targets_in_range()
    &&& edge_count(body.basic_blocks@, body.basic_blocks@.len() as int) < usize::MAX
    &&& universe_of(body).len() <= u32::MAX
}

/// Whether a register of state `s` is `r` or lies above it, at depth `from` or deeper.
pub open spec fn held_from(u: Seq<(Local, Seq<SubRegisters>)>, s: Seq<bool>, r: (Local, Seq<SubRegisters>), from: int) -> bool {
    exists|k: int| 0 <= k < u.len() && #[trigger] s[k] && u[k].0 == r.0 && from <= u[k].1.len() && is_prefix(u[k].1, r.1)
}

#[derive(Clone, Copy, Debug, PartialEq, Eq, Structural)]
pub enum Ownership {
    Owned,
    Moved,
    Maybe,
}

/// Whether `r` is moved out on every path, on some, or on none, counting only the registers
/// above it at depth `from` or deeper.
pub open spec fn status_spec(u: Seq<(Local, Seq<SubRegisters>)>, may: Seq<bool>, must: Seq<bool>, r: (Local, Seq<SubRegisters>), from: int) -> Ownership {
    if held_from(u, must, r, from) {
        Ownership::Moved
    } else if held_from(u, may, r, from) {
        Ownership::Maybe
    } else {
        Ownership::Owned
    }
}

/// Whether no part strictly inside `r` may have been moved out.
pub open spec fn owns_every_part_spec(u: Seq<(Local, Seq<SubRegisters>)>, may: Seq<bool>, r: (Local, Seq<SubRegisters>)) -> bool {
    !exists|k: int| 0 <= k < u.len() && #[trigger] may[k] && u[k].0 == r.0 && u[k].1.len() > r.1.len() && is_prefix(r.1, u[k].1)
}

/// The two sets at one point, over the universe.
pub struct MoveState {
    pub may: Vec<bool>,
    pub must: Vec<bool>,
}

/// The universe, the followed locals and the state at each block's entry.
pub struct MoveAnalysis {
    pub universe: Vec<Register>,
    pub droppable: Vec<bool>,
    pub entries: Vec<MoveState>,
}

fn held_exec(u: &Vec<Register>, s: &Vec<bool>, r: &Register, from: u128) -> (h: bool)
    requires
        s@.len() == u@.len(),
    ensures
        h == held_from(regs_view(u@), s@, (r.owner, r.subregister@), from as int),
{
    let ghost uv = regs_view(u@);
    let mut k: usize = 0;
    while k < u.len()
        invariant
            s@.len() == u@.len(),
            uv == regs_view(u@),
            k <= u@.len(),
            forall|j: int| 0 <= j < k ==> !(s@[j] && uv[j].0 == r.owner && from <= uv[j].1.len() && is_prefix(uv[j].1, r.subregister@)),
        decreases u@.len() - k,
    {
        if s[k] && u[k].owner == r.owner && from <= u[k].subregister.len() as u128 && prefix_of(&u[k].subregister, &r.subregister) {
            assert(uv[k as int] == (u@[k as int].owner, u@[k as int].subregister@));
            return true;
        }
        assert(uv[k as int] == (u@[k as int].owner, u@[k as int].subregister@));
        k = k + 1;
    }
    false
}

impl MoveState {
    pub fn copy(&self) -> (c: MoveState)
        ensures
            c.may@ == self.may@,
            c.must@ == self.must@,
    {
        MoveState { may: self.may.clone(), must: self.must.clone() }
    }

    fn status_from(&self, u: &Vec<Register>, r: &Register, from: u128) -> (o: Ownership)
        requires
            self.may@.len() == u@.len(),
            self.must@.len() == u@.len(),
        ensures
            o == status_spec(regs_view(u@), self.may@, self.must@, (r.owner, r.subregister@), from as int),
    {
        if held_exec(u, &self.must, r, from) {
            Ownership::Moved
        } else if held_exec(u, &self.may, r, from) {
            Ownership::Maybe
        } else {
            Ownership::Owned
        }
    }

    /// Whether `place` is moved out on every path, on some, or on none.
    pub fn status(&self, u: &Vec<Register>, place: &Place) -> (o: Ownership)
        requires
            self.may@.len() == u@.len(),
            self.must@.len() == u@.len(),
        ensures
            o == status_spec(regs_view(u@), self.may@, self.must@, place_reg(*place), 0),
    {
        let r = register_of(place);
        self.status_from(u, &r, 0)
    }

    /// The status of `place`, which lies inside `covered`, counting only the registers strictly
    /// inside `covered`: whether `covered` itself was moved is asked elsewhere.
    pub fn status_within(&self, u: &Vec<Register>, place: &Place, covered: &Register) -> (o: Ownership)
        requires
            self.may@.len() == u@.len(),
            self.must@.len() == u@.len(),
        ensures
            o == status_spec(regs_view(u@), self.may@, self.must@, place_reg(*place), (covered.subregister@.len() + 1) as int),
    {
        let r = register_of(place);
        self.status_from(u, &r, covered.subregister.len() as u128 + 1)
    }

    /// Whether no part strictly inside `place` may have been moved out.
    pub fn owns_every_part(&self, u: &Vec<Register>, place: &Place) -> (b: bool)
        requires
            self.may@.len() == u@.len(),
        ensures
            b == owns_every_part_spec(regs_view(u@), self.may@, place_reg(*place)),
    {
        let ghost uv = regs_view(u@);
        let r = register_of(place);
        let mut k: usize = 0;
        while k < u.len()
            invariant
                self.may@.len() == u@.len(),
                uv == regs_view(u@),
                r.owner == place.local,
                r.subregister@ == place_reg(*place).1,
                k <= u@.len(),
                forall|j: int| 0 <= j < k ==> !(self.may@[j] && uv[j].0 == r.owner && uv[j].1.len() > r.subregister@.len() && is_prefix(r.subregister@, uv[j].1)),
            decreases u@.len() - k,
        {
            assert(uv[k as int] == (u@[k as int].owner, u@[k as int].subregister@));
            if self.may[k] && u[k].owner == r.owner && u[k].subregister.len() > r.subregister.len() && prefix_of(&r.subregister, &u[k].subregister) {
                return false;
            }
            k = k + 1;
        }
        true
    }

    /// The effect of one statement on both sets.
    pub fn apply_statement(&mut self, u: &Vec<Register>, droppable: &Vec<bool>, stmt: &Statement)
        requires
            old(self).may@.len() == u@.len(),
            old(self).must@.len() == u@.len(),
            u@.len() <= u32::MAX,
        ensures
            final(self).may@ == run(old(self).may@, stmt_ops(regs_view(u@), droppable@, *stmt)),
            final(self).must@ == run(old(self).must@, stmt_ops(regs_view(u@), droppable@, *stmt)),
            final(self).may@.len() == u@.len(),
            final(self).must@.len() == u@.len(),
    {
        apply_ops_statement(&mut self.may, u, droppable, stmt);
        apply_ops_statement(&mut self.must, u, droppable, stmt);
    }
}

/// The least solution's entry states are the entries of any least solution.
proof fn lemma_least_entries(p: Problem, x: Seq<Seq<bool>>)
    requires
        p.least(x),
    ensures
        least_entries(p) == Seq::new(p.n(), |b: int| p.entry_of(x, b)),
{
    let y = choose|y: Seq<Seq<bool>>| p.least(y);
    law_least_unique(p, x, y);
}

/// Solves one of the two problems from its per-block transfers.
fn solve_moves(tcx: &TyCtx, body: &Body, width: usize, transfers: &Vec<Transfer>, meet: Meet) -> (states: Vec<Vec<bool>>)
    requires
        move_analyzable(*tcx, *body),
        width == universe_of(*body).len(),
        transfers@.len() == body.basic_blocks@.len(),
        forall|c: int| 0 <= c < transfers@.len() ==> (#[trigger] transfers@[c]).gen@ == move_problem(*tcx, *body, meet).gens[c]
            && transfers@[c].kill@ == move_problem(*tcx, *body, meet).kills[c],
    ensures
        states@.len() == body.basic_blocks@.len(),
        forall|b: int| 0 <= b < states@.len() ==> (#[trigger] states@[b])@ == least_entries(move_problem(*tcx, *body, meet))[b],
        forall|b: int| 0 <= b < states@.len() ==> (#[trigger] states@[b])@.len() == width,
{
    let ghost nb = body.basic_blocks@.len();
    let ghost p = move_problem(*tcx, *body, meet);
    let mut init: Vec<bool> = Vec::new();
    let mut k: usize = 0;
    while k < width
        invariant
            k <= width,
            init@ == Seq::new(k as nat, |j: int| false),
        decreases width - k,
    {
        init.push(false);
        k = k + 1;
        assert(init@ =~= Seq::new(k as nat, |j: int| false));
    }
    proof {
        let q = problem_of(*body, width as nat, meet, init@, transfers@);
        assert(q.gens =~= p.gens);
        assert(q.kills =~= p.kills);
        assert(q.preds =~= p.preds);
        assert(q.init =~= p.init);
        assert(q == p);
        assert forall|c: int| 0 <= c < transfers@.len() implies (#[trigger] transfers@[c]).gen@.len() == width && transfers@[c].kill@.len() == width by {
            lemma_run_len(Seq::new(width as nat, |j: int| false), block_ops(universe_of(*body), droppable_of(*tcx, *body), body.basic_blocks@[c]));
        }
    }
    let lattice = solve(body, width, &init, &transfers, meet);
    let ghost exits = exits_view(lattice, nb);
    proof {
        lemma_least_entries(p, exits);
    }
    let mut states: Vec<Vec<bool>> = Vec::new();
    let mut b: usize = 0;
    while b < body.basic_blocks.len()
        invariant
            nb == body.basic_blocks@.len(),
            p == move_problem(*tcx, *body, meet),
            p.wf(),
            p.least(exits),
            exits == exits_view(lattice, nb),
            width == p.width,
            least_entries(p) == Seq::new(p.n(), |c: int| p.entry_of(exits, c)),
            p.n() == nb,
            forall|c: int| 0 <= c < nb ==> #[trigger] lattice.entry@.dom().contains(c as u32),
            forall|c: int| 0 <= c < nb ==> #[trigger] entries_view(lattice, nb)[c] == p.entry_of(exits, c),
            b <= nb,
            states@.len() == b,
            forall|c: int| 0 <= c < b ==> (#[trigger] states@[c])@ == least_entries(p)[c],
            forall|c: int| 0 <= c < b ==> (#[trigger] states@[c])@.len() == width,
        decreases nb - b,
    {
        let entry = lattice.entry(BasicBlock(b as u32));
        assert(entries_view(lattice, nb)[b as int] == lattice.entry@[b as u32]@);
        let s = entry.unwrap().clone();
        proof {
            crate::mir::checks::lattice::lemma_entry_len(p, exits, b as int);
        }
        states.push(s);
        b = b + 1;
    }
    states
}

/// Computes, for every block of `body`, which registers of followed locals may and which must
/// have been moved out on entry to it.
pub fn analyze(tcx: &TyCtx, body: &Body) -> (a: MoveAnalysis)
    requires
        move_analyzable(*tcx, *body),
    ensures
        regs_view(a.universe@) == universe_of(*body),
        a.droppable@ == droppable_of(*tcx, *body),
        a.entries@.len() == body.basic_blocks@.len(),
        forall|b: int| 0 <= b < a.entries@.len() ==> (#[trigger] a.entries@[b]).may@ == least_entries(move_problem(*tcx, *body, Meet::Union))[b]
            && a.entries@[b].must@ == least_entries(move_problem(*tcx, *body, Meet::Intersection))[b],
        forall|b: int| 0 <= b < a.entries@.len() ==> (#[trigger] a.entries@[b]).may@.len() == a.universe@.len()
            && a.entries@[b].must@.len() == a.universe@.len(),
{
    let u = universe(body);
    let width = u.len();
    let n = body.local_decls.len();
    let mut droppable: Vec<bool> = Vec::new();
    let mut i: usize = 0;
    while i < n
        invariant
            move_analyzable(*tcx, *body),
            n == body.local_decls@.len(),
            i <= n,
            droppable@ == droppable_of(*tcx, *body).take(i as int),
        decreases n - i,
    {
        let d = tcx.needs_drop(body.local_decls[i].ty);
        droppable.push(d);
        i = i + 1;
        assert(droppable@ =~= droppable_of(*tcx, *body).take(i as int));
    }
    assert(droppable@ =~= droppable_of(*tcx, *body));
    let mut transfers: Vec<Transfer> = Vec::new();
    let mut b: usize = 0;
    while b < body.basic_blocks.len()
        invariant
            move_analyzable(*tcx, *body),
            regs_view(u@) == universe_of(*body),
            width == u@.len(),
            droppable@ == droppable_of(*tcx, *body),
            b <= body.basic_blocks@.len(),
            transfers@.len() == b,
            forall|c: int| 0 <= c < b ==> (#[trigger] transfers@[c]).gen@ == move_problem(*tcx, *body, Meet::Union).gens[c]
                && transfers@[c].kill@ == move_problem(*tcx, *body, Meet::Union).kills[c],
        decreases body.basic_blocks@.len() - b,
    {
        let t = block_transfer(&u, &droppable, &body.basic_blocks[b]);
        transfers.push(t);
        b = b + 1;
    }
    let may = solve_moves(tcx, body, width, &transfers, Meet::Union);
    let must = solve_moves(tcx, body, width, &transfers, Meet::Intersection);
    let mut entries: Vec<MoveState> = Vec::new();
    let mut k: usize = 0;
    while k < may.len()
        invariant
            may@.len() == body.basic_blocks@.len(),
            must@.len() == body.basic_blocks@.len(),
            k <= may@.len(),
            entries@.len() == k,
            forall|c: int| 0 <= c < may@.len() ==> (#[trigger] may@[c])@ == least_entries(move_problem(*tcx, *body, Meet::Union))[c],
            forall|c: int| 0 <= c < must@.len() ==> (#[trigger] must@[c])@ == least_entries(move_problem(*tcx, *body, Meet::Intersection))[c],
            forall|c: int| 0 <= c < may@.len() ==> (#[trigger] may@[c])@.len() == width,
            forall|c: int| 0 <= c < must@.len() ==> (#[trigger] must@[c])@.len() == width,
            forall|c: int| 0 <= c < k ==> (#[trigger] entries@[c]).may@ == may@[c]@ && entries@[c].must@ == must@[c]@,
        decreases may@.len() - k,
    {
        entries.push(MoveState { may: may[k].clone(), must: must[k].clone() });
        k = k + 1;
    }
    MoveAnalysis { universe: u, droppable, entries }
}

} // verus!
