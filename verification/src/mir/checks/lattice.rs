//! Forward dataflow over a body's control-flow graph, and the table of per-block states it
//! produces.
//!
//! A state is a set over a fixed universe of `width` elements (locals, registers), kept as one
//! flag per element. Each block's effect is a gen/kill pair: the state after the block is
//! `gen`, plus the entry state minus `kill`. A block's entry state is the meet of its
//! predecessors' exit states: their intersection (a block without predecessors keeps its
//! initial entry state) or their union. [`solve`] computes the least solution of these
//! equations by the worklist method, starting from empty exit states.

use std::collections::HashMap;

use vstd::prelude::*;
use crate::mir::body::{block_successors, edge_count, preds_among, BasicBlockData, Body};
use crate::mir::ids::BasicBlock;

verus! {

broadcast use vstd::std_specs::hash::group_hash_axioms;

/// The entry and exit state of each block, by block index.
pub struct Lattice<State> {
    pub entry: HashMap<u32, State>,
    pub exit: HashMap<u32, State>,
}

impl<State> Lattice<State> {
    pub fn new() -> (l: Self)
        ensures
            l.entry@ == Map::<u32, State>::empty(),
            l.exit@ == Map::<u32, State>::empty(),
    {
        Lattice { entry: HashMap::new(), exit: HashMap::new() }
    }

    /// Records `state` as `key`'s entry state, returning the one it replaces.
    pub fn set_entry(&mut self, key: BasicBlock, state: State) -> (r: Option<State>)
        ensures
            final(self).entry@ == old(self).entry@.insert(key.0, state),
            final(self).exit@ == old(self).exit@,
            match r {
                Some(s) => old(self).entry@.dom().contains(key.0) && s == old(self).entry@[key.0],
                None => !old(self).entry@.dom().contains(key.0),
            },
    {
        self.entry.insert(key.0, state)
    }

    /// Records `state` as `key`'s exit state, returning the one it replaces.
    pub fn set_exit(&mut self, key: BasicBlock, state: State) -> (r: Option<State>)
        ensures
            final(self).exit@ == old(self).exit@.insert(key.0, state),
            final(self).entry@ == old(self).entry@,
            match r {
                Some(s) => old(self).exit@.dom().contains(key.0) && s == old(self).exit@[key.0],
                None => !old(self).exit@.dom().contains(key.0),
            },
    {
        self.exit.insert(key.0, state)
    }

    pub fn entry(&self, key: BasicBlock) -> (r: Option<&State>)
        ensures
            match r {
                Some(s) => self.entry@.dom().contains(key.0) && *s == self.entry@[key.0],
                None => !self.entry@.dom().contains(key.0),
            },
    {
        self.entry.get(&key.0)
    }

    pub fn exit(&self, key: BasicBlock) -> (r: Option<&State>)
        ensures
            match r {
                Some(s) => self.exit@.dom().contains(key.0) && *s == self.exit@[key.0],
                None => !self.exit@.dom().contains(key.0),
            },
    {
        self.exit.get(&key.0)
    }
}

/// How a block's entry state is formed from its predecessors' exit states.
#[derive(Clone, Copy, Debug, PartialEq, Eq, Structural)]
pub enum Meet {
    /// The elements in every predecessor's exit state; a block without predecessors keeps its
    /// initial entry state.
    Intersection,
    /// The elements in some predecessor's exit state.
    Union,
}

/// One block's effect on a state: `gen` is added after `kill` is removed.
#[derive(Clone, Debug)]
pub struct Transfer {
    pub gen: Vec<bool>,
    pub kill: Vec<bool>,
}

/// `gen`, plus `s` minus `kill`.
pub open spec fn apply(gen: Seq<bool>, kill: Seq<bool>, s: Seq<bool>) -> Seq<bool> {
    Seq::new(s.len(), |i: int| gen[i] || (s[i] && !kill[i]))
}

/// Every element of `a` is in `b`, a set over the same universe.
pub open spec fn subset(a: Seq<bool>, b: Seq<bool>) -> bool {
    a.len() == b.len() && forall|i: int| 0 <= i < a.len() && #[trigger] a[i] ==> b[i]
}

/// The meet of the exit states `exits` gives the predecessors `preds` of a block whose current
/// entry state is `current`.
pub open spec fn meet_spec(meet: Meet, current: Seq<bool>, preds: Seq<BasicBlock>, exits: Seq<Seq<bool>>, width: nat) -> Seq<bool> {
    match meet {
        Meet::Intersection => if preds.len() == 0 {
            current
        } else {
            Seq::new(width, |i: int| forall|k: int| 0 <= k < preds.len() ==> #[trigger] exits[preds[k].0 as int][i])
        },
        Meet::Union => Seq::new(width, |i: int| exists|k: int| 0 <= k < preds.len() && #[trigger] exits[preds[k].0 as int][i]),
    }
}

/// A dataflow problem over the blocks of one body.
pub struct Problem {
    pub preds: Seq<Seq<BasicBlock>>,
    pub width: nat,
    pub meet: Meet,
    pub init: Seq<bool>,
    pub gens: Seq<Seq<bool>>,
    pub kills: Seq<Seq<bool>>,
}

impl Problem {
    pub open spec fn n(self) -> nat {
        self.preds.len()
    }

    /// Predecessors are blocks, and every state and effect covers the whole universe.
    pub open spec fn wf(self) -> bool {
        &&& self.init.len() == self.width
        &&& self.gens.len() == self.n()
        &&& self.kills.len() == self.n()
        &&& forall|b: int| 0 <= b < self.n() ==> (#[trigger] self.gens[b]).len() == self.width
        &&& forall|b: int| 0 <= b < self.n() ==> (#[trigger] self.kills[b]).len() == self.width
        &&& forall|b: int, k: int|
            0 <= b < self.n() && 0 <= k < self.preds[b].len() ==> (#[trigger] self.preds[b][k]).0 < self.n()
    }

    /// Block `b`'s entry state, given every block's exit state.
    pub open spec fn entry_of(self, exits: Seq<Seq<bool>>, b: int) -> Seq<bool> {
        meet_spec(self.meet, self.init, self.preds[b], exits, self.width)
    }

    /// Block `b`'s exit state, given every block's exit state.
    pub open spec fn step(self, exits: Seq<Seq<bool>>, b: int) -> Seq<bool> {
        apply(self.gens[b], self.kills[b], self.entry_of(exits, b))
    }

    /// One exit state per block, each over the whole universe.
    pub open spec fn shaped(self, exits: Seq<Seq<bool>>) -> bool {
        exits.len() == self.n() && forall|b: int| 0 <= b < self.n() ==> (#[trigger] exits[b]).len() == self.width
    }

    /// `exits` solves the equations: each block's exit state is its step.
    pub open spec fn solves(self, exits: Seq<Seq<bool>>) -> bool {
        self.shaped(exits) && forall|b: int| 0 <= b < self.n() ==> #[trigger] exits[b] == self.step(exits, b)
    }

    /// `exits` is a solution included, block by block, in every solution.
    pub open spec fn least(self, exits: Seq<Seq<bool>>) -> bool {
        &&& self.solves(exits)
        &&& forall|other: Seq<Seq<bool>>|
            #[trigger] self.solves(other) ==> forall|b: int| 0 <= b < self.n() ==> subset(#[trigger] exits[b], other[b])
    }
}

/// The number of elements in `s`.
pub open spec fn count(s: Seq<bool>) -> nat
    decreases s.len(),
{
    if s.len() == 0 {
        0
    } else {
        count(s.drop_last()) + if s.last() { 1nat } else { 0nat }
    }
}

/// The number of elements over all of `states`.
pub open spec fn total(states: Seq<Seq<bool>>) -> nat
    decreases states.len(),
{
    if states.len() == 0 {
        0
    } else {
        total(states.drop_last()) + count(states.last())
    }
}

pub proof fn lemma_count_bounds(a: Seq<bool>, b: Seq<bool>)
    requires
        subset(a, b),
    ensures
        count(a) <= count(b),
        count(b) <= b.len(),
        a != b ==> count(a) < count(b),
    decreases a.len(),
{
    if a.len() > 0 {
        let (a0, b0) = (a.drop_last(), b.drop_last());
        assert(subset(a0, b0)) by {
            assert forall|i: int| 0 <= i < a0.len() && #[trigger] a0[i] implies b0[i] by {
                assert(a[i]);
            }
        }
        lemma_count_bounds(a0, b0);
        if a.last() {
            assert(b.last());
        }
        if a != b && a0 == b0 {
            if a.last() == b.last() {
                assert(a =~= b) by {
                    assert forall|i: int| 0 <= i < a.len() implies a[i] == b[i] by {
                        if i < a.len() - 1 {
                            assert(a[i] == a0[i]);
                            assert(b[i] == b0[i]);
                        }
                    }
                }
            }
        }
    } else {
        assert(a =~= b);
    }
}

pub proof fn lemma_total_update(states: Seq<Seq<bool>>, b: int, s: Seq<bool>)
    requires
        0 <= b < states.len(),
    ensures
        total(states.update(b, s)) + count(states[b]) == total(states) + count(s),
    decreases states.len(),
{
    let t = states.update(b, s);
    if b == states.len() - 1 {
        assert(t.drop_last() =~= states.drop_last());
    } else {
        assert(t.drop_last() =~= states.drop_last().update(b, s));
        lemma_total_update(states.drop_last(), b, s);
    }
}

pub proof fn lemma_total_bound(states: Seq<Seq<bool>>, width: nat)
    requires
        forall|b: int| 0 <= b < states.len() ==> (#[trigger] states[b]).len() == width,
    ensures
        total(states) <= states.len() * width,
    decreases states.len(),
{
    if states.len() > 0 {
        lemma_total_bound(states.drop_last(), width);
        lemma_count_bounds(states.last(), states.last());
        assert(total(states) <= (states.len() - 1) * width + width);
        assert((states.len() - 1) * width + width == states.len() * width) by (nonlinear_arith);
    }
}

/// The meet only grows when the exit states it reads grow.
pub proof fn lemma_meet_monotone(p: Problem, x: Seq<Seq<bool>>, y: Seq<Seq<bool>>, b: int)
    requires
        p.wf(),
        0 <= b < p.n(),
        p.shaped(x),
        p.shaped(y),
        forall|c: int| 0 <= c < p.n() ==> subset(#[trigger] x[c], y[c]),
    ensures
        subset(p.entry_of(x, b), p.entry_of(y, b)),
        subset(p.step(x, b), p.step(y, b)),
        p.entry_of(x, b).len() == p.width,
        p.step(x, b).len() == p.width,
{
    let preds = p.preds[b];
    let ex = p.entry_of(x, b);
    let ey = p.entry_of(y, b);
    match p.meet {
        Meet::Intersection => {
            if preds.len() > 0 {
                assert forall|i: int| 0 <= i < ex.len() && #[trigger] ex[i] implies ey[i] by {
                    assert forall|k: int| 0 <= k < preds.len() implies #[trigger] y[preds[k].0 as int][i] by {
                        assert(x[preds[k].0 as int][i]);
                        assert(subset(x[preds[k].0 as int], y[preds[k].0 as int]));
                    }
                }
            }
        },
        Meet::Union => {
            assert forall|i: int| 0 <= i < ex.len() && #[trigger] ex[i] implies ey[i] by {
                let k = choose|k: int| 0 <= k < preds.len() && #[trigger] x[preds[k].0 as int][i];
                assert(subset(x[preds[k].0 as int], y[preds[k].0 as int]));
                assert(y[preds[k].0 as int][i]);
            }
        },
    }
    let sx = p.step(x, b);
    let sy = p.step(y, b);
    assert forall|i: int| 0 <= i < sx.len() && #[trigger] sx[i] implies sy[i] by {
        if ex[i] {
            assert(ey[i]);
        }
    }
}

/// The meet of block `b` does not read the exit state of a block that is not its predecessor.
proof fn lemma_meet_frame(p: Problem, x: Seq<Seq<bool>>, a: int, s: Seq<bool>, b: int)
    requires
        p.wf(),
        0 <= a < p.n(),
        0 <= b < p.n(),
        p.shaped(x),
        forall|k: int| 0 <= k < p.preds[b].len() ==> (#[trigger] p.preds[b][k]).0 != a,
    ensures
        p.entry_of(x.update(a, s), b) == p.entry_of(x, b),
        p.step(x.update(a, s), b) == p.step(x, b),
{
    let y = x.update(a, s);
    let preds = p.preds[b];
    assert forall|k: int| 0 <= k < preds.len() implies #[trigger] y[preds[k].0 as int] == x[preds[k].0 as int] by {
        assert(preds[k].0 != a);
    }
    match p.meet {
        Meet::Intersection => {
            if preds.len() > 0 {
                assert(p.entry_of(y, b) =~= p.entry_of(x, b)) by {
                    assert forall|i: int| 0 <= i < p.width implies p.entry_of(y, b)[i] == p.entry_of(x, b)[i] by {
                        if p.entry_of(y, b)[i] {
                            assert forall|k: int| 0 <= k < preds.len() implies #[trigger] x[preds[k].0 as int][i] by {
                                assert(y[preds[k].0 as int] == x[preds[k].0 as int]);
                                assert(y[preds[k].0 as int][i]);
                            }
                        }
                        if p.entry_of(x, b)[i] {
                            assert forall|k: int| 0 <= k < preds.len() implies #[trigger] y[preds[k].0 as int][i] by {
                                assert(y[preds[k].0 as int] == x[preds[k].0 as int]);
                                assert(x[preds[k].0 as int][i]);
                            }
                        }
                    }
                }
            }
        },
        Meet::Union => {
            assert(p.entry_of(y, b) =~= p.entry_of(x, b)) by {
                assert forall|i: int| 0 <= i < p.width implies p.entry_of(y, b)[i] == p.entry_of(x, b)[i] by {
                    if p.entry_of(y, b)[i] {
                        let k = choose|k: int| 0 <= k < preds.len() && #[trigger] y[preds[k].0 as int][i];
                        assert(y[preds[k].0 as int] == x[preds[k].0 as int]);
                        assert(x[preds[k].0 as int][i]);
                    }
                    if p.entry_of(x, b)[i] {
                        let k = choose|k: int| 0 <= k < preds.len() && #[trigger] x[preds[k].0 as int][i];
                        assert(y[preds[k].0 as int] == x[preds[k].0 as int]);
                        assert(y[preds[k].0 as int][i]);
                    }
                }
            }
        },
    }
}

/// An entry state covers the whole universe.
pub proof fn lemma_entry_len(p: Problem, exits: Seq<Seq<bool>>, b: int)
    requires
        p.wf(),
        p.shaped(exits),
        0 <= b < p.n(),
    ensures
        p.entry_of(exits, b).len() == p.width,
{
    lemma_meet_monotone(p, exits, exits, b);
}

/// A problem has at most one least solution, so the least solution determines the result.
pub proof fn law_least_unique(p: Problem, x: Seq<Seq<bool>>, y: Seq<Seq<bool>>)
    requires
        p.least(x),
        p.least(y),
    ensures
        x == y,
{
    assert(p.solves(y));
    assert(p.solves(x));
    assert forall|b: int| 0 <= b < p.n() implies x[b] == y[b] by {
        assert(subset(x[b], y[b]));
        assert(subset(y[b], x[b]));
        assert(x[b] =~= y[b]) by {
            assert forall|i: int| 0 <= i < x[b].len() implies x[b][i] == y[b][i] by {
                if x[b][i] {
                    assert(y[b][i]);
                }
                if y[b][i] {
                    assert(x[b][i]);
                }
            }
        }
    }
    assert(x =~= y);
}

/// Whether block `v` occurs in `s`.
pub open spec fn listed(s: Seq<BasicBlock>, v: int) -> bool {
    exists|k: int| 0 <= k < s.len() && (#[trigger] s[k]).0 == v
}

/// A predecessor of `b` is a block with an edge into `b`.
pub proof fn lemma_pred_is_edge(blocks: Seq<BasicBlockData>, m: int, b: BasicBlock, k: int)
    requires
        m <= u32::MAX,
        0 <= k < preds_among(blocks, m, b).len(),
    ensures
        ({
            let a = preds_among(blocks, m, b)[k];
            0 <= a.0 < m && listed(block_successors(blocks, a.0 as int), b.0 as int)
        }),
    decreases m,
{
    if m > 0 {
        let prev = preds_among(blocks, m - 1, b);
        let from = BasicBlock((m - 1) as u32);
        let succ = block_successors(blocks, m - 1);
        assert(preds_among(blocks, m, b) == prev + crate::mir::body::edges_into(succ, b, from));
        if k < prev.len() {
            lemma_pred_is_edge(blocks, m - 1, b, k);
        } else {
            lemma_edges_into_members(succ, b, from, k - prev.len());
        }
    }
}

proof fn lemma_edges_into_members(succ: Seq<BasicBlock>, b: BasicBlock, from: BasicBlock, k: int)
    requires
        0 <= k < crate::mir::body::edges_into(succ, b, from).len(),
    ensures
        crate::mir::body::edges_into(succ, b, from)[k] == from,
        listed(succ, b.0 as int),
    decreases succ.len(),
{
    let prev = crate::mir::body::edges_into(succ.drop_last(), b, from);
    if k < prev.len() {
        lemma_edges_into_members(succ.drop_last(), b, from, k);
        let j = choose|j: int| 0 <= j < succ.drop_last().len() && (#[trigger] succ.drop_last()[j]).0 == b.0;
        assert(succ[j] == succ.drop_last()[j]);
    } else {
        assert(succ.last() == b);
        assert(succ[succ.len() - 1].0 == b.0);
    }
}

pub fn copy_bits(v: &Vec<bool>) -> (r: Vec<bool>)
    ensures
        r@ == v@,
{
    let mut r: Vec<bool> = Vec::new();
    let mut i: usize = 0;
    while i < v.len()
        invariant
            i <= v@.len(),
            r@ == v@.take(i as int),
        decreases v@.len() - i,
    {
        r.push(v[i]);
        i = i + 1;
        assert(r@ =~= v@.take(i as int));
    }
    assert(v@.take(v@.len() as int) =~= v@);
    r
}

fn no_bits(width: usize) -> (r: Vec<bool>)
    ensures
        r@.len() == width,
        forall|i: int| 0 <= i < width ==> !#[trigger] r@[i],
{
    let mut r: Vec<bool> = Vec::new();
    let mut i: usize = 0;
    while i < width
        invariant
            i <= width,
            r@.len() == i,
            forall|j: int| 0 <= j < i ==> !#[trigger] r@[j],
        decreases width - i,
    {
        r.push(false);
        i = i + 1;
    }
    r
}

fn bits_eq(a: &Vec<bool>, b: &Vec<bool>) -> (r: bool)
    ensures
        r == (a@ == b@),
{
    if a.len() != b.len() {
        return false;
    }
    let mut i: usize = 0;
    while i < a.len()
        invariant
            a@.len() == b@.len(),
            i <= a@.len(),
            forall|j: int| 0 <= j < i ==> a@[j] == b@[j],
        decreases a@.len() - i,
    {
        if a[i] != b[i] {
            return false;
        }
        i = i + 1;
    }
    assert(a@ =~= b@);
    true
}

/// `gen`, plus `state` minus `kill`.
pub fn apply_transfer(t: &Transfer, state: &Vec<bool>) -> (r: Vec<bool>)
    requires
        t.gen@.len() == state@.len(),
        t.kill@.len() == state@.len(),
    ensures
        r@ == apply(t.gen@, t.kill@, state@),
{
    let mut r: Vec<bool> = Vec::new();
    let mut i: usize = 0;
    while i < state.len()
        invariant
            t.gen@.len() == state@.len(),
            t.kill@.len() == state@.len(),
            i <= state@.len(),
            r@ == apply(t.gen@, t.kill@, state@).take(i as int),
        decreases state@.len() - i,
    {
        r.push(t.gen[i] || (state[i] && !t.kill[i]));
        i = i + 1;
        assert(r@ =~= apply(t.gen@, t.kill@, state@).take(i as int));
    }
    assert(apply(t.gen@, t.kill@, state@).take(state@.len() as int) =~= apply(t.gen@, t.kill@, state@));
    r
}

/// The meet of the exit states of `preds`, for a block whose entry state is `current`.
pub fn meet_states(meet: Meet, current: &Vec<bool>, preds: &[BasicBlock], exits: &Vec<Vec<bool>>, width: usize) -> (r: Vec<bool>)
    requires
        current@.len() == width,
        forall|k: int| 0 <= k < preds@.len() ==> ((#[trigger] preds@[k]).0 as int) < exits@.len(),
        forall|b: int| 0 <= b < exits@.len() ==> (#[trigger] exits@[b])@.len() == width,
    ensures
        r@ == meet_spec(meet, current@, preds@, exits@.map_values(|v: Vec<bool>| v@), width as nat),
{
    let ghost ev = exits@.map_values(|v: Vec<bool>| v@);
    if meet == Meet::Intersection && preds.len() == 0 {
        return copy_bits(current);
    }
    let mut acc: Vec<bool>;
    let mut k: usize;
    if meet == Meet::Intersection {
        acc = copy_bits(&exits[preds[0].index()]);
        k = 1;
        assert forall|i: int| 0 <= i < width implies acc@[i] == (forall|j: int| 0 <= j < 1 ==> #[trigger] ev[preds@[j].0 as int][i]) by {
            assert(ev[preds@[0].0 as int] == exits@[preds@[0].0 as int]@);
        }
    } else {
        acc = no_bits(width);
        k = 0;
    }
    while k < preds.len()
        invariant
            width == current@.len(),
            forall|k: int| 0 <= k < preds@.len() ==> ((#[trigger] preds@[k]).0 as int) < exits@.len(),
            forall|b: int| 0 <= b < exits@.len() ==> (#[trigger] exits@[b])@.len() == width,
            ev == exits@.map_values(|v: Vec<bool>| v@),
            meet == Meet::Intersection ==> 1 <= k,
            k <= preds@.len(),
            acc@.len() == width,
            forall|i: int| 0 <= i < width ==> #[trigger] acc@[i] == if meet == Meet::Intersection {
                forall|j: int| 0 <= j < k ==> #[trigger] ev[preds@[j].0 as int][i]
            } else {
                exists|j: int| 0 <= j < k && #[trigger] ev[preds@[j].0 as int][i]
            },
        decreases preds@.len() - k,
    {
        let src = &exits[preds[k].index()];
        assert(src@ == ev[preds@[k as int].0 as int]);
        let ghost before = acc@;
        let mut i: usize = 0;
        while i < width
            invariant
                width == current@.len(),
                src@.len() == width,
                src@ == ev[preds@[k as int].0 as int],
                k < preds@.len(),
                acc@.len() == width,
                i <= width,
                forall|j: int| 0 <= j < i ==> #[trigger] acc@[j] == if meet == Meet::Intersection {
                    before[j] && src@[j]
                } else {
                    before[j] || src@[j]
                },
                forall|j: int| i <= j < width ==> #[trigger] acc@[j] == before[j],
            decreases width - i,
        {
            let v = if meet == Meet::Intersection { acc[i] && src[i] } else { acc[i] || src[i] };
            acc.set(i, v);
            i = i + 1;
        }
        proof {
            assert forall|i: int| 0 <= i < width implies #[trigger] acc@[i] == if meet == Meet::Intersection {
                forall|j: int| 0 <= j < k + 1 ==> #[trigger] ev[preds@[j].0 as int][i]
            } else {
                exists|j: int| 0 <= j < k + 1 && #[trigger] ev[preds@[j].0 as int][i]
            } by {
                if meet == Meet::Intersection {
                    if acc@[i] {
                        assert forall|j: int| 0 <= j < k + 1 implies #[trigger] ev[preds@[j].0 as int][i] by {
                            if j < k {
                                assert(before[i]);
                            }
                        }
                    }
                } else {
                    if acc@[i] {
                        if before[i] {
                            let j = choose|j: int| 0 <= j < k && #[trigger] ev[preds@[j].0 as int][i];
                            assert(0 <= j < k + 1 && ev[preds@[j].0 as int][i]);
                        } else {
                            assert(ev[preds@[k as int].0 as int][i]);
                        }
                    } else {
                        assert forall|j: int| 0 <= j < k + 1 implies !#[trigger] ev[preds@[j].0 as int][i] by {
                            if j < k && ev[preds@[j].0 as int][i] {
                                assert(before[i]);
                            }
                        }
                    }
                }
            }
        }
        k = k + 1;
    }
    assert(acc@ =~= meet_spec(meet, current@, preds@, ev, width as nat));
    acc
}

/// The dataflow problem in which block `b` reads the states of `reads[b]`.
pub open spec fn problem_over(reads: Seq<Seq<BasicBlock>>, width: nat, meet: Meet, init: Seq<bool>, transfers: Seq<Transfer>) -> Problem {
    Problem {
        preds: reads,
        width,
        meet,
        init,
        gens: transfers.map_values(|t: Transfer| t.gen@),
        kills: transfers.map_values(|t: Transfer| t.kill@),
    }
}

pub open spec fn lists_view(v: Seq<Vec<BasicBlock>>) -> Seq<Seq<BasicBlock>> {
    v.map_values(|x: Vec<BasicBlock>| x@)
}

/// Solves the problem in which block `b` reads the states of `reads[b]`, by rounds over all
/// blocks, in index order, until a round changes nothing. States start empty, and the result
/// is the least solution.
pub fn solve_rounds(reads: &Vec<Vec<BasicBlock>>, width: usize, init: &Vec<bool>, transfers: &Vec<Transfer>, meet: Meet) -> (states: Vec<Vec<bool>>)
    requires
        init@.len() == width,
        transfers@.len() == reads@.len(),
        forall|b: int| 0 <= b < transfers@.len() ==> (#[trigger] transfers@[b]).gen@.len() == width && transfers@[b].kill@.len() == width,
        forall|b: int, k: int| 0 <= b < reads@.len() && 0 <= k < reads@[b]@.len() ==> (#[trigger] reads@[b]@[k]).0 < reads@.len(),
    ensures
        problem_over(lists_view(reads@), width as nat, meet, init@, transfers@).least(bits_view(states@)),
{
    let ghost p = problem_over(lists_view(reads@), width as nat, meet, init@, transfers@);
    let n = reads.len();
    proof {
        assert forall|b: int, k: int| 0 <= b < p.n() && 0 <= k < p.preds[b].len() implies (#[trigger] p.preds[b][k]).0 < p.n() by {
            assert(p.preds[b] == reads@[b]@);
            assert(reads@[b]@[k] == p.preds[b][k]);
        }
        assert forall|b: int| 0 <= b < p.n() implies (#[trigger] p.gens[b]).len() == p.width by {
            assert(p.gens[b] == transfers@[b].gen@);
        }
        assert forall|b: int| 0 <= b < p.n() implies (#[trigger] p.kills[b]).len() == p.width by {
            assert(p.kills[b] == transfers@[b].kill@);
        }
        assert(p.wf());
    }
    let mut states: Vec<Vec<bool>> = Vec::new();
    let mut i: usize = 0;
    while i < n
        invariant
            i <= n,
            states@.len() == i,
            forall|b: int| 0 <= b < i ==> (#[trigger] states@[b])@.len() == width,
            forall|b: int, e: int| 0 <= b < i && 0 <= e < width ==> !(#[trigger] states@[b]@[e]),
        decreases n - i,
    {
        states.push(no_bits(width));
        i = i + 1;
    }
    proof {
        let x = bits_view(states@);
        assert forall|b: int| 0 <= b < p.n() implies subset(#[trigger] x[b], p.step(x, b)) by {
            lemma_meet_monotone(p, x, x, b);
        }
        assert forall|y: Seq<Seq<bool>>| #[trigger] p.solves(y) implies forall|b: int| 0 <= b < p.n() ==> subset(#[trigger] x[b], y[b]) by {
            assert forall|b: int| 0 <= b < p.n() implies subset(#[trigger] x[b], y[b]) by {
                assert(y[b].len() == width);
            }
        }
        lemma_total_bound(x, width as nat);
    }
    let mut changed = true;
    while changed
        invariant
            p == problem_over(lists_view(reads@), width as nat, meet, init@, transfers@),
            p.wf(),
            p.n() == n,
            n == reads@.len(),
            init@.len() == width,
            transfers@.len() == n,
            forall|b: int| 0 <= b < n ==> (#[trigger] transfers@[b]).gen@ == p.gens[b] && transfers@[b].kill@ == p.kills[b],
            forall|b: int| 0 <= b < n ==> (#[trigger] reads@[b])@ == p.preds[b],
            states@.len() == n,
            p.shaped(bits_view(states@)),
            forall|b: int| 0 <= b < n ==> subset(#[trigger] bits_view(states@)[b], p.step(bits_view(states@), b)),
            forall|y: Seq<Seq<bool>>|
                #[trigger] p.solves(y) ==> forall|b: int| 0 <= b < n ==> subset(#[trigger] bits_view(states@)[b], y[b]),
            !changed ==> p.solves(bits_view(states@)),
            total(bits_view(states@)) <= n * width,
        decreases n * width - total(bits_view(states@)), if changed { 1int } else { 0int },
    {
        changed = false;
        let ghost start = total(bits_view(states@));
        let mut id: usize = 0;
        while id < n
            invariant
                p == problem_over(lists_view(reads@), width as nat, meet, init@, transfers@),
                p.wf(),
                p.n() == n,
                n == reads@.len(),
                init@.len() == width,
                transfers@.len() == n,
                forall|b: int| 0 <= b < n ==> (#[trigger] transfers@[b]).gen@ == p.gens[b] && transfers@[b].kill@ == p.kills[b],
                forall|b: int| 0 <= b < n ==> (#[trigger] reads@[b])@ == p.preds[b],
                id <= n,
                states@.len() == n,
                p.shaped(bits_view(states@)),
                forall|b: int| 0 <= b < n ==> subset(#[trigger] bits_view(states@)[b], p.step(bits_view(states@), b)),
                forall|y: Seq<Seq<bool>>|
                    #[trigger] p.solves(y) ==> forall|b: int| 0 <= b < n ==> subset(#[trigger] bits_view(states@)[b], y[b]),
                !changed ==> forall|b: int| 0 <= b < id ==> #[trigger] bits_view(states@)[b] == p.step(bits_view(states@), b),
                total(bits_view(states@)) <= n * width,
                start <= total(bits_view(states@)),
                changed ==> start < total(bits_view(states@)),
            decreases n - id,
        {
            let ghost x = bits_view(states@);
            let preds = reads[id].as_slice();
            proof {
                assert(preds@ == p.preds[id as int]);
                assert forall|k: int| 0 <= k < preds@.len() implies ((#[trigger] preds@[k]).0 as int) < states@.len() by {
                    assert(preds@[k] == p.preds[id as int][k]);
                }
                assert forall|b: int| 0 <= b < states@.len() implies (#[trigger] states@[b])@.len() == width by {
                    assert(x[b] == states@[b]@);
                }
            }
            let entry = meet_states(meet, init, preds, &states, width);
            assert(entry@ == p.entry_of(x, id as int));
            proof {
                lemma_meet_monotone(p, x, x, id as int);
            }
            let next = apply_transfer(&transfers[id], &entry);
            assert(next@ == p.step(x, id as int));
            if !bits_eq(&states[id], &next) {
                changed = true;
                let ghost old_state = x[id as int];
                states.set(id, next);
                let ghost x2 = bits_view(states@);
                proof {
                    assert(x2 =~= x.update(id as int, p.step(x, id as int)));
                    assert forall|c: int| 0 <= c < n implies subset(#[trigger] x[c], x2[c]) by {
                        if c == id {
                            assert(subset(x[c], p.step(x, c)));
                        } else {
                            assert(x2[c] == x[c]);
                        }
                    }
                    assert(p.shaped(x2));
                    lemma_count_bounds(old_state, x2[id as int]);
                    lemma_total_update(x, id as int, x2[id as int]);
                    lemma_total_bound(x2, width as nat);
                    assert forall|b: int| 0 <= b < n implies subset(#[trigger] x2[b], p.step(x2, b)) by {
                        lemma_meet_monotone(p, x, x2, b);
                        if b != id {
                            assert(x2[b] == x[b]);
                            assert(subset(x[b], p.step(x, b)));
                        }
                    }
                    assert forall|y: Seq<Seq<bool>>| #[trigger] p.solves(y) implies forall|b: int| 0 <= b < n ==> subset(#[trigger] x2[b], y[b]) by {
                        assert forall|b: int| 0 <= b < n implies subset(#[trigger] x2[b], y[b]) by {
                            if b == id {
                                lemma_meet_monotone(p, x, y, b);
                                assert(y[b] == p.step(y, b));
                            } else {
                                assert(x2[b] == x[b]);
                            }
                        }
                    }
                }
            } else {
                proof {
                    assert(bits_view(states@) =~= x);
                }
            }
            id = id + 1;
        }
    }
    states
}

/// Whether `(v, true)`, a block waiting to be finished, is on `stack`.
pub open spec fn pending(stack: Seq<(BasicBlock, bool)>, v: int) -> bool {
    exists|k: int| 0 <= k < stack.len() && (#[trigger] stack[k]).0.0 == v && stack[k].1
}

/// The blocks of `body` in reverse postorder of a depth-first walk from the start block, then
/// from each block not reached yet, in index order: every block, each once it is reached.
pub fn reverse_postorder(body: &Body) -> (order: Vec<BasicBlock>)
    requires
        body.targets_in_range(),
        body.basic_blocks@.len() > 0,
    ensures
        forall|k: int| 0 <= k < order@.len() ==> (#[trigger] order@[k]).0 < body.basic_blocks@.len(),
        forall|b: int| 0 <= b < body.basic_blocks@.len() ==> listed(order@, b),
{
    let n = body.basic_blocks.len();
    let mut visited = no_bits(n);
    let mut order: Vec<BasicBlock> = Vec::new();
    let mut r: usize = 0;
    // The start block first, then every block by index.
    let mut first = true;
    while first || r < n
        invariant
            n == body.basic_blocks@.len(),
            n > 0,
            body.targets_in_range(),
            r <= n,
            visited@.len() == n,
            forall|k: int| 0 <= k < order@.len() ==> (#[trigger] order@[k]).0 < n,
            forall|v: int| 0 <= v < n && #[trigger] visited@[v] ==> listed(order@, v),
            forall|v: int| 0 <= v < r ==> #[trigger] visited@[v],
        decreases (if first { 1int } else { 0int }) + n - r,
    {
        let root = if first { BasicBlock(0) } else { BasicBlock(r as u32) };
        let ghost r_old = r;
        let ghost was_first = first;
        let ghost vis_outer = visited@;
        if !first {
            r = r + 1;
        }
        first = false;
        if !visited[root.index()] {
            let mut post: Vec<BasicBlock> = Vec::new();
            let mut stack: Vec<(BasicBlock, bool)> = Vec::new();
            stack.push((root, false));
            let ghost vis0 = visited@;
            while stack.len() > 0
                invariant
                    n == body.basic_blocks@.len(),
                    vis0.len() == n,
                    forall|v: int| 0 <= v < n && #[trigger] vis0[v] ==> visited@[v],
                    body.targets_in_range(),
                    visited@.len() == n,
                    forall|k: int| 0 <= k < order@.len() ==> (#[trigger] order@[k]).0 < n,
                    forall|k: int| 0 <= k < post@.len() ==> (#[trigger] post@[k]).0 < n,
                    forall|k: int| 0 <= k < stack@.len() ==> (#[trigger] stack@[k]).0.0 < n,
                    forall|v: int|
                        0 <= v < n && #[trigger] visited@[v] ==> listed(order@, v) || listed(post@, v) || pending(stack@, v),
                    root.0 < n,
                    visited@[root.0 as int] || (stack@.len() > 0 && stack@[0] == (root, false)),
                decreases n - count(visited@), stack@.len(),
            {
                let ghost popped = stack@;
                let (block, expanded) = stack.pop().unwrap();
                assert(popped.len() == stack@.len() + 1);
                assert(popped[stack@.len() as int] == (block, expanded));
                assert(forall|k: int| 0 <= k < stack@.len() ==> stack@[k] == popped[k]);
                if expanded {
                    let ghost old_post = post@;
                    post.push(block);
                    proof {
                        assert(post@.drop_last() =~= old_post);
                        assert forall|v: int| 0 <= v < n && #[trigger] visited@[v] implies listed(order@, v) || listed(post@, v)
                            || pending(stack@, v) by {
                            if listed(post@.drop_last(), v) {
                                let k = choose|k: int| 0 <= k < post@.drop_last().len() && (#[trigger] post@.drop_last()[k]).0 == v;
                                assert(post@[k] == post@.drop_last()[k]);
                            } else if pending(popped, v) && !listed(order@, v) {
                                let k = choose|k: int| 0 <= k < popped.len() && (#[trigger] popped[k]).0.0 == v && popped[k].1;
                                if k == stack@.len() {
                                    assert(post@[post@.len() - 1].0 == v);
                                } else {
                                    assert(stack@[k] == popped[k]);
                                }
                            }
                        }
                    }
                } else if !visited[block.index()] {
                    let ghost old_visited = visited@;
                    visited.set(block.index(), true);
                    proof {
                        assert(subset(old_visited, visited@));
                        lemma_count_bounds(old_visited, visited@);
                        assert(old_visited != visited@) by {
                            assert(!old_visited[block.0 as int] && visited@[block.0 as int]);
                        }
                    }
                    let ghost after_pop = stack@;
                    stack.push((block, true));
                    proof {
                        assert(stack@[stack@.len() - 1] == (block, true));
                        assert(pending(stack@, block.0 as int));
                        assert forall|v: int| 0 <= v < n && #[trigger] visited@[v] implies listed(order@, v) || listed(post@, v)
                            || pending(stack@, v) by {
                            if v != block.0 {
                                assert(old_visited[v]);
                                if pending(popped, v) && !listed(order@, v) && !listed(post@, v) {
                                    let k = choose|k: int| 0 <= k < popped.len() && (#[trigger] popped[k]).0.0 == v && popped[k].1;
                                    assert(k < after_pop.len());
                                    assert(stack@[k] == popped[k]);
                                }
                            }
                        }
                    }
                    let succs = body.successors(block);
                    let mut j: usize = 0;
                    while j < succs.len()
                        invariant
                            n == body.basic_blocks@.len(),
                            vis0.len() == n,
                            forall|v: int| 0 <= v < n && #[trigger] vis0[v] ==> visited@[v],
                            root.0 < n,
                            visited@[root.0 as int] || (stack@.len() > 0 && stack@[0] == (root, false)),
                            body.targets_in_range(),
                            block.0 < n,
                            succs@ == block_successors(body.basic_blocks@, block.0 as int),
                            visited@.len() == n,
                            visited@[block.0 as int],
                            forall|k: int| 0 <= k < order@.len() ==> (#[trigger] order@[k]).0 < n,
                            forall|k: int| 0 <= k < post@.len() ==> (#[trigger] post@[k]).0 < n,
                            forall|k: int| 0 <= k < stack@.len() ==> (#[trigger] stack@[k]).0.0 < n,
                            forall|v: int|
                                0 <= v < n && #[trigger] visited@[v] ==> listed(order@, v) || listed(post@, v) || pending(stack@, v),
                            j <= succs@.len(),
                        decreases succs@.len() - j,
                    {
                        let succ = succs[j];
                        assert(succ.0 < n);
                        if !visited[succ.index()] {
                            let ghost before = stack@;
                            stack.push((succ, false));
                            proof {
                                assert forall|v: int| 0 <= v < n && #[trigger] visited@[v] implies listed(order@, v) || listed(post@, v)
                                    || pending(stack@, v) by {
                                    if pending(before, v) {
                                        let k = choose|k: int| 0 <= k < before.len() && (#[trigger] before[k]).0.0 == v && before[k].1;
                                        assert(stack@[k] == before[k]);
                                    }
                                }
                            }
                        }
                        j = j + 1;
                    }
                    proof {
                        assert(pending(stack@, block.0 as int) || listed(order@, block.0 as int) || listed(post@, block.0 as int));
                    }
                } else {
                    proof {
                        assert forall|v: int| 0 <= v < n && #[trigger] visited@[v] implies listed(order@, v) || listed(post@, v)
                            || pending(stack@, v) by {
                            if pending(popped, v) && !listed(order@, v) && !listed(post@, v) {
                                let k = choose|k: int| 0 <= k < popped.len() && (#[trigger] popped[k]).0.0 == v && popped[k].1;
                                assert(k < stack@.len());
                                assert(stack@[k] == popped[k]);
                            }
                        }
                    }
                }
            }
            let ghost before_order = order@;
            let mut k: usize = post.len();
            while k > 0
                invariant
                    k <= post@.len(),
                    forall|i: int| 0 <= i < post@.len() ==> (#[trigger] post@[i]).0 < n,
                    forall|i: int| 0 <= i < order@.len() ==> (#[trigger] order@[i]).0 < n,
                    order@.len() >= before_order.len(),
                    forall|i: int| 0 <= i < before_order.len() ==> order@[i] == before_order[i],
                    forall|i: int| k <= i < post@.len() ==> listed(order@, (#[trigger] post@[i]).0 as int),
                decreases k,
            {
                k = k - 1;
                let ghost prev = order@;
                order.push(post[k]);
                proof {
                    assert(order@[order@.len() - 1] == post@[k as int]);
                    assert forall|i: int| k <= i < post@.len() implies listed(order@, (#[trigger] post@[i]).0 as int) by {
                        if i > k {
                            let j = choose|j: int| 0 <= j < prev.len() && (#[trigger] prev[j]).0 == post@[i].0;
                            assert(order@[j] == prev[j]);
                        }
                    }
                }
            }
            assert(visited@[root.0 as int]);
            proof {
                assert forall|v: int| 0 <= v < n && #[trigger] visited@[v] implies listed(order@, v) by {
                    if listed(before_order, v) {
                        let j = choose|j: int| 0 <= j < before_order.len() && (#[trigger] before_order[j]).0 == v;
                        assert(order@[j] == before_order[j]);
                    } else if listed(post@, v) {
                        let j = choose|j: int| 0 <= j < post@.len() && (#[trigger] post@[j]).0 == v;
                        assert(listed(order@, post@[j].0 as int));
                    }
                }
            }
        }
        proof {
            assert(visited@[root.0 as int]);
            assert(!was_first ==> root.0 == r_old);
            assert forall|v: int| 0 <= v < r implies #[trigger] visited@[v] by {
                if v < r_old {
                    assert(vis_outer[v]);
                }
            }
        }
    }
    proof {
        assert forall|b: int| 0 <= b < n implies listed(order@, b) by {
            assert(visited@[b]);
        }
    }
    order
}

/// The dataflow problem `body` poses with the given universe, meet, initial entry state and
/// per-block effects.
pub open spec fn problem_of(body: Body, width: nat, meet: Meet, init: Seq<bool>, transfers: Seq<Transfer>) -> Problem {
    let n = body.basic_blocks@.len();
    Problem {
        preds: Seq::new(n, |b: int| preds_among(body.basic_blocks@, n as int, BasicBlock(b as u32))),
        width,
        meet,
        init,
        gens: transfers.map_values(|t: Transfer| t.gen@),
        kills: transfers.map_values(|t: Transfer| t.kill@),
    }
}

/// The lattice records an entry and an exit state over a universe of `width` for each of the
/// first `n` blocks.
pub open spec fn covers(l: Lattice<Vec<bool>>, n: nat, width: nat) -> bool {
    forall|b: int|
        0 <= b < n ==> #[trigger] l.entry@.dom().contains(b as u32) && l.exit@.dom().contains(b as u32) && l.entry@[b as u32]@.len()
            == width && l.exit@[b as u32]@.len() == width
}

/// The exit state the lattice records for each of the first `n` blocks.
pub open spec fn exits_view(l: Lattice<Vec<bool>>, n: nat) -> Seq<Seq<bool>> {
    Seq::new(n, |b: int| l.exit@[b as u32]@)
}

/// The entry state the lattice records for each of the first `n` blocks.
pub open spec fn entries_view(l: Lattice<Vec<bool>>, n: nat) -> Seq<Seq<bool>> {
    Seq::new(n, |b: int| l.entry@[b as u32]@)
}

pub open spec fn bits_view(v: Seq<Vec<bool>>) -> Seq<Seq<bool>> {
    v.map_values(|x: Vec<bool>| x@)
}

/// Solves the dataflow problem `body` poses by the worklist method: every block is queued, in
/// reverse postorder; a block taken off the queue gets the meet of its predecessors' exit
/// states as its entry state, and when its exit state changes, its successors are queued
/// again. Exit states start empty, and the result is the least solution.
pub fn solve(body: &Body, width: usize, init_entry: &Vec<bool>, transfers: &Vec<Transfer>, meet: Meet) -> (lattice: Lattice<Vec<bool>>)
    requires
        body.targets_in_range(),
        body.basic_blocks@.len() > 0,
        edge_count(body.basic_blocks@, body.basic_blocks@.len() as int) < usize::MAX,
        init_entry@.len() == width,
        transfers@.len() == body.basic_blocks@.len(),
        forall|b: int| 0 <= b < transfers@.len() ==> (#[trigger] transfers@[b]).gen@.len() == width && transfers@[b].kill@.len() == width,
    ensures
        ({
            let n = body.basic_blocks@.len();
            let p = problem_of(*body, width as nat, meet, init_entry@, transfers@);
            &&& p.wf()
            &&& forall|b: int| 0 <= b < n ==> #[trigger] lattice.entry@.dom().contains(b as u32) && lattice.exit@.dom().contains(b as u32)
            &&& p.least(exits_view(lattice, n))
            &&& forall|b: int| 0 <= b < n ==> #[trigger] entries_view(lattice, n)[b] == p.entry_of(exits_view(lattice, n), b)
        }),
{
    let n = body.basic_blocks.len();
    let ghost blocks = body.basic_blocks@;
    let ghost p = problem_of(*body, width as nat, meet, init_entry@, transfers@);
    let preds = body.predecessors();
    proof {
        assert forall|b: int, k: int| 0 <= b < p.n() && 0 <= k < p.preds[b].len() implies (#[trigger] p.preds[b][k]).0 < p.n() by {
            lemma_pred_is_edge(blocks, n as int, BasicBlock(b as u32), k);
        }
        assert forall|b: int| 0 <= b < p.n() implies (#[trigger] p.gens[b]).len() == p.width by {
            assert(p.gens[b] == transfers@[b].gen@);
        }
        assert forall|b: int| 0 <= b < p.n() implies (#[trigger] p.kills[b]).len() == p.width by {
            assert(p.kills[b] == transfers@[b].kill@);
        }
        assert(p.wf());
    }
    let mut entries: Vec<Vec<bool>> = Vec::new();
    let mut exits: Vec<Vec<bool>> = Vec::new();
    let mut queued: Vec<bool> = Vec::new();
    let mut i: usize = 0;
    while i < n
        invariant
            i <= n,
            init_entry@.len() == width,
            entries@.len() == i,
            exits@.len() == i,
            queued@.len() == i,
            forall|b: int| 0 <= b < i ==> (#[trigger] entries@[b])@ == init_entry@,
            forall|b: int| 0 <= b < i ==> (#[trigger] exits@[b])@.len() == width,
            forall|b: int, e: int| 0 <= b < i && 0 <= e < width ==> !(#[trigger] exits@[b]@[e]),
            forall|b: int| 0 <= b < i ==> #[trigger] queued@[b],
        decreases n - i,
    {
        entries.push(copy_bits(init_entry));
        exits.push(no_bits(width));
        queued.push(true);
        i = i + 1;
    }
    let mut queue = reverse_postorder(body);
    let mut head: usize = 0;
    proof {
        let x = bits_view(exits@);
        assert forall|b: int| 0 <= b < p.n() implies subset(#[trigger] x[b], p.step(x, b)) by {
            lemma_meet_monotone(p, x, x, b);
        }
        assert forall|y: Seq<Seq<bool>>| #[trigger] p.solves(y) implies forall|b: int| 0 <= b < p.n() ==> subset(#[trigger] x[b], y[b]) by {
            assert forall|b: int| 0 <= b < p.n() implies subset(#[trigger] x[b], y[b]) by {
                assert(y[b].len() == width);
            }
        }
        lemma_total_bound(x, width as nat);
        assert forall|b: int| 0 <= b < n && #[trigger] queued@[b] implies exists|j: int| head <= j < queue@.len() && (#[trigger] queue@[j]).0 == b by {
            assert(listed(queue@, b));
            let j = choose|j: int| 0 <= j < queue@.len() && (#[trigger] queue@[j]).0 == b;
            assert(head <= j < queue@.len() && queue@[j].0 == b);
        }
    }
    while head < queue.len()
        invariant
            n == blocks.len(),
            blocks == body.basic_blocks@,
            n > 0,
            p == problem_of(*body, width as nat, meet, init_entry@, transfers@),
            p.wf(),
            p.n() == n,
            body.targets_in_range(),
            preds.len() == n,
            forall|b: int| 0 <= b < n ==> #[trigger] preds.preds(b) == p.preds[b],
            transfers@.len() == n,
            forall|b: int| 0 <= b < n ==> (#[trigger] transfers@[b]).gen@ == p.gens[b] && transfers@[b].kill@ == p.kills[b],
            init_entry@ == p.init,
            entries@.len() == n,
            exits@.len() == n,
            queued@.len() == n,
            p.shaped(bits_view(exits@)),
            forall|b: int| 0 <= b < n ==> (#[trigger] entries@[b])@.len() == width,
            head <= queue@.len(),
            forall|k: int| 0 <= k < queue@.len() ==> (#[trigger] queue@[k]).0 < n,
            forall|b: int|
                0 <= b < n && #[trigger] queued@[b] ==> exists|j: int| head <= j < queue@.len() && (#[trigger] queue@[j]).0 == b,
            forall|b: int|
                0 <= b < n && !#[trigger] queued@[b] ==> entries@[b]@ == p.entry_of(bits_view(exits@), b) && exits@[b]@ == p.step(
                    bits_view(exits@),
                    b,
                ),
            forall|b: int| 0 <= b < n ==> subset(#[trigger] bits_view(exits@)[b], p.step(bits_view(exits@), b)),
            forall|y: Seq<Seq<bool>>|
                #[trigger] p.solves(y) ==> forall|b: int| 0 <= b < n ==> subset(#[trigger] bits_view(exits@)[b], y[b]),
            forall|b: int| 0 <= b < n && meet == Meet::Intersection && p.preds[b].len() == 0 ==> (#[trigger] entries@[b])@ == p.init,
            total(bits_view(exits@)) <= n * width,
        decreases n * width - total(bits_view(exits@)), queue@.len() - head,
    {
        let id = queue[head];
        head = head + 1;
        let ghost x = bits_view(exits@);
        let ghost q0 = queued@;
        queued.set(id.index(), false);
        let pred_list = preds.of(id);
        assert(forall|k: int| 0 <= k < pred_list@.len() ==> (#[trigger] pred_list@[k]).0 < n) by {
            assert(pred_list@ == p.preds[id.0 as int]);
        }
        assert(forall|b: int| 0 <= b < exits@.len() ==> (#[trigger] exits@[b])@.len() == width) by {
            assert forall|b: int| 0 <= b < exits@.len() implies (#[trigger] exits@[b])@.len() == width by {
                assert(x[b] == exits@[b]@);
            }
        }
        let new_entry = meet_states(meet, &entries[id.index()], pred_list, &exits, width);
        assert(new_entry@ == p.entry_of(x, id.0 as int)) by {
            assert(bits_view(exits@) == x);
            if meet == Meet::Intersection && p.preds[id.0 as int].len() == 0 {
                assert(entries@[id.0 as int]@ == p.init);
            }
        }
        proof {
            lemma_meet_monotone(p, x, x, id.0 as int);
        }
        let new_exit = apply_transfer(&transfers[id.index()], &new_entry);
        assert(new_exit@ == p.step(x, id.0 as int));
        entries.set(id.index(), new_entry);
        if !bits_eq(&exits[id.index()], &new_exit) {
            let ghost old_exit = x[id.0 as int];
            exits.set(id.index(), new_exit);
            let ghost x2 = bits_view(exits@);
            proof {
                assert(x2 =~= x.update(id.0 as int, p.step(x, id.0 as int)));
                assert forall|c: int| 0 <= c < n implies subset(#[trigger] x[c], x2[c]) by {
                    if c == id.0 {
                        assert(subset(x[c], p.step(x, c)));
                    } else {
                        assert(x2[c] == x[c]);
                    }
                }
                assert(p.shaped(x2));
                lemma_count_bounds(old_exit, x2[id.0 as int]);
                lemma_total_update(x, id.0 as int, x2[id.0 as int]);
                lemma_total_bound(x2, width as nat);
                assert forall|b: int| 0 <= b < n implies subset(#[trigger] x2[b], p.step(x2, b)) by {
                    lemma_meet_monotone(p, x, x2, b);
                    if b == id.0 {
                    } else {
                        assert(x2[b] == x[b]);
                        assert(subset(x[b], p.step(x, b)));
                    }
                }
                assert forall|y: Seq<Seq<bool>>| #[trigger] p.solves(y) implies forall|b: int| 0 <= b < n ==> subset(#[trigger] x2[b], y[b]) by {
                    assert forall|b: int| 0 <= b < n implies subset(#[trigger] x2[b], y[b]) by {
                        if b == id.0 {
                            lemma_meet_monotone(p, x, y, b);
                            assert(y[b] == p.step(y, b));
                        } else {
                            assert(x2[b] == x[b]);
                        }
                    }
                }
            }
            let succs = body.successors(id);
            let mut j: usize = 0;
            while j < succs.len()
                invariant
                    n == blocks.len(),
                    blocks == body.basic_blocks@,
                    body.targets_in_range(),
                    id.0 < n,
                    succs@ == block_successors(blocks, id.0 as int),
                    j <= succs@.len(),
                    queued@.len() == n,
                    head <= queue@.len(),
                    forall|k: int| 0 <= k < queue@.len() ==> (#[trigger] queue@[k]).0 < n,
                    forall|b: int|
                        0 <= b < n && #[trigger] queued@[b] ==> exists|j: int| head <= j < queue@.len() && (#[trigger] queue@[j]).0 == b,
                    forall|b: int| 0 <= b < n && #[trigger] q0[b] && b != id.0 ==> queued@[b],
                    forall|b: int| 0 <= b < n && !q0[b] && b != id.0 && #[trigger] queued@[b] ==> listed(succs@, b),
                    q0.len() == n,
                    !queued@[id.0 as int] ==> !listed(succs@.take(j as int), id.0 as int),
                    forall|k: int| 0 <= k < j ==> #[trigger] queued@[succs@[k].0 as int],
                decreases succs@.len() - j,
            {
                let succ = succs[j];
                assert(succ.0 < n);
                if !queued[succ.index()] {
                    let ghost qb = queue@;
                    queued.set(succ.index(), true);
                    queue.push(succ);
                    proof {
                        assert forall|b: int| 0 <= b < n && #[trigger] queued@[b] implies exists|j: int| head <= j < queue@.len() && (#[trigger] queue@[j]).0 == b by {
                            if b == succ.0 {
                                assert(queue@[queue@.len() - 1].0 == b);
                            } else {
                                let w = choose|w: int| head <= w < qb.len() && (#[trigger] qb[w]).0 == b;
                                assert(queue@[w] == qb[w]);
                            }
                        }
                    }
                }
                proof {
                    assert(succs@.take(j + 1) =~= succs@.take(j as int).push(succ));
                    if !queued@[id.0 as int] && listed(succs@.take(j + 1), id.0 as int) {
                        let w = choose|w: int| 0 <= w < succs@.take(j + 1).len() && (#[trigger] succs@.take(j + 1)[w]).0 == id.0;
                        if w < j {
                            assert(succs@.take(j as int)[w] == succs@.take(j + 1)[w]);
                        }
                    }
                    assert forall|b: int| 0 <= b < n && !q0[b] && b != id.0 && #[trigger] queued@[b] implies listed(succs@, b) by {
                        if b == succ.0 {
                            assert(succs@[j as int].0 == b);
                        }
                    }
                }
                j = j + 1;
            }
            proof {
                assert(succs@.take(succs@.len() as int) =~= succs@);
                let x2 = bits_view(exits@);
                assert forall|b: int|
                    0 <= b < n && !#[trigger] queued@[b] implies entries@[b]@ == p.entry_of(x2, b) && exits@[b]@ == p.step(x2, b) by {
                    assert(!listed(succs@, b)) by {
                        if listed(succs@, b) {
                            let w = choose|w: int| 0 <= w < succs@.len() && (#[trigger] succs@[w]).0 == b;
                            assert(queued@[succs@[w].0 as int]);
                        }
                    }
                    assert forall|k: int| 0 <= k < p.preds[b].len() implies (#[trigger] p.preds[b][k]).0 != id.0 by {
                        if p.preds[b][k].0 == id.0 {
                            lemma_pred_is_edge(blocks, n as int, BasicBlock(b as u32), k);
                            assert(p.preds[b][k] == id);
                        }
                    }
                    lemma_meet_frame(p, x, id.0 as int, x2[id.0 as int], b);
                    assert(x.update(id.0 as int, x2[id.0 as int]) =~= x2);
                    if b != id.0 {
                        assert(!q0[b]);
                        assert(exits@[b]@ == x[b]);
                    }
                }
            }
        } else {
            proof {
                assert(bits_view(exits@) =~= x);
            }
        }
    }
    proof {
        let x = bits_view(exits@);
        assert forall|b: int| 0 <= b < n implies !#[trigger] queued@[b] by {
            if queued@[b] {
                let j = choose|j: int| head <= j < queue@.len() && (#[trigger] queue@[j]).0 == b;
            }
        }
        assert(p.solves(x)) by {
            assert forall|b: int| 0 <= b < n implies #[trigger] x[b] == p.step(x, b) by {
                assert(!queued@[b]);
            }
        }
    }
    let mut lattice: Lattice<Vec<bool>> = Lattice::new();
    let mut b: usize = 0;
    while b < n
        invariant
            b <= n,
            n <= u32::MAX,
            entries@.len() == n,
            exits@.len() == n,
            forall|c: int| 0 <= c < b ==> #[trigger] lattice.entry@.dom().contains(c as u32) && lattice.exit@.dom().contains(c as u32)
                && lattice.entry@[c as u32]@ == entries@[c]@ && lattice.exit@[c as u32]@ == exits@[c]@,
        decreases n - b,
    {
        let ghost e0 = lattice.entry@;
        let ghost x0 = lattice.exit@;
        let en = copy_bits(&entries[b]);
        let ex = copy_bits(&exits[b]);
        lattice.set_entry(BasicBlock(b as u32), en);
        lattice.set_exit(BasicBlock(b as u32), ex);
        proof {
            assert(lattice.entry@ == e0.insert(b as u32, en));
            assert(lattice.exit@ == x0.insert(b as u32, ex));
            assert forall|c: int| 0 <= c < b + 1 implies #[trigger] lattice.entry@.dom().contains(c as u32) && lattice.exit@.dom().contains(c as u32)
                && lattice.entry@[c as u32]@ == entries@[c]@ && lattice.exit@[c as u32]@ == exits@[c]@ by {
                if c < b {
                    assert(c as u32 != b as u32);
                }
            }
        }
        b = b + 1;
    }
    proof {
        assert forall|c: int| 0 <= c < n implies exits_view(lattice, n as nat)[c] == bits_view(exits@)[c] by {
            assert(lattice.entry@.dom().contains(c as u32));
        }
        assert(exits_view(lattice, n as nat) =~= bits_view(exits@));
        assert forall|c: int| 0 <= c < n implies #[trigger] entries_view(lattice, n as nat)[c] == p.entry_of(exits_view(lattice, n as nat), c) by {
            assert(!queued@[c]);
            assert(lattice.entry@.dom().contains(c as u32));
            assert(entries_view(lattice, n as nat)[c] == entries@[c]@);
            assert(entries@[c]@ == p.entry_of(bits_view(exits@), c));
        }
    }
    lattice
}

/// One step of a state update: clear or set the flag of one element.
pub enum BitOp {
    Clear(u32),
    Raise(u32),
}

pub open spec fn op_index(op: BitOp) -> u32 {
    match op {
        BitOp::Clear(i) => i,
        BitOp::Raise(i) => i,
    }
}

/// The state after `ops`, one after the other, starting from `s`.
pub open spec fn run(s: Seq<bool>, ops: Seq<BitOp>) -> Seq<bool>
    decreases ops.len(),
{
    if ops.len() == 0 {
        s
    } else {
        let prior = run(s, ops.drop_last());
        match ops.last() {
            BitOp::Clear(i) => if (i as int) < prior.len() { prior.update(i as int, false) } else { prior },
            BitOp::Raise(i) => if (i as int) < prior.len() { prior.update(i as int, true) } else { prior },
        }
    }
}

/// Every op of `ops` names an element of a universe of `n`.
pub open spec fn ops_in_range(ops: Seq<BitOp>, n: nat) -> bool {
    forall|k: int| 0 <= k < ops.len() ==> (op_index(#[trigger] ops[k]) as int) < n
}

pub proof fn lemma_run_len(s: Seq<bool>, ops: Seq<BitOp>)
    ensures
        run(s, ops).len() == s.len(),
    decreases ops.len(),
{
    if ops.len() > 0 {
        lemma_run_len(s, ops.drop_last());
    }
}

pub proof fn lemma_run_concat(s: Seq<bool>, a: Seq<BitOp>, b: Seq<BitOp>)
    ensures
        run(s, a + b) == run(run(s, a), b),
    decreases b.len(),
{
    if b.len() == 0 {
        assert(a + b =~= a);
    } else {
        assert((a + b).drop_last() =~= a + b.drop_last());
        assert((a + b).last() == b.last());
        lemma_run_concat(s, a, b.drop_last());
    }
}

/// Each element's flag after `ops` is what the ops give it from nothing, or its flag before
/// if the ops keep everything there.
proof fn lemma_run_gen_kill(s: Seq<bool>, ops: Seq<BitOp>)
    ensures
        ({
            let none = Seq::new(s.len(), |i: int| false);
            let all = Seq::new(s.len(), |i: int| true);
            forall|i: int| 0 <= i < s.len() ==> #[trigger] run(s, ops)[i] == (run(none, ops)[i] || (s[i] && run(all, ops)[i]))
        }),
    decreases ops.len(),
{
    if ops.len() > 0 {
        let none = Seq::new(s.len(), |i: int| false);
        let all = Seq::new(s.len(), |i: int| true);
        lemma_run_gen_kill(s, ops.drop_last());
        lemma_run_len(s, ops.drop_last());
        lemma_run_len(none, ops.drop_last());
        lemma_run_len(all, ops.drop_last());
    }
}

/// Any run of ops is exactly its gen/kill summary: what it sets starting from nothing, and
/// the complement of what it keeps of everything.
pub proof fn lemma_summary_exact(s: Seq<bool>, ops: Seq<BitOp>)
    ensures
        run(s, ops) == apply(
            run(Seq::new(s.len(), |i: int| false), ops),
            Seq::new(s.len(), |i: int| !run(Seq::new(s.len(), |j: int| true), ops)[i]),
            s,
        ),
{
    lemma_run_gen_kill(s, ops);
    lemma_run_len(s, ops);
    assert(run(s, ops) =~= apply(
        run(Seq::new(s.len(), |i: int| false), ops),
        Seq::new(s.len(), |i: int| !run(Seq::new(s.len(), |j: int| true), ops)[i]),
        s,
    ));
}

pub proof fn lemma_ops_in_range_split(a: Seq<BitOp>, b: Seq<BitOp>, n: nat)
    requires
        ops_in_range(a + b, n),
    ensures
        ops_in_range(a, n),
        ops_in_range(b, n),
{
    assert forall|k: int| 0 <= k < a.len() implies (op_index(#[trigger] a[k]) as int) < n by {
        assert((a + b)[k] == a[k]);
    }
    assert forall|k: int| 0 <= k < b.len() implies (op_index(#[trigger] b[k]) as int) < n by {
        assert((a + b)[a.len() + k] == b[k]);
    }
}

/// Clears element `i`.
pub fn clear_bit(state: &mut Vec<bool>, i: u32)
    requires
        (i as int) < old(state)@.len(),
    ensures
        final(state)@ == run(old(state)@, seq![BitOp::Clear(i)]),
{
    state.set(i as usize, false);
    assert(seq![BitOp::Clear(i)].drop_last() =~= Seq::<BitOp>::empty());
    proof {
        reveal_with_fuel(run, 2);
    }
}

/// Sets element `i`.
pub fn set_bit(state: &mut Vec<bool>, i: u32)
    requires
        (i as int) < old(state)@.len(),
    ensures
        final(state)@ == run(old(state)@, seq![BitOp::Raise(i)]),
{
    state.set(i as usize, true);
    assert(seq![BitOp::Raise(i)].drop_last() =~= Seq::<BitOp>::empty());
    proof {
        reveal_with_fuel(run, 2);
    }
}

} // verus!
