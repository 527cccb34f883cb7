//! Turning drop trees into blocks: each tree becomes a chain of new blocks that ends by
//! jumping to the block control continues at.

use vstd::prelude::*;
use crate::ast::{Mutability, SrcSpan};
use crate::mir::body::{BasicBlockData, Body, LocalDecl};
use crate::mir::checks::borrowck::{is_prefix, place_reg, prefix_of, reg_view, register_of, Register, SubRegisters};
use crate::mir::drop_elaboration::tree::{tree_of, trees_of, arm_trees_of, DropNode, DropTree};
use crate::mir::drop_elaboration::{insertions_view, Insertion};
use crate::mir::ids::{BasicBlock, Local, StatementId, VariantIdx};
use crate::mir::operand::{ConstKind, Constant, Operand};
use crate::mir::place::{Place, Projection};
use crate::mir::rvalue::{rvalue_operands, Rvalue};
use crate::mir::statement::{Statement, StatementKind};
use crate::mir::terminator::{terminator_operands, SwitchTargets, Terminator, TerminatorKind};
use crate::typeck::Ty;

verus! {

broadcast use vstd::std_specs::vec::group_vec_axioms;

/// How many blocks, locals and statement ids something adds.
pub struct Counts {
    pub nb: nat,
    pub nl: nat,
    pub ni: nat,
}

pub open spec fn plus(a: Counts, b: Counts) -> Counts {
    Counts { nb: a.nb + b.nb, nl: a.nl + b.nl, ni: a.ni + b.ni }
}

pub open spec fn zero() -> Counts {
    Counts { nb: 0, nl: 0, ni: 0 }
}

/// What emitting `t` adds.
pub open spec fn emit_size(t: DropTree) -> Counts
    decreases t,
{
    match t {
        DropTree::Glue(..) => Counts { nb: 1, nl: 0, ni: 0 },
        DropTree::FreeAllocation(..) => Counts { nb: 1, nl: 0, ni: 0 },
        DropTree::Sequence(ts) => seq_size(ts, ts.len()),
        DropTree::Variants(_, _, arms) => {
            let a = arms_size(arms, arms.len());
            Counts { nb: a.nb + 1, nl: a.nl + 1, ni: a.ni + 1 }
        },
        DropTree::Flagged(_, inner) => {
            let a = emit_size(*inner);
            Counts { nb: a.nb + 2, nl: a.nl, ni: a.ni + 1 }
        },
    }
}

/// What emitting the last `k` trees of `ts` adds.
pub open spec fn seq_size(ts: Seq<DropTree>, k: nat) -> Counts
    decreases ts, k,
{
    if k == 0 || k > ts.len() {
        zero()
    } else {
        plus(seq_size(ts, (k - 1) as nat), emit_size(ts[ts.len() - k]))
    }
}

/// What emitting the first `k` arms adds.
pub open spec fn arms_size(arms: Seq<(VariantIdx, DropTree)>, k: nat) -> Counts
    decreases arms, k,
{
    if k == 0 || k > arms.len() {
        zero()
    } else {
        plus(arms_size(arms, (k - 1) as nat), emit_size(arms[k - 1].1))
    }
}

/// Where emitting starts: the next block, local and statement id.
pub open spec fn at(st: Counts, c: Counts) -> Counts {
    plus(st, c)
}

/// The block an emitted `t` is entered by, emitted from `st` and continuing at `next`.
pub open spec fn emit_entry(t: DropTree, st: Counts, next: nat) -> nat
    decreases t,
{
    match t {
        DropTree::Glue(..) => st.nb,
        DropTree::FreeAllocation(..) => st.nb,
        DropTree::Sequence(ts) => seq_entry(ts, ts.len(), st, next),
        DropTree::Variants(_, _, arms) => st.nb + arms_size(arms, arms.len()).nb,
        DropTree::Flagged(_, inner) => st.nb + emit_size(*inner).nb + 1,
    }
}

/// The entry of the last `k` trees of `ts` emitted last first: each continues at the one
/// emitted before it, the first emitted at `next`.
pub open spec fn seq_entry(ts: Seq<DropTree>, k: nat, st: Counts, next: nat) -> nat
    decreases ts, k,
{
    if k == 0 || k > ts.len() {
        next
    } else {
        emit_entry(ts[ts.len() - k], at(st, seq_size(ts, (k - 1) as nat)), seq_entry(ts, (k - 1) as nat, st, next))
    }
}

/// What the emitted blocks are read against: the body's blocks and locals after emitting,
/// and the types of a drop flag and of a discriminant.
pub struct EmitEnv {
    pub blocks: Seq<BasicBlockData>,
    pub decls: Seq<LocalDecl>,
    pub bool_ty: Ty,
    pub discr_ty: Ty,
}

pub open spec fn place_is(p: Place, l: Local, projs: Seq<Projection>) -> bool {
    p.local == l && p.projections@ == projs
}

/// `s` sets flag `flag` to `value`: statement id `id`, at `span`.
pub open spec fn is_set_flag(s: Statement, flag: Local, value: bool, id: int, span: SrcSpan, bool_ty: Ty) -> bool {
    &&& s.id.0 == id
    &&& s.span == span
    &&& match s.kind {
        StatementKind::Assign(p, Rvalue::Use(Operand::Constant(c))) => place_is(p, flag, Seq::empty()) && c.ty == bool_ty && c.kind == ConstKind::Bool(value),
        _ => false,
    }
}

/// A block with no statements ending in `kind`, at `span`.
pub open spec fn bare_block(b: BasicBlockData, span: SrcSpan) -> bool {
    b.statements@.len() == 0 && b.terminator.span == span
}

/// The switch values of the first `k` arms: each variant's index and its arm's entry.
pub open spec fn arm_values(arms: Seq<(VariantIdx, DropTree)>, k: nat, st: Counts, next: nat) -> Seq<(u128, BasicBlock)>
    decreases k,
{
    if k == 0 || k > arms.len() {
        Seq::empty()
    } else {
        arm_values(arms, (k - 1) as nat, st, next).push(
            ((arms[k - 1].0.0 as u128), BasicBlock(emit_entry(arms[k - 1].1, at(st, arms_size(arms, (k - 1) as nat)), next) as u32)),
        )
    }
}

/// Emitting `t` from `st`, continuing at `next`, produced the blocks and locals of `env`
/// from `st` on: a glue drop or an allocation release is one block; a sequence emits its
/// last tree first, each earlier one continuing at the one after it; an enum's arms each
/// continue at `next`, then a block reads the discriminant into a new local and switches on
/// it, going to `next` for any variant without an arm; a flagged tree is emitted, then a
/// block clearing the flag and jumping to it, then a block switching on the flag.
pub open spec fn emit_ok(t: DropTree, st: Counts, next: nat, span: SrcSpan, env: EmitEnv) -> bool
    decreases t,
{
    match t {
        DropTree::Glue(l, ps) => {
            let b = env.blocks[st.nb as int];
            &&& bare_block(b, span)
            &&& match b.terminator.kind {
                TerminatorKind::Drop { place, target } => place_is(place, l, ps) && target.0 == next,
                _ => false,
            }
        },
        DropTree::FreeAllocation(l, ps) => {
            let b = env.blocks[st.nb as int];
            &&& bare_block(b, span)
            &&& match b.terminator.kind {
                TerminatorKind::DropIso { place, target } => place_is(place, l, ps) && target.0 == next,
                _ => false,
            }
        },
        DropTree::Sequence(ts) => seq_ok(ts, ts.len(), st, next, span, env),
        DropTree::Variants(l, ps, arms) => {
            let temp = Local(st.nl as u32);
            let st1 = Counts { nb: st.nb, nl: st.nl + 1, ni: st.ni };
            let sa = at(st1, arms_size(arms, arms.len()));
            let b = env.blocks[sa.nb as int];
            let d = env.decls[st.nl as int];
            &&& arms_ok(arms, arms.len(), st1, next, span, env)
            &&& d.ty == env.discr_ty && d.name is None && d.span == span && d.mutability == Mutability::Mutable
            &&& b.statements@.len() == 1
            &&& b.terminator.span == span
            &&& b.statements@[0].id.0 == sa.ni
            &&& b.statements@[0].span == span
            &&& match b.statements@[0].kind {
                StatementKind::Assign(p, Rvalue::Discriminant(q)) => place_is(p, temp, Seq::empty()) && place_is(q, l, ps),
                _ => false,
            }
            &&& match b.terminator.kind {
                TerminatorKind::SwitchInt { discr: Operand::Copy(p), targets } => place_is(p, temp, Seq::empty())
                    && targets.values@ == arm_values(arms, arms.len(), st1, next) && targets.otherwise.0 == next,
                _ => false,
            }
        },
        DropTree::Flagged(flag, inner) => {
            let s1 = at(st, emit_size(*inner));
            let arm = env.blocks[s1.nb as int];
            let sw = env.blocks[s1.nb + 1 as int];
            &&& emit_ok(*inner, st, next, span, env)
            &&& arm.statements@.len() == 1
            &&& is_set_flag(arm.statements@[0], flag, false, s1.ni as int, span, env.bool_ty)
            &&& arm.terminator.span == span
            &&& arm.terminator.kind matches TerminatorKind::Goto { target } && target.0 == emit_entry(*inner, st, next)
            &&& bare_block(sw, span)
            &&& match sw.terminator.kind {
                TerminatorKind::SwitchInt { discr: Operand::Copy(p), targets } => place_is(p, flag, Seq::empty())
                    && targets.values@ == seq![(1u128, BasicBlock(s1.nb as u32))] && targets.otherwise.0 == next,
                _ => false,
            }
        },
    }
}

/// The last `k` trees of `ts` were emitted, last first, from `st`.
pub open spec fn seq_ok(ts: Seq<DropTree>, k: nat, st: Counts, next: nat, span: SrcSpan, env: EmitEnv) -> bool
    decreases ts, k,
{
    if k == 0 || k > ts.len() {
        true
    } else {
        &&& seq_ok(ts, (k - 1) as nat, st, next, span, env)
        &&& emit_ok(ts[ts.len() - k], at(st, seq_size(ts, (k - 1) as nat)), seq_entry(ts, (k - 1) as nat, st, next), span, env)
    }
}

/// The first `k` arms were emitted, in order, from `st`, each continuing at `next`.
pub open spec fn arms_ok(arms: Seq<(VariantIdx, DropTree)>, k: nat, st: Counts, next: nat, span: SrcSpan, env: EmitEnv) -> bool
    decreases arms, k,
{
    if k == 0 || k > arms.len() {
        true
    } else {
        &&& arms_ok(arms, (k - 1) as nat, st, next, span, env)
        &&& emit_ok(arms[k - 1].1, at(st, arms_size(arms, (k - 1) as nat)), next, span, env)
    }
}

/// `e1` and `e2` agree on every block and local from `lo` up to `end`, and on the two types.
pub open spec fn env_agree(e1: EmitEnv, e2: EmitEnv, lo: Counts, end: Counts) -> bool {
    &&& e1.bool_ty == e2.bool_ty
    &&& e1.discr_ty == e2.discr_ty
    &&& e1.blocks.len() >= end.nb
    &&& e2.blocks.len() >= end.nb
    &&& forall|i: int| lo.nb <= i < end.nb ==> e1.blocks[i] == e2.blocks[i]
    &&& e1.decls.len() >= end.nl
    &&& e2.decls.len() >= end.nl
    &&& forall|i: int| lo.nl <= i < end.nl ==> e1.decls[i] == e2.decls[i]
}

pub open spec fn le(a: Counts, b: Counts) -> bool {
    a.nb <= b.nb && a.nl <= b.nl && a.ni <= b.ni
}

proof fn lemma_seq_size_mono(ts: Seq<DropTree>, k: nat, j: nat)
    requires
        k <= j <= ts.len(),
    ensures
        le(seq_size(ts, k), seq_size(ts, j)),
    decreases j,
{
    if k < j {
        lemma_seq_size_mono(ts, k, (j - 1) as nat);
    }
}

proof fn lemma_arms_size_mono(arms: Seq<(VariantIdx, DropTree)>, k: nat, j: nat)
    requires
        k <= j <= arms.len(),
    ensures
        le(arms_size(arms, k), arms_size(arms, j)),
    decreases j,
{
    if k < j {
        lemma_arms_size_mono(arms, k, (j - 1) as nat);
    }
}

/// What an emitted tree reads of the blocks and locals lies below where its emission ends.
proof fn lemma_emit_frame(t: DropTree, st: Counts, next: nat, span: SrcSpan, e1: EmitEnv, e2: EmitEnv)
    requires
        emit_ok(t, st, next, span, e1),
        env_agree(e1, e2, st, at(st, emit_size(t))),
    ensures
        emit_ok(t, st, next, span, e2),
    decreases t, 0nat,
{
    match t {
        DropTree::Glue(..) => {},
        DropTree::FreeAllocation(..) => {},
        DropTree::Sequence(ts) => {
            lemma_seq_frame(ts, ts.len(), st, next, span, e1, e2);
        },
        DropTree::Variants(_, _, arms) => {
            let st1 = Counts { nb: st.nb, nl: st.nl + 1, ni: st.ni };
            lemma_arms_frame(arms, arms.len(), st1, next, span, e1, e2);
        },
        DropTree::Flagged(_, inner) => {
            lemma_emit_frame(*inner, st, next, span, e1, e2);
        },
    }
}

proof fn lemma_seq_frame(ts: Seq<DropTree>, k: nat, st: Counts, next: nat, span: SrcSpan, e1: EmitEnv, e2: EmitEnv)
    requires
        seq_ok(ts, k, st, next, span, e1),
        env_agree(e1, e2, st, at(st, seq_size(ts, k))),
    ensures
        seq_ok(ts, k, st, next, span, e2),
    decreases ts, k,
{
    if k > 0 && k <= ts.len() {
        lemma_seq_size_mono(ts, (k - 1) as nat, k);
        lemma_seq_frame(ts, (k - 1) as nat, st, next, span, e1, e2);
        lemma_emit_frame(ts[ts.len() - k], at(st, seq_size(ts, (k - 1) as nat)), seq_entry(ts, (k - 1) as nat, st, next), span, e1, e2);
    }
}

proof fn lemma_arms_frame(arms: Seq<(VariantIdx, DropTree)>, k: nat, st: Counts, next: nat, span: SrcSpan, e1: EmitEnv, e2: EmitEnv)
    requires
        arms_ok(arms, k, st, next, span, e1),
        env_agree(e1, e2, st, at(st, arms_size(arms, k))),
    ensures
        arms_ok(arms, k, st, next, span, e2),
    decreases arms, k,
{
    if k > 0 && k <= arms.len() {
        lemma_arms_size_mono(arms, (k - 1) as nat, k);
        lemma_arms_frame(arms, (k - 1) as nat, st, next, span, e1, e2);
        lemma_emit_frame(arms[k - 1].1, at(st, arms_size(arms, (k - 1) as nat)), next, span, e1, e2);
    }
}

proof fn lemma_trees_of(s: Seq<DropNode>)
    ensures
        trees_of(s).len() == s.len(),
        forall|i: int| 0 <= i < s.len() ==> #[trigger] trees_of(s)[i] == tree_of(s[i]),
    decreases s.len(),
{
    if s.len() > 0 {
        lemma_trees_of(s.subrange(0, s.len() - 1));
    }
}

proof fn lemma_arm_trees_of(s: Seq<(VariantIdx, DropNode)>)
    ensures
        arm_trees_of(s).len() == s.len(),
        forall|i: int| 0 <= i < s.len() ==> #[trigger] arm_trees_of(s)[i] == (s[i].0, tree_of(s[i].1)),
    decreases s.len(),
{
    if s.len() > 0 {
        lemma_arm_trees_of(s.subrange(0, s.len() - 1));
    }
}

/// Emits new blocks and statements: the next statement id, and the types of a drop flag and
/// of a discriminant.
pub struct Editor {
    pub next_statement_id: usize,
    pub bool_ty: Ty,
    pub discriminant_ty: Ty,
}

pub open spec fn env_of(e: Editor, blocks: Seq<BasicBlockData>, decls: Seq<LocalDecl>) -> EmitEnv {
    EmitEnv { blocks, decls, bool_ty: e.bool_ty, discr_ty: e.discriminant_ty }
}

pub open spec fn start_of(e: Editor, blocks: Seq<BasicBlockData>, decls: Seq<LocalDecl>) -> Counts {
    Counts { nb: blocks.len(), nl: decls.len(), ni: e.next_statement_id as nat }
}

/// Emitting something of size `c` from `st` keeps every index inside its `u32`.
pub open spec fn fits(st: Counts, c: Counts) -> bool {
    st.nb + c.nb <= u32::MAX && st.nl + c.nl <= u32::MAX && st.ni + c.ni <= u32::MAX
}

/// Appends a block of `statements` ending in `kind` at `span`.
pub fn push_block(blocks: &mut Vec<BasicBlockData>, statements: Vec<Statement>, kind: TerminatorKind, span: SrcSpan) -> (b: BasicBlock)
    requires
        old(blocks)@.len() < u32::MAX,
    ensures
        b.0 == old(blocks)@.len(),
        final(blocks)@.len() == old(blocks)@.len() + 1,
        forall|i: int| 0 <= i < old(blocks)@.len() ==> final(blocks)@[i] == old(blocks)@[i],
        final(blocks)@[b.0 as int].statements == statements,
        final(blocks)@[b.0 as int].terminator.kind == kind,
        final(blocks)@[b.0 as int].terminator.span == span,
{
    let b = BasicBlock::from_usize(blocks.len());
    blocks.push(BasicBlockData { statements, terminator: Terminator { kind, span } });
    b
}

impl Editor {
    pub fn statement(&mut self, kind: StatementKind, span: SrcSpan) -> (s: Statement)
        requires
            old(self).next_statement_id < u32::MAX,
        ensures
            s.id.0 == old(self).next_statement_id,
            s.kind == kind,
            s.span == span,
            final(self).next_statement_id == old(self).next_statement_id + 1,
            final(self).bool_ty == old(self).bool_ty,
            final(self).discriminant_ty == old(self).discriminant_ty,
    {
        let id = StatementId::from_usize(self.next_statement_id);
        self.next_statement_id = self.next_statement_id + 1;
        Statement { id, kind, span }
    }

    /// A statement setting drop flag `flag` to `value`.
    pub fn set_flag(&mut self, flag: Local, value: bool, span: SrcSpan) -> (s: Statement)
        requires
            old(self).next_statement_id < u32::MAX,
        ensures
            is_set_flag(s, flag, value, old(self).next_statement_id as int, span, old(self).bool_ty),
            final(self).next_statement_id == old(self).next_statement_id + 1,
            final(self).bool_ty == old(self).bool_ty,
            final(self).discriminant_ty == old(self).discriminant_ty,
    {
        let constant = Constant { ty: self.bool_ty, kind: ConstKind::Bool(value) };
        let place = Place::from_local(flag);
        assert(place.projections@ =~= Seq::<Projection>::empty());
        self.statement(StatementKind::Assign(place, Rvalue::Use(Operand::Constant(constant))), span)
    }

    /// Emits the blocks of `node`, continuing at `continues_at`, and returns the block that
    /// enters them.
    pub fn emit(&mut self, blocks: &mut Vec<BasicBlockData>, decls: &mut Vec<LocalDecl>, node: DropNode, continues_at: BasicBlock, span: SrcSpan) -> (entry: BasicBlock)
        requires
            fits(start_of(*old(self), old(blocks)@, old(decls)@), emit_size(tree_of(node))),
        ensures
            final(blocks)@.len() == at(start_of(*old(self), old(blocks)@, old(decls)@), emit_size(tree_of(node))).nb,
            final(decls)@.len() == at(start_of(*old(self), old(blocks)@, old(decls)@), emit_size(tree_of(node))).nl,
            final(self).next_statement_id == at(start_of(*old(self), old(blocks)@, old(decls)@), emit_size(tree_of(node))).ni,
            forall|i: int| 0 <= i < old(blocks)@.len() ==> final(blocks)@[i] == old(blocks)@[i],
            forall|i: int| 0 <= i < old(decls)@.len() ==> final(decls)@[i] == old(decls)@[i],
            entry.0 == emit_entry(tree_of(node), start_of(*old(self), old(blocks)@, old(decls)@), continues_at.0 as nat),
            emit_ok(tree_of(node), start_of(*old(self), old(blocks)@, old(decls)@), continues_at.0 as nat, span, env_of(*final(self), final(blocks)@, final(decls)@)),
            final(self).bool_ty == old(self).bool_ty,
            final(self).discriminant_ty == old(self).discriminant_ty,
        decreases node,
    {
        let ghost st = start_of(*self, blocks@, decls@);
        let ghost t = tree_of(node);
        let ghost node0 = node;
        match node {
            DropNode::Glue(place) => {
                let stmts: Vec<Statement> = Vec::new();
                let ghost pl = place;
                let b = push_block(blocks, stmts, TerminatorKind::Drop { place, target: continues_at }, span);
                assert(blocks@[st.nb as int].statements@.len() == 0);
                assert(t == DropTree::Glue(pl.local, pl.projections@));
                assert(emit_size(t) == Counts { nb: 1, nl: 0, ni: 0 });
                assert(emit_entry(t, st, continues_at.0 as nat) == st.nb);
                assert(emit_ok(t, st, continues_at.0 as nat, span, env_of(*self, blocks@, decls@)));
                b
            },
            DropNode::FreeAllocation(place) => {
                let stmts: Vec<Statement> = Vec::new();
                let b = push_block(blocks, stmts, TerminatorKind::DropIso { place, target: continues_at }, span);
                assert(blocks@[st.nb as int].statements@.len() == 0);
                assert(emit_ok(t, st, continues_at.0 as nat, span, env_of(*self, blocks@, decls@)));
                b
            },
            DropNode::Sequence(nodes) => {
                let ghost v0 = nodes@;
                let ghost ts = trees_of(v0);
                proof {
                    lemma_trees_of(v0);
                    lemma_seq_size_mono(ts, 0, ts.len());
                }
                let mut rest = nodes;
                let mut next = continues_at;
                let ghost mut k: nat = 0;
                let ghost b0 = blocks@;
                let ghost d0 = decls@;
                while rest.len() > 0
                    invariant
                        ts == trees_of(v0),
                        ts.len() == v0.len(),
                        forall|i: int| 0 <= i < v0.len() ==> #[trigger] ts[i] == tree_of(v0[i]),
                        t == DropTree::Sequence(ts),
                        node0 == DropNode::Sequence(nodes),
                        node0 == node,
                        v0 == nodes@,
                        k <= v0.len(),
                        rest@ == v0.subrange(0, v0.len() - k),
                        fits(st, seq_size(ts, ts.len())),
                        le(seq_size(ts, k), seq_size(ts, ts.len())),
                        blocks@.len() == at(st, seq_size(ts, k)).nb,
                        decls@.len() == at(st, seq_size(ts, k)).nl,
                        self.next_statement_id == at(st, seq_size(ts, k)).ni,
                        self.bool_ty == old(self).bool_ty,
                        self.discriminant_ty == old(self).discriminant_ty,
                        st == start_of(*old(self), old(blocks)@, old(decls)@),
                        forall|i: int| 0 <= i < old(blocks)@.len() ==> blocks@[i] == old(blocks)@[i],
                        forall|i: int| 0 <= i < old(decls)@.len() ==> decls@[i] == old(decls)@[i],
                        next.0 == seq_entry(ts, k, st, continues_at.0 as nat),
                        seq_ok(ts, k, st, continues_at.0 as nat, span, env_of(*self, blocks@, decls@)),
                    decreases rest@.len(),
                {
                    let n = rest.pop().unwrap();
                    proof {
                        assert(n == v0[v0.len() - k - 1]);
                        assert(tree_of(n) == ts[ts.len() - (k + 1)]);
                        lemma_seq_size_mono(ts, k + 1, ts.len());
                        assert(decreases_to!(node0 => node0->Sequence_0));
                        assert(decreases_to!(nodes => nodes@));
                        assert(decreases_to!(nodes@ => nodes@[v0.len() - k - 1]));
                        assert(decreases_to!(node0 => n));
                    }
                    let ghost eb = blocks@;
                    let ghost ed = decls@;
                    let ghost env0 = env_of(*self, blocks@, decls@);
                    let e = self.emit(blocks, decls, n, next, span);
                    proof {
                        lemma_seq_frame(ts, k, st, continues_at.0 as nat, span, env0, env_of(*self, blocks@, decls@));
                        k = k + 1;
                    }
                    next = e;
                }
                proof {
                    assert(k == v0.len());
                    assert(emit_ok(t, st, continues_at.0 as nat, span, env_of(*self, blocks@, decls@)));
                }
                next
            },
            DropNode::Variants { place, arms } => {
                let ghost a0 = arms@;
                let ghost ats = arm_trees_of(a0);
                proof {
                    lemma_arm_trees_of(a0);
                    lemma_arms_size_mono(ats, 0, ats.len());
                }
                let ghost st1 = Counts { nb: st.nb, nl: st.nl + 1, ni: st.ni };
                let discriminant = Local::from_usize(decls.len());
                decls.push(LocalDecl { ty: self.discriminant_ty, name: None, span, mutability: Mutability::Mutable });
                let n_arms = arms.len();
                let mut rest = arms;
                let mut values: Vec<(u128, BasicBlock)> = Vec::new();
                let mut j: usize = 0;
                while j < n_arms
                    invariant
                        ats == arm_trees_of(a0),
                        ats.len() == a0.len(),
                        forall|i: int| 0 <= i < a0.len() ==> #[trigger] ats[i] == (a0[i].0, tree_of(a0[i].1)),
                        t == DropTree::Variants(place.local, place.projections@, ats),
                        node0 == (DropNode::Variants { place, arms }),
                        node0 == node,
                        a0 == arms@,
                        n_arms == a0.len(),
                        j <= n_arms,
                        rest@ == a0.subrange(j as int, a0.len() as int),
                        st1 == (Counts { nb: st.nb, nl: st.nl + 1, ni: st.ni }),
                        fits(st, emit_size(t)),
                        le(arms_size(ats, j as nat), arms_size(ats, ats.len())),
                        blocks@.len() == at(st1, arms_size(ats, j as nat)).nb,
                        decls@.len() == at(st1, arms_size(ats, j as nat)).nl,
                        self.next_statement_id == at(st1, arms_size(ats, j as nat)).ni,
                        self.bool_ty == old(self).bool_ty,
                        self.discriminant_ty == old(self).discriminant_ty,
                        st == start_of(*old(self), old(blocks)@, old(decls)@),
                        forall|i: int| 0 <= i < old(blocks)@.len() ==> blocks@[i] == old(blocks)@[i],
                        forall|i: int| 0 <= i < old(decls)@.len() ==> decls@[i] == old(decls)@[i],
                        decls@[st.nl as int] == (LocalDecl { ty: self.discriminant_ty, name: None, span, mutability: Mutability::Mutable }),
                        discriminant.0 == st.nl,
                        values@ == arm_values(ats, j as nat, st1, continues_at.0 as nat),
                        arms_ok(ats, j as nat, st1, continues_at.0 as nat, span, env_of(*self, blocks@, decls@)),
                    decreases n_arms - j,
                {
                    let (variant, arm) = rest.remove(0);
                    proof {
                        assert((variant, arm) == a0[j as int]);
                        assert(tree_of(arm) == ats[j as int].1);
                        lemma_arms_size_mono(ats, (j + 1) as nat, ats.len());
                        assert(decreases_to!(node0 => node0->arms));
                        assert(decreases_to!(arms => arms@));
                        assert(decreases_to!(arms@ => arms@[j as int]));
                        assert(decreases_to!(arms@[j as int] => arms@[j as int].1));
                        assert(decreases_to!(node0 => arm));
                    }
                    let ghost env0 = env_of(*self, blocks@, decls@);
                    let e = self.emit(blocks, decls, arm, continues_at, span);
                    proof {
                        lemma_arms_frame(ats, j as nat, st1, continues_at.0 as nat, span, env0, env_of(*self, blocks@, decls@));
                    }
                    values.push((variant.index() as u128, e));
                    j = j + 1;
                }
                let written = Place::from_local(discriminant);
                assert(written.projections@ =~= Seq::<Projection>::empty());
                let read = self.statement(StatementKind::Assign(written, Rvalue::Discriminant(place)), span);
                let targets = SwitchTargets { values, otherwise: continues_at };
                let ghost env1 = env_of(*self, blocks@, decls@);
                let switched = Place::from_local(discriminant);
                assert(switched.projections@ =~= Seq::<Projection>::empty());
                let b = push_block(blocks, vec![read], TerminatorKind::SwitchInt { discr: Operand::Copy(switched), targets }, span);
                proof {
                    lemma_arms_frame(ats, ats.len(), st1, continues_at.0 as nat, span, env1, env_of(*self, blocks@, decls@));
                    assert(emit_ok(t, st, continues_at.0 as nat, span, env_of(*self, blocks@, decls@)));
                }
                b
            },
            DropNode::Flagged { flag, inner } => {
                let ghost it = tree_of(*inner);
                proof {
                    assert(decreases_to!(node0 => *inner));
                }
                let inner_entry = self.emit(blocks, decls, *inner, continues_at, span);
                let cleared = self.set_flag(flag, false, span);
                let ghost env1 = env_of(*self, blocks@, decls@);
                let arm = push_block(blocks, vec![cleared], TerminatorKind::Goto { target: inner_entry }, span);
                let vals = vec![(1u128, arm)];
                assert(vals@ =~= seq![(1u128, BasicBlock(arm.0))]);
                let targets = SwitchTargets { values: vals, otherwise: continues_at };
                let switched = Place::from_local(flag);
                assert(switched.projections@ =~= Seq::<Projection>::empty());
                let stmts: Vec<Statement> = Vec::new();
                let b = push_block(blocks, stmts, TerminatorKind::SwitchInt { discr: Operand::Copy(switched), targets }, span);
                proof {
                    lemma_emit_frame(it, st, continues_at.0 as nat, span, env1, env_of(*self, blocks@, decls@));
                    let env = env_of(*self, blocks@, decls@);
                    let s1 = at(st, emit_size(it));
                    assert(t == DropTree::Flagged(flag, Box::new(it)));
                    assert(emit_ok(it, st, continues_at.0 as nat, span, env));
                    assert(arm.0 == s1.nb);
                    let ab = env.blocks[s1.nb as int];
                    assert(ab.statements@.len() == 1);
                    assert(is_set_flag(ab.statements@[0], flag, false, s1.ni as int, span, env.bool_ty));
                    assert(ab.terminator.span == span);
                    assert(ab.terminator.kind matches TerminatorKind::Goto { target } && target.0 == emit_entry(it, st, continues_at.0 as nat));
                    let sw = env.blocks[s1.nb + 1 as int];
                    assert(bare_block(sw, span));
                    assert(emit_ok(t, st, continues_at.0 as nat, span, env_of(*self, blocks@, decls@)));
                }
                b
            },
        }
    }
}

// ---------------------------------------------------------------------------------------------
// Keeping the drop flags up to date
// ---------------------------------------------------------------------------------------------

/// The flags as plain values: each guarded register and its local.
pub open spec fn flags_view(flags: Seq<(Register, Local)>) -> Seq<((Local, Seq<SubRegisters>), Local)> {
    Seq::new(flags.len(), |i: int| (reg_view(flags[i].0), flags[i].1))
}

/// `outer` is `inner` or lies above it.
pub open spec fn covers_reg(outer: (Local, Seq<SubRegisters>), inner: (Local, Seq<SubRegisters>)) -> bool {
    outer.0 == inner.0 && is_prefix(outer.1, inner.1)
}

/// Whether flag register `f` is touched by `r`: overlapping it when moving (`kind` 0), lying
/// under it when initializing (`kind` 1), owned by its local when it comes into scope.
pub open spec fn selects(kind: nat, f: (Local, Seq<SubRegisters>), r: (Local, Seq<SubRegisters>)) -> bool {
    if kind == 0 {
        covers_reg(f, r) || covers_reg(r, f)
    } else if kind == 1 {
        covers_reg(r, f)
    } else {
        f.0 == r.0
    }
}

/// The flags among the first `n` that `r` touches, each set to `value`, in order.
pub open spec fn updates_where(flags: Seq<((Local, Seq<SubRegisters>), Local)>, r: (Local, Seq<SubRegisters>), kind: nat, value: bool, n: nat) -> Seq<(Local, bool)>
    decreases n,
{
    if n == 0 || n > flags.len() {
        Seq::empty()
    } else {
        updates_where(flags, r, kind, value, (n - 1) as nat) + if selects(kind, flags[n - 1].0, r) {
            seq![(flags[n - 1].1, value)]
        } else {
            Seq::empty()
        }
    }
}

/// Moving out of a place clears the flags of every register overlapping it.
pub open spec fn op_updates(op: Operand, flags: Seq<((Local, Seq<SubRegisters>), Local)>) -> Seq<(Local, bool)> {
    match op {
        Operand::Move(p) => updates_where(flags, place_reg(p), 0, false, flags.len()),
        _ => Seq::empty(),
    }
}

pub open spec fn ops_updates(ops: Seq<Operand>, flags: Seq<((Local, Seq<SubRegisters>), Local)>) -> Seq<(Local, bool)>
    decreases ops.len(),
{
    if ops.len() == 0 {
        Seq::empty()
    } else {
        ops_updates(ops.drop_last(), flags) + op_updates(ops.last(), flags)
    }
}

/// The flag updates after a statement: a local coming into scope owns nothing yet; an
/// assignment clears the flags of what its operands move, then sets those of every register
/// under the place it writes.
pub open spec fn stmt_updates(stmt: Statement, flags: Seq<((Local, Seq<SubRegisters>), Local)>) -> Seq<(Local, bool)> {
    match stmt.kind {
        StatementKind::StorageLive(l) => updates_where(flags, (l, Seq::<SubRegisters>::empty()), 2, false, flags.len()),
        StatementKind::Assign(p, rv) => ops_updates(rvalue_operands(rv), flags) + updates_where(flags, place_reg(p), 1, true, flags.len()),
        _ => Seq::empty(),
    }
}

/// The flag updates before a terminator: what its operands move, then, for a call, the
/// registers under its destination.
pub open spec fn term_updates(kind: TerminatorKind, flags: Seq<((Local, Seq<SubRegisters>), Local)>) -> Seq<(Local, bool)> {
    ops_updates(terminator_operands(kind), flags) + match kind {
        TerminatorKind::Call { destination, .. } => updates_where(flags, place_reg(destination), 1, true, flags.len()),
        _ => Seq::empty(),
    }
}

fn covers_exec(outer: &Register, inner: &Register) -> (b: bool)
    ensures
        b == covers_reg(reg_view(*outer), reg_view(*inner)),
{
    outer.owner == inner.owner && prefix_of(&outer.subregister, &inner.subregister)
}

/// Appends the updates of the flags `r` touches.
fn push_updates_where(flags: &Vec<(Register, Local)>, r: &Register, kind: u8, value: bool, out: &mut Vec<(Local, bool)>)
    requires
        kind <= 2,
    ensures
        final(out)@ == old(out)@ + updates_where(flags_view(flags@), reg_view(*r), kind as nat, value, flags@.len()),
{
    let ghost fv = flags_view(flags@);
    let ghost o0 = out@;
    let mut i: usize = 0;
    while i < flags.len()
        invariant
            kind <= 2,
            fv == flags_view(flags@),
            i <= flags@.len(),
            out@ == o0 + updates_where(fv, reg_view(*r), kind as nat, value, i as nat),
        decreases flags@.len() - i,
    {
        let register = &flags[i].0;
        let hit = if kind == 0 {
            covers_exec(register, r) || covers_exec(r, register)
        } else if kind == 1 {
            covers_exec(r, register)
        } else {
            register.owner == r.owner
        };
        assert(fv[i as int] == (reg_view(flags@[i as int].0), flags@[i as int].1));
        if hit {
            out.push((flags[i].1, value));
            assert(out@ =~= o0 + updates_where(fv, reg_view(*r), kind as nat, value, (i + 1) as nat));
        } else {
            assert(out@ =~= o0 + updates_where(fv, reg_view(*r), kind as nat, value, (i + 1) as nat));
        }
        i = i + 1;
    }
}

fn push_op_updates(op: &Operand, flags: &Vec<(Register, Local)>, out: &mut Vec<(Local, bool)>)
    ensures
        final(out)@ == old(out)@ + op_updates(*op, flags_view(flags@)),
{
    match op {
        Operand::Move(place) => {
            let r = register_of(place);
            push_updates_where(flags, &r, 0, false, out);
        },
        _ => {
            assert(out@ =~= old(out)@ + op_updates(*op, flags_view(flags@)));
        },
    }
}

fn push_ops_updates(ops: &Vec<&Operand>, flags: &Vec<(Register, Local)>, out: &mut Vec<(Local, bool)>)
    ensures
        final(out)@ == old(out)@ + ops_updates(ops@.map_values(|o: &Operand| *o), flags_view(flags@)),
{
    let ghost all = ops@.map_values(|o: &Operand| *o);
    let ghost o0 = out@;
    let mut i: usize = 0;
    assert(all.take(0) =~= Seq::<Operand>::empty());
    assert(out@ =~= o0 + ops_updates(all.take(0), flags_view(flags@)));
    while i < ops.len()
        invariant
            all == ops@.map_values(|o: &Operand| *o),
            i <= ops@.len(),
            out@ == o0 + ops_updates(all.take(i as int), flags_view(flags@)),
        decreases ops@.len() - i,
    {
        push_op_updates(ops[i], flags, out);
        proof {
            assert(all.take(i + 1).drop_last() =~= all.take(i as int));
            assert(all.take(i + 1).last() == *ops@[i as int]);
            assert(out@ =~= o0 + ops_updates(all.take(i + 1), flags_view(flags@)));
        }
        i = i + 1;
    }
    assert(all.take(ops@.len() as int) =~= all);
}

/// The flag updates after `statement`.
fn updates_for_statement(statement: &Statement, flags: &Vec<(Register, Local)>) -> (u: Vec<(Local, bool)>)
    ensures
        u@ == stmt_updates(*statement, flags_view(flags@)),
{
    let mut updates: Vec<(Local, bool)> = Vec::new();
    match &statement.kind {
        StatementKind::StorageLive(local) => {
            let r = Register { owner: *local, subregister: Vec::new() };
            assert(reg_view(r) == (*local, Seq::<SubRegisters>::empty()));
            push_updates_where(flags, &r, 2, false, &mut updates);
            assert(updates@ =~= stmt_updates(*statement, flags_view(flags@)));
        },
        StatementKind::Assign(place, rvalue) => {
            let ops = rvalue.operands();
            assert(ops@.map_values(|o: &Operand| *o) =~= rvalue_operands(*rvalue));
            push_ops_updates(&ops, flags, &mut updates);
            let r = register_of(place);
            push_updates_where(flags, &r, 1, true, &mut updates);
            assert(updates@ =~= stmt_updates(*statement, flags_view(flags@)));
        },
        _ => {
            assert(updates@ =~= stmt_updates(*statement, flags_view(flags@)));
        },
    }
    updates
}

/// The flag updates before `terminator`.
fn updates_for_terminator(terminator: &Terminator, flags: &Vec<(Register, Local)>) -> (u: Vec<(Local, bool)>)
    ensures
        u@ == term_updates(terminator.kind, flags_view(flags@)),
{
    let mut updates: Vec<(Local, bool)> = Vec::new();
    let ops = terminator.kind.operands();
    assert(ops@.map_values(|o: &Operand| *o) =~= terminator_operands(terminator.kind));
    push_ops_updates(&ops, flags, &mut updates);
    match &terminator.kind {
        TerminatorKind::Call { destination, .. } => {
            let r = register_of(destination);
            push_updates_where(flags, &r, 1, true, &mut updates);
        },
        _ => {},
    }
    assert(updates@ =~= term_updates(terminator.kind, flags_view(flags@)));
    updates
}

/// Each update is a statement setting its flag: consecutive ids from `ni`, at `span`.
pub open spec fn sets_flags(ss: Seq<Statement>, updates: Seq<(Local, bool)>, ni: nat, span: SrcSpan, bool_ty: Ty) -> bool {
    &&& ss.len() == updates.len()
    &&& forall|j: int| 0 <= j < ss.len() ==> is_set_flag(#[trigger] ss[j], updates[j].0, updates[j].1, ni + j, span, bool_ty)
}

impl Editor {
    /// Appends one flag-setting statement per update.
    fn push_flag_sets(&mut self, updates: &Vec<(Local, bool)>, span: SrcSpan, out: &mut Vec<Statement>)
        requires
            old(self).next_statement_id + updates@.len() <= u32::MAX,
        ensures
            final(out)@.len() == old(out)@.len() + updates@.len(),
            final(out)@.subrange(0, old(out)@.len() as int) == old(out)@,
            sets_flags(final(out)@.subrange(old(out)@.len() as int, final(out)@.len() as int), updates@, old(self).next_statement_id as nat, span, old(self).bool_ty),
            final(self).next_statement_id == old(self).next_statement_id + updates@.len(),
            final(self).bool_ty == old(self).bool_ty,
            final(self).discriminant_ty == old(self).discriminant_ty,
    {
        let ghost o0 = out@;
        let ghost n0 = self.next_statement_id as nat;
        let mut i: usize = 0;
        while i < updates.len()
            invariant
                i <= updates@.len(),
                self.next_statement_id == n0 + i,
                n0 + updates@.len() <= u32::MAX,
                self.bool_ty == old(self).bool_ty,
                self.discriminant_ty == old(self).discriminant_ty,
                out@.len() == o0.len() + i,
                out@.subrange(0, o0.len() as int) == o0,
                forall|j: int| 0 <= j < i ==> is_set_flag(#[trigger] out@[o0.len() + j], updates@[j].0, updates@[j].1, n0 + j, span, self.bool_ty),
            decreases updates@.len() - i,
        {
            let (flag, value) = updates[i];
            let st = self.set_flag(flag, value, span);
            out.push(st);
            assert(out@.subrange(0, o0.len() as int) =~= o0);
            i = i + 1;
        }
        let ghost tail = out@.subrange(o0.len() as int, out@.len() as int);
        assert forall|j: int| 0 <= j < tail.len() implies is_set_flag(#[trigger] tail[j], updates@[j].0, updates@[j].1, n0 + j, span, self.bool_ty) by {
            assert(tail[j] == out@[o0.len() + j]);
        }
    }
}

// ---------------------------------------------------------------------------------------------
// Rewriting a block
// ---------------------------------------------------------------------------------------------

/// The number of flag updates after the first `k` statements.
pub open spec fn upd_total(stmts: Seq<Statement>, flags: Seq<((Local, Seq<SubRegisters>), Local)>, k: nat) -> nat
    decreases k,
{
    if k == 0 || k > stmts.len() {
        0
    } else {
        upd_total(stmts, flags, (k - 1) as nat) + stmt_updates(stmts[k - 1], flags).len()
    }
}

/// Where statement `k` lands once the updates of the statements before it are interleaved.
pub open spec fn rw_pos(stmts: Seq<Statement>, flags: Seq<((Local, Seq<SubRegisters>), Local)>, k: nat) -> nat {
    k + upd_total(stmts, flags, k)
}

/// `ss` is `stmts` with each statement followed by its flag updates, then the terminator's,
/// the updates taking consecutive statement ids from `ni`.
pub open spec fn rewritten_ok(ss: Seq<Statement>, stmts: Seq<Statement>, term: Terminator, flags: Seq<((Local, Seq<SubRegisters>), Local)>, ni: nat, bool_ty: Ty) -> bool {
    let n = stmts.len();
    &&& ss.len() == rw_pos(stmts, flags, n) + term_updates(term.kind, flags).len()
    &&& forall|k: int| 0 <= k < n ==> ss[rw_pos(stmts, flags, k as nat) as int] == #[trigger] stmts[k]
        && sets_flags(
            ss.subrange(rw_pos(stmts, flags, k as nat) as int + 1, rw_pos(stmts, flags, (k + 1) as nat) as int),
            stmt_updates(stmts[k], flags),
            ni + upd_total(stmts, flags, k as nat),
            stmts[k].span,
            bool_ty,
        )
    &&& sets_flags(ss.subrange(rw_pos(stmts, flags, n) as int, ss.len() as int), term_updates(term.kind, flags), ni + upd_total(stmts, flags, n), term.span, bool_ty)
}

/// The planned insertions of a block with `n` statements: in increasing order of the point
/// they come before, each at most `n`.
pub open spec fn sorted_befores(ins: Seq<(nat, DropTree)>, n: nat) -> bool {
    &&& forall|j: int| 0 <= j < ins.len() ==> (#[trigger] ins[j]).0 <= n
    &&& forall|i: int, j: int| 0 <= i < j < ins.len() ==> (#[trigger] ins[i]).0 < (#[trigger] ins[j]).0
}

/// Where the block is cut for an insertion before point `before`.
pub open spec fn cut_at(before: nat, stmts: Seq<Statement>, flags: Seq<((Local, Seq<SubRegisters>), Local)>, ss_len: nat) -> nat {
    if before < stmts.len() {
        rw_pos(stmts, flags, before)
    } else {
        ss_len
    }
}

pub open spec fn cuts_of(ins: Seq<(nat, DropTree)>, stmts: Seq<Statement>, flags: Seq<((Local, Seq<SubRegisters>), Local)>, ss_len: nat) -> Seq<(nat, DropTree)> {
    Seq::new(ins.len(), |j: int| (cut_at(ins[j].0, stmts, flags, ss_len), ins[j].1))
}

pub open spec fn cuts_view(cuts: Seq<(usize, DropNode)>) -> Seq<(nat, DropTree)> {
    Seq::new(cuts.len(), |j: int| (cuts[j].0 as nat, tree_of(cuts[j].1)))
}

pub open spec fn cut_trees(cuts: Seq<(nat, DropTree)>) -> Seq<DropTree> {
    Seq::new(cuts.len(), |j: int| cuts[j].1)
}

/// Where splicing in the last `r` cuts' trees leaves off: each adds the block that continues
/// after it, then its tree.
pub open spec fn splice_state(trees: Seq<DropTree>, r: nat, st: Counts) -> Counts
    decreases r,
{
    if r == 0 || r > trees.len() {
        st
    } else {
        let s = splice_state(trees, (r - 1) as nat, st);
        at(Counts { nb: s.nb + 1, nl: s.nl, ni: s.ni }, emit_size(trees[trees.len() - r]))
    }
}

/// The entry of the tree of the `r`th cut from the end.
pub open spec fn splice_entry(trees: Seq<DropTree>, r: nat, st: Counts) -> nat {
    let s = splice_state(trees, (r - 1) as nat, st);
    emit_entry(trees[trees.len() - r], Counts { nb: s.nb + 1, nl: s.nl, ni: s.ni }, s.nb)
}

/// The last `r` cuts were spliced, last first: each cut's run of statements, up to the next
/// cut or the end, became a block that ends in the old terminator for the last cut and
/// otherwise jumps to the next cut's drops; the cut's tree was emitted to continue there.
pub open spec fn splice_ok(ss: Seq<Statement>, term: Terminator, cuts: Seq<(nat, DropTree)>, r: nat, st: Counts, env: EmitEnv) -> bool
    decreases r,
{
    if r == 0 || r > cuts.len() {
        true
    } else {
        let m = cuts.len();
        let j = m - r;
        let s = splice_state(cut_trees(cuts), (r - 1) as nat, st);
        let blk = env.blocks[s.nb as int];
        let end = if r == 1 { ss.len() as int } else { cuts[j + 1].0 as int };
        &&& splice_ok(ss, term, cuts, (r - 1) as nat, st, env)
        &&& blk.statements@ == ss.subrange(cuts[j].0 as int, end)
        &&& blk.terminator.span == term.span
        &&& if r == 1 {
            blk.terminator.kind == term.kind
        } else {
            blk.terminator.kind matches TerminatorKind::Goto { target } && target.0 == splice_entry(cut_trees(cuts), (r - 1) as nat, st)
        }
        &&& emit_ok(cuts[j].1, Counts { nb: s.nb + 1, nl: s.nl, ni: s.ni }, s.nb, term.span, env)
    }
}

/// Block `b` holds the statements before the first cut and jumps to the first cut's drops;
/// without cuts it is `ss` and the old terminator.
pub open spec fn spliced_ok(b: nat, ss: Seq<Statement>, term: Terminator, cuts: Seq<(nat, DropTree)>, st: Counts, env: EmitEnv) -> bool {
    let m = cuts.len();
    if m == 0 {
        env.blocks[b as int].statements@ == ss && env.blocks[b as int].terminator == term
    } else {
        &&& splice_ok(ss, term, cuts, m, st, env)
        &&& env.blocks[b as int].statements@ == ss.subrange(0, cuts[0].0 as int)
        &&& env.blocks[b as int].terminator.span == term.span
        &&& env.blocks[b as int].terminator.kind matches TerminatorKind::Goto { target } && target.0 == splice_entry(cut_trees(cuts), m, st)
    }
}

proof fn lemma_splice_state_mono(trees: Seq<DropTree>, r: nat, q: nat, st: Counts)
    requires
        r <= q <= trees.len(),
    ensures
        le(st, splice_state(trees, r, st)),
        le(splice_state(trees, r, st), splice_state(trees, q, st)),
    decreases q,
{
    if q > 0 {
        if r < q {
            lemma_splice_state_mono(trees, r, (q - 1) as nat, st);
        } else {
            lemma_splice_state_mono(trees, (q - 1) as nat, (q - 1) as nat, st);
        }
    }
}

proof fn lemma_splice_frame(ss: Seq<Statement>, term: Terminator, cuts: Seq<(nat, DropTree)>, r: nat, st: Counts, e1: EmitEnv, e2: EmitEnv)
    requires
        r <= cuts.len(),
        splice_ok(ss, term, cuts, r, st, e1),
        env_agree(e1, e2, st, splice_state(cut_trees(cuts), r, st)),
    ensures
        splice_ok(ss, term, cuts, r, st, e2),
    decreases r,
{
    if r > 0 {
        let trees = cut_trees(cuts);
        lemma_splice_state_mono(trees, (r - 1) as nat, r, st);
        lemma_splice_frame(ss, term, cuts, (r - 1) as nat, st, e1, e2);
        let s = splice_state(trees, (r - 1) as nat, st);
        let j = cuts.len() - r;
        assert(trees[trees.len() - r] == cuts[j].1);
        lemma_emit_frame(cuts[j].1, Counts { nb: s.nb + 1, nl: s.nl, ni: s.ni }, s.nb, term.span, e1, e2);
    }
}

proof fn lemma_upd_total_mono(stmts: Seq<Statement>, flags: Seq<((Local, Seq<SubRegisters>), Local)>, k: nat, q: nat)
    requires
        k <= q <= stmts.len(),
    ensures
        upd_total(stmts, flags, k) <= upd_total(stmts, flags, q),
        k < q ==> rw_pos(stmts, flags, k) < rw_pos(stmts, flags, q),
    decreases q,
{
    if k < q {
        lemma_upd_total_mono(stmts, flags, k, (q - 1) as nat);
    }
}

/// The cuts of sorted insertions are in order and inside the rewritten statements.
proof fn lemma_cuts_sorted(ins: Seq<(nat, DropTree)>, stmts: Seq<Statement>, flags: Seq<((Local, Seq<SubRegisters>), Local)>, ss_len: nat)
    requires
        sorted_befores(ins, stmts.len()),
        ss_len >= rw_pos(stmts, flags, stmts.len()),
    ensures
        forall|j: int| 0 <= j < ins.len() ==> (#[trigger] cuts_of(ins, stmts, flags, ss_len)[j]).0 <= ss_len,
        forall|i: int, j: int| 0 <= i < j < ins.len() ==> (#[trigger] cuts_of(ins, stmts, flags, ss_len)[i]).0 <= (#[trigger] cuts_of(ins, stmts, flags, ss_len)[j]).0,
{
    let c = cuts_of(ins, stmts, flags, ss_len);
    assert forall|j: int| 0 <= j < ins.len() implies (#[trigger] c[j]).0 <= ss_len by {
        if ins[j].0 < stmts.len() {
            lemma_upd_total_mono(stmts, flags, ins[j].0, stmts.len());
        }
    }
    assert forall|i: int, j: int| 0 <= i < j < ins.len() implies (#[trigger] c[i]).0 <= (#[trigger] c[j]).0 by {
        assert(ins[i].0 < ins[j].0);
        if ins[j].0 < stmts.len() {
            lemma_upd_total_mono(stmts, flags, ins[i].0, ins[j].0);
        } else if ins[i].0 < stmts.len() {
            lemma_upd_total_mono(stmts, flags, ins[i].0, stmts.len());
        }
    }
}

pub open spec fn ins_trees(ins: Seq<(nat, DropTree)>) -> Seq<DropTree> {
    Seq::new(ins.len(), |j: int| ins[j].1)
}

/// Where splicing a rewritten block starts: the flag updates have taken their ids.
pub open spec fn rewrite_start(data: BasicBlockData, flags: Seq<((Local, Seq<SubRegisters>), Local)>, st: Counts) -> Counts {
    Counts {
        nb: st.nb,
        nl: st.nl,
        ni: st.ni + upd_total(data.statements@, flags, data.statements@.len()) + term_updates(data.terminator.kind, flags).len(),
    }
}

/// Where rewriting a block with insertions `ins` from `st` leaves off.
pub open spec fn rewrite_end(data: BasicBlockData, ins: Seq<(nat, DropTree)>, flags: Seq<((Local, Seq<SubRegisters>), Local)>, st: Counts) -> Counts {
    splice_state(ins_trees(ins), ins.len(), rewrite_start(data, flags, st))
}

/// Block `b`, which held `data`, was rewritten from `st`: its statements with the flag
/// updates interleaved, cut before each insertion point, the drops emitted between.
#[verifier::opaque]
pub open spec fn rewrite_ok(b: nat, data: BasicBlockData, ins: Seq<(nat, DropTree)>, flags: Seq<((Local, Seq<SubRegisters>), Local)>, st: Counts, env: EmitEnv) -> bool {
    exists|ss: Seq<Statement>|
        rewritten_ok(ss, data.statements@, data.terminator, flags, st.ni, env.bool_ty) && spliced_ok(
            b,
            ss,
            data.terminator,
            cuts_of(ins, data.statements@, flags, ss.len()),
            rewrite_start(data, flags, st),
            env,
        )
}

/// A rewritten block reads only its own slot and what its rewriting added.
pub proof fn lemma_rewrite_frame(b: nat, data: BasicBlockData, ins: Seq<(nat, DropTree)>, flags: Seq<((Local, Seq<SubRegisters>), Local)>, st: Counts, e1: EmitEnv, e2: EmitEnv)
    requires
        rewrite_ok(b, data, ins, flags, st, e1),
        env_agree(e1, e2, st, rewrite_end(data, ins, flags, st)),
        b < e1.blocks.len(),
        b < e2.blocks.len(),
        e1.blocks[b as int] == e2.blocks[b as int],
    ensures
        rewrite_ok(b, data, ins, flags, st, e2),
{
    reveal(rewrite_ok);
    let ss = choose|ss: Seq<Statement>|
        rewritten_ok(ss, data.statements@, data.terminator, flags, st.ni, e1.bool_ty) && spliced_ok(
            b,
            ss,
            data.terminator,
            cuts_of(ins, data.statements@, flags, ss.len()),
            rewrite_start(data, flags, st),
            e1,
        );
    let cuts = cuts_of(ins, data.statements@, flags, ss.len());
    assert(cut_trees(cuts) =~= ins_trees(ins));
    if cuts.len() > 0 {
        lemma_splice_frame(ss, data.terminator, cuts, cuts.len(), rewrite_start(data, flags, st), e1, e2);
    }
    assert(spliced_ok(b, ss, data.terminator, cuts, rewrite_start(data, flags, st), e2));
}

/// The first `k` statements of `stmts` were rewritten into `ss`, updates taking ids from `n0`.
pub open spec fn prefix_rewritten(ss: Seq<Statement>, stmts: Seq<Statement>, fv: Seq<((Local, Seq<SubRegisters>), Local)>, k: nat, n0: nat, bool_ty: Ty) -> bool {
    forall|kk: int| 0 <= kk < k ==> ss[rw_pos(stmts, fv, kk as nat) as int] == #[trigger] stmts[kk]
        && sets_flags(
            ss.subrange(rw_pos(stmts, fv, kk as nat) as int + 1, rw_pos(stmts, fv, (kk + 1) as nat) as int),
            stmt_updates(stmts[kk], fv),
            n0 + upd_total(stmts, fv, kk as nat),
            stmts[kk].span,
            bool_ty,
        )
}

/// Appending one more statement and its updates extends the rewritten prefix.
proof fn lemma_rewritten_step(ss: Seq<Statement>, mid: Seq<Statement>, after: Seq<Statement>, stmts: Seq<Statement>, fv: Seq<((Local, Seq<SubRegisters>), Local)>, k: nat, n0: nat, bool_ty: Ty)
    requires
        k < stmts.len(),
        ss.len() == rw_pos(stmts, fv, k),
        prefix_rewritten(ss, stmts, fv, k, n0, bool_ty),
        mid == ss.push(stmts[k as int]),
        after.len() == mid.len() + stmt_updates(stmts[k as int], fv).len(),
        after.subrange(0, mid.len() as int) == mid,
        sets_flags(after.subrange(mid.len() as int, after.len() as int), stmt_updates(stmts[k as int], fv), n0 + upd_total(stmts, fv, k), stmts[k as int].span, bool_ty),
    ensures
        after.len() == rw_pos(stmts, fv, k + 1),
        prefix_rewritten(after, stmts, fv, k + 1, n0, bool_ty),
{
    let p = rw_pos(stmts, fv, k) as int;
    assert forall|i: int| 0 <= i < ss.len() implies #[trigger] after[i] == ss[i] by {
        assert(after.subrange(0, mid.len() as int)[i] == mid[i]);
    }
    assert(after[p] == stmts[k as int]) by {
        assert(after.subrange(0, mid.len() as int)[p] == mid[p]);
    }
    assert forall|kk: int| 0 <= kk < k + 1 implies after[rw_pos(stmts, fv, kk as nat) as int] == #[trigger] stmts[kk]
        && sets_flags(
            after.subrange(rw_pos(stmts, fv, kk as nat) as int + 1, rw_pos(stmts, fv, (kk + 1) as nat) as int),
            stmt_updates(stmts[kk], fv),
            n0 + upd_total(stmts, fv, kk as nat),
            stmts[kk].span,
            bool_ty,
        ) by {
        if kk < k {
            lemma_upd_total_mono(stmts, fv, (kk + 1) as nat, k);
            let q0 = rw_pos(stmts, fv, kk as nat) as int;
            let q1 = rw_pos(stmts, fv, (kk + 1) as nat) as int;
            assert(q1 <= ss.len());
            assert(after[q0] == ss[q0]);
            assert(after.subrange(q0 + 1, q1) =~= ss.subrange(q0 + 1, q1));
        } else {
            assert(after.subrange(p + 1, rw_pos(stmts, fv, k + 1) as int) =~= after.subrange(mid.len() as int, after.len() as int));
        }
    }
}

/// Appending the terminator's updates keeps the rewritten statements.
proof fn lemma_rewritten_frame(ss: Seq<Statement>, after: Seq<Statement>, stmts: Seq<Statement>, fv: Seq<((Local, Seq<SubRegisters>), Local)>, n0: nat, bool_ty: Ty)
    requires
        ss.len() == rw_pos(stmts, fv, stmts.len()),
        prefix_rewritten(ss, stmts, fv, stmts.len(), n0, bool_ty),
        after.len() >= ss.len(),
        after.subrange(0, ss.len() as int) == ss,
    ensures
        prefix_rewritten(after, stmts, fv, stmts.len(), n0, bool_ty),
{
    let n = stmts.len();
    assert forall|i: int| 0 <= i < ss.len() implies #[trigger] after[i] == ss[i] by {
        assert(after.subrange(0, ss.len() as int)[i] == ss[i]);
    }
    assert forall|kk: int| 0 <= kk < n implies after[rw_pos(stmts, fv, kk as nat) as int] == #[trigger] stmts[kk]
        && sets_flags(
            after.subrange(rw_pos(stmts, fv, kk as nat) as int + 1, rw_pos(stmts, fv, (kk + 1) as nat) as int),
            stmt_updates(stmts[kk], fv),
            n0 + upd_total(stmts, fv, kk as nat),
            stmts[kk].span,
            bool_ty,
        ) by {
        lemma_upd_total_mono(stmts, fv, (kk + 1) as nat, n);
        let q0 = rw_pos(stmts, fv, kk as nat) as int;
        let q1 = rw_pos(stmts, fv, (kk + 1) as nat) as int;
        assert(q1 <= ss.len());
        assert(after[q0] == ss[q0]);
        assert(after.subrange(q0 + 1, q1) =~= ss.subrange(q0 + 1, q1));
    }
}

/// Moves the first pending insertion into `cuts`, at `position`, when it comes before point `k`.
fn cut_if_here(pending: &mut Vec<Insertion>, cuts: &mut Vec<(usize, DropNode)>, k: usize, position: usize) -> (taken: bool)
    ensures
        taken == (old(pending)@.len() > 0 && old(pending)@[0].before == k),
        taken ==> final(pending)@ == old(pending)@.subrange(1, old(pending)@.len() as int)
            && final(cuts)@ == old(cuts)@.push((position, old(pending)@[0].tree)),
        !taken ==> final(pending)@ == old(pending)@ && final(cuts)@ == old(cuts)@,
{
    if pending.len() > 0 && pending[0].before == k {
        let insertion = pending.remove(0);
        cuts.push((position, insertion.tree));
        true
    } else {
        false
    }
}

impl Editor {
    /// Appends `statement` and the statements setting the flags it updates.
    fn rewrite_one(&mut self, statement: Statement, flags: &Vec<(Register, Local)>, ss: &mut Vec<Statement>)
        requires
            old(self).next_statement_id + stmt_updates(statement, flags_view(flags@)).len() <= u32::MAX,
        ensures
            final(ss)@.len() == old(ss)@.len() + 1 + stmt_updates(statement, flags_view(flags@)).len(),
            final(ss)@.subrange(0, old(ss)@.len() as int + 1) == old(ss)@.push(statement),
            sets_flags(
                final(ss)@.subrange(old(ss)@.len() as int + 1, final(ss)@.len() as int),
                stmt_updates(statement, flags_view(flags@)),
                old(self).next_statement_id as nat,
                statement.span,
                old(self).bool_ty,
            ),
            final(self).next_statement_id == old(self).next_statement_id + stmt_updates(statement, flags_view(flags@)).len(),
            final(self).bool_ty == old(self).bool_ty,
            final(self).discriminant_ty == old(self).discriminant_ty,
    {
        let span = statement.span;
        let updates = updates_for_statement(&statement, flags);
        ss.push(statement);
        self.push_flag_sets(&updates, span, ss);
    }
}

impl Editor {
    /// The block's statements with the flag updates interleaved, and where to cut it for each
    /// insertion.
    #[verifier::rlimit(100)]
    fn rewrite_statements(&mut self, statements: Vec<Statement>, terminator: &Terminator, insertions: Vec<Insertion>, flags: &Vec<(Register, Local)>) -> (r: (Vec<Statement>, Vec<(usize, DropNode)>))
        requires
            sorted_befores(insertions_view(insertions@), statements@.len()),
            old(self).next_statement_id + upd_total(statements@, flags_view(flags@), statements@.len())
                + term_updates(terminator.kind, flags_view(flags@)).len() <= u32::MAX,
        ensures
            rewritten_ok(r.0@, statements@, *terminator, flags_view(flags@), old(self).next_statement_id as nat, old(self).bool_ty),
            cuts_view(r.1@) == cuts_of(insertions_view(insertions@), statements@, flags_view(flags@), r.0@.len()),
            final(self).next_statement_id == old(self).next_statement_id + upd_total(statements@, flags_view(flags@), statements@.len())
                + term_updates(terminator.kind, flags_view(flags@)).len(),
            final(self).bool_ty == old(self).bool_ty,
            final(self).discriminant_ty == old(self).discriminant_ty,
    {
        let ghost stmts = statements@;
        let ghost fv = flags_view(flags@);
        let ghost ins0 = insertions@;
        let ghost ins = insertions_view(insertions@);
        let ghost n = stmts.len();
        let ghost n0 = self.next_statement_id as nat;
        let n_exec = statements.len();
        let mut rest = statements;
        let mut pending = insertions;
        let mut ss: Vec<Statement> = Vec::new();
        let mut cuts: Vec<(usize, DropNode)> = Vec::new();
        let mut k: usize = 0;
        let ghost mut c: nat = 0;
        proof {
            lemma_upd_total_mono(stmts, fv, 0, n);
            assert(cuts_view(cuts@) =~= Seq::new(c, |j: int| (rw_pos(stmts, fv, ins[j].0), ins[j].1)));
        }
        while k < n_exec
            invariant
                n_exec == n,
                n == stmts.len(),
                k <= n,
                ins == insertions_view(ins0),
                sorted_befores(ins, n),
                rest@ == stmts.subrange(k as int, n as int),
                ss@.len() == rw_pos(stmts, fv, k as nat),
                prefix_rewritten(ss@, stmts, fv, k as nat, n0, self.bool_ty),
                fv == flags_view(flags@),
                self.next_statement_id == n0 + upd_total(stmts, fv, k as nat),
                n0 + upd_total(stmts, fv, n) + term_updates(terminator.kind, fv).len() <= u32::MAX,
                self.bool_ty == old(self).bool_ty,
                self.discriminant_ty == old(self).discriminant_ty,
                c <= ins.len(),
                pending@ == ins0.subrange(c as int, ins0.len() as int),
                forall|j: int| 0 <= j < c ==> (#[trigger] ins[j]).0 < k,
                forall|j: int| c <= j < ins.len() ==> (#[trigger] ins[j]).0 >= k,
                cuts_view(cuts@) == Seq::new(c, |j: int| (rw_pos(stmts, fv, ins[j].0), ins[j].1)),
            decreases n - k,
        {
            let ghost cv0 = cuts_view(cuts@);
            let ghost p0 = pending@;
            let taken = cut_if_here(&mut pending, &mut cuts, k, ss.len());
            proof {
                if taken {
                    assert(p0[0] == ins0[c as int]);
                    assert(cuts_view(cuts@) =~= cv0.push((rw_pos(stmts, fv, ins[c as int].0), ins[c as int].1)));
                    c = c + 1;
                    assert(pending@ =~= ins0.subrange(c as int, ins0.len() as int));
                    assert(cuts_view(cuts@) =~= Seq::new(c, |j: int| (rw_pos(stmts, fv, ins[j].0), ins[j].1)));
                }
                if c < ins.len() {
                    assert(pending@[0] == ins0[c as int]);
                    assert(ins[c as int].0 != k);
                }
                lemma_upd_total_mono(stmts, fv, (k + 1) as nat, n);
            }
            let ghost before = ss@;
            let statement = rest.remove(0);
            assert(statement == stmts[k as int]);
            self.rewrite_one(statement, flags, &mut ss);
            proof {
                lemma_rewritten_step(before, before.push(stmts[k as int]), ss@, stmts, fv, k as nat, n0, self.bool_ty);
                assert(rest@ =~= stmts.subrange(k + 1, n as int));
            }
            k = k + 1;
        }
        let ghost mid = ss@;
        let updates = updates_for_terminator(terminator, flags);
        self.push_flag_sets(&updates, terminator.span, &mut ss);
        proof {
            lemma_rewritten_frame(mid, ss@, stmts, fv, n0, self.bool_ty);
        }
        if pending.len() > 0 {
            let ghost cv0 = cuts_view(cuts@);
            let last = pending.remove(0);
            assert(last == ins0[c as int]);
            cuts.push((ss.len(), last.tree));
            proof {
                assert(ins[c as int].0 == n);
                if c + 1 < ins.len() {
                    assert(ins[c as int].0 < ins[c + 1 as int].0);
                }
                assert(cuts_view(cuts@) =~= cv0.push((ss@.len() as nat, ins[c as int].1)));
                c = c + 1;
            }
        }
        proof {
            assert(c == ins.len());
            assert(cuts_view(cuts@) =~= cuts_of(ins, stmts, fv, ss@.len()));
        }
        (ss, cuts)
    }
}

impl Editor {
    /// Cuts `statements` at each cut, last first: the run after a cut becomes a new block,
    /// ending in `terminator` for the last run and otherwise jumping to the next cut's drops,
    /// and the cut's drops are emitted to continue there. Block `block` keeps the statements
    /// before the first cut and jumps to its drops.
    #[verifier::rlimit(40)]
    fn splice(&mut self, blocks: &mut Vec<BasicBlockData>, decls: &mut Vec<LocalDecl>, block: usize, statements: Vec<Statement>, terminator: Terminator, cuts: Vec<(usize, DropNode)>)
        requires
            block < old(blocks)@.len(),
            forall|j: int| 0 <= j < cuts@.len() ==> (#[trigger] cuts@[j]).0 <= statements@.len(),
            forall|i: int, j: int| 0 <= i < j < cuts@.len() ==> (#[trigger] cuts@[i]).0 <= (#[trigger] cuts@[j]).0,
            ({
                let end = splice_state(cut_trees(cuts_view(cuts@)), cuts@.len(), start_of(*old(self), old(blocks)@, old(decls)@));
                end.nb <= u32::MAX && end.nl <= u32::MAX && end.ni <= u32::MAX
            }),
        ensures
            ({
                let st = start_of(*old(self), old(blocks)@, old(decls)@);
                let end = splice_state(cut_trees(cuts_view(cuts@)), cuts@.len(), st);
                &&& final(blocks)@.len() == end.nb
                &&& final(decls)@.len() == end.nl
                &&& final(self).next_statement_id == end.ni
                &&& spliced_ok(block as nat, statements@, terminator, cuts_view(cuts@), st, env_of(*final(self), final(blocks)@, final(decls)@))
            }),
            forall|i: int| 0 <= i < old(blocks)@.len() && i != block ==> final(blocks)@[i] == old(blocks)@[i],
            forall|i: int| 0 <= i < old(decls)@.len() ==> final(decls)@[i] == old(decls)@[i],
            final(self).bool_ty == old(self).bool_ty,
            final(self).discriminant_ty == old(self).discriminant_ty,
    {
        let ghost st = start_of(*self, blocks@, decls@);
        let ghost cv = cuts_view(cuts@);
        let ghost trees = cut_trees(cv);
        let ghost ss = statements@;
        let ghost term = terminator;
        let ghost m = cuts@.len();
        let ghost cuts0 = cuts@;
        let span = terminator.span;
        if cuts.len() == 0 {
            blocks.set(block, BasicBlockData { statements, terminator });
            return;
        }
        proof {
            lemma_splice_state_mono(trees, 1, m, st);
            assert(splice_state(trees, 0, st) == st);
            assert(splice_state(trees, 1, st) == at(Counts { nb: st.nb + 1, nl: st.nl, ni: st.ni }, emit_size(trees[trees.len() - 1])));
        }
        let mut statements = statements;
        let mut cuts = cuts;
        let (position, tree) = cuts.pop().unwrap();
        assert((position, tree) == cuts0[m - 1]);
        let tail = statements.split_off(position);
        let continues_at = push_block(blocks, tail, terminator.kind, span);
        let ghost env0 = env_of(*self, blocks@, decls@);
        assert(trees[trees.len() - 1] == tree_of(tree));
        assert(cv[m - 1] == (position as nat, tree_of(tree)));
        let mut entry = self.emit(blocks, decls, tree, continues_at, span);
        let ghost mut r: nat = 1;
        proof {
            assert(blocks@[st.nb as int].statements@ == ss.subrange(cv[m - 1].0 as int, ss.len() as int));
            let env = env_of(*self, blocks@, decls@);
            assert(splice_ok(ss, term, cv, 0, st, env));
            assert(splice_state(cut_trees(cv), 0, st) == st);
            assert(cv.len() == m);
            let blk = env.blocks[st.nb as int];
            assert(blk.statements@ == ss.subrange(cv[m - 1].0 as int, ss.len() as int));
            assert(blk.terminator.span == term.span);
            assert(blk.terminator.kind == term.kind);
            assert(emit_ok(cv[m - 1].1, Counts { nb: st.nb + 1, nl: st.nl, ni: st.ni }, st.nb, term.span, env));
            assert(splice_ok(ss, term, cv, 1, st, env_of(*self, blocks@, decls@)));
        }
        while cuts.len() > 0
            invariant
                1 <= r <= m,
                m == cuts0.len(),
                cv == cuts_view(cuts0),
                trees == cut_trees(cv),
                cuts@ == cuts0.subrange(0, m - r),
                forall|j: int| 0 <= j < m ==> (#[trigger] cuts0[j]).0 <= ss.len(),
                forall|i: int, j: int| 0 <= i < j < m ==> (#[trigger] cuts0[i]).0 <= (#[trigger] cuts0[j]).0,
                statements@ == ss.subrange(0, cv[m - r].0 as int),
                span == term.span,
                block < st.nb,
                st == start_of(*old(self), old(blocks)@, old(decls)@),
                ({
                    let end = splice_state(trees, m, st);
                    end.nb <= u32::MAX && end.nl <= u32::MAX && end.ni <= u32::MAX
                }),
                le(splice_state(trees, r, st), splice_state(trees, m, st)),
                blocks@.len() == splice_state(trees, r, st).nb,
                decls@.len() == splice_state(trees, r, st).nl,
                self.next_statement_id == splice_state(trees, r, st).ni,
                self.bool_ty == old(self).bool_ty,
                self.discriminant_ty == old(self).discriminant_ty,
                forall|i: int| 0 <= i < old(blocks)@.len() ==> blocks@[i] == old(blocks)@[i],
                forall|i: int| 0 <= i < old(decls)@.len() ==> decls@[i] == old(decls)@[i],
                entry.0 == splice_entry(trees, r, st),
                splice_ok(ss, term, cv, r, st, env_of(*self, blocks@, decls@)),
            decreases cuts@.len(),
        {
            proof {
                lemma_splice_state_mono(trees, r + 1, m, st);
            }
            let (position, tree) = cuts.pop().unwrap();
            assert((position, tree) == cuts0[m - r - 1]);
            let run = statements.split_off(position);
            let ghost env1 = env_of(*self, blocks@, decls@);
            let continues_at = push_block(blocks, run, TerminatorKind::Goto { target: entry }, span);
            assert(trees[trees.len() - (r + 1)] == tree_of(tree));
            let ghost env2 = env_of(*self, blocks@, decls@);
            let ghost old_entry = entry;
            proof {
                let s = splice_state(trees, r, st);
                assert(splice_state(trees, r + 1, st) == at(Counts { nb: s.nb + 1, nl: s.nl, ni: s.ni }, emit_size(trees[trees.len() - (r + 1)])));
            }
            entry = self.emit(blocks, decls, tree, continues_at, span);
            proof {
                lemma_splice_state_mono(trees, r, r + 1, st);
                let env4 = env_of(*self, blocks@, decls@);
                lemma_splice_frame(ss, term, cv, r, st, env1, env4);
                let s = splice_state(trees, r, st);
                let j = m - (r + 1);
                assert(cv[j] == (position as nat, tree_of(tree)));
                assert(cv[j + 1].0 == cuts0[j + 1].0);
                assert(env4.blocks[s.nb as int] == env2.blocks[s.nb as int]);
                assert(env4.blocks[s.nb as int].statements@ == ss.subrange(cv[j].0 as int, cv[j + 1].0 as int));
                assert(old_entry.0 == splice_entry(trees, r, st));
                assert(entry.0 == splice_entry(trees, r + 1, st));
                assert(splice_ok(ss, term, cv, r + 1, st, env4));
                r = r + 1;
                assert(cuts@ =~= cuts0.subrange(0, m - r));
            }
        }
        let ghost env3 = env_of(*self, blocks@, decls@);
        blocks.set(block, BasicBlockData { statements, terminator: Terminator { kind: TerminatorKind::Goto { target: entry }, span } });
        proof {
            assert(r == m);
            lemma_splice_frame(ss, term, cv, m, st, env3, env_of(*self, blocks@, decls@));
        }
    }

    /// Rewrites block `block`: interleaves the flag updates and splices in the drops of each
    /// insertion.
    #[verifier::rlimit(60)]
    pub fn rewrite_block(&mut self, blocks: &mut Vec<BasicBlockData>, decls: &mut Vec<LocalDecl>, block: usize, insertions: Vec<Insertion>, flags: &Vec<(Register, Local)>, placeholder_span: SrcSpan)
        requires
            block < old(blocks)@.len(),
            sorted_befores(insertions_view(insertions@), old(blocks)@[block as int].statements@.len()),
            ({
                let end = rewrite_end(old(blocks)@[block as int], insertions_view(insertions@), flags_view(flags@), start_of(*old(self), old(blocks)@, old(decls)@));
                end.nb <= u32::MAX && end.nl <= u32::MAX && end.ni <= u32::MAX
            }),
        ensures
            ({
                let st = start_of(*old(self), old(blocks)@, old(decls)@);
                let end = rewrite_end(old(blocks)@[block as int], insertions_view(insertions@), flags_view(flags@), st);
                &&& final(blocks)@.len() == end.nb
                &&& final(decls)@.len() == end.nl
                &&& final(self).next_statement_id == end.ni
                &&& rewrite_ok(block as nat, old(blocks)@[block as int], insertions_view(insertions@), flags_view(flags@), st, env_of(*final(self), final(blocks)@, final(decls)@))
            }),
            forall|i: int| 0 <= i < old(blocks)@.len() && i != block ==> final(blocks)@[i] == old(blocks)@[i],
            forall|i: int| 0 <= i < old(decls)@.len() ==> final(decls)@[i] == old(decls)@[i],
            final(self).bool_ty == old(self).bool_ty,
            final(self).discriminant_ty == old(self).discriminant_ty,
    {
        let ghost st = start_of(*self, blocks@, decls@);
        let ghost data0 = blocks@[block as int];
        let ghost fv = flags_view(flags@);
        let ghost ins = insertions_view(insertions@);
        let mut data = BasicBlockData { statements: Vec::new(), terminator: Terminator { kind: TerminatorKind::Unreachable, span: placeholder_span } };
        blocks.set_and_swap(block, &mut data);
        assert(data == data0);
        let BasicBlockData { statements, terminator } = data;
        proof {
            let rs = rewrite_start(data0, fv, st);
            lemma_splice_state_mono(ins_trees(ins), 0, ins.len(), rs);
        }
        let (ss, cuts) = self.rewrite_statements(statements, &terminator, insertions, flags);
        proof {
            lemma_cuts_sorted(ins, data0.statements@, fv, ss@.len());
            assert(cut_trees(cuts_view(cuts@)) =~= ins_trees(ins));
            assert forall|j: int| 0 <= j < cuts@.len() implies (#[trigger] cuts@[j]).0 <= ss@.len() by {
                assert(cuts_view(cuts@)[j].0 == cuts@[j].0);
            }
            assert forall|i: int, j: int| 0 <= i < j < cuts@.len() implies (#[trigger] cuts@[i]).0 <= (#[trigger] cuts@[j]).0 by {
                assert(cuts_view(cuts@)[j].0 == cuts@[j].0);
                assert(cuts_view(cuts@)[i].0 == cuts@[i].0);
            }
        }
        let ghost ssv = ss@;
        let ghost cvv = cuts_view(cuts@);
        let ghost rs = start_of(*self, blocks@, decls@);
        assert(rs == rewrite_start(data0, fv, st));
        self.splice(blocks, decls, block, ss, terminator, cuts);
        proof {
            reveal(rewrite_ok);
            let env = env_of(*self, blocks@, decls@);
            assert(rewritten_ok(ssv, data0.statements@, data0.terminator, fv, st.ni, env.bool_ty));
            assert(cvv == cuts_of(ins, data0.statements@, fv, ssv.len()));
            assert(spliced_ok(block as nat, ssv, data0.terminator, cuts_of(ins, data0.statements@, fv, ssv.len()), rewrite_start(data0, fv, st), env));
        }
    }
}

pub proof fn lemma_splice_state_mono_pub(trees: Seq<DropTree>, r: nat, q: nat, st: Counts)
    requires
        r <= q <= trees.len(),
    ensures
        le(st, splice_state(trees, r, st)),
        le(splice_state(trees, r, st), splice_state(trees, q, st)),
{
    lemma_splice_state_mono(trees, r, q, st);
}

} // verus!
