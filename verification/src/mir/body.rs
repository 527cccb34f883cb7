//! A lowered body: its basic blocks, its locals, and the control-flow graph between the blocks.

use smallvec::SmallVec;
use vstd::prelude::*;
use crate::ast::{Ident, Mutability, SrcSpan};
use crate::hir::{DefId, HirId};
use crate::mir::ids::BasicBlock;
use crate::mir::statement::Statement;
use crate::mir::terminator::{successors_of, Terminator};
use crate::typeck::Ty;

verus! {

/// What a `Body` is the lowered code of.
#[derive(Clone, Copy, Debug, PartialEq, Eq, Structural)]
pub enum BodyKind {
    Function,
    Closure,
}

#[derive(Clone, Debug)]
pub struct LocalDecl {
    pub ty: Ty,
    /// The source name of a user-written local; `None` for a compiler-introduced temporary.
    pub name: Option<Ident>,
    pub span: SrcSpan,
    /// `Immutable` only for a plain `let` binding; parameters, temporaries and every other
    /// binding are `Mutable`.
    pub mutability: Mutability,
}

/// A run of statements ending in exactly one terminator.
#[derive(Clone, Debug)]
pub struct BasicBlockData {
    pub statements: Vec<Statement>,
    pub terminator: Terminator,
}

#[derive(Clone, Debug)]
pub struct Body {
    pub def_id: DefId,
    pub kind: BodyKind,
    pub basic_blocks: Vec<BasicBlockData>,
    /// Slot `0` is the return place, `1..=param_count` the parameters in declared order, and
    /// every later slot a `let` binding or a temporary.
    pub local_decls: Vec<LocalDecl>,
    pub param_count: usize,
    /// The generic parameters an instance's argument list zips against, in order.
    pub generics: Vec<HirId>,
    pub span: SrcSpan,
}

/// The successors of block `b` of `blocks`.
pub open spec fn block_successors(blocks: Seq<BasicBlockData>, b: int) -> Seq<BasicBlock> {
    successors_of(blocks[b].terminator.kind)
}

/// `from`, once for each entry of `succ` that is `b`.
pub open spec fn edges_into(succ: Seq<BasicBlock>, b: BasicBlock, from: BasicBlock) -> Seq<BasicBlock>
    decreases succ.len(),
{
    if succ.len() == 0 {
        Seq::empty()
    } else {
        edges_into(succ.drop_last(), b, from) + if succ.last() == b {
            seq![from]
        } else {
            Seq::empty()
        }
    }
}

/// The predecessors of `b` among the first `n` blocks: each block in order, once per edge.
pub open spec fn preds_among(blocks: Seq<BasicBlockData>, n: int, b: BasicBlock) -> Seq<BasicBlock>
    decreases n,
{
    if n <= 0 {
        Seq::empty()
    } else {
        preds_among(blocks, n - 1, b) + edges_into(block_successors(blocks, n - 1), b, BasicBlock((n - 1) as u32))
    }
}

/// The number of edges leaving the first `n` blocks.
pub open spec fn edge_count(blocks: Seq<BasicBlockData>, n: int) -> int
    decreases n,
{
    if n <= 0 {
        0
    } else {
        edge_count(blocks, n - 1) + block_successors(blocks, n - 1).len()
    }
}

impl Body {
    /// Every terminator targets a block of this body, and block ids fit their `u32`.
    pub open spec fn targets_in_range(&self) -> bool {
        &&& self.basic_blocks@.len() <= u32::MAX
        &&& forall|b: int, k: int|
            0 <= b < self.basic_blocks@.len() && 0 <= k < block_successors(self.basic_blocks@, b).len()
                ==> (#[trigger] block_successors(self.basic_blocks@, b)[k]).0 < self.basic_blocks@.len()
    }

    pub fn successors(&self, block: BasicBlock) -> (r: Vec<BasicBlock>)
        requires
            block.0 < self.basic_blocks@.len(),
        ensures
            r@ == block_successors(self.basic_blocks@, block.0 as int),
    {
        self.basic_blocks[block.index()].terminator.successors()
    }

    /// For each block, the blocks with an edge into it: in block order, once per edge.
    pub fn predecessors(&self) -> (p: Predecessors)
        requires
            self.targets_in_range(),
            edge_count(self.basic_blocks@, self.basic_blocks@.len() as int) < usize::MAX,
        ensures
            p.len() == self.basic_blocks@.len(),
            forall|b: int|
                0 <= b < self.basic_blocks@.len() ==> #[trigger] p.preds(b) == preds_among(
                    self.basic_blocks@,
                    self.basic_blocks@.len() as int,
                    BasicBlock(b as u32),
                ),
    {
        let n = self.basic_blocks.len();
        let ghost blocks = self.basic_blocks@;
        let mut lists: Vec<BlockList> = Vec::new();
        let mut i: usize = 0;
        while i < n
            invariant
                n == blocks.len(),
                i <= n,
                lists@.len() == i,
                forall|b: int| 0 <= b < i ==> block_items(#[trigger] lists@[b]) == Seq::<BasicBlock>::empty(),
            decreases n - i,
        {
            lists.push(block_list_new());
            i = i + 1;
        }
        let mut index: usize = 0;
        while index < n
            invariant
                n == blocks.len(),
                blocks == self.basic_blocks@,
                self.targets_in_range(),
                edge_count(blocks, n as int) < usize::MAX,
                index <= n,
                lists@.len() == n,
                forall|b: int|
                    0 <= b < n ==> block_items(#[trigger] lists@[b]) == preds_among(blocks, index as int, BasicBlock(b as u32)),
            decreases n - index,
        {
            let from = BasicBlock::from_usize(index);
            let targets = self.basic_blocks[index].terminator.successors();
            let ghost succ = block_successors(blocks, index as int);
            let mut j: usize = 0;
            while j < targets.len()
                invariant
                    n == blocks.len(),
                    blocks == self.basic_blocks@,
                    self.targets_in_range(),
                    edge_count(blocks, n as int) < usize::MAX,
                    index < n,
                    from.0 == index,
                    targets@ == succ,
                    succ == block_successors(blocks, index as int),
                    j <= targets@.len(),
                    lists@.len() == n,
                    forall|b: int|
                        0 <= b < n ==> block_items(#[trigger] lists@[b]) == preds_among(blocks, index as int, BasicBlock(b as u32))
                            + edges_into(succ.take(j as int), BasicBlock(b as u32), from),
                decreases targets@.len() - j,
            {
                let t = targets[j];
                assert(t.0 < n);
                let ghost before = lists@;
                proof {
                    lemma_preds_len(blocks, index as int, t);
                    lemma_edges_into_len(succ.take(j as int), t, from);
                    lemma_edge_count_mono(blocks, index as int + 1, n as int);
                    assert(succ.take(j as int).len() <= succ.len());
                }
                let mut list = block_list_new();
                std::mem::swap(&mut list, &mut lists[t.index()]);
                block_list_push(&mut list, from);
                lists.set(t.index(), list);
                proof {
                    assert forall|b: int| 0 <= b < n implies block_items(#[trigger] lists@[b]) == preds_among(
                        blocks,
                        index as int,
                        BasicBlock(b as u32),
                    ) + edges_into(succ.take(j + 1), BasicBlock(b as u32), from) by {
                        assert(succ.take(j + 1).drop_last() =~= succ.take(j as int));
                        assert(succ.take(j + 1).last() == t);
                        if b != t.0 {
                            assert(lists@[b] == before[b]);
                            assert(BasicBlock(b as u32) != t);
                        } else {
                            assert(BasicBlock(b as u32) == t);
                        }
                    }
                }
                j = j + 1;
            }
            proof {
                assert(succ.take(succ.len() as int) =~= succ);
            }
            index = index + 1;
        }
        Predecessors(lists)
    }
}

proof fn lemma_edges_into_len(succ: Seq<BasicBlock>, b: BasicBlock, from: BasicBlock)
    ensures
        edges_into(succ, b, from).len() <= succ.len(),
    decreases succ.len(),
{
    if succ.len() > 0 {
        lemma_edges_into_len(succ.drop_last(), b, from);
    }
}

proof fn lemma_preds_len(blocks: Seq<BasicBlockData>, n: int, b: BasicBlock)
    ensures
        preds_among(blocks, n, b).len() <= edge_count(blocks, n),
    decreases n,
{
    if n > 0 {
        lemma_preds_len(blocks, n - 1, b);
        lemma_edges_into_len(block_successors(blocks, n - 1), b, BasicBlock((n - 1) as u32));
    }
}

proof fn lemma_edge_count_mono(blocks: Seq<BasicBlockData>, m: int, n: int)
    requires
        m <= n,
    ensures
        edge_count(blocks, m) <= edge_count(blocks, n),
    decreases n - m,
{
    if m < n {
        lemma_edge_count_mono(blocks, m, n - 1);
    }
}

/// Whether `s` lists block `v`.
pub open spec fn lists_block(s: Seq<BasicBlock>, v: int) -> bool {
    exists|k: int| 0 <= k < s.len() && (#[trigger] s[k]).0 == v
}

/// Block `a` is a predecessor of block `c` exactly when `c` is a successor of `a`.
pub proof fn law_predecessor_iff_successor(blocks: Seq<BasicBlockData>, a: int, c: int)
    requires
        blocks.len() <= u32::MAX,
        0 <= a < blocks.len(),
        0 <= c <= u32::MAX,
    ensures
        lists_block(preds_among(blocks, blocks.len() as int, BasicBlock(c as u32)), a) <==> lists_block(block_successors(blocks, a), c),
{
    lemma_preds_listing(blocks, blocks.len() as int, BasicBlock(c as u32), a);
}

proof fn lemma_edges_listing(succ: Seq<BasicBlock>, b: BasicBlock, from: BasicBlock)
    ensures
        edges_into(succ, b, from).len() > 0 <==> lists_block(succ, b.0 as int),
        forall|k: int| 0 <= k < edges_into(succ, b, from).len() ==> #[trigger] edges_into(succ, b, from)[k] == from,
    decreases succ.len(),
{
    if succ.len() > 0 {
        let prev = succ.drop_last();
        lemma_edges_listing(prev, b, from);
        let tail: Seq<BasicBlock> = if succ.last() == b { seq![from] } else { Seq::empty() };
        assert(edges_into(succ, b, from) == edges_into(prev, b, from) + tail);
        if lists_block(prev, b.0 as int) {
            let k = choose|k: int| 0 <= k < prev.len() && (#[trigger] prev[k]).0 == b.0;
            assert(succ[k] == prev[k]);
        }
        if lists_block(succ, b.0 as int) {
            let k = choose|k: int| 0 <= k < succ.len() && (#[trigger] succ[k]).0 == b.0;
            if k < prev.len() {
                assert(prev[k] == succ[k]);
            } else {
                assert(succ.last() == b);
            }
        }
        assert forall|k: int| 0 <= k < edges_into(succ, b, from).len() implies #[trigger] edges_into(succ, b, from)[k] == from by {
            if k >= edges_into(prev, b, from).len() {
                assert(edges_into(succ, b, from)[k] == tail[k - edges_into(prev, b, from).len()]);
            }
        }
    }
}

proof fn lemma_preds_listing(blocks: Seq<BasicBlockData>, m: int, c: BasicBlock, a: int)
    requires
        m <= u32::MAX,
        m <= blocks.len(),
        0 <= a,
    ensures
        lists_block(preds_among(blocks, m, c), a) <==> (a < m && lists_block(block_successors(blocks, a), c.0 as int)),
    decreases m,
{
    if m > 0 {
        lemma_preds_listing(blocks, m - 1, c, a);
        let prev = preds_among(blocks, m - 1, c);
        let from = BasicBlock((m - 1) as u32);
        let e = edges_into(block_successors(blocks, m - 1), c, from);
        lemma_edges_listing(block_successors(blocks, m - 1), c, from);
        assert(preds_among(blocks, m, c) == prev + e);
        let all = prev + e;
        if lists_block(all, a) {
            let k = choose|k: int| 0 <= k < all.len() && (#[trigger] all[k]).0 == a;
            if k < prev.len() {
                assert(all[k] == prev[k]);
            } else {
                assert(all[k] == e[k - prev.len()]);
            }
        }
        if lists_block(prev, a) {
            let k = choose|k: int| 0 <= k < prev.len() && (#[trigger] prev[k]).0 == a;
            assert(all[k] == prev[k]);
        }
        if a == m - 1 && lists_block(block_successors(blocks, a), c.0 as int) {
            assert(all[prev.len() as int] == e[0]);
        }
    }
}

/// The predecessors of one block, kept inline for the usual few.
#[verifier::external_body]
pub struct BlockList {
    inner: SmallVec<[BasicBlock; 4]>,
}

/// What a [`BlockList`] holds, in order.
pub uninterp spec fn block_items(list: BlockList) -> Seq<BasicBlock>;

/// An empty list: `SmallVec::new`.
#[verifier::external_body]
fn block_list_new() -> (list: BlockList)
    ensures
        block_items(list) == Seq::<BasicBlock>::empty(),
{
    BlockList { inner: SmallVec::new() }
}

/// Appends one block: `SmallVec::push`, which panics only when the length would overflow.
#[verifier::external_body]
fn block_list_push(list: &mut BlockList, block: BasicBlock)
    requires
        block_items(*old(list)).len() < usize::MAX,
    ensures
        block_items(*final(list)) == block_items(*old(list)).push(block),
{
    list.inner.push(block)
}

/// The blocks as a slice: `SmallVec::as_slice`.
#[verifier::external_body]
fn block_list_slice(list: &BlockList) -> (s: &[BasicBlock])
    ensures
        s@ == block_items(*list),
{
    list.inner.as_slice()
}

/// Each block's predecessors, indexed by block.
pub struct Predecessors(Vec<BlockList>);

impl Predecessors {
    pub closed spec fn len(&self) -> nat {
        self.0@.len()
    }

    /// The predecessors of block `b`.
    pub closed spec fn preds(&self, b: int) -> Seq<BasicBlock> {
        block_items(self.0@[b])
    }

    pub fn of(&self, block: BasicBlock) -> (s: &[BasicBlock])
        requires
            block.0 < self.len(),
        ensures
            s@ == self.preds(block.0 as int),
    {
        block_list_slice(&self.0[block.index()])
    }
}

} // verus!
