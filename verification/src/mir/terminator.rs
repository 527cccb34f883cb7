//! Terminators: the one instruction that ends a basic block and names where control goes next.

use vstd::prelude::*;
use crate::ast::{BinaryOp, SrcSpan};
use crate::mir::ids::BasicBlock;
use crate::mir::operand::Operand;
use crate::mir::place::Place;

verus! {

#[derive(Clone, Debug)]
pub struct Terminator {
    pub kind: TerminatorKind,
    pub span: SrcSpan,
}

#[derive(Clone, Debug)]
pub enum TerminatorKind {
    Goto { target: BasicBlock },
    Return,
    SwitchInt { discr: Operand, targets: SwitchTargets },
    Call {
        func: Operand,
        args: Vec<Operand>,
        destination: Place,
        /// `None` for a call that never returns, such as the runtime's panic.
        target: Option<BasicBlock>,
    },
    Drop { place: Place, target: BasicBlock },
    /// Releases the allocation an `iso` place owns without dropping what it points at, which
    /// something else owns by now.
    DropIso { place: Place, target: BasicBlock },
    Assert { cond: Operand, expected: bool, msg: AssertMessage, target: BasicBlock },
    Unreachable,
}

/// The arms of a `SwitchInt`: the block for each listed value, and the block for any other.
#[derive(Clone, Debug)]
pub struct SwitchTargets {
    pub values: Vec<(u128, BasicBlock)>,
    pub otherwise: BasicBlock,
}

#[derive(Clone, Debug)]
pub enum AssertMessage {
    Overflow(BinaryOp, Operand, Operand),
    DivisionByZero(Operand),
    RemainderByZero(Operand),
    BoundsCheck { len: Operand, index: Operand },
}

/// Every target of a switch: the listed values' blocks in order, then `otherwise`.
pub open spec fn switch_targets(t: SwitchTargets) -> Seq<BasicBlock> {
    Seq::new(t.values@.len(), |i: int| t.values@[i].1).push(t.otherwise)
}

/// The blocks control may continue to after `kind`, in order.
pub open spec fn successors_of(kind: TerminatorKind) -> Seq<BasicBlock> {
    match kind {
        TerminatorKind::Goto { target } => seq![target],
        TerminatorKind::Drop { target, .. } => seq![target],
        TerminatorKind::DropIso { target, .. } => seq![target],
        TerminatorKind::Assert { target, .. } => seq![target],
        TerminatorKind::Call { target, .. } => match target {
            Some(t) => seq![t],
            None => Seq::empty(),
        },
        TerminatorKind::SwitchInt { targets, .. } => switch_targets(targets),
        TerminatorKind::Return => Seq::empty(),
        TerminatorKind::Unreachable => Seq::empty(),
    }
}

/// The operands a terminator reads, in order.
pub open spec fn terminator_operands(kind: TerminatorKind) -> Seq<Operand> {
    match kind {
        TerminatorKind::SwitchInt { discr, .. } => seq![discr],
        TerminatorKind::Assert { cond, .. } => seq![cond],
        TerminatorKind::Call { func, args, .. } => seq![func] + args@,
        _ => Seq::empty(),
    }
}

impl SwitchTargets {
    pub fn all_targets(&self) -> (r: Vec<BasicBlock>)
        ensures
            r@ == switch_targets(*self),
    {
        let mut r: Vec<BasicBlock> = Vec::new();
        let mut i: usize = 0;
        while i < self.values.len()
            invariant
                i <= self.values@.len(),
                r@ == Seq::new(i as nat, |j: int| self.values@[j].1),
            decreases self.values@.len() - i,
        {
            r.push(self.values[i].1);
            i = i + 1;
            assert(r@ =~= Seq::new(i as nat, |j: int| self.values@[j].1));
        }
        r.push(self.otherwise);
        assert(r@ =~= switch_targets(*self));
        r
    }
}

impl TerminatorKind {
    pub fn successors(&self) -> (r: Vec<BasicBlock>)
        ensures
            r@ == successors_of(*self),
    {
        match self {
            TerminatorKind::Goto { target } => vec![*target],
            TerminatorKind::Drop { target, .. } => vec![*target],
            TerminatorKind::DropIso { target, .. } => vec![*target],
            TerminatorKind::Assert { target, .. } => vec![*target],
            TerminatorKind::Call { target, .. } => match target {
                Some(t) => vec![*t],
                None => Vec::new(),
            },
            TerminatorKind::SwitchInt { targets, .. } => targets.all_targets(),
            TerminatorKind::Return | TerminatorKind::Unreachable => Vec::new(),
        }
    }

    /// The operands this terminator reads, in order.
    pub fn operands(&self) -> (ops: Vec<&Operand>)
        ensures
            ops@.len() == terminator_operands(*self).len(),
            forall|i: int| 0 <= i < ops@.len() ==> *ops@[i] == terminator_operands(*self)[i],
    {
        let mut v: Vec<&Operand> = Vec::new();
        match self {
            TerminatorKind::SwitchInt { discr, .. } => {
                v.push(discr);
            },
            TerminatorKind::Assert { cond, .. } => {
                v.push(cond);
            },
            TerminatorKind::Call { func, args, .. } => {
                v.push(func);
                let mut i: usize = 0;
                while i < args.len()
                    invariant
                        i <= args@.len(),
                        v@.len() == i + 1,
                        *v@[0] == *func,
                        forall|j: int| 0 <= j < i ==> *v@[j + 1] == args@[j],
                    decreases args@.len() - i,
                {
                    v.push(&args[i]);
                    i = i + 1;
                }
            },
            _ => {},
        }
        v
    }
}

impl Terminator {
    pub fn successors(&self) -> (r: Vec<BasicBlock>)
        ensures
            r@ == successors_of(self.kind),
    {
        self.kind.successors()
    }
}

} // verus!
