use midend::ast::{Mutability, SrcSpan};
use midend::hir::DefId;
use midend::mir::body::{BasicBlockData, Body, BodyKind, LocalDecl};
use midend::mir::drop_elaboration::elaborate_body;
use midend::mir::ids::{BasicBlock, Local, StatementId, VariantIdx};
use midend::mir::operand::{ConstKind, Constant, Operand};
use midend::mir::place::{Place, Projection};
use midend::mir::rvalue::{AggregateKind, Rvalue};
use midend::mir::statement::{Statement, StatementKind};
use midend::mir::terminator::{SwitchTargets, Terminator, TerminatorKind};
use midend::nameres::res::PrimTy;
use midend::ast::BinaryOp;
use midend::typeck::{AdtFields, Ty, TyCtx, TyKind};

/// The types the fixtures use.
struct Types {
    tcx: TyCtx,
    unit: Ty,
    i32: Ty,
    bool: Ty,
    iso_i32: Ty,
    handle: Ty,
    pair: Ty,
    point: Ty,
    box_: Ty,
    handle_mut: Ty,
    iso_handle: Ty,
    closure: Ty,
    holder_ref: Ty,
}

const HANDLE: DefId = DefId(10);
const PAIR: DefId = DefId(11);
const POINT: DefId = DefId(12);
const BOX_: DefId = DefId(13);
const BUF: DefId = DefId(14);
const HOLDER: DefId = DefId(15);

fn types() -> Types {
    let mut tcx = TyCtx::new();
    let unit = tcx.mk(TyKind::Unit);
    let i32 = tcx.mk(TyKind::Primitive(PrimTy::I32));
    let bool = tcx.mk(TyKind::Primitive(PrimTy::Bool));
    let u8 = tcx.mk(TyKind::Primitive(PrimTy::U8));
    let iso_i32 = tcx.mk(TyKind::Iso(i32));
    let handle = tcx.mk(TyKind::Adt { def: HANDLE, args: Vec::new() });
    tcx.declare_adt(AdtFields { ty: handle, variants: vec![vec![iso_i32, i32]], is_enum: false });
    let pair = tcx.mk(TyKind::Adt { def: PAIR, args: Vec::new() });
    tcx.declare_adt(AdtFields { ty: pair, variants: vec![vec![iso_i32, iso_i32]], is_enum: false });
    let point = tcx.mk(TyKind::Adt { def: POINT, args: Vec::new() });
    tcx.declare_adt(AdtFields { ty: point, variants: vec![vec![i32, i32]], is_enum: false });
    let box_ = tcx.mk(TyKind::Adt { def: BOX_, args: Vec::new() });
    tcx.declare_adt(AdtFields { ty: box_, variants: vec![vec![iso_i32], Vec::new()], is_enum: true });
    let handle_mut = tcx.mk(TyKind::Ref { base: handle, mutability: Mutability::Mutable });
    let iso_handle = tcx.mk(TyKind::Iso(handle));
    let closure = tcx.mk(TyKind::Fun { params: Vec::new(), ret: Some(i32) });
    let bytes = tcx.mk(TyKind::Array { elem: u8, len: None });
    let iso_bytes = tcx.mk(TyKind::Iso(bytes));
    let buf = tcx.mk(TyKind::Adt { def: BUF, args: Vec::new() });
    tcx.declare_adt(AdtFields { ty: buf, variants: vec![vec![iso_bytes]], is_enum: false });
    let holder = tcx.mk(TyKind::Adt { def: HOLDER, args: Vec::new() });
    tcx.declare_adt(AdtFields { ty: holder, variants: vec![vec![buf], Vec::new()], is_enum: true });
    let holder_ref = tcx.mk(TyKind::Ref { base: holder, mutability: Mutability::Immutable });
    Types { tcx, unit, i32, bool, iso_i32, handle, pair, point, box_, handle_mut, iso_handle, closure, holder_ref }
}

/// Builds a body block by block; blocks are numbered in the order they are finished.
struct Builder {
    locals: Vec<LocalDecl>,
    blocks: Vec<BasicBlockData>,
    current: Vec<Statement>,
    params: usize,
    next_stmt: u32,
    next_span: u32,
}

impl Builder {
    fn new(ret: Ty) -> Builder {
        let mut b = Builder { locals: Vec::new(), blocks: Vec::new(), current: Vec::new(), params: 0, next_stmt: 0, next_span: 0 };
        b.local(ret);
        b
    }

    fn span(&mut self) -> SrcSpan {
        self.next_span += 1;
        SrcSpan::new(self.next_span, self.next_span + 1)
    }

    fn local(&mut self, ty: Ty) -> Local {
        let span = self.span();
        self.locals.push(LocalDecl { ty, name: None, span, mutability: Mutability::Mutable });
        Local((self.locals.len() - 1) as u32)
    }

    fn param(&mut self, ty: Ty) -> Local {
        self.params += 1;
        self.local(ty)
    }

    fn push(&mut self, kind: StatementKind) {
        let span = self.span();
        let id = StatementId(self.next_stmt);
        self.next_stmt += 1;
        self.current.push(Statement { id, kind, span });
    }

    fn live(&mut self, l: Local) {
        self.push(StatementKind::StorageLive(l));
    }

    fn dead(&mut self, l: Local) {
        self.push(StatementKind::StorageDead(l));
    }

    fn assign(&mut self, place: Place, rvalue: Rvalue) {
        self.push(StatementKind::Assign(place, rvalue));
    }

    /// `let <l> = <rvalue>;`
    fn let_(&mut self, ty: Ty, rvalue: Rvalue) -> Local {
        let l = self.local(ty);
        self.live(l);
        self.assign(p(l), rvalue);
        l
    }

    /// `new <v>` into a fresh temporary, which the caller moves out of.
    fn new_int(&mut self, ty: Ty, v: i128) -> Local {
        self.let_(ty, Rvalue::New(int_op(v)))
    }

    /// Calls a function with `args`, its result going to a fresh temporary; control goes on
    /// at the next block.
    fn call(&mut self, func: Operand, args: Vec<Operand>, ret: Ty) -> Local {
        let dest = self.local(ret);
        self.live(dest);
        let next = BasicBlock(self.blocks.len() as u32 + 1);
        self.terminate(TerminatorKind::Call { func, args, destination: p(dest), target: Some(next) });
        dest
    }

    fn terminate(&mut self, kind: TerminatorKind) {
        let span = self.span();
        let statements = std::mem::take(&mut self.current);
        self.blocks.push(BasicBlockData { statements, terminator: Terminator { kind, span } });
    }

    fn goto(&mut self, target: u32) {
        self.terminate(TerminatorKind::Goto { target: BasicBlock(target) });
    }

    fn switch_bool(&mut self, cond: Local, then_block: u32, else_block: u32) {
        self.terminate(TerminatorKind::SwitchInt {
            discr: Operand::Copy(p(cond)),
            targets: SwitchTargets { values: vec![(1, BasicBlock(then_block))], otherwise: BasicBlock(else_block) },
        });
    }

    /// `_0 = (); return`
    fn finish(mut self, unit_ty: Ty) -> Body {
        self.assign(p(Local(0)), Rvalue::Aggregate(Box::new(AggregateKind::Tuple), Vec::new()));
        let _ = unit_ty;
        self.terminate(TerminatorKind::Return);
        self.body()
    }

    /// Ends the body with the return value already written.
    fn finish_returning(mut self) -> Body {
        self.terminate(TerminatorKind::Return);
        self.body()
    }

    fn body(self) -> Body {
        Body {
            def_id: DefId(0),
            kind: BodyKind::Function,
            basic_blocks: self.blocks,
            local_decls: self.locals,
            param_count: self.params,
            generics: Vec::new(),
            span: SrcSpan::new(0, 0),
        }
    }
}

fn p(l: Local) -> Place {
    Place::from_local(l)
}

fn proj(mut place: Place, step: Projection) -> Place {
    place.projections.push(step);
    place
}

fn int_op(v: i128) -> Operand {
    Operand::Constant(Constant { ty: Ty(1), kind: ConstKind::Int(v) })
}

fn fun_op() -> Operand {
    int_op(0)
}

fn mv(l: Local) -> Operand {
    Operand::Move(p(l))
}

fn adt(def: DefId, variant: usize, ops: Vec<Operand>) -> Rvalue {
    Rvalue::Aggregate(Box::new(AggregateKind::Adt { def, variant: VariantIdx(variant as u32) }), ops)
}

fn elaborated(t: &Types, body: Body) -> Body {
    elaborate_body(&t.tcx, body, t.bool, t.i32)
}

/// A place as plain values, for comparing.
fn pv(place: &Place) -> (u32, Vec<Projection>) {
    (place.local.0, place.projections.clone())
}

fn pl(l: Local, projections: Vec<Projection>) -> (u32, Vec<Projection>) {
    (l.0, projections)
}

fn successors(kind: &TerminatorKind) -> Vec<BasicBlock> {
    kind.successors()
}

/// Every local a `Drop` names, walking from the start block along each terminator's first
/// successor.
fn linear_drop_order(body: &Body) -> Vec<Local> {
    let mut order = Vec::new();
    let mut current = BasicBlock(0);
    let mut visited = std::collections::HashSet::new();
    loop {
        if !visited.insert(current.0) {
            break;
        }
        let block = &body.basic_blocks[current.0 as usize];
        if let TerminatorKind::Drop { place, target } = &block.terminator.kind {
            order.push(place.local);
            current = *target;
            continue;
        }
        let succ = successors(&block.terminator.kind);
        let Some(next) = succ.first() else {
            break;
        };
        current = *next;
    }
    order
}

/// Whether a `Drop` of `local` goes straight to a block that starts with `local`'s
/// `StorageDead`.
fn drops_right_before_storage_dead(body: &Body, local: Local) -> bool {
    body.basic_blocks.iter().any(|block| {
        let TerminatorKind::Drop { place, target } = &block.terminator.kind else {
            return false;
        };
        if place.local != local {
            return false;
        }
        let target_block = &body.basic_blocks[target.0 as usize];
        matches!(target_block.statements.first().map(|s| &s.kind), Some(StatementKind::StorageDead(dead)) if *dead == local)
    })
}

/// Walks single successors from `current` until a `Drop` of `target_local` (its place) or a
/// block `resumes_at` accepts (`None`).
fn drop_place_before(body: &Body, mut current: BasicBlock, target_local: Local, resumes_at: impl Fn(&BasicBlockData) -> bool) -> Option<(u32, Vec<Projection>)> {
    loop {
        let block = &body.basic_blocks[current.0 as usize];
        if resumes_at(block) {
            return None;
        }
        if let TerminatorKind::Drop { place, .. } = &block.terminator.kind {
            if place.local == target_local {
                return Some(pv(place));
            }
        }
        let succ = successors(&block.terminator.kind);
        assert_eq!(succ.len(), 1, "expected a single successor before a resume point: {:?}", body);
        current = succ[0];
    }
}

fn drop_place_before_storage_dead(body: &Body, current: BasicBlock, target_local: Local) -> Option<(u32, Vec<Projection>)> {
    drop_place_before(body, current, target_local, |block| {
        block.statements.iter().any(|s| matches!(&s.kind, StatementKind::StorageDead(l) if *l == target_local))
    })
}

fn drop_place_before_reassignment(body: &Body, current: BasicBlock, target_local: Local) -> Option<(u32, Vec<Projection>)> {
    drop_place_before(body, current, target_local, |block| {
        matches!(block.statements.first().map(|s| &s.kind), Some(StatementKind::Assign(p, _)) if p.local == target_local && p.projections.is_empty())
    })
}

fn drops_right_before_reassignment(body: &Body, local: Local) -> bool {
    body.basic_blocks.iter().any(|block| {
        let TerminatorKind::Drop { place, target } = &block.terminator.kind else {
            return false;
        };
        if place.local != local {
            return false;
        }
        let target_block = &body.basic_blocks[target.0 as usize];
        matches!(target_block.statements.first().map(|s| &s.kind), Some(StatementKind::Assign(p, _)) if p.local == local && p.projections.is_empty())
    })
}

/// A local set from a literal `bool` somewhere: a drop flag.
fn is_bool_constant_flag_candidate(body: &Body, local: Local) -> bool {
    body.basic_blocks.iter().flat_map(|b| &b.statements).any(|s| {
        matches!(&s.kind, StatementKind::Assign(place, Rvalue::Use(Operand::Constant(c)))
            if place.local == local && place.projections.is_empty() && matches!(c.kind, ConstKind::Bool(_)))
    })
}

fn find_flag_switch(body: &Body) -> Option<&SwitchTargets> {
    let mut found = None;
    for block in body.basic_blocks.iter() {
        if let TerminatorKind::SwitchInt { discr, targets } = &block.terminator.kind {
            let discr_local = match discr {
                Operand::Copy(p) | Operand::Move(p) => p.local,
                Operand::Constant(_) => continue,
            };
            if is_bool_constant_flag_candidate(body, discr_local) {
                assert!(found.is_none(), "expected at most one drop-flag switch: {:?}", body);
                found = Some(targets);
            }
        }
    }
    found
}

fn flag_switch(body: &Body) -> &SwitchTargets {
    find_flag_switch(body).unwrap_or_else(|| panic!("expected a synthesized drop-flag switch, found none: {:?}", body))
}

fn partition_switch_arms(body: &Body, targets: &SwitchTargets, target_local: Local) -> (Vec<(u32, Vec<Projection>)>, usize) {
    let mut dropped = Vec::new();
    let mut skipped = 0;
    for target in targets.values.iter().map(|(_, t)| *t).chain([targets.otherwise]) {
        match drop_place_before_storage_dead(body, target, target_local) {
            Some(place) => dropped.push(place),
            None => skipped += 1,
        }
    }
    (dropped, skipped)
}

fn partition_switch_arms_before_reassignment(body: &Body, targets: &SwitchTargets, target_local: Local) -> (Vec<(u32, Vec<Projection>)>, usize) {
    let mut dropped = Vec::new();
    let mut skipped = 0;
    for target in targets.values.iter().map(|(_, t)| *t).chain([targets.otherwise]) {
        match drop_place_before_reassignment(body, target, target_local) {
            Some(place) => dropped.push(place),
            None => skipped += 1,
        }
    }
    (dropped, skipped)
}

fn find_switch_on(body: &Body, discr_local: Local) -> &SwitchTargets {
    body.basic_blocks
        .iter()
        .find_map(|block| match &block.terminator.kind {
            TerminatorKind::SwitchInt { discr, targets } => match discr {
                Operand::Copy(p) | Operand::Move(p) if p.local == discr_local => Some(targets),
                _ => None,
            },
            _ => None,
        })
        .unwrap_or_else(|| panic!("expected a SwitchInt reading {:?}: {:?}", discr_local, body))
}

fn shallow_freed_places(body: &Body) -> Vec<(u32, Vec<Projection>)> {
    body.basic_blocks
        .iter()
        .filter_map(|block| match &block.terminator.kind {
            TerminatorKind::DropIso { place, .. } => Some(pv(place)),
            _ => None,
        })
        .collect()
}

fn dropped_places(body: &Body) -> Vec<(u32, Vec<Projection>)> {
    body.basic_blocks
        .iter()
        .filter_map(|block| match &block.terminator.kind {
            TerminatorKind::Drop { place, .. } => Some(pv(place)),
            _ => None,
        })
        .collect()
}

fn flag_switch_count(body: &Body) -> usize {
    body.basic_blocks
        .iter()
        .filter(|block| match &block.terminator.kind {
            TerminatorKind::SwitchInt { discr, .. } => match discr {
                Operand::Copy(p) | Operand::Move(p) => is_bool_constant_flag_candidate(body, p.local),
                Operand::Constant(_) => false,
            },
            _ => false,
        })
        .count()
}

// ---------------------------------------------------------------------------------------------
// Fixtures
// ---------------------------------------------------------------------------------------------

/// `fun f() { let x = new 1; }`
fn owned_iso_local(t: &Types) -> (Body, Local) {
    let mut b = Builder::new(t.unit);
    let x = b.new_int(t.iso_i32, 1);
    b.dead(x);
    (b.finish(t.unit), x)
}

/// `fun f(cond: bool) { let x = new 1; if cond { consume(x); } }`
fn moved_on_one_arm(t: &Types) -> (Body, Local, Local) {
    let mut b = Builder::new(t.unit);
    let cond = b.param(t.bool);
    let x = b.new_int(t.iso_i32, 1);
    b.switch_bool(cond, 1, 2);
    // bb1: `consume(x)`, continuing at the join.
    b.call(fun_op(), vec![mv(x)], t.unit);
    // bb2: the join.
    b.dead(x);
    (b.finish(t.unit), cond, x)
}

#[test]
fn a_local_of_a_type_that_does_not_need_dropping_gets_no_drop_terminator() {
    let t = types();
    let mut b = Builder::new(t.unit);
    let x = b.let_(t.i32, Rvalue::Use(int_op(1)));
    b.dead(x);
    let body = elaborated(&t, b.finish(t.unit));
    assert!(linear_drop_order(&body).is_empty(), "a plain i32 local must not be dropped: {:?}", body);
}

#[test]
fn an_owned_iso_local_is_dropped_right_before_its_storage_dead() {
    let t = types();
    let (body, x) = owned_iso_local(&t);
    let body = elaborated(&t, body);
    assert_eq!(linear_drop_order(&body), vec![x], "`x` owns an `iso` value and is never moved: {:?}", body);
    assert!(drops_right_before_storage_dead(&body, x), "the drop must be spliced in immediately before `x`'s own StorageDead: {:?}", body);
}

#[test]
fn an_iso_local_moved_out_by_return_is_not_dropped() {
    // fun f() -> iso i32 { let x = new 1; return x; }
    let t = types();
    let mut b = Builder::new(t.iso_i32);
    let x = b.new_int(t.iso_i32, 1);
    b.assign(p(Local(0)), Rvalue::Use(mv(x)));
    b.dead(x);
    let body = elaborated(&t, b.finish_returning());
    assert!(linear_drop_order(&body).is_empty(), "`x` is moved into the return place: {:?}", body);
}

#[test]
fn two_iso_locals_are_dropped_in_the_reverse_of_their_declaration_order() {
    let t = types();
    let mut b = Builder::new(t.unit);
    let a = b.new_int(t.iso_i32, 1);
    let c = b.new_int(t.iso_i32, 2);
    b.dead(c);
    b.dead(a);
    let body = elaborated(&t, b.finish(t.unit));
    assert_eq!(linear_drop_order(&body), vec![c, a], "drops run in reverse declaration order: {:?}", body);
}

#[test]
fn an_iso_parameter_never_moved_is_dropped_at_function_exit() {
    // fun f(p: iso i32) { }
    let t = types();
    let mut b = Builder::new(t.unit);
    let param = b.param(t.iso_i32);
    let body = elaborated(&t, b.finish(t.unit));
    assert_eq!(linear_drop_order(&body), vec![param], "`f` never moves `p`, so it is dropped on return: {:?}", body);
}

#[test]
fn an_iso_parameter_moved_into_a_call_is_not_dropped_by_its_caller_scope() {
    // fun f(p: iso i32) { consume(p); }
    let t = types();
    let mut b = Builder::new(t.unit);
    let param = b.param(t.iso_i32);
    let r = b.call(fun_op(), vec![mv(param)], t.unit);
    b.dead(r);
    let body = elaborated(&t, b.finish(t.unit));
    assert!(linear_drop_order(&body).is_empty(), "`f` moves `p` into `consume`: {:?}", body);
}

#[test]
fn an_iso_local_moved_on_only_one_arm_of_a_plain_if_is_not_dropped_on_that_arm() {
    let t = types();
    let (body, cond, x) = moved_on_one_arm(&t);
    let body = elaborated(&t, body);
    let cond_targets = find_switch_on(&body, cond);
    let moved_arm = cond_targets.values.iter().find(|&&(value, _)| value == 1).map(|&(_, target)| target).expect("`if cond` switches on 1 for its then-arm");
    let not_moved_arm = cond_targets.otherwise;
    match find_flag_switch(&body) {
        Some(flag_targets) => {
            let (dropped, skipped) = partition_switch_arms(&body, flag_targets, x);
            assert_eq!(dropped, vec![pl(x, Vec::new())], "exactly one arm of the flag switch must drop `x`: {:?}", body);
            assert_eq!(skipped, 1, "the other arm must skip the drop: {:?}", body);
        },
        None => {
            assert_eq!(drop_place_before_storage_dead(&body, moved_arm, x), None, "the arm that moved `x` must never drop it: {:?}", body);
            assert_eq!(drop_place_before_storage_dead(&body, not_moved_arm, x), Some(pl(x, Vec::new())), "the arm that never moved `x` must still drop it: {:?}", body);
        },
    }
}

#[test]
fn an_iso_local_conditionally_moved_inside_a_loop_needs_a_real_drop_flag() {
    // fun f(n: i32) { let x = new 1; let mut i = 0; while i < n { if i == 0 { consume(x); } i = i + 1; } }
    let t = types();
    let mut b = Builder::new(t.unit);
    let n = b.param(t.i32);
    let x = b.new_int(t.iso_i32, 1);
    let i = b.let_(t.i32, Rvalue::Use(int_op(0)));
    b.goto(1);
    // bb1: the loop's head.
    let go_on = b.local(t.bool);
    b.assign(p(go_on), Rvalue::BinaryOp(BinaryOp::Lt, Operand::Copy(p(i)), Operand::Copy(p(n))));
    b.switch_bool(go_on, 2, 5);
    // bb2: `if i == 0`.
    let first = b.local(t.bool);
    b.assign(p(first), Rvalue::BinaryOp(BinaryOp::Eq, Operand::Copy(p(i)), int_op(0)));
    b.switch_bool(first, 3, 4);
    // bb3: `consume(x)`.
    let r = b.call(fun_op(), vec![mv(x)], t.unit);
    // bb4: `i = i + 1`, back to the head.
    b.dead(r);
    b.assign(p(i), Rvalue::BinaryOp(BinaryOp::Add, Operand::Copy(p(i)), int_op(1)));
    b.goto(1);
    // bb5: after the loop.
    b.dead(i);
    b.dead(x);
    let body = elaborated(&t, b.finish(t.unit));
    let targets = flag_switch(&body);
    let (dropped, skipped) = partition_switch_arms(&body, targets, x);
    assert_eq!(dropped, vec![pl(x, Vec::new())], "one arm must drop `x`, for when no iteration ran `consume`: {:?}", body);
    assert_eq!(skipped, 1, "the other arm must skip the drop, for when some iteration did: {:?}", body);
}

/// `let h = Handle { owned: new 1, tag: <tag> };`
fn let_handle(t: &Types, b: &mut Builder, tag: i128) -> Local {
    let owned = b.new_int(t.iso_i32, 1);
    let h = b.let_(t.handle, adt(HANDLE, 0, vec![mv(owned), int_op(tag)]));
    b.dead(owned);
    h
}

#[test]
fn dropping_a_struct_drops_only_the_field_that_needs_dropping() {
    let t = types();
    let mut b = Builder::new(t.unit);
    let h = let_handle(&t, &mut b, 0);
    b.dead(h);
    let body = elaborated(&t, b.finish(t.unit));
    assert_eq!(
        drop_place_before_storage_dead(&body, BasicBlock(0), h),
        Some(pl(h, vec![Projection::Field(0)])),
        "`Handle` needs no drop glue itself, but its `owned` field does: {:?}",
        body
    );
}

#[test]
fn a_struct_with_no_field_that_needs_dropping_is_never_dropped() {
    let t = types();
    let mut b = Builder::new(t.unit);
    let pt = b.let_(t.point, adt(POINT, 0, vec![int_op(1), int_op(2)]));
    b.dead(pt);
    let body = elaborated(&t, b.finish(t.unit));
    assert_eq!(drop_place_before_storage_dead(&body, BasicBlock(0), pt), None, "neither of `Point`'s fields needs dropping: {:?}", body);
}

#[test]
fn dropping_a_struct_with_two_owned_fields_drops_both() {
    let t = types();
    let mut b = Builder::new(t.unit);
    let a = b.new_int(t.iso_i32, 1);
    let c = b.new_int(t.iso_i32, 2);
    let pair = b.let_(t.pair, adt(PAIR, 0, vec![mv(a), mv(c)]));
    b.dead(c);
    b.dead(a);
    b.dead(pair);
    let body = elaborated(&t, b.finish(t.unit));
    let mut fields: Vec<u32> = body
        .basic_blocks
        .iter()
        .filter_map(|block| match &block.terminator.kind {
            TerminatorKind::Drop { place, .. } if place.local == pair => match place.projections[..] {
                [Projection::Field(n)] => Some(n),
                _ => None,
            },
            _ => None,
        })
        .collect();
    fields.sort();
    assert_eq!(fields, vec![0, 1], "both of `Pair`'s owned fields must be dropped individually: {:?}", body);
}

#[test]
fn dropping_an_enum_only_drops_the_field_of_whichever_variant_is_actually_active() {
    // fun f(cond: bool) { let b: Box_ = if cond { .present(new 1) } else { .absent }; }
    let t = types();
    let mut b = Builder::new(t.unit);
    let cond = b.param(t.bool);
    let bx = b.local(t.box_);
    b.live(bx);
    b.switch_bool(cond, 1, 2);
    let owned = b.new_int(t.iso_i32, 1);
    b.assign(p(bx), adt(BOX_, 0, vec![mv(owned)]));
    b.dead(owned);
    b.goto(3);
    b.assign(p(bx), adt(BOX_, 1, Vec::new()));
    b.goto(3);
    b.dead(bx);
    let body = elaborated(&t, b.finish(t.unit));
    let discr_temp = body
        .basic_blocks
        .iter()
        .flat_map(|block| &block.statements)
        .find_map(|s| match &s.kind {
            StatementKind::Assign(dest, Rvalue::Discriminant(place)) if place.local == bx => Some(dest.local),
            _ => None,
        })
        .unwrap_or_else(|| panic!("expected a discriminant read of `b` in {:?}", body));
    assert_ne!(discr_temp, cond, "the discriminant read must be of `b`");
    let targets = find_switch_on(&body, discr_temp);
    let (dropped, skipped) = partition_switch_arms(&body, targets, bx);
    assert_eq!(
        dropped,
        vec![pl(bx, vec![Projection::Downcast(VariantIdx(0)), Projection::Field(0)])],
        "only the `.present` arm owns a value, and only its payload is dropped: {:?}",
        body
    );
    assert_eq!(skipped, 1, "the `.absent` arm owns nothing: {:?}", body);
}

#[test]
fn reassigning_an_owned_iso_local_drops_the_old_value_first() {
    // fun f() { let mut x = new 1; x = new 2; }
    let t = types();
    let mut b = Builder::new(t.unit);
    let x = b.new_int(t.iso_i32, 1);
    b.push(StatementKind::CheckMutable(p(x)));
    b.assign(p(x), Rvalue::New(int_op(2)));
    b.dead(x);
    let body = elaborated(&t, b.finish(t.unit));
    assert!(drops_right_before_reassignment(&body, x), "the old value of `x` must be dropped right before `x = new 2`: {:?}", body);
}

#[test]
fn reassigning_after_an_unconditional_move_needs_no_drop() {
    // fun f() { let mut p = new 1; consume(p); p = new 2; }
    let t = types();
    let mut b = Builder::new(t.unit);
    let x = b.new_int(t.iso_i32, 1);
    let r = b.call(fun_op(), vec![mv(x)], t.unit);
    b.dead(r);
    b.push(StatementKind::CheckMutable(p(x)));
    b.assign(p(x), Rvalue::New(int_op(2)));
    b.dead(x);
    let body = elaborated(&t, b.finish(t.unit));
    assert!(!drops_right_before_reassignment(&body, x), "`p` was already moved before `p = new 2`: {:?}", body);
}

#[test]
fn reassigning_after_a_conditional_move_needs_a_drop_flag_at_the_reassignment_too() {
    // fun f(cond: bool) { let mut p = new 1; if cond { consume(p); } p = new 2; }
    let t = types();
    let mut b = Builder::new(t.unit);
    let cond = b.param(t.bool);
    let x = b.new_int(t.iso_i32, 1);
    b.switch_bool(cond, 1, 2);
    // bb1: `consume(p)`, continuing at the join.
    b.call(fun_op(), vec![mv(x)], t.unit);
    // bb2: the join and the reassignment.
    b.assign(p(x), Rvalue::New(int_op(2)));
    b.dead(x);
    let body = elaborated(&t, b.finish(t.unit));
    let cond_targets = find_switch_on(&body, cond);
    let moved_arm = cond_targets.values.iter().find(|&&(value, _)| value == 1).map(|&(_, target)| target).expect("then-arm");
    let not_moved_arm = cond_targets.otherwise;
    match find_flag_switch(&body) {
        Some(flag_targets) => {
            let (dropped, skipped) = partition_switch_arms_before_reassignment(&body, flag_targets, x);
            assert_eq!(dropped, vec![pl(x, Vec::new())], "exactly one arm must drop `p`'s old value: {:?}", body);
            assert_eq!(skipped, 1, "the other arm must skip that drop: {:?}", body);
        },
        None => {
            assert_eq!(drop_place_before_reassignment(&body, moved_arm, x), None, "{:?}", body);
            assert_eq!(drop_place_before_reassignment(&body, not_moved_arm, x), Some(pl(x, Vec::new())), "{:?}", body);
        },
    }
}

#[test]
fn reassigning_a_struct_drops_only_its_owned_field_first() {
    let t = types();
    let mut b = Builder::new(t.unit);
    let h = let_handle(&t, &mut b, 0);
    let owned = b.new_int(t.iso_i32, 2);
    b.assign(p(h), adt(HANDLE, 0, vec![mv(owned), int_op(1)]));
    b.dead(owned);
    b.dead(h);
    let body = elaborated(&t, b.finish(t.unit));
    assert!(drops_right_before_reassignment(&body, h), "`h`'s old `owned` field must be dropped before `h` is overwritten: {:?}", body);
}

#[test]
fn an_iso_whose_pointee_was_moved_out_has_only_its_allocation_released() {
    // let h = new Handle { owned: new 1, tag: 2 }; let inner = *h; let t = inner.tag;
    let t = types();
    let mut b = Builder::new(t.unit);
    let hv = let_handle(&t, &mut b, 2);
    let h = b.let_(t.iso_handle, Rvalue::New(mv(hv)));
    b.dead(hv);
    let inner = b.let_(t.handle, Rvalue::Use(Operand::Move(proj(p(h), Projection::Deref))));
    let tag = b.let_(t.i32, Rvalue::Use(Operand::Copy(proj(p(inner), Projection::Field(1)))));
    b.dead(tag);
    b.dead(inner);
    b.dead(h);
    let body = elaborated(&t, b.finish(t.unit));
    assert_eq!(shallow_freed_places(&body), vec![pl(h, Vec::new())], "`h` has only its allocation left to release: {:?}", body);
    assert!(!dropped_places(&body).contains(&pl(h, Vec::new())), "dropping `h` whole would drop a pointee `inner` owns: {:?}", body);
    assert!(dropped_places(&body).contains(&pl(inner, vec![Projection::Field(0)])), "the moved-out value is dropped through `inner`: {:?}", body);
}

#[test]
fn assigning_through_a_pointer_drops_the_old_value_it_pointed_at() {
    // fun f(p: &mut Handle) { *p = Handle { owned: new 2, tag: 3 }; }
    let t = types();
    let mut b = Builder::new(t.unit);
    let ptr = b.param(t.handle_mut);
    let owned = b.new_int(t.iso_i32, 2);
    b.assign(proj(p(ptr), Projection::Deref), adt(HANDLE, 0, vec![mv(owned), int_op(3)]));
    b.dead(owned);
    let body = elaborated(&t, b.finish(t.unit));
    assert!(
        dropped_places(&body).contains(&pl(ptr, vec![Projection::Deref, Projection::Field(0)])),
        "the `Handle` `p` pointed at owned an allocation: {:?}",
        body
    );
    assert!(!dropped_places(&body).contains(&pl(ptr, Vec::new())), "`p` itself is a borrow: {:?}", body);
}

#[test]
fn a_struct_and_one_of_its_fields_conditionally_moved_apart_need_a_flag_each() {
    // let h = Handle { .. }; if a { take(h); } else { if b { consume(h.owned); } }
    let t = types();
    let mut b = Builder::new(t.unit);
    let a = b.param(t.bool);
    let c = b.param(t.bool);
    let h = let_handle(&t, &mut b, 2);
    b.switch_bool(a, 1, 2);
    // bb1: take(h)
    let r1 = b.call(fun_op(), vec![mv(h)], t.unit);
    // bb2: after `take(h)`, on to the join.
    b.dead(r1);
    b.goto(5);
    // bb3: `if b`
    b.switch_bool(c, 4, 5);
    // bb4: consume(h.owned)
    let r2 = b.call(fun_op(), vec![Operand::Move(proj(p(h), Projection::Field(0)))], t.unit);
    // bb5: the join
    b.dead(r2);
    b.dead(h);
    let mut body = b.finish(t.unit);
    // The `else` arm of `if a` goes to `if b`.
    if let TerminatorKind::SwitchInt { targets, .. } = &mut body.basic_blocks[0].terminator.kind {
        targets.otherwise = BasicBlock(3);
    }
    let body = elaborated(&t, body);
    assert_eq!(flag_switch_count(&body), 2, "one flag for `h` and one for its `owned` field: {:?}", body);
    assert_eq!(dropped_places(&body), vec![pl(h, vec![Projection::Field(0)])], "`h`'s only droppable field is the one guarded drop: {:?}", body);
}

/// `let n = 1; let g = || n;`
fn let_closure(t: &Types, b: &mut Builder) -> Local {
    let n = b.let_(t.i32, Rvalue::Use(int_op(1)));
    let g = b.let_(t.closure, Rvalue::Aggregate(Box::new(AggregateKind::Closure { def: DefId(20), args: Vec::new() }), vec![Operand::Copy(p(n))]));
    let _ = n;
    g
}

#[test]
fn a_closure_value_is_dropped_at_the_end_of_its_scope() {
    // fun f() -> i32 { let n = 1; let g = || n; return g(); }
    let t = types();
    let mut b = Builder::new(t.i32);
    let g = let_closure(&t, &mut b);
    let r = b.call(Operand::Copy(p(g)), Vec::new(), t.i32);
    b.assign(p(Local(0)), Rvalue::Use(Operand::Copy(p(r))));
    b.dead(r);
    b.dead(g);
    let body = elaborated(&t, b.finish_returning());
    assert!(dropped_places(&body).contains(&pl(g, Vec::new())), "the closure value has to be dropped: {:?}", body);
}

#[test]
fn a_closure_value_moved_into_a_call_is_not_dropped_by_its_caller_scope() {
    // fun f() -> i32 { let n = 1; let g = || n; return call(g); }
    let t = types();
    let mut b = Builder::new(t.i32);
    let g = let_closure(&t, &mut b);
    let r = b.call(fun_op(), vec![mv(g)], t.i32);
    b.assign(p(Local(0)), Rvalue::Use(Operand::Copy(p(r))));
    b.dead(r);
    b.dead(g);
    let body = elaborated(&t, b.finish_returning());
    assert!(!dropped_places(&body).contains(&pl(g, Vec::new())), "`call` took ownership of the closure: {:?}", body);
}

#[test]
fn calling_a_closure_does_not_consume_it() {
    // fun f() -> i32 { let n = 1; let g = || n; let a = g(); return g(); }
    let t = types();
    let mut b = Builder::new(t.i32);
    let g = let_closure(&t, &mut b);
    let first = b.call(Operand::Copy(p(g)), Vec::new(), t.i32);
    let second = b.call(Operand::Copy(p(g)), Vec::new(), t.i32);
    b.assign(p(Local(0)), Rvalue::Use(Operand::Copy(p(second))));
    b.dead(second);
    b.dead(first);
    b.dead(g);
    let body = elaborated(&t, b.finish_returning());
    assert!(dropped_places(&body).contains(&pl(g, Vec::new())), "calling a closure reads it, so it is still there to drop: {:?}", body);
}

#[test]
fn a_reference_match_does_not_drop_the_value_it_borrows() {
    // fun is_full(h: &Holder) -> bool { return match h { .full(_) => true, .empty => false }; }
    let t = types();
    let mut b = Builder::new(t.bool);
    let h = b.param(t.holder_ref);
    let d = b.local(t.i32);
    b.assign(p(d), Rvalue::Discriminant(proj(p(h), Projection::Deref)));
    b.terminate(TerminatorKind::SwitchInt {
        discr: Operand::Copy(p(d)),
        targets: SwitchTargets { values: vec![(0, BasicBlock(1))], otherwise: BasicBlock(2) },
    });
    b.assign(p(Local(0)), Rvalue::Use(Operand::Constant(Constant { ty: t.bool, kind: ConstKind::Bool(true) })));
    b.goto(3);
    b.assign(p(Local(0)), Rvalue::Use(Operand::Constant(Constant { ty: t.bool, kind: ConstKind::Bool(false) })));
    b.goto(3);
    let body = elaborated(&t, b.finish_returning());
    assert!(!body.basic_blocks.iter().any(|bb| matches!(bb.terminator.kind, TerminatorKind::Drop { .. })), "a match through a reference drops nothing: {:?}", body);
}
