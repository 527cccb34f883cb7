use midend::ast::{Ident, Mutability, SrcSpan};
use midend::diag::Diagnostic;
use midend::hir::DefId;
use midend::mir::body::{BasicBlockData, Body, BodyKind, LocalDecl};
use midend::mir::def_infos::collect_def_infos;
use midend::mir::def_names::collect_def_names;
use midend::mir::ids::{BasicBlock, Local, StatementId};
use midend::mir::lower::Mir;
use midend::mir::operand::{ConstKind, Constant, Operand};
use midend::mir::place::{Place, Projection};
use midend::mir::rvalue::{AggregateKind, Rvalue};
use midend::mir::statement::{Statement, StatementKind};
use midend::mir::terminator::{SwitchTargets, Terminator, TerminatorKind};
use midend::session::Session;
use midend::typeck::Ty;

/// Builds one lowered body statement by statement, the way lowering would emit it.
struct FnBuilder {
    session: Session,
    locals: Vec<LocalDecl>,
    blocks: Vec<BasicBlockData>,
    current: Vec<Statement>,
    param_count: usize,
    next_stmt: u32,
    next_span: u32,
}

impl FnBuilder {
    fn new() -> FnBuilder {
        let mut b = FnBuilder {
            session: Session::new(),
            locals: Vec::new(),
            blocks: Vec::new(),
            current: Vec::new(),
            param_count: 0,
            next_stmt: 0,
            next_span: 0,
        };
        b.decl(None, Mutability::Mutable, Ty(0));
        b
    }

    fn span(&mut self) -> SrcSpan {
        self.next_span += 1;
        SrcSpan::new(self.next_span, self.next_span + 1)
    }

    fn decl(&mut self, name: Option<&str>, mutability: Mutability, ty: Ty) -> Local {
        let span = self.span();
        let name = name.map(|n| Ident { text: self.session.intern(n), span });
        self.locals.push(LocalDecl { ty, name, span, mutability });
        Local((self.locals.len() - 1) as u32)
    }

    /// A parameter: named, and never restricted by `mut`.
    fn param(&mut self, name: &str) -> Local {
        let l = self.decl(Some(name), Mutability::Mutable, Ty(0));
        self.param_count += 1;
        l
    }

    /// A `let` binding, `let mut` when `mutable`.
    fn let_(&mut self, name: &str, mutable: bool) -> Local {
        let m = if mutable { Mutability::Mutable } else { Mutability::Immutable };
        self.decl(Some(name), m, Ty(0))
    }

    /// A binding that is not a `let` (a `for`, `match` arm or `with` binding).
    fn binding(&mut self, name: &str) -> Local {
        self.decl(Some(name), Mutability::Mutable, Ty(0))
    }

    fn temp(&mut self) -> Local {
        self.decl(None, Mutability::Mutable, Ty(0))
    }

    fn push(&mut self, kind: StatementKind) {
        let span = self.span();
        let id = StatementId(self.next_stmt);
        self.next_stmt += 1;
        self.current.push(Statement { id, kind, span });
    }

    fn live(&mut self, l: Local) {
        self.push(StatementKind::StorageLive(l));
    }

    fn dead(&mut self, l: Local) {
        self.push(StatementKind::StorageDead(l));
    }

    fn assign(&mut self, place: Place, rvalue: Rvalue) {
        self.push(StatementKind::Assign(place, rvalue));
    }

    fn check_mut(&mut self, place: Place) {
        self.push(StatementKind::CheckMutable(place));
    }

    fn mention(&mut self, place: Place) {
        self.push(StatementKind::PlaceMention(place));
    }

    /// Ends the current block with `kind`; the next statements go to a new block.
    fn terminate(&mut self, kind: TerminatorKind) {
        let span = self.span();
        let statements = std::mem::take(&mut self.current);
        self.blocks.push(BasicBlockData { statements, terminator: Terminator { kind, span } });
    }

    /// The id the block after the one being built will get.
    fn next_block(&self, ahead: u32) -> BasicBlock {
        BasicBlock(self.blocks.len() as u32 + ahead)
    }

    /// Ends the block being built, which every terminator leaves open, with a return.
    fn finish(mut self) -> (Session, Body) {
        self.terminate(TerminatorKind::Return);
        let body = Body {
            def_id: DefId(0),
            kind: BodyKind::Function,
            basic_blocks: self.blocks,
            local_decls: self.locals,
            param_count: self.param_count,
            generics: Vec::new(),
            span: SrcSpan::new(0, 0),
        };
        (self.session, body)
    }
}

fn p(l: Local) -> Place {
    Place::from_local(l)
}

fn proj(mut place: Place, step: Projection) -> Place {
    place.projections.push(step);
    place
}

fn field(place: Place, n: u32) -> Place {
    proj(place, Projection::Field(n))
}

fn deref(place: Place) -> Place {
    proj(place, Projection::Deref)
}

fn int_op(v: i128) -> Operand {
    Operand::Constant(Constant { ty: Ty(0), kind: ConstKind::Int(v) })
}

fn use_int(v: i128) -> Rvalue {
    Rvalue::Use(int_op(v))
}

fn copy(place: Place) -> Operand {
    Operand::Copy(place)
}

fn mov(place: Place) -> Operand {
    Operand::Move(place)
}

fn ref_mut(place: Place) -> Rvalue {
    Rvalue::Ref { mutability: Mutability::Mutable, place }
}

fn ref_shared(place: Place) -> Rvalue {
    Rvalue::Ref { mutability: Mutability::Immutable, place }
}

fn program(body: Body) -> Mir {
    let hir = midend::hir::Hir { defs: Vec::new(), parents: Vec::new() };
    let session = Session::new();
    Mir {
        bodies: vec![((DefId(0), None), body)],
        vtables: Vec::new(),
        def_infos: collect_def_infos(&hir),
        def_names: collect_def_names(&session, &hir),
        main: None,
    }
}

fn messages(diags: &[Diagnostic]) -> Vec<String> {
    diags.iter().map(|d| d.message.clone()).collect()
}

// ---------------------------------------------------------------------------------------------
// The constness check
// ---------------------------------------------------------------------------------------------

/// Which of the two constness-check entry points a test runs.
#[derive(Clone, Copy)]
enum Pass {
    Pipeline,
    Standalone,
}

fn constck(pass: Pass, built: (Session, Body)) -> Vec<String> {
    let (session, body) = built;
    let mir = program(body);
    let diags = match pass {
        Pass::Pipeline => midend::mir::checks::constck::check(&session, &mir),
        Pass::Standalone => midend::mir::constck::check(&session, &mir),
    };
    messages(&diags)
}

fn constck_accepts(pass: Pass, built: (Session, Body)) {
    let found = constck(pass, built);
    assert!(found.is_empty(), "expected no diagnostic, got {found:?}");
}

fn constck_rejects(pass: Pass, built: (Session, Body), expected: &str) {
    let found = constck(pass, built);
    assert!(found.iter().any(|m| m == expected), "expected {expected:?}, got {found:?}");
}

/// `fun f() { let [mut] a = 1; a = 2; }`
fn reassign_let(mutable: bool) -> (Session, Body) {
    let mut f = FnBuilder::new();
    let a = f.let_("a", mutable);
    f.live(a);
    f.assign(p(a), use_int(1));
    f.check_mut(p(a));
    f.assign(p(a), use_int(2));
    f.dead(a);
    f.finish()
}

/// `fun f(o: Outer) { let [mut] p = o; p.inner.fst = 1; }`
fn field_chain_write(mutable: bool) -> (Session, Body) {
    let mut f = FnBuilder::new();
    let o = f.param("o");
    let pl = f.let_("p", mutable);
    f.live(pl);
    f.assign(p(pl), Rvalue::Use(mov(p(o))));
    let target = field(field(p(pl), 0), 0);
    f.check_mut(target.clone());
    f.assign(target, use_int(1));
    f.dead(pl);
    f.finish()
}

/// `fun f(a: [i32; 4]) { let [mut] arr = a; arr[0] = 1; }`
fn index_write(mutable: bool) -> (Session, Body) {
    let mut f = FnBuilder::new();
    let a = f.param("a");
    let arr = f.let_("arr", mutable);
    f.live(arr);
    f.assign(p(arr), Rvalue::Use(mov(p(a))));
    let i = f.temp();
    f.live(i);
    f.assign(p(i), use_int(0));
    let target = proj(p(arr), Projection::Index(i));
    f.check_mut(target.clone());
    f.assign(target, use_int(1));
    f.dead(i);
    f.dead(arr);
    f.finish()
}

/// `fun f(o: &mut Outer) { let r = o; r.inner.fst = 1; }`
fn write_through_reference() -> (Session, Body) {
    let mut f = FnBuilder::new();
    let o = f.param("o");
    let r = f.let_("r", false);
    f.live(r);
    f.assign(p(r), Rvalue::Use(mov(p(o))));
    let target = field(field(deref(p(r)), 0), 0);
    f.check_mut(target.clone());
    f.assign(target, use_int(1));
    f.dead(r);
    f.finish()
}

/// `fun f() { let [mut] (a, b) = (1, 2); <writes> }`, writing `a = 3` and/or `b = 4`.
fn tuple_let(mutable: bool, write_a: bool, write_b: bool) -> (Session, Body) {
    let mut f = FnBuilder::new();
    let t = f.temp();
    let a = f.let_("a", mutable);
    let b = f.let_("b", mutable);
    f.live(t);
    f.assign(p(t), Rvalue::Aggregate(Box::new(AggregateKind::Tuple), vec![int_op(1), int_op(2)]));
    f.live(a);
    f.assign(p(a), Rvalue::Use(copy(field(p(t), 0))));
    f.live(b);
    f.assign(p(b), Rvalue::Use(copy(field(p(t), 1))));
    if write_a {
        f.check_mut(p(a));
        f.assign(p(a), use_int(3));
    }
    if write_b {
        f.check_mut(p(b));
        f.assign(p(b), use_int(4));
    }
    f.dead(b);
    f.dead(a);
    f.dead(t);
    f.finish()
}

/// A binding introduced by something other than a `let`, then assigned to.
fn non_let_binding_write() -> (Session, Body) {
    let mut f = FnBuilder::new();
    let x = f.binding("x");
    f.live(x);
    f.assign(p(x), use_int(0));
    f.check_mut(p(x));
    f.assign(p(x), use_int(1));
    f.dead(x);
    f.finish()
}

/// `fun f(x: i32) { x = 5; }`
fn param_write() -> (Session, Body) {
    let mut f = FnBuilder::new();
    let x = f.param("x");
    f.check_mut(p(x));
    f.assign(p(x), use_int(5));
    f.finish()
}

/// `fun f(x: i32) -> &mut i32 { return &mut x; }`
fn param_borrow() -> (Session, Body) {
    let mut f = FnBuilder::new();
    let x = f.param("x");
    f.check_mut(p(x));
    f.assign(p(Local(0)), ref_mut(p(x)));
    f.finish()
}

/// `extend Counter { fun bump(&mut self) { self.n = self.n + 1; } }`
fn self_field_write() -> (Session, Body) {
    let mut f = FnBuilder::new();
    let this = f.param("self");
    let target = field(deref(p(this)), 0);
    let sum = f.temp();
    f.live(sum);
    f.assign(p(sum), Rvalue::BinaryOp(midend::ast::BinaryOp::Add, copy(target.clone()), int_op(1)));
    f.check_mut(target.clone());
    f.assign(target, Rvalue::Use(mov(p(sum))));
    f.dead(sum);
    f.finish()
}

/// `fun f() { let [mut] a = 1; let r = &mut a; let _ = r; }`
fn mutable_borrow_of_let(mutable: bool) -> (Session, Body) {
    let mut f = FnBuilder::new();
    let a = f.let_("a", mutable);
    let r = f.let_("r", false);
    f.live(a);
    f.assign(p(a), use_int(1));
    f.live(r);
    f.check_mut(p(a));
    f.assign(p(r), ref_mut(p(a)));
    f.mention(p(r));
    f.dead(r);
    f.dead(a);
    f.finish()
}

/// `fun f() { let [mut] a = 1; a += 1; }`
fn compound_assign(mutable: bool) -> (Session, Body) {
    let mut f = FnBuilder::new();
    let a = f.let_("a", mutable);
    f.live(a);
    f.assign(p(a), use_int(1));
    let sum = f.temp();
    f.live(sum);
    f.assign(p(sum), Rvalue::BinaryOp(midend::ast::BinaryOp::Add, copy(p(a)), int_op(1)));
    f.check_mut(p(a));
    f.assign(p(a), Rvalue::Use(mov(p(sum))));
    f.dead(sum);
    f.dead(a);
    f.finish()
}

/// A method call whose receiver is auto-referenced: `recv.bump()` for `&mut self` (with its
/// `CheckMutable`) or `recv.peek()` for `&self`.
fn method_call(f: &mut FnBuilder, receiver: Place, mutable_self: bool) {
    let autoref = f.temp();
    f.live(autoref);
    if mutable_self {
        f.check_mut(receiver.clone());
        f.assign(p(autoref), ref_mut(receiver));
    } else {
        f.assign(p(autoref), ref_shared(receiver));
    }
    let result = f.temp();
    let next = f.next_block(1);
    f.terminate(TerminatorKind::Call {
        func: int_op(0),
        args: vec![mov(p(autoref))],
        destination: p(result),
        target: Some(next),
    });
    f.dead(autoref);
}

/// `fun f() { let [mut] c = Counter { n: 0 }; c.bump(); }`
fn mut_self_call(mutable: bool) -> (Session, Body) {
    let mut f = FnBuilder::new();
    let c = f.let_("c", mutable);
    f.live(c);
    f.assign(p(c), Rvalue::Aggregate(Box::new(AggregateKind::Tuple), vec![int_op(0)]));
    method_call(&mut f, p(c), true);
    f.dead(c);
    f.finish()
}

/// `let o = Outer { inner: Counter { n: 0 } }; o.inner.bump();`
fn mut_self_call_through_field() -> (Session, Body) {
    let mut f = FnBuilder::new();
    let o = f.let_("o", false);
    f.live(o);
    f.assign(p(o), Rvalue::Aggregate(Box::new(AggregateKind::Tuple), vec![int_op(0)]));
    method_call(&mut f, field(p(o), 0), true);
    f.dead(o);
    f.finish()
}

/// `fun f(c: &mut Counter) { let r = c; r.bump(); }`
fn mut_self_call_through_reference() -> (Session, Body) {
    let mut f = FnBuilder::new();
    let c = f.param("c");
    let r = f.let_("r", false);
    f.live(r);
    f.assign(p(r), Rvalue::Use(mov(p(c))));
    method_call(&mut f, deref(p(r)), true);
    f.dead(r);
    f.finish()
}

/// `let c = Counter { n: 0 }; let _ = c.peek();`
fn ref_self_call() -> (Session, Body) {
    let mut f = FnBuilder::new();
    let c = f.let_("c", false);
    f.live(c);
    f.assign(p(c), Rvalue::Aggregate(Box::new(AggregateKind::Tuple), vec![int_op(0)]));
    method_call(&mut f, p(c), false);
    f.dead(c);
    f.finish()
}

fn bare_local(pass: Pass) {
    constck_accepts(pass, reassign_let(true));
    constck_rejects(pass, reassign_let(false), "cannot assign to `a`, which is not declared `mut`");
}

fn chain_of_fields_and_indices(pass: Pass) {
    constck_rejects(pass, field_chain_write(false), "cannot assign to `p`, which is not declared `mut`");
    constck_accepts(pass, field_chain_write(true));
    constck_rejects(pass, index_write(false), "cannot assign to `arr`, which is not declared `mut`");
    constck_accepts(pass, index_write(true));
    constck_accepts(pass, write_through_reference());
}

fn tuple_destructuring(pass: Pass) {
    constck_accepts(pass, tuple_let(true, true, true));
    constck_rejects(pass, tuple_let(false, true, false), "cannot assign to `a`, which is not declared `mut`");
    constck_rejects(pass, tuple_let(false, false, true), "cannot assign to `b`, which is not declared `mut`");
}

fn non_let_bindings(pass: Pass) {
    // A `for` binding, a `match` arm's binding and a `with` lend all lower to the same kind of
    // binding, none of which is restricted.
    constck_accepts(pass, non_let_binding_write());
    constck_accepts(pass, non_let_binding_write());
    constck_accepts(pass, non_let_binding_write());
}

fn params_and_self(pass: Pass) {
    constck_accepts(pass, param_write());
    constck_accepts(pass, param_borrow());
    constck_accepts(pass, self_field_write());
}

fn explicit_borrow(pass: Pass) {
    constck_accepts(pass, mutable_borrow_of_let(true));
    constck_rejects(pass, mutable_borrow_of_let(false), "cannot assign to `a`, which is not declared `mut`");
}

fn compound(pass: Pass) {
    constck_accepts(pass, compound_assign(true));
    constck_rejects(pass, compound_assign(false), "cannot assign to `a`, which is not declared `mut`");
}

fn mut_self(pass: Pass) {
    constck_accepts(pass, mut_self_call(true));
    constck_rejects(pass, mut_self_call(false), "cannot assign to `c`, which is not declared `mut`");
}

#[test]
fn assignment_through_a_bare_local_is_checked_against_its_own_let() {
    bare_local(Pass::Pipeline);
}

#[test]
fn constck_assignment_through_a_bare_local_is_checked_against_its_own_let() {
    bare_local(Pass::Standalone);
}

#[test]
fn assignment_through_a_chain_of_fields_and_indices_stops_checking_at_a_reference() {
    chain_of_fields_and_indices(Pass::Pipeline);
}

#[test]
fn constck_assignment_through_a_chain_of_fields_and_indices_stops_checking_at_a_reference() {
    chain_of_fields_and_indices(Pass::Standalone);
}

#[test]
fn tuple_destructured_mutability_applies_to_every_binding_the_pattern_introduces() {
    tuple_destructuring(Pass::Pipeline);
}

#[test]
fn constck_tuple_destructured_mutability_applies_to_every_binding_the_pattern_introduces() {
    tuple_destructuring(Pass::Standalone);
}

#[test]
fn constness_does_not_restrict_bindings_that_are_not_a_let() {
    non_let_bindings(Pass::Pipeline);
}

#[test]
fn constck_constness_does_not_restrict_bindings_that_are_not_a_let() {
    non_let_bindings(Pass::Standalone);
}

#[test]
fn parameters_and_self_fields_remain_unrestricted() {
    params_and_self(Pass::Pipeline);
}

#[test]
fn constck_parameters_and_self_fields_remain_unrestricted() {
    params_and_self(Pass::Standalone);
}

#[test]
fn an_explicit_mutable_borrow_is_checked_the_same_as_an_assignment() {
    explicit_borrow(Pass::Pipeline);
}

#[test]
fn constck_an_explicit_mutable_borrow_is_checked_the_same_as_an_assignment() {
    explicit_borrow(Pass::Standalone);
}

#[test]
fn a_compound_assignment_is_checked_the_same_as_a_plain_one() {
    compound(Pass::Pipeline);
}

#[test]
fn constck_a_compound_assignment_is_checked_the_same_as_a_plain_one() {
    compound(Pass::Standalone);
}

#[test]
fn a_mut_self_call_is_checked_the_same_as_an_explicit_mutable_borrow() {
    mut_self(Pass::Pipeline);
}

#[test]
fn constck_a_mut_self_call_is_checked_the_same_as_an_explicit_mutable_borrow() {
    mut_self(Pass::Standalone);
}

#[test]
fn a_mut_self_call_reached_through_a_field_chain_is_rooted_at_the_lets_own_binding() {
    constck_rejects(Pass::Pipeline, mut_self_call_through_field(), "cannot assign to `o`, which is not declared `mut`");
}

#[test]
fn constck_a_mut_self_call_reached_through_a_field_chain_is_rooted_at_the_lets_own_binding() {
    constck_rejects(Pass::Standalone, mut_self_call_through_field(), "cannot assign to `o`, which is not declared `mut`");
}

#[test]
fn a_mut_self_call_through_an_existing_reference_is_unrestricted() {
    constck_accepts(Pass::Pipeline, mut_self_call_through_reference());
}

#[test]
fn constck_a_mut_self_call_through_an_existing_reference_is_unrestricted() {
    constck_accepts(Pass::Standalone, mut_self_call_through_reference());
}

#[test]
fn a_ref_self_call_is_never_restricted() {
    constck_accepts(Pass::Pipeline, ref_self_call());
}

#[test]
fn constck_a_ref_self_call_is_never_restricted() {
    constck_accepts(Pass::Standalone, ref_self_call());
}

#[test]
fn a_rejected_write_points_at_its_check_and_each_one_is_reported_in_order() {
    let (session, body) = tuple_let(false, true, true);
    let spans: Vec<SrcSpan> = body.basic_blocks[0]
        .statements
        .iter()
        .filter(|s| matches!(s.kind, StatementKind::CheckMutable(_)))
        .map(|s| s.span)
        .collect();
    let mir = program(body);
    let diags = midend::mir::constck::check(&session, &mir);
    assert_eq!(
        messages(&diags),
        vec![
            "cannot assign to `a`, which is not declared `mut`".to_string(),
            "cannot assign to `b`, which is not declared `mut`".to_string(),
        ]
    );
    assert_eq!(diags[0].span, spans[0]);
    assert_eq!(diags[1].span, spans[1]);
}

#[test]
fn switch_targets_list_every_value_then_otherwise() {
    let targets = SwitchTargets { values: vec![(0, BasicBlock(3)), (1, BasicBlock(5))], otherwise: BasicBlock(7) };
    assert_eq!(targets.all_targets(), vec![BasicBlock(3), BasicBlock(5), BasicBlock(7)]);
}

// ---------------------------------------------------------------------------------------------
// Definition facts and names
// ---------------------------------------------------------------------------------------------

use midend::ast::Path;
use midend::hir::{EnumDef, ExtendDef, FunctionDef, Hir, HirId, ModuleDef, OwnerNode, StructDef, TraitDef};
use midend::mir::def_infos::DefKind;
use midend::mir::def_names::{replace_non_alphanumeric_chars, DefNames};

/// Builds the definitions lowering to HIR would produce, in arena order.
struct HirBuilder {
    session: Session,
    hir: Hir,
}

impl HirBuilder {
    fn new() -> HirBuilder {
        let mut b = HirBuilder { session: Session::new(), hir: Hir { defs: Vec::new(), parents: Vec::new() } };
        b.add(OwnerNode::Module(ModuleDef { path: Path { segments: Vec::new() } }), None);
        b
    }

    fn ident(&mut self, name: &str) -> Ident {
        Ident { text: self.session.intern(name), span: SrcSpan::new(0, 1) }
    }

    fn add(&mut self, node: OwnerNode, parent: Option<DefId>) -> DefId {
        self.hir.defs.push(node);
        self.hir.parents.push(parent);
        DefId((self.hir.defs.len() - 1) as u32)
    }

    fn generics(&self, owner: u32, n: u32) -> Vec<HirId> {
        (0..n).map(|i| HirId { owner: DefId(owner), local_id: i + 1 }).collect()
    }

    fn next(&self) -> u32 {
        self.hir.defs.len() as u32
    }

    fn function(&mut self, name: &str, parent: DefId) -> DefId {
        let name = self.ident(name);
        self.add(OwnerNode::Function(FunctionDef { name, generics: Vec::new() }), Some(parent))
    }

    fn trait_(&mut self, name: &str, generics: u32, parent: DefId) -> DefId {
        let name = self.ident(name);
        let generics = self.generics(self.next(), generics);
        self.add(OwnerNode::Trait(TraitDef { name, generics, functions: Vec::new() }), Some(parent))
    }

    fn trait_method(&mut self, trait_: DefId, name: &str) -> DefId {
        let method = self.function(name, trait_);
        if let OwnerNode::Trait(t) = &mut self.hir.defs[trait_.0 as usize] {
            t.functions.push(method);
        }
        method
    }

    fn struct_(&mut self, name: &str, generics: u32, parent: DefId) -> DefId {
        let name = self.ident(name);
        let generics = self.generics(self.next(), generics);
        self.add(OwnerNode::Struct(StructDef { name, generics }), Some(parent))
    }

    fn enum_(&mut self, name: &str, parent: DefId) -> DefId {
        let name = self.ident(name);
        self.add(OwnerNode::Enum(EnumDef { name, generics: Vec::new() }), Some(parent))
    }

    fn extend(&mut self, generics: u32, parent: DefId) -> DefId {
        let extend_generics = self.generics(self.next(), generics);
        self.add(OwnerNode::Extend(ExtendDef { extend_generics, methods: Vec::new() }), Some(parent))
    }

    fn extend_method(&mut self, block: DefId, name: &str) -> DefId {
        let method = self.function(name, block);
        if let OwnerNode::Extend(x) = &mut self.hir.defs[block.0 as usize] {
            x.methods.push(method);
        }
        method
    }

    fn module(&mut self, segments: &[&str], parent: DefId) -> DefId {
        let segments = segments.iter().map(|s| self.ident(s)).collect();
        self.add(OwnerNode::Module(ModuleDef { path: Path { segments } }), Some(parent))
    }
}

fn named(hir: &Hir, names: &DefNames, name: &str) -> DefId {
    (0..hir.defs.len() as u32)
        .map(DefId)
        .find(|&def| names.leaf(def) == name)
        .unwrap_or_else(|| panic!("fixture declares no definition named {name:?}"))
}

/// `trait Shape { fun area(&self) -> f64; fun perim(&self) -> f64; }\nfun f() {}`
fn shape_program() -> HirBuilder {
    let mut b = HirBuilder::new();
    let root = DefId(0);
    let shape = b.trait_("Shape", 0, root);
    b.trait_method(shape, "area");
    b.trait_method(shape, "perim");
    b.function("f", root);
    b
}

#[test]
fn a_trait_method_knows_its_trait_and_its_slot() {
    let b = shape_program();
    let infos = collect_def_infos(&b.hir);
    let names = collect_def_names(&b.session, &b.hir);
    let area = named(&b.hir, &names, "area");
    let perim = named(&b.hir, &names, "perim");
    let shape = named(&b.hir, &names, "Shape");

    assert_eq!(infos.trait_method(area), Some((shape, 0)));
    assert_eq!(infos.trait_method(perim), Some((shape, 1)));
    assert_eq!(infos.vtable_slot(area), Some(0));
    assert_eq!(infos.kind(area), DefKind::Function);
    assert_eq!(infos.parent(area), Some(shape));
}

#[test]
fn an_extend_block_and_its_method_are_both_recorded() {
    // trait Holder<T> { fun held(&self) -> T; }
    // struct Wrap<T> { v: T }
    // extend<T> Wrap<T> with Holder<T> { fun spare(&self) -> T { return self.v; } }
    let mut b = HirBuilder::new();
    let root = DefId(0);
    let holder = b.trait_("Holder", 1, root);
    b.trait_method(holder, "held");
    b.struct_("Wrap", 1, root);
    let block = b.extend(1, root);
    b.extend_method(block, "spare");

    let infos = collect_def_infos(&b.hir);
    let names = collect_def_names(&b.session, &b.hir);

    let wrap = named(&b.hir, &names, "Wrap");
    assert_eq!(infos.kind(wrap), DefKind::Struct);
    assert_eq!(infos.generics(wrap).len(), 1, "Wrap<T> declares T");

    let spare = named(&b.hir, &names, "spare");
    let block = infos.parent(spare).expect("spare is written inside a block");
    assert_eq!(infos.kind(block), DefKind::Extend);
    assert_eq!(
        infos.generics(block).len(),
        1,
        "`extend Wrap<T>` contributes its own T to its methods' parameter list"
    );
    assert_eq!(
        infos.trait_method(spare),
        None,
        "a method written in an `extend` block is not a trait's own declaration"
    );

    assert_eq!(
        infos.trait_method(named(&b.hir, &names, "held")),
        Some((named(&b.hir, &names, "Holder"), 0))
    );
}

#[test]
fn leaf_is_the_bare_sanitized_name() {
    // struct Point { x: i32 }\nfun f() {}
    let mut b = HirBuilder::new();
    let point = b.struct_("Point", 0, DefId(0));
    b.function("f", DefId(0));
    let names = collect_def_names(&b.session, &b.hir);
    assert_eq!(names.leaf(point), "Point");
}

#[test]
fn ancestor_path_is_the_root_to_def_chain() {
    // fun f() {}
    let mut b = HirBuilder::new();
    let def = b.function("f", DefId(0));
    let names = collect_def_names(&b.session, &b.hir);
    let path = names.ancestor_path(def);
    assert_eq!(path.last().map(String::as_str), Some("f"));
}

#[test]
fn nameless_definitions_are_named_by_kind_and_index_and_the_root_is_crate() {
    let mut b = HirBuilder::new();
    let root = DefId(0);
    let m = b.module(&["app", "net"], root);
    b.enum_("Kind", m);
    let block = b.extend(0, m);
    let method = b.extend_method(block, "run");
    let names = collect_def_names(&b.session, &b.hir);
    assert_eq!(names.leaf(root), "crate");
    assert_eq!(names.leaf(m), "net");
    assert_eq!(names.leaf(block), "extend3");
    assert_eq!(names.ancestor_path(method), &["crate".to_string(), "net".to_string(), "extend3".to_string(), "run".to_string()]);
}

#[test]
fn a_definition_far_down_the_arena_gets_every_digit_of_its_index() {
    let mut b = HirBuilder::new();
    let root = DefId(0);
    let mut last = root;
    for _ in 0..120 {
        last = b.extend(0, root);
    }
    let names = collect_def_names(&b.session, &b.hir);
    assert_eq!(names.leaf(last), "extend120");
}

#[test]
fn sanitizing_replaces_everything_but_ascii_letters_digits_and_underscores() {
    assert_eq!(replace_non_alphanumeric_chars("a-b c_d9"), "a_b_c_d9");
    assert_eq!(replace_non_alphanumeric_chars("héllo"), "h_llo");
    assert_eq!(replace_non_alphanumeric_chars(""), "");
}

#[test]
fn a_non_method_has_no_vtable_slot_and_every_kind_is_recorded() {
    let b = shape_program();
    let infos = collect_def_infos(&b.hir);
    assert_eq!(infos.kind(DefId(0)), DefKind::Module);
    assert_eq!(infos.parent(DefId(0)), None);
    assert_eq!(infos.kind(DefId(1)), DefKind::Trait);
    assert_eq!(infos.vtable_slot(DefId(4)), None);
    assert_eq!(infos.trait_method(DefId(4)), None);
}

// ---------------------------------------------------------------------------------------------
// Closure captures
// ---------------------------------------------------------------------------------------------

use midend::nameres::res::PrimTy;
use midend::typeck::{TyCtx, TyKind};

/// The types the capture fixtures use.
struct Types {
    tcx: TyCtx,
    i32_: Ty,
    word: Ty,
}

impl Types {
    fn new() -> Types {
        let mut tcx = TyCtx::new();
        let i32_ = tcx.mk(TyKind::Primitive(PrimTy::I32));
        let word = tcx.mk(TyKind::Primitive(PrimTy::Usize));
        Types { tcx, i32_, word }
    }

    fn iso(&mut self, t: Ty) -> Ty {
        self.tcx.mk(TyKind::Iso(t))
    }

    fn shared_ref(&mut self, t: Ty) -> Ty {
        self.tcx.mk(TyKind::Ref { base: t, mutability: Mutability::Immutable })
    }

    /// `&(word, captures..)`, the type of a closure body's environment local.
    fn environment(&mut self, captures: &[Ty]) -> Ty {
        let mut fields = vec![self.word];
        fields.extend_from_slice(captures);
        let tuple = self.tcx.mk(TyKind::Tuple(fields));
        self.shared_ref(tuple)
    }
}

/// A closure body whose environment has the given type: `_0` the return place, `_1` the
/// environment.
fn closure_body(env: Ty) -> FnBuilder {
    let mut f = FnBuilder::new();
    f.decl(Some("env"), Mutability::Mutable, env);
    f.param_count = 1;
    f
}

/// The captured value at position `n` (1-based after the drop-glue word) of the environment.
fn capture(n: u32) -> Place {
    field(deref(p(Local(1))), n)
}

/// `fun f() { .. }` enclosing one closure; the enclosing body reads nothing of interest.
fn closure_program(types: Types, closure: FnBuilder) -> Vec<String> {
    let mut hir = HirBuilder::new();
    let f = hir.function("f", DefId(0));
    let closure_def = hir.add(OwnerNode::Closure, Some(f));
    let (_, mut closure) = closure.finish();
    closure.def_id = closure_def;
    closure.kind = BodyKind::Closure;
    let (_, mut outer) = FnBuilder::new().finish();
    outer.def_id = f;
    let mir = Mir {
        bodies: vec![((f, None), outer), ((closure_def, None), closure)],
        vtables: Vec::new(),
        def_infos: collect_def_infos(&hir.hir),
        def_names: collect_def_names(&hir.session, &hir.hir),
        main: None,
    };
    messages(&midend::mir::checks::borrowck::captures::check(&types.tcx, &mir))
}

fn captures_accepts(types: Types, closure: FnBuilder) {
    let found = closure_program(types, closure);
    assert!(found.is_empty(), "expected no diagnostic, got {found:?}");
}

fn captures_rejects(types: Types, closure: FnBuilder, expected: &str) {
    let found = closure_program(types, closure);
    assert!(found.iter().any(|m| m == expected), "expected {expected:?}, got {found:?}");
}

#[test]
fn reading_a_captured_value_is_fine() {
    // fun f() -> i32 { let n = 1; let g = || n + 1; return g(); }
    let mut t = Types::new();
    let env = t.environment(&[t.i32_]);
    let mut g = closure_body(env);
    g.assign(p(Local(0)), Rvalue::BinaryOp(midend::ast::BinaryOp::Add, copy(capture(1)), int_op(1)));
    captures_accepts(t, g);
}

#[test]
fn reading_through_a_captured_owning_value_is_fine() {
    // fun f() -> i32 { let n = new 1; let g = || *n; return g(); }
    let mut t = Types::new();
    let owned = t.iso(t.i32_);
    let env = t.environment(&[owned]);
    let mut g = closure_body(env);
    g.assign(p(Local(0)), Rvalue::Use(copy(deref(capture(1)))));
    captures_accepts(t, g);
}

#[test]
fn a_closure_that_captures_nothing_has_nothing_to_move_out() {
    // fun f() -> i32 { let g = || 1; return g(); }
    let mut t = Types::new();
    let env = t.environment(&[]);
    let mut g = closure_body(env);
    g.assign(p(Local(0)), use_int(1));
    captures_accepts(t, g);
}

#[test]
fn capturing_a_reference_is_rejected() {
    // fun f() -> fun() -> i32 { let n = 7; let r = &n; return || *r; }
    let mut t = Types::new();
    let r = t.shared_ref(t.i32_);
    let env = t.environment(&[r]);
    let mut g = closure_body(env);
    g.assign(p(Local(0)), Rvalue::Use(copy(deref(capture(1)))));
    captures_rejects(t, g, "a closure cannot capture a reference");
}

#[test]
fn capturing_an_owned_value_is_fine() {
    // fun f() -> fun() -> i32 { let n = new 7; return || *n; }
    let mut t = Types::new();
    let owned = t.iso(t.i32_);
    let env = t.environment(&[owned]);
    let mut g = closure_body(env);
    g.assign(p(Local(0)), Rvalue::Use(copy(deref(capture(1)))));
    captures_accepts(t, g);
}

#[test]
fn moving_a_captured_owning_value_out_is_rejected() {
    // fun consume(p: iso i32) {}
    // fun f() { let n = new 1; let g = || consume(n); g(); }
    let mut t = Types::new();
    let owned = t.iso(t.i32_);
    let env = t.environment(&[owned]);
    let mut g = closure_body(env);
    let next = g.next_block(1);
    g.terminate(TerminatorKind::Call { func: int_op(0), args: vec![mov(capture(1))], destination: p(Local(0)), target: Some(next) });
    captures_rejects(t, g, "cannot move a captured value out of a closure's environment");
}

#[test]
fn moving_a_captured_value_into_a_binding_is_rejected_too() {
    // struct Owner { h: iso i32 }
    // fun f() { let o = Owner { h: new 1 }; let g = || { let taken = o; }; g(); }
    let mut t = Types::new();
    let env = t.environment(&[t.i32_]);
    let mut g = closure_body(env);
    let taken = g.let_("taken", false);
    g.live(taken);
    g.assign(p(taken), Rvalue::Use(mov(capture(1))));
    g.dead(taken);
    captures_rejects(t, g, "cannot move a captured value out of a closure's environment");
}

#[test]
fn a_closure_capturing_a_reference_inside_a_tuple_is_reported_once_per_capture() {
    let mut t = Types::new();
    let r = t.shared_ref(t.i32_);
    let pair = t.tcx.mk(TyKind::Tuple(vec![t.i32_, r]));
    let env = t.environment(&[pair, t.i32_, r]);
    let mut g = closure_body(env);
    g.assign(p(Local(0)), use_int(0));
    let found = closure_program(t, g);
    assert_eq!(found, vec!["a closure cannot capture a reference".to_string(); 2]);
}

// ---------------------------------------------------------------------------------------------
// Values that are never read
// ---------------------------------------------------------------------------------------------

fn never_read_program(bodies: Vec<(Session, Body)>) -> Vec<String> {
    // Every body of one program shares one session: names are interned in the first.
    let mut iter = bodies.into_iter();
    let (session, first) = iter.next().unwrap();
    let mut all = vec![((DefId(0), None), first)];
    for (k, (_, body)) in iter.enumerate() {
        all.push(((DefId(k as u32 + 1), None), body));
    }
    let hir = Hir { defs: Vec::new(), parents: Vec::new() };
    let mir = Mir {
        bodies: all,
        vtables: Vec::new(),
        def_infos: collect_def_infos(&hir),
        def_names: collect_def_names(&session, &hir),
        main: None,
    };
    messages(&midend::mir::checks::never_read::check(&session, &mir))
}

fn never_read_accepts(built: (Session, Body)) {
    let found = never_read_program(vec![built]);
    assert!(found.is_empty(), "expected no diagnostic, got {found:?}");
}

fn never_read_rejects(built: (Session, Body), expected: &str) {
    let found = never_read_program(vec![built]);
    assert!(found.iter().any(|m| m == expected), "expected {expected:?}, got {found:?}");
}

/// `let _ = place;`
fn discard(f: &mut FnBuilder, place: Place) {
    f.mention(place);
}

/// `let _ = lhs + rhs;` through a temporary.
fn discard_sum(f: &mut FnBuilder, lhs: Operand, rhs: Operand) {
    let t = f.temp();
    f.live(t);
    f.assign(p(t), Rvalue::BinaryOp(midend::ast::BinaryOp::Add, lhs, rhs));
    f.mention(p(t));
    f.dead(t);
}

/// `if cond { then } [else { otherwise }]`, continuing in a join block.
fn if_else(f: &mut FnBuilder, cond: Local, then: impl FnOnce(&mut FnBuilder), otherwise: Option<Box<dyn FnOnce(&mut FnBuilder)>>) {
    let then_block = f.next_block(1);
    let has_else = otherwise.is_some();
    let else_block = f.next_block(2);
    let join = f.next_block(if has_else { 3 } else { 2 });
    f.terminate(TerminatorKind::SwitchInt {
        discr: copy(p(cond)),
        targets: SwitchTargets { values: vec![(0, if has_else { else_block } else { join })], otherwise: then_block },
    });
    then(f);
    f.terminate(TerminatorKind::Goto { target: join });
    if let Some(body) = otherwise {
        body(f);
        f.terminate(TerminatorKind::Goto { target: join });
    }
}

#[test]
fn a_local_that_is_read_after_being_assigned_is_fine() {
    // fun f() { let a = 1; let _ = a; }
    let mut f = FnBuilder::new();
    let a = f.let_("a", false);
    f.live(a);
    f.assign(p(a), use_int(1));
    discard(&mut f, p(a));
    f.dead(a);
    never_read_accepts(f.finish());
}

#[test]
fn a_local_assigned_and_never_read_before_it_goes_out_of_scope_is_rejected() {
    // fun f() { let a = 1; }
    let mut f = FnBuilder::new();
    let a = f.let_("a", false);
    f.live(a);
    f.assign(p(a), use_int(1));
    f.dead(a);
    never_read_rejects(f.finish(), "value assigned to `a` is never read");
}

#[test]
fn a_local_read_by_a_binary_op_is_fine() {
    // fun f() { let a = 1; let b = 2; let _ = a + b; }
    let mut f = FnBuilder::new();
    let a = f.let_("a", false);
    let b = f.let_("b", false);
    f.live(a);
    f.assign(p(a), use_int(1));
    f.live(b);
    f.assign(p(b), use_int(2));
    discard_sum(&mut f, copy(p(a)), copy(p(b)));
    f.dead(b);
    f.dead(a);
    never_read_accepts(f.finish());
}

#[test]
fn reassigning_a_local_before_it_is_read_is_still_rejected() {
    // fun f() { let mut a = 1; a = 2; let _ = a; }
    let mut f = FnBuilder::new();
    let a = f.let_("a", true);
    f.live(a);
    f.assign(p(a), use_int(1));
    f.check_mut(p(a));
    f.assign(p(a), use_int(2));
    discard(&mut f, p(a));
    f.dead(a);
    never_read_rejects(f.finish(), "value assigned to `a` is never read");
}

#[test]
fn a_local_read_on_only_one_branch_of_an_if_is_fine() {
    // fun f(cond: bool) { let a = 1; if cond { let _ = a; } }
    let mut f = FnBuilder::new();
    let cond = f.param("cond");
    let a = f.let_("a", false);
    f.live(a);
    f.assign(p(a), use_int(1));
    if_else(&mut f, cond, |f| discard(f, p(a)), None);
    f.dead(a);
    never_read_accepts(f.finish());
}

#[test]
fn a_local_read_on_every_branch_of_an_if_else_is_fine() {
    // fun f(cond: bool) { let a = 1; if cond { let _ = a; } else { let _ = a; } }
    let mut f = FnBuilder::new();
    let cond = f.param("cond");
    let a = f.let_("a", false);
    f.live(a);
    f.assign(p(a), use_int(1));
    if_else(&mut f, cond, |f| discard(f, p(a)), Some(Box::new(move |f: &mut FnBuilder| discard(f, p(a)))));
    f.dead(a);
    never_read_accepts(f.finish());
}

#[test]
fn a_local_read_through_a_reference_is_fine() {
    // fun f() { let a = 1; let _ = &a; }
    let mut f = FnBuilder::new();
    let a = f.let_("a", false);
    f.live(a);
    f.assign(p(a), use_int(1));
    let t = f.temp();
    f.live(t);
    f.assign(p(t), ref_shared(p(a)));
    f.mention(p(t));
    f.dead(t);
    f.dead(a);
    never_read_accepts(f.finish());
}

#[test]
fn moving_a_local_into_a_call_counts_as_reading_it() {
    // fun take(_x: i32) {}
    // fun f() { let a = 1; take(a); let b = 2; }
    let mut f = FnBuilder::new();
    let a = f.let_("a", false);
    f.live(a);
    f.assign(p(a), use_int(1));
    let result = f.temp();
    let next = f.next_block(1);
    f.terminate(TerminatorKind::Call { func: int_op(0), args: vec![mov(p(a))], destination: p(result), target: Some(next) });
    let b = f.let_("b", false);
    f.live(b);
    f.assign(p(b), use_int(2));
    f.dead(b);
    f.dead(a);
    let (mut session, main) = f.finish();
    let mut take = FnBuilder::new();
    take.session = std::mem::replace(&mut session, Session::new());
    take.param("_x");
    let (session, take) = take.finish();
    let found = never_read_program(vec![(session, main), (Session::new(), take)]);
    assert!(found.iter().any(|m| m == "value assigned to `b` is never read"), "got {found:?}");
    assert!(!found.iter().any(|m| m.contains("`a`")), "got {found:?}");
}

#[test]
fn a_local_whose_name_starts_with_underscore_is_never_reported() {
    // fun f() { let _unused = 1; }
    let mut f = FnBuilder::new();
    let u = f.let_("_unused", false);
    f.live(u);
    f.assign(p(u), use_int(1));
    f.dead(u);
    never_read_accepts(f.finish());
}

#[test]
fn reading_one_field_of_a_struct_local_counts_as_reading_the_whole_local() {
    // struct P { x: i32, y: i32 }
    // fun f() { let p = P { x: 1, y: 2 }; let _ = p.x; }
    let mut f = FnBuilder::new();
    let pl = f.let_("p", false);
    f.live(pl);
    f.assign(
        p(pl),
        Rvalue::Aggregate(Box::new(AggregateKind::Adt { def: DefId(1), variant: midend::mir::ids::VariantIdx(0) }), vec![int_op(1), int_op(2)]),
    );
    discard(&mut f, field(p(pl), 0));
    f.dead(pl);
    never_read_accepts(f.finish());
}

#[test]
fn a_parameter_read_nowhere_in_the_body_is_rejected() {
    // fun f(x: i32) {}
    let mut f = FnBuilder::new();
    f.param("x");
    never_read_rejects(f.finish(), "parameter `x` is never read");
}

#[test]
fn a_parameter_that_is_read_is_fine() {
    // fun f(x: i32) { let _ = x; }
    let mut f = FnBuilder::new();
    let x = f.param("x");
    discard(&mut f, p(x));
    never_read_accepts(f.finish());
}

#[test]
fn a_parameter_read_by_a_binary_op_is_fine() {
    // fun f(x: i32) { let _ = x + 1; }
    let mut f = FnBuilder::new();
    let x = f.param("x");
    discard_sum(&mut f, copy(p(x)), int_op(1));
    never_read_accepts(f.finish());
}

#[test]
fn a_parameter_read_on_only_one_branch_is_fine() {
    // fun f(x: i32, cond: bool) { if cond { let _ = x; } }
    let mut f = FnBuilder::new();
    let x = f.param("x");
    let cond = f.param("cond");
    if_else(&mut f, cond, |f| discard(f, p(x)), None);
    never_read_accepts(f.finish());
}

#[test]
fn a_parameter_whose_name_starts_with_underscore_is_never_reported() {
    // fun f(_x: i32) {}
    let mut f = FnBuilder::new();
    f.param("_x");
    never_read_accepts(f.finish());
}

#[test]
fn an_unused_self_parameter_is_never_reported() {
    // struct P { v: i32 }
    // extend P { fun get(&self) -> i32 { return 1; } }
    let mut f = FnBuilder::new();
    f.decl(None, Mutability::Mutable, Ty(0));
    f.param_count = 1;
    f.assign(p(Local(0)), use_int(1));
    never_read_accepts(f.finish());
}

#[test]
fn only_the_unused_parameter_of_several_is_reported() {
    // fun f(a: i32, b: i32) { let _ = a; }
    let mut f = FnBuilder::new();
    let a = f.param("a");
    f.param("b");
    discard(&mut f, p(a));
    let found = never_read_program(vec![f.finish()]);
    assert_eq!(found, vec!["parameter `b` is never read".to_string()]);
}

#[test]
fn a_value_overwritten_inside_a_loop_before_being_read_is_rejected_once_per_overwrite() {
    // fun f(cond: bool) { let mut a = 1; while cond { a = 2; } let _ = a; }
    let mut f = FnBuilder::new();
    let cond = f.param("cond");
    let a = f.let_("a", true);
    f.live(a);
    f.assign(p(a), use_int(1));
    let head = f.next_block(1);
    f.terminate(TerminatorKind::Goto { target: head });
    let body_block = f.next_block(1);
    let exit = f.next_block(2);
    f.terminate(TerminatorKind::SwitchInt {
        discr: copy(p(cond)),
        targets: SwitchTargets { values: vec![(0, exit)], otherwise: body_block },
    });
    f.assign(p(a), use_int(2));
    f.terminate(TerminatorKind::Goto { target: head });
    discard(&mut f, p(a));
    f.dead(a);
    let found = never_read_program(vec![f.finish()]);
    assert_eq!(found, vec!["value assigned to `a` is never read".to_string()]);
}

// ---------------------------------------------------------------------------------------------
// Reading a value after it was moved out
// ---------------------------------------------------------------------------------------------

impl Types {
    fn adt(&mut self, def: u32) -> Ty {
        self.tcx.mk(TyKind::Adt { def: DefId(def), args: Vec::new() })
    }

    fn mut_ref(&mut self, t: Ty) -> Ty {
        self.tcx.mk(TyKind::Ref { base: t, mutability: Mutability::Mutable })
    }

    fn bool_(&mut self) -> Ty {
        self.tcx.mk(TyKind::Primitive(PrimTy::Bool))
    }
}

impl FnBuilder {
    fn let_ty(&mut self, name: &str, mutable: bool, ty: Ty) -> Local {
        let m = if mutable { Mutability::Mutable } else { Mutability::Immutable };
        self.decl(Some(name), m, ty)
    }

    fn param_ty(&mut self, name: &str, ty: Ty) -> Local {
        let l = self.decl(Some(name), Mutability::Mutable, ty);
        self.param_count += 1;
        l
    }

    fn temp_ty(&mut self, ty: Ty) -> Local {
        self.decl(None, Mutability::Mutable, ty)
    }
}

fn definite_init_found(types: &Types, built: (Session, Body)) -> Vec<String> {
    let (session, body) = built;
    let mir = program(body);
    messages(&midend::mir::checks::borrowck::definite_init::check(&session, &types.tcx, &mir))
}

fn definite_init_accepts(types: Types, built: (Session, Body)) {
    let found = definite_init_found(&types, built);
    assert!(found.is_empty(), "expected no diagnostic, got {found:?}");
}

fn definite_init_rejects(types: Types, built: (Session, Body), expected: &str) {
    let found = definite_init_found(&types, built);
    assert!(found.iter().any(|m| m == expected), "expected {expected:?}, got {found:?}");
}

/// `let <name> = <adt literal>;` for a struct of `fields` fields.
fn let_struct(f: &mut FnBuilder, name: &str, mutable: bool, ty: Ty, fields: usize) -> Local {
    let l = f.let_ty(name, mutable, ty);
    f.live(l);
    let ops = (0..fields).map(|i| int_op(i as i128)).collect();
    f.assign(p(l), Rvalue::Aggregate(Box::new(AggregateKind::Adt { def: DefId(1), variant: midend::mir::ids::VariantIdx(0) }), ops));
    l
}

/// `let <name> = <source>;` moving `source` into a new binding, then `let _ = <name>;`.
fn move_into_binding(f: &mut FnBuilder, name: &str, ty: Ty, source: Place) -> Local {
    let l = f.let_ty(name, false, ty);
    f.live(l);
    f.assign(p(l), Rvalue::Use(mov(source)));
    f.mention(p(l));
    l
}

#[test]
fn using_a_local_before_any_move_is_fine() {
    // fun f() { let a = 1; let b = a; let _ = b; }
    let t = Types::new();
    let mut f = FnBuilder::new();
    let a = f.let_ty("a", false, t.i32_);
    f.live(a);
    f.assign(p(a), use_int(1));
    let b = f.let_ty("b", false, t.i32_);
    f.live(b);
    f.assign(p(b), Rvalue::Use(copy(p(a))));
    f.mention(p(b));
    f.dead(b);
    f.dead(a);
    definite_init_accepts(t, f.finish());
}

#[test]
fn a_let_bound_to_a_diverging_call_is_never_flagged_on_the_unreachable_fallthrough() {
    // fun f() -> i32 { let x = panic(); return x; }
    let t = Types::new();
    let mut f = FnBuilder::new();
    let x = f.let_ty("x", false, t.i32_);
    f.live(x);
    f.terminate(TerminatorKind::Call { func: int_op(0), args: Vec::new(), destination: p(x), target: None });
    f.assign(p(Local(0)), Rvalue::Use(copy(p(x))));
    f.dead(x);
    definite_init_accepts(t, f.finish());
}

#[test]
fn using_a_local_after_it_was_moved_wholesale_is_rejected() {
    // struct P { x: i32, y: i32 }
    // fun f() { let p = P { x: 1, y: 2 }; let q = p; let _ = q; let _ = p; }
    let mut t = Types::new();
    let pt = t.adt(1);
    let mut f = FnBuilder::new();
    let pl = let_struct(&mut f, "p", false, pt, 2);
    move_into_binding(&mut f, "q", pt, p(pl));
    f.mention(p(pl));
    definite_init_rejects(t, f.finish(), "use of moved value `p`");
}

/// `struct Inner { v: i32 } struct P { x: Inner, y: Inner }`: the types `P` and `Inner`.
fn pair_types() -> (Types, Ty, Ty) {
    let mut t = Types::new();
    let inner = t.adt(1);
    let pair = t.adt(2);
    (t, pair, inner)
}

#[test]
fn moving_one_field_still_permits_reading_a_sibling_field() {
    let (t, pair, inner) = pair_types();
    let mut f = FnBuilder::new();
    let pl = let_struct(&mut f, "p", false, pair, 2);
    move_into_binding(&mut f, "x", inner, field(p(pl), 0));
    f.mention(field(p(pl), 1));
    definite_init_accepts(t, f.finish());
}

#[test]
fn moving_one_field_forbids_reading_that_same_field_again() {
    let (t, pair, inner) = pair_types();
    let mut f = FnBuilder::new();
    let pl = let_struct(&mut f, "p", false, pair, 2);
    move_into_binding(&mut f, "x", inner, field(p(pl), 0));
    f.mention(field(p(pl), 0));
    definite_init_rejects(t, f.finish(), "use of moved value `p`");
}

#[test]
fn moving_one_field_forbids_using_the_whole_place_afterward() {
    // ... let x = p.x; let _ = x; take(p);
    let (mut t, pair, inner) = pair_types();
    let unit = t.tcx.mk(TyKind::Unit);
    let mut f = FnBuilder::new();
    let pl = let_struct(&mut f, "p", false, pair, 2);
    move_into_binding(&mut f, "x", inner, field(p(pl), 0));
    let result = f.temp_ty(unit);
    let next = f.next_block(1);
    f.terminate(TerminatorKind::Call { func: int_op(0), args: vec![mov(p(pl))], destination: p(result), target: Some(next) });
    definite_init_rejects(t, f.finish(), "use of moved value `p`");
}

/// `struct P { v: i32 } fun f(cond: bool) { let [mut] p = P { v: 1 }; if cond { let q = p; let _ = q; } [else ..] <tail> }`
fn branchy_move(moved_on_else: bool, reassign: bool) -> (Types, (Session, Body)) {
    let mut t = Types::new();
    let pt = t.adt(1);
    let b = t.bool_();
    let mut f = FnBuilder::new();
    let cond = f.param_ty("cond", b);
    let pl = let_struct(&mut f, "p", reassign, pt, 1);
    let otherwise: Option<Box<dyn FnOnce(&mut FnBuilder)>> = if moved_on_else {
        Some(Box::new(move |f: &mut FnBuilder| {
            move_into_binding(f, "r", pt, p(pl));
        }))
    } else {
        None
    };
    if_else(&mut f, cond, |f| {
        move_into_binding(f, "q", pt, p(pl));
    }, otherwise);
    if reassign {
        f.check_mut(p(pl));
        f.assign(p(pl), Rvalue::Aggregate(Box::new(AggregateKind::Adt { def: DefId(1), variant: midend::mir::ids::VariantIdx(0) }), vec![int_op(2)]));
    }
    f.mention(p(pl));
    (t, f.finish())
}

#[test]
fn a_move_on_only_one_branch_of_an_if_leaves_the_value_dead_afterward() {
    let (t, built) = branchy_move(false, false);
    definite_init_rejects(t, built, "use of moved value `p`");
}

#[test]
fn a_move_on_every_branch_of_an_if_else_still_leaves_the_value_dead_afterward() {
    let (t, built) = branchy_move(true, false);
    definite_init_rejects(t, built, "use of moved value `p`");
}

#[test]
fn reassigning_after_a_move_cures_it() {
    let (t, built) = branchy_move(false, true);
    definite_init_accepts(t, built);
}

#[test]
fn copying_a_local_never_moves_it() {
    // fun f() { let a = 1; let b = a; let c = a; let _ = b; let _ = c; }
    let t = Types::new();
    let mut f = FnBuilder::new();
    let a = f.let_ty("a", false, t.i32_);
    f.live(a);
    f.assign(p(a), use_int(1));
    let b = f.let_ty("b", false, t.i32_);
    f.live(b);
    f.assign(p(b), Rvalue::Use(copy(p(a))));
    let c = f.let_ty("c", false, t.i32_);
    f.live(c);
    f.assign(p(c), Rvalue::Use(copy(p(a))));
    f.mention(p(b));
    f.mention(p(c));
    definite_init_accepts(t, f.finish());
}

#[test]
fn a_moved_local_reinitialized_by_a_loop_iteration_is_fine_on_the_next_one() {
    // fun f(n: i32) { let mut i = 0; while i < n { let p = P { v: i }; let q = p; let _ = q; i = i + 1; } }
    let mut t = Types::new();
    let pt = t.adt(1);
    let b = t.bool_();
    let mut f = FnBuilder::new();
    let n = f.param_ty("n", t.i32_);
    let i = f.let_ty("i", true, t.i32_);
    f.live(i);
    f.assign(p(i), use_int(0));
    let head = f.next_block(1);
    f.terminate(TerminatorKind::Goto { target: head });
    let test = f.temp_ty(b);
    f.assign(p(test), Rvalue::BinaryOp(midend::ast::BinaryOp::Lt, copy(p(i)), copy(p(n))));
    let body_block = f.next_block(1);
    let exit = f.next_block(2);
    f.terminate(TerminatorKind::SwitchInt { discr: copy(p(test)), targets: SwitchTargets { values: vec![(0, exit)], otherwise: body_block } });
    let pl = f.let_ty("p", false, pt);
    f.live(pl);
    f.assign(p(pl), Rvalue::Aggregate(Box::new(AggregateKind::Adt { def: DefId(1), variant: midend::mir::ids::VariantIdx(0) }), vec![copy(p(i))]));
    let q = move_into_binding(&mut f, "q", pt, p(pl));
    f.check_mut(p(i));
    f.assign(p(i), Rvalue::BinaryOp(midend::ast::BinaryOp::Add, copy(p(i)), int_op(1)));
    f.dead(q);
    f.dead(pl);
    f.terminate(TerminatorKind::Goto { target: head });
    f.dead(i);
    definite_init_accepts(t, f.finish());
}

#[test]
fn reading_a_field_through_a_pointer_before_any_move_is_fine() {
    // struct S { x: i32 } fun f(p: &S) -> i32 { return (*p).x; }
    let mut t = Types::new();
    let st = t.adt(1);
    let r = t.shared_ref(st);
    let mut f = FnBuilder::new();
    let pl = f.param_ty("p", r);
    f.assign(p(Local(0)), Rvalue::Use(copy(field(deref(p(pl)), 0))));
    definite_init_accepts(t, f.finish());
}

/// `fun f(p: &mut P[, cond: bool]) { .. }` over `struct P { x: Inner, y: Inner }`.
fn through_pointer() -> (Types, FnBuilder, Local, Ty) {
    let (mut t, pair, inner) = pair_types();
    let r = t.mut_ref(pair);
    let mut f = FnBuilder::new();
    let pl = f.param_ty("p", r);
    (t, f, pl, inner)
}

#[test]
fn moving_one_field_through_a_pointer_still_permits_reading_a_sibling_field() {
    let (t, mut f, pl, inner) = through_pointer();
    move_into_binding(&mut f, "x", inner, field(deref(p(pl)), 0));
    f.mention(field(deref(p(pl)), 1));
    definite_init_accepts(t, f.finish());
}

#[test]
fn moving_one_field_through_a_pointer_forbids_reading_that_same_field_again() {
    let (t, mut f, pl, inner) = through_pointer();
    move_into_binding(&mut f, "x", inner, field(deref(p(pl)), 0));
    f.mention(field(deref(p(pl)), 0));
    definite_init_rejects(t, f.finish(), "use of moved value `p`");
}

#[test]
fn moving_a_field_through_a_pointer_on_only_one_branch_leaves_it_dead_afterward() {
    let (mut t, mut f, pl, inner) = through_pointer();
    let b = t.bool_();
    let cond = f.param_ty("cond", b);
    if_else(&mut f, cond, |f| {
        move_into_binding(f, "q", inner, field(deref(p(pl)), 0));
    }, None);
    f.mention(field(deref(p(pl)), 0));
    definite_init_rejects(t, f.finish(), "use of moved value `p`");
}

#[test]
fn reassigning_a_field_through_a_pointer_after_moving_it_cures_it() {
    let (t, mut f, pl, inner) = through_pointer();
    move_into_binding(&mut f, "q", inner, field(deref(p(pl)), 0));
    let target = field(deref(p(pl)), 0);
    f.check_mut(target.clone());
    f.assign(target, Rvalue::Aggregate(Box::new(AggregateKind::Adt { def: DefId(1), variant: midend::mir::ids::VariantIdx(0) }), vec![int_op(2)]));
    f.mention(field(deref(p(pl)), 0));
    definite_init_accepts(t, f.finish());
}

#[test]
fn a_read_of_a_moved_value_is_reported_at_the_reading_statement_once() {
    let mut t = Types::new();
    let pt = t.adt(1);
    let mut f = FnBuilder::new();
    let pl = let_struct(&mut f, "p", false, pt, 1);
    move_into_binding(&mut f, "q", pt, p(pl));
    f.mention(p(pl));
    let (session, body) = f.finish();
    let span = body.basic_blocks[0].statements.last().unwrap().span;
    let mir = program(body);
    let diags = midend::mir::checks::borrowck::definite_init::check(&session, &t.tcx, &mir);
    assert_eq!(messages(&diags), vec!["use of moved value `p`".to_string()]);
    assert_eq!(diags[0].span, span);
}

// ---------------------------------------------------------------------------------------------
// Every path returns
// ---------------------------------------------------------------------------------------------

use midend::mir::checks::always_return;
use midend::mir::terminator::AssertMessage;

fn always_returns(built: (Session, Body)) -> bool {
    always_return::check_body(&built.1)
}

/// `tmp = a <op> b` into a fresh temporary; the temporary.
fn binop(f: &mut FnBuilder, op: midend::ast::BinaryOp, a: Operand, b: Operand) -> Local {
    let t = f.temp();
    f.assign(p(t), Rvalue::BinaryOp(op, a, b));
    t
}

/// `tmp = a <op> b` checked for overflow, asserting before continuing in the next block.
fn checked(f: &mut FnBuilder, op: midend::ast::BinaryOp, a: Operand, b: Operand) -> Local {
    let t = f.temp();
    f.assign(p(t), Rvalue::CheckedBinaryOp(op, a.clone(), b.clone()));
    let next = f.next_block(1);
    f.terminate(TerminatorKind::Assert {
        cond: copy(field(p(t), 1)),
        expected: false,
        msg: AssertMessage::Overflow(op, a, b),
        target: next,
    });
    t
}

/// `switch cond { 0 => otherwise, _ => then }`.
fn branch(f: &mut FnBuilder, cond: Local, then: BasicBlock, otherwise: BasicBlock) {
    f.terminate(TerminatorKind::SwitchInt {
        discr: copy(p(cond)),
        targets: SwitchTargets { values: vec![(0, otherwise)], otherwise: then },
    });
}

fn ret(f: &mut FnBuilder, value: Operand) {
    f.assign(p(Local(0)), Rvalue::Use(value));
    f.terminate(TerminatorKind::Return);
}

#[test]
fn a_bare_return_always_returns() {
    // fun f() -> i32 { return 1; }
    let mut f = FnBuilder::new();
    f.assign(p(Local(0)), use_int(1));
    assert!(always_returns(f.finish()));
}

#[test]
fn falling_off_the_end_of_a_unit_function_always_returns() {
    // fun f() { let x = 1; }
    let mut f = FnBuilder::new();
    let x = f.let_("x", false);
    f.live(x);
    f.assign(p(x), use_int(1));
    f.dead(x);
    assert!(always_returns(f.finish()));
}

#[test]
fn an_if_else_that_returns_in_both_arms_always_returns() {
    // fun f(x: i32) -> i32 { if x < 0 { return 0; } else { return x; } }
    let mut f = FnBuilder::new();
    let x = f.param("x");
    let t = binop(&mut f, midend::ast::BinaryOp::Lt, copy(p(x)), int_op(0));
    let (then, els) = (f.next_block(1), f.next_block(2));
    branch(&mut f, t, then, els);
    ret(&mut f, int_op(0));
    ret(&mut f, copy(p(x)));
    f.terminate(TerminatorKind::Unreachable);
    assert!(always_returns(f.finish()));
}

#[test]
fn an_if_with_no_else_that_falls_through_to_a_later_return_always_returns() {
    // fun f(x: i32) -> i32 { if x < 0 { return 0; } return x; }
    let mut f = FnBuilder::new();
    let x = f.param("x");
    let t = binop(&mut f, midend::ast::BinaryOp::Lt, copy(p(x)), int_op(0));
    let (then, rest) = (f.next_block(1), f.next_block(2));
    branch(&mut f, t, then, rest);
    ret(&mut f, int_op(0));
    ret(&mut f, copy(p(x)));
    assert!(always_returns(f.finish()));
}

#[test]
fn an_if_with_no_else_in_a_unit_function_always_returns() {
    // fun f(x: i32) { if x < 0 { return; } let y = 1; }
    let mut f = FnBuilder::new();
    let x = f.param("x");
    let t = binop(&mut f, midend::ast::BinaryOp::Lt, copy(p(x)), int_op(0));
    let (then, rest) = (f.next_block(1), f.next_block(2));
    branch(&mut f, t, then, rest);
    f.terminate(TerminatorKind::Return);
    let y = f.let_("y", false);
    f.live(y);
    f.assign(p(y), use_int(1));
    f.dead(y);
    assert!(always_returns(f.finish()));
}

#[test]
fn nested_if_else_that_returns_on_every_path_always_returns() {
    let mut f = FnBuilder::new();
    let x = f.param("x");
    let t = binop(&mut f, midend::ast::BinaryOp::Lt, copy(p(x)), int_op(0));
    let (outer_then, outer_else) = (f.next_block(1), f.next_block(4));
    branch(&mut f, t, outer_then, outer_else);
    let t2 = binop(&mut f, midend::ast::BinaryOp::Lt, copy(p(x)), int_op(-10));
    let (inner_then, inner_else) = (f.next_block(1), f.next_block(2));
    branch(&mut f, t2, inner_then, inner_else);
    ret(&mut f, int_op(-1));
    ret(&mut f, int_op(-2));
    ret(&mut f, copy(p(x)));
    f.terminate(TerminatorKind::Unreachable);
    assert!(always_returns(f.finish()));
}

#[test]
fn a_returned_if_expression_always_returns() {
    // fun f(x: i32) -> i32 { return if x < 0 { 0 } else { x }; }
    let mut f = FnBuilder::new();
    let x = f.param("x");
    let value = f.temp();
    let t = binop(&mut f, midend::ast::BinaryOp::Lt, copy(p(x)), int_op(0));
    let (then, els, join) = (f.next_block(1), f.next_block(2), f.next_block(3));
    branch(&mut f, t, then, els);
    f.assign(p(value), use_int(0));
    f.terminate(TerminatorKind::Goto { target: join });
    f.assign(p(value), Rvalue::Use(copy(p(x))));
    f.terminate(TerminatorKind::Goto { target: join });
    ret(&mut f, mov(p(value)));
    assert!(always_returns(f.finish()));
}

/// `switch discriminant(s) { 0 => .., 1 => .., _ => unreachable }`: the blocks of the two arms.
fn match_two(f: &mut FnBuilder, scrutinee: Local) -> (BasicBlock, BasicBlock, BasicBlock) {
    let d = f.temp();
    f.assign(p(d), Rvalue::Discriminant(p(scrutinee)));
    let (a, b, none) = (f.next_block(1), f.next_block(2), f.next_block(3));
    f.terminate(TerminatorKind::SwitchInt {
        discr: copy(p(d)),
        targets: SwitchTargets { values: vec![(0, a), (1, b)], otherwise: none },
    });
    (a, b, none)
}

#[test]
fn a_returned_match_over_an_enum_always_returns() {
    // return match s { .rectangle(r) => r.l * r.w, .circle(radius) => radius };
    let mut f = FnBuilder::new();
    let s = f.param("s");
    let value = f.temp();
    let _ = match_two(&mut f, s);
    let join = f.next_block(3);
    let r = f.binding("r");
    f.assign(p(r), Rvalue::Use(mov(field(proj(p(s), Projection::Downcast(midend::mir::ids::VariantIdx(0))), 0))));
    f.assign(p(value), Rvalue::BinaryOp(midend::ast::BinaryOp::Mul, copy(field(p(r), 0)), copy(field(p(r), 1))));
    f.terminate(TerminatorKind::Goto { target: join });
    let radius = f.binding("radius");
    f.assign(p(radius), Rvalue::Use(copy(field(proj(p(s), Projection::Downcast(midend::mir::ids::VariantIdx(1))), 0))));
    f.assign(p(value), Rvalue::Use(copy(p(radius))));
    f.terminate(TerminatorKind::Goto { target: join });
    f.terminate(TerminatorKind::Unreachable);
    ret(&mut f, mov(p(value)));
    assert!(always_returns(f.finish()));
}

#[test]
fn a_match_with_a_return_in_every_arm_always_returns() {
    // match s { .rectangle => { return 1; } .circle => { return 2; } } return 0;
    let mut f = FnBuilder::new();
    let s = f.param("s");
    let _ = match_two(&mut f, s);
    ret(&mut f, int_op(1));
    ret(&mut f, int_op(2));
    f.terminate(TerminatorKind::Unreachable);
    ret(&mut f, int_op(0));
    assert!(always_returns(f.finish()));
}

#[test]
fn a_while_loop_followed_by_a_return_always_returns() {
    // fun f(x: i32) -> i32 { while x > 0 { x = x - 1; } return x; }
    let mut f = FnBuilder::new();
    let x = f.param("x");
    let head = f.next_block(1);
    f.terminate(TerminatorKind::Goto { target: head });
    let t = binop(&mut f, midend::ast::BinaryOp::Gt, copy(p(x)), int_op(0));
    let (body_block, exit) = (f.next_block(1), f.next_block(3));
    branch(&mut f, t, body_block, exit);
    let d = checked(&mut f, midend::ast::BinaryOp::Sub, copy(p(x)), int_op(1));
    f.assign(p(x), Rvalue::Use(mov(field(p(d), 0))));
    f.terminate(TerminatorKind::Goto { target: head });
    ret(&mut f, copy(p(x)));
    assert!(always_returns(f.finish()));
}

#[test]
fn an_early_return_inside_a_loop_followed_by_a_later_return_always_returns() {
    let mut f = FnBuilder::new();
    let x = f.param("x");
    let head = f.next_block(1);
    f.terminate(TerminatorKind::Goto { target: head });
    let t = binop(&mut f, midend::ast::BinaryOp::Gt, copy(p(x)), int_op(0));
    let (body_block, exit) = (f.next_block(1), f.next_block(5));
    branch(&mut f, t, body_block, exit);
    let e = binop(&mut f, midend::ast::BinaryOp::Eq, copy(p(x)), int_op(5));
    let (early, rest) = (f.next_block(1), f.next_block(2));
    branch(&mut f, e, early, rest);
    ret(&mut f, int_op(5));
    let d = checked(&mut f, midend::ast::BinaryOp::Sub, copy(p(x)), int_op(1));
    f.assign(p(x), Rvalue::Use(mov(field(p(d), 0))));
    f.terminate(TerminatorKind::Goto { target: head });
    ret(&mut f, copy(p(x)));
    assert!(always_returns(f.finish()));
}

#[test]
fn checked_arithmetic_that_may_assert_still_always_returns() {
    // fun add(x: i32, y: i32) -> i32 { return x + y; }
    let mut f = FnBuilder::new();
    let x = f.param("x");
    let y = f.param("y");
    let s = checked(&mut f, midend::ast::BinaryOp::Add, copy(p(x)), copy(p(y)));
    ret(&mut f, mov(field(p(s), 0)));
    assert!(always_returns(f.finish()));
}

#[test]
fn a_recursive_function_always_returns() {
    // fun fact(n: i32) -> i32 { if n <= 1 { return 1; } return n * fact(n - 1); }
    let mut f = FnBuilder::new();
    let n = f.param("n");
    let t = binop(&mut f, midend::ast::BinaryOp::Le, copy(p(n)), int_op(1));
    let (then, rest) = (f.next_block(1), f.next_block(2));
    branch(&mut f, t, then, rest);
    ret(&mut f, int_op(1));
    let d = checked(&mut f, midend::ast::BinaryOp::Sub, copy(p(n)), int_op(1));
    let r = f.temp();
    let after = f.next_block(1);
    f.terminate(TerminatorKind::Call { func: int_op(0), args: vec![mov(field(p(d), 0))], destination: p(r), target: Some(after) });
    let m = checked(&mut f, midend::ast::BinaryOp::Mul, copy(p(n)), mov(p(r)));
    ret(&mut f, mov(field(p(m), 0)));
    assert!(always_returns(f.finish()));
}

#[test]
fn an_empty_match_that_proves_the_rest_of_the_function_unreachable_still_always_returns() {
    // fun f(x: i32) -> i32 { match x {}; }
    let mut f = FnBuilder::new();
    let x = f.param("x");
    f.mention(p(x));
    f.terminate(TerminatorKind::Unreachable);
    f.terminate(TerminatorKind::Unreachable);
    assert!(always_returns(f.finish()));
}

#[test]
fn a_function_that_only_panics_always_returns() {
    // fun f() -> i32 { panic("not implemented"); }
    let mut f = FnBuilder::new();
    let r = f.temp();
    f.terminate(TerminatorKind::Call { func: int_op(0), args: vec![int_op(0)], destination: p(r), target: None });
    f.terminate(TerminatorKind::Unreachable);
    assert!(always_returns(f.finish()));
}

#[test]
fn a_function_that_only_reaches_unreachable_always_returns() {
    // fun f() -> i32 { unreachable(); }
    let mut f = FnBuilder::new();
    let r = f.temp();
    f.terminate(TerminatorKind::Call { func: int_op(0), args: Vec::new(), destination: p(r), target: None });
    assert!(always_returns(f.finish()));
}

#[test]
fn an_exit_reached_only_from_a_cycle_the_start_never_enters_is_reported() {
    let mut f = FnBuilder::new();
    let c = f.param("c");
    f.terminate(TerminatorKind::Return);
    let (back, out) = (f.next_block(1), f.next_block(2));
    branch(&mut f, c, back, out);
    let head = BasicBlock(1);
    f.terminate(TerminatorKind::Goto { target: head });
    f.terminate(TerminatorKind::Unreachable);
    let (session, body) = f.finish();
    assert!(!always_return::check_body(&body));
    let span = body.span;
    let mir = program(body);
    let diags = always_return::check(&mir);
    assert_eq!(messages(&diags), vec!["not all paths return a value".to_string()]);
    assert_eq!(diags[0].span, span);
    drop(session);
}

// ---------------------------------------------------------------------------------------------
// Moving out of an array element
// ---------------------------------------------------------------------------------------------

use midend::typeck::AdtFields;

impl Types {
    /// A non-generic struct instance with the given field types.
    fn struct_with(&mut self, def: u32, fields: Vec<Ty>) -> Ty {
        let ty = self.adt(def);
        self.tcx.declare_adt(AdtFields { ty, variants: vec![fields], is_enum: false });
        ty
    }

    fn slice_of(&mut self, elem: Ty) -> Ty {
        self.tcx.mk(TyKind::Array { elem, len: None })
    }
}

fn element_moves_found(types: &Types, built: (Session, Body)) -> Vec<String> {
    let (session, body) = built;
    let mir = program(body);
    messages(&midend::mir::checks::borrowck::element_moves::check(&session, &types.tcx, &mir))
}

/// `let a = new [<elem>; n];` in a body with parameter `n`; the array local.
fn new_array(f: &mut FnBuilder, t: &mut Types, elem: Ty, init: Operand) -> Local {
    let n = f.param_ty("n", t.word);
    let slice = t.slice_of(elem);
    let owned = t.iso(slice);
    let a = f.let_ty("a", false, owned);
    f.live(a);
    f.assign(p(a), Rvalue::NewArray { elem: init, count: copy(p(n)) });
    a
}

fn element(a: Local, index: Local) -> Place {
    proj(deref(p(a)), Projection::Index(index))
}

#[test]
fn copying_an_array_element_is_fine() {
    // fun f(n: usize) { let a = new [1; n]; let x = (*a)[0]; let _ = x; }
    let mut t = Types::new();
    let mut f = FnBuilder::new();
    let i32_ = t.i32_;
    let a = new_array(&mut f, &mut t, i32_, int_op(1));
    let i = f.temp_ty(t.word);
    f.assign(p(i), use_int(0));
    let x = f.let_ty("x", false, i32_);
    f.live(x);
    f.assign(p(x), Rvalue::Use(copy(element(a, i))));
    f.mention(p(x));
    let found = element_moves_found(&t, f.finish());
    assert!(found.is_empty(), "got {found:?}");
}

#[test]
fn moving_a_whole_array_is_fine() {
    // fun take(a: iso [i32]) {} fun f(n: usize) { let a = new [1; n]; take(a); }
    let mut t = Types::new();
    let mut f = FnBuilder::new();
    let i32_ = t.i32_;
    let a = new_array(&mut f, &mut t, i32_, int_op(1));
    let r = f.temp();
    let next = f.next_block(1);
    f.terminate(TerminatorKind::Call { func: int_op(0), args: vec![mov(p(a))], destination: p(r), target: Some(next) });
    let found = element_moves_found(&t, f.finish());
    assert!(found.is_empty(), "got {found:?}");
}

#[test]
fn moving_an_element_that_owns_nothing_is_fine() {
    // struct Plain { v: i32 }
    // fun f(n: usize) { let a = new [Plain { v: 1 }; n]; let x = (*a)[0]; let _ = x; }
    let mut t = Types::new();
    let i32_ = t.i32_;
    let plain = t.struct_with(1, vec![i32_]);
    let mut f = FnBuilder::new();
    let a = new_array(&mut f, &mut t, plain, int_op(1));
    let i = f.temp_ty(t.word);
    f.assign(p(i), use_int(0));
    let x = f.let_ty("x", false, plain);
    f.live(x);
    f.assign(p(x), Rvalue::Use(mov(element(a, i))));
    f.mention(p(x));
    let found = element_moves_found(&t, f.finish());
    assert!(found.is_empty(), "got {found:?}");
}

/// `struct Owner { h: iso i32 } fun take(o: Owner) {} fun f(a: iso [Owner][, i: usize]) { take((*a)[..]); }`
fn owning_element_moved(computed: bool) -> Vec<String> {
    let mut t = Types::new();
    let i32_ = t.i32_;
    let handle = t.iso(i32_);
    let owner = t.struct_with(1, vec![handle]);
    let slice = t.slice_of(owner);
    let owned = t.iso(slice);
    let mut f = FnBuilder::new();
    let a = f.param_ty("a", owned);
    let index = if computed {
        let word = t.word;
        Projection::Index(f.param_ty("i", word))
    } else {
        Projection::ConstantIndex(0)
    };
    let r = f.temp();
    let next = f.next_block(1);
    f.terminate(TerminatorKind::Call {
        func: int_op(0),
        args: vec![mov(proj(deref(p(a)), index))],
        destination: p(r),
        target: Some(next),
    });
    element_moves_found(&t, f.finish())
}

#[test]
fn moving_an_owning_element_out_of_an_array_is_rejected() {
    let found = owning_element_moved(false);
    assert!(found.iter().any(|m| m == "cannot move a value out of `a`, which is an array"), "got {found:?}");
}

#[test]
fn moving_an_owning_element_at_a_computed_index_is_rejected_too() {
    let found = owning_element_moved(true);
    assert!(found.iter().any(|m| m == "cannot move a value out of `a`, which is an array"), "got {found:?}");
}

#[test]
fn an_element_owning_through_a_nested_tuple_needs_dropping_and_a_reference_does_not() {
    let mut t = Types::new();
    let i32_ = t.i32_;
    let handle = t.iso(i32_);
    let pair = t.tcx.mk(TyKind::Tuple(vec![i32_, handle]));
    let shared = t.shared_ref(handle);
    assert!(t.tcx.needs_drop(pair));
    assert!(!t.tcx.needs_drop(shared));
    assert!(!t.tcx.needs_drop(i32_));
    let owner = t.struct_with(1, vec![pair]);
    assert!(t.tcx.needs_drop(owner));
}
