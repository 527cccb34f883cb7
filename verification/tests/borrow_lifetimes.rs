use midend::ast::{Ident, Mutability, SrcSpan};
use midend::hir::DefId;
use midend::mir::body::{BasicBlockData, Body, BodyKind, LocalDecl};
use midend::mir::checks::borrowck::exclusivity;
use midend::mir::checks::borrowck::lifetimes::{compute_lifetimes, Lifetimes};
use midend::mir::def_infos::collect_def_infos;
use midend::mir::def_names::collect_def_names;
use midend::mir::ids::{BasicBlock, Local, StatementId};
use midend::mir::lower::Mir;
use midend::mir::operand::{ConstKind, Constant, Operand};
use midend::mir::place::{Place, Projection};
use midend::mir::rvalue::{AggregateKind, Rvalue};
use midend::mir::statement::{Statement, StatementKind};
use midend::mir::terminator::{Terminator, TerminatorKind};
use midend::session::Session;
use midend::nameres::res::PrimTy;
use midend::typeck::{Ty, TyCtx, TyKind};
use midend::mir::checks::borrowck::returned_reference;
use midend::ast::BinaryOp;

/// Builds one lowered body the way lowering emits it: a `let` is a `StorageLive` and an
/// assignment, `let _ = e` evaluates `e` into a fresh scrutinee, and an assignment statement
/// checks its target, writes it, and gives its own value `()` to a temporary.
struct Builder {
    session: Session,
    locals: Vec<LocalDecl>,
    blocks: Vec<BasicBlockData>,
    current: Vec<Statement>,
    params: usize,
    next_stmt: u32,
    next_span: u32,
}

impl Builder {
    fn new() -> Builder {
        let mut b = Builder {
            session: Session::new(),
            locals: Vec::new(),
            blocks: Vec::new(),
            current: Vec::new(),
            params: 0,
            next_stmt: 0,
            next_span: 0,
        };
        b.decl(None);
        b
    }

    fn span(&mut self) -> SrcSpan {
        self.next_span += 1;
        SrcSpan::new(self.next_span, self.next_span + 1)
    }

    fn decl(&mut self, name: Option<&str>) -> Local {
        self.decl_ty(name, Ty(0))
    }

    fn decl_ty(&mut self, name: Option<&str>, ty: Ty) -> Local {
        let span = self.span();
        let name = name.map(|n| Ident { text: self.session.intern(n), span });
        self.locals.push(LocalDecl { ty, name, span, mutability: Mutability::Mutable });
        Local((self.locals.len() - 1) as u32)
    }

    fn param(&mut self, name: &str) -> Local {
        let l = self.decl(Some(name));
        self.params += 1;
        l
    }

    fn temp(&mut self) -> Local {
        self.decl(None)
    }

    fn push(&mut self, kind: StatementKind) {
        let span = self.span();
        let id = StatementId(self.next_stmt);
        self.next_stmt += 1;
        self.current.push(Statement { id, kind, span });
    }

    fn assign(&mut self, place: Place, rvalue: Rvalue) {
        self.push(StatementKind::Assign(place, rvalue));
    }

    /// `let <name> = <rvalue>;`
    fn let_(&mut self, name: &str, rvalue: Rvalue) -> Local {
        let l = self.decl(Some(name));
        self.push(StatementKind::StorageLive(l));
        self.assign(p(l), rvalue);
        l
    }

    /// `let _ = <rvalue>;`
    fn discard(&mut self, rvalue: Rvalue) {
        let t = self.temp();
        self.push(StatementKind::StorageLive(t));
        self.assign(p(t), rvalue);
    }

    /// `<place> = <rvalue>;` as a statement.
    fn write(&mut self, place: Place, rvalue: Rvalue) {
        let unit = self.temp();
        self.push(StatementKind::CheckMutable(place.clone()));
        self.assign(place, rvalue);
        self.assign(p(unit), Rvalue::Aggregate(Box::new(AggregateKind::Tuple), Vec::new()));
    }

    /// `<lhs> + <rhs>` into a fresh scrutinee: `let _ = <lhs> + <rhs>;`
    fn discard_sum(&mut self, lhs: Place, rhs: Place) {
        let t = self.temp();
        self.push(StatementKind::StorageLive(t));
        let a = self.temp();
        self.assign(p(a), Rvalue::Use(Operand::Copy(lhs)));
        let b = self.temp();
        self.assign(p(b), Rvalue::Use(Operand::Copy(rhs)));
        self.assign(p(t), Rvalue::BinaryOp(BinaryOp::Add, Operand::Copy(p(a)), Operand::Copy(p(b))));
    }

    /// A method call through `receiver`, auto-borrowed as `&self` or `&mut self`, its result
    /// going to `dest`.
    fn method_call(&mut self, receiver: Place, mutable_self: bool, dest: Place) {
        let m = if mutable_self { Mutability::Mutable } else { Mutability::Immutable };
        let r = self.temp();
        self.assign(p(r), Rvalue::Ref { mutability: m, place: receiver });
        let next = BasicBlock(self.blocks.len() as u32 + 1);
        self.terminate(TerminatorKind::Call { func: int_op(0), args: vec![Operand::Move(p(r))], destination: dest, target: Some(next) });
    }

    fn terminate(&mut self, kind: TerminatorKind) {
        let span = self.span();
        let statements = std::mem::take(&mut self.current);
        self.blocks.push(BasicBlockData { statements, terminator: Terminator { kind, span } });
    }

    fn finish(mut self) -> (Session, Body) {
        self.terminate(TerminatorKind::Return);
        let body = Body {
            def_id: DefId(0),
            kind: BodyKind::Function,
            basic_blocks: self.blocks,
            local_decls: self.locals,
            param_count: self.params,
            generics: Vec::new(),
            span: SrcSpan::new(0, 0),
        };
        (self.session, body)
    }
}

fn p(l: Local) -> Place {
    Place::from_local(l)
}

fn proj(mut place: Place, step: Projection) -> Place {
    place.projections.push(step);
    place
}

fn field(place: Place, n: u32) -> Place {
    proj(place, Projection::Field(n))
}

fn deref(place: Place) -> Place {
    proj(place, Projection::Deref)
}

fn int_op(v: i128) -> Operand {
    Operand::Constant(Constant { ty: Ty(0), kind: ConstKind::Int(v) })
}

fn int_value(v: i128) -> Rvalue {
    Rvalue::Use(int_op(v))
}

fn read(place: Place) -> Rvalue {
    Rvalue::Use(Operand::Copy(place))
}

fn shared(place: Place) -> Rvalue {
    Rvalue::Ref { mutability: Mutability::Immutable, place }
}

fn unique(place: Place) -> Rvalue {
    Rvalue::Ref { mutability: Mutability::Mutable, place }
}

fn program(body: Body) -> Mir {
    let hir = midend::hir::Hir { defs: Vec::new(), parents: Vec::new() };
    let session = Session::new();
    Mir {
        bodies: vec![((DefId(0), None), body)],
        vtables: Vec::new(),
        def_infos: collect_def_infos(&hir),
        def_names: collect_def_names(&session, &hir),
        main: None,
    }
}

fn found(built: (Session, Body)) -> Vec<String> {
    let (session, body) = built;
    let mir = program(body);
    exclusivity::check(&session, &mir).iter().map(|d| d.message.clone()).collect()
}

fn accepts(built: (Session, Body)) {
    let got = found(built);
    assert!(got.is_empty(), "expected no diagnostic, got {got:?}");
}

fn rejects(built: (Session, Body), expected: &str) {
    let got = found(built);
    assert!(got.iter().any(|m| m.contains(expected)), "expected {expected:?}, got {got:?}");
}

// ---------------------------------------------------------------------------------------------
// Exclusivity
// ---------------------------------------------------------------------------------------------

#[test]
fn writing_to_a_local_with_no_live_borrows_is_fine() {
    // fun f() { let mut a = 1; a = 2; let _ = a; }
    let mut f = Builder::new();
    let a = f.let_("a", int_value(1));
    f.write(p(a), int_value(2));
    f.discard(read(p(a)));
    accepts(f.finish());
}

#[test]
fn two_shared_borrows_alive_at_once_are_fine() {
    let mut f = Builder::new();
    let a = f.param("a");
    let r = f.let_("r", shared(p(a)));
    let s = f.let_("s", shared(p(a)));
    f.discard(read(deref(p(r))));
    f.discard(read(deref(p(s))));
    accepts(f.finish());
}

#[test]
fn writing_to_a_local_while_a_shared_borrow_of_it_is_alive_is_rejected() {
    let mut f = Builder::new();
    let a = f.let_("a", int_value(1));
    let r = f.let_("r", shared(p(a)));
    f.write(p(a), int_value(2));
    f.discard(read(deref(p(r))));
    rejects(f.finish(), "cannot use `a`");
}

#[test]
fn creating_a_mutable_borrow_while_a_shared_borrow_is_alive_is_rejected() {
    let mut f = Builder::new();
    let a = f.let_("a", int_value(1));
    let r = f.let_("r", shared(p(a)));
    let s = f.let_("s", unique(p(a)));
    f.discard(read(deref(p(r))));
    f.discard(read(deref(p(s))));
    rejects(f.finish(), "cannot use `a`");
}

#[test]
fn creating_a_second_mutable_borrow_while_the_first_is_alive_is_rejected() {
    let mut f = Builder::new();
    let a = f.let_("a", int_value(1));
    let r = f.let_("r", unique(p(a)));
    let s = f.let_("s", unique(p(a)));
    f.discard(read(deref(p(r))));
    f.discard(read(deref(p(s))));
    rejects(f.finish(), "cannot use `a`");
}

#[test]
fn reading_through_a_shared_borrow_while_another_shared_borrow_is_alive_is_fine() {
    let mut f = Builder::new();
    let a = f.param("a");
    let r = f.let_("r", shared(p(a)));
    let s = f.let_("s", shared(p(a)));
    f.discard_sum(deref(p(r)), deref(p(s)));
    accepts(f.finish());
}

#[test]
fn using_a_mutable_borrow_after_its_prior_use_is_over_is_fine() {
    let mut f = Builder::new();
    let a = f.let_("a", int_value(1));
    let r = f.let_("r", unique(p(a)));
    f.discard(read(deref(p(r))));
    f.write(p(a), int_value(2));
    f.discard(read(p(a)));
    accepts(f.finish());
}

/// `struct P { x: i32, y: i32 } fun f(p: P[, q: P]) { let mut p = p; ... }`: the parameter, its
/// shadowing binding, and the second parameter when asked for.
fn rebound_struct(f: &mut Builder, second: bool) -> (Local, Option<Local>) {
    let original = f.param("p");
    let q = if second { Some(f.param("q")) } else { None };
    let rebound = f.let_("p", Rvalue::Use(Operand::Move(p(original))));
    (rebound, q)
}

#[test]
fn borrowing_two_disjoint_fields_mutably_at_once_is_fine() {
    let mut f = Builder::new();
    let (pl, _) = rebound_struct(&mut f, false);
    let rx = f.let_("rx", unique(field(p(pl), 0)));
    let ry = f.let_("ry", unique(field(p(pl), 1)));
    f.discard(read(deref(p(rx))));
    f.discard(read(deref(p(ry))));
    accepts(f.finish());
}

#[test]
fn writing_to_one_field_while_a_mutable_borrow_of_that_same_field_is_alive_is_rejected() {
    let mut f = Builder::new();
    let (pl, _) = rebound_struct(&mut f, false);
    let r = f.let_("r", unique(field(p(pl), 0)));
    f.write(field(p(pl), 0), int_value(5));
    f.discard(read(deref(p(r))));
    rejects(f.finish(), "cannot use `p`");
}

#[test]
fn writing_to_a_whole_struct_while_one_field_is_mutably_borrowed_is_rejected() {
    let mut f = Builder::new();
    let (pl, q) = rebound_struct(&mut f, true);
    let r = f.let_("r", unique(field(p(pl), 0)));
    f.write(p(pl), Rvalue::Use(Operand::Move(p(q.unwrap()))));
    f.discard(read(deref(p(r))));
    rejects(f.finish(), "cannot use `p`");
}

#[test]
fn reading_a_field_through_a_shared_pointer_with_no_live_borrows_is_fine() {
    // struct S { x: i32 } fun f(p: &S) -> i32 { return (*p).x; }
    let mut f = Builder::new();
    let pl = f.param("p");
    f.assign(p(Local(0)), read(field(deref(p(pl)), 0)));
    accepts(f.finish());
}

#[test]
fn writing_a_field_through_a_mutable_pointer_with_no_live_borrows_is_fine() {
    let mut f = Builder::new();
    let pl = f.param("p");
    f.write(field(deref(p(pl)), 0), int_value(5));
    accepts(f.finish());
}

#[test]
fn two_shared_borrows_of_the_same_field_through_a_pointer_are_fine() {
    let mut f = Builder::new();
    let pl = f.param("p");
    let r = f.let_("r", shared(field(deref(p(pl)), 0)));
    let s = f.let_("s", shared(field(deref(p(pl)), 0)));
    f.discard_sum(deref(p(r)), deref(p(s)));
    accepts(f.finish());
}

#[test]
fn borrowing_two_disjoint_fields_through_a_pointer_mutably_at_once_is_fine() {
    let mut f = Builder::new();
    let pl = f.param("p");
    let rx = f.let_("rx", unique(field(deref(p(pl)), 0)));
    let ry = f.let_("ry", unique(field(deref(p(pl)), 1)));
    f.discard(read(deref(p(rx))));
    f.discard(read(deref(p(ry))));
    accepts(f.finish());
}

#[test]
fn mutably_borrowing_a_field_through_a_pointer_while_a_shared_borrow_of_it_is_alive_is_rejected() {
    let mut f = Builder::new();
    let pl = f.param("p");
    let r = f.let_("r", shared(field(deref(p(pl)), 0)));
    let s = f.let_("s", unique(field(deref(p(pl)), 0)));
    f.discard(read(deref(p(r))));
    f.discard(read(deref(p(s))));
    rejects(f.finish(), "cannot use `p`");
}

#[test]
fn writing_a_field_through_a_pointer_while_a_shared_borrow_of_that_field_is_alive_is_rejected() {
    let mut f = Builder::new();
    let pl = f.param("p");
    let r = f.let_("r", shared(field(deref(p(pl)), 0)));
    f.write(field(deref(p(pl)), 0), int_value(5));
    f.discard(read(deref(p(r))));
    rejects(f.finish(), "cannot use `p`");
}

#[test]
fn an_immutable_reborrow_of_the_whole_pointee_conflicts_with_writing_one_of_its_fields() {
    let mut f = Builder::new();
    let pl = f.param("p");
    let r = f.let_("r", shared(deref(p(pl))));
    f.write(field(deref(p(pl)), 0), int_value(5));
    f.discard(read(field(deref(p(r)), 0)));
    rejects(f.finish(), "cannot use `p`");
}

#[test]
fn a_mutable_reborrow_of_the_whole_pointee_conflicts_with_reading_one_of_its_fields() {
    let mut f = Builder::new();
    let pl = f.param("p");
    let r = f.let_("r", unique(deref(p(pl))));
    let v = f.let_("v", read(field(deref(p(pl)), 0)));
    f.discard(read(field(deref(p(r)), 0)));
    f.assign(p(Local(0)), read(p(v)));
    rejects(f.finish(), "cannot use `p`");
}

#[test]
fn a_mutable_borrow_of_a_field_conflicts_with_a_mutable_reborrow_of_the_whole_pointee() {
    let mut f = Builder::new();
    let pl = f.param("p");
    let r = f.let_("r", unique(field(deref(p(pl)), 0)));
    let s = f.let_("s", unique(deref(p(pl))));
    f.discard(read(deref(p(r))));
    f.discard(read(field(deref(p(s)), 0)));
    rejects(f.finish(), "cannot use `p`");
}

#[test]
fn two_immutable_reborrows_of_the_whole_pointee_are_fine() {
    let mut f = Builder::new();
    let pl = f.param("p");
    let q = f.let_("q", shared(deref(p(pl))));
    let a = f.temp();
    f.assign(p(a), read(field(deref(p(pl)), 0)));
    let b = f.temp();
    f.assign(p(b), read(field(deref(p(q)), 0)));
    f.assign(p(Local(0)), Rvalue::BinaryOp(BinaryOp::Add, Operand::Copy(p(a)), Operand::Copy(p(b))));
    accepts(f.finish());
}

#[test]
fn a_ref_self_call_through_a_pointer_is_fine_with_another_shared_borrow_alive() {
    let mut f = Builder::new();
    let pl = f.param("p");
    let r = f.let_("r", shared(field(deref(p(pl)), 0)));
    let v = f.decl(Some("v"));
    f.push(StatementKind::StorageLive(v));
    f.method_call(deref(p(pl)), false, p(v));
    let t = f.temp();
    f.assign(p(t), read(deref(p(r))));
    f.assign(p(Local(0)), Rvalue::BinaryOp(BinaryOp::Add, Operand::Copy(p(v)), Operand::Copy(p(t))));
    accepts(f.finish());
}

#[test]
fn a_mut_self_call_through_a_pointer_reborrows_the_whole_pointee_and_conflicts_with_a_live_field_borrow() {
    let mut f = Builder::new();
    let pl = f.param("p");
    let r = f.let_("r", shared(field(deref(p(pl)), 0)));
    let unit = f.temp();
    f.method_call(deref(p(pl)), true, p(unit));
    f.discard(read(deref(p(r))));
    rejects(f.finish(), "cannot use `p`");
}

#[test]
fn a_ref_self_call_through_a_pointer_conflicts_with_a_live_mutable_field_borrow() {
    let mut f = Builder::new();
    let pl = f.param("p");
    let r = f.let_("r", unique(field(deref(p(pl)), 0)));
    let v = f.decl(Some("v"));
    f.push(StatementKind::StorageLive(v));
    f.method_call(deref(p(pl)), false, p(v));
    f.discard(read(deref(p(r))));
    f.assign(p(Local(0)), read(p(v)));
    rejects(f.finish(), "cannot use `p`");
}

#[test]
fn a_mut_self_call_through_a_pointer_is_fine_once_the_earlier_borrow_is_over() {
    let mut f = Builder::new();
    let pl = f.param("p");
    let r = f.let_("r", shared(field(deref(p(pl)), 0)));
    f.discard(read(deref(p(r))));
    let unit = f.temp();
    f.method_call(deref(p(pl)), true, p(unit));
    accepts(f.finish());
}

#[test]
fn a_conflict_on_an_unnamed_temporary_is_not_reported() {
    let mut f = Builder::new();
    let t = f.temp();
    f.assign(p(t), int_value(1));
    let r = f.let_("r", shared(p(t)));
    f.write(p(t), int_value(2));
    f.discard(read(deref(p(r))));
    accepts(f.finish());
}

#[test]
fn every_conflicting_access_is_reported_once() {
    // Two writes while one shared borrow is alive: two reports.
    let mut f = Builder::new();
    let a = f.let_("a", int_value(1));
    let r = f.let_("r", shared(p(a)));
    f.write(p(a), int_value(2));
    f.write(p(a), int_value(3));
    f.discard(read(deref(p(r))));
    let got = found(f.finish());
    assert_eq!(got, vec!["cannot use `a` while it is borrowed".to_string(), "cannot use `a` while it is borrowed".to_string()]);
}

// ---------------------------------------------------------------------------------------------
// Lifetimes
// ---------------------------------------------------------------------------------------------

fn lifetimes_of(built: &(Session, Body)) -> Lifetimes {
    compute_lifetimes(&built.1)
}

fn range_in(lt: &Lifetimes, block: usize, alias: usize) -> (usize, usize) {
    lt.live_ranges[block][alias].expect("the alias is live somewhere in the block")
}

fn name_of(built: &(Session, Body), local: Local) -> Option<String> {
    built.1.local_decls[local.0 as usize].name.map(|n| built.0.resolve(n.text).to_string())
}

#[test]
fn a_borrow_used_once_right_after_its_birth_is_alive_for_exactly_those_two_statements() {
    // fun f(a: i32) { let r = &a; let _ = *r; }
    let mut f = Builder::new();
    let a = f.param("a");
    let r = f.let_("r", shared(p(a)));
    f.discard(read(deref(p(r))));
    let built = f.finish();
    let lt = lifetimes_of(&built);
    assert_eq!(lt.aliases.len(), 1);
    let alias = &lt.aliases[0];
    assert!(!alias.with_lend);
    assert_eq!(alias.kind, Mutability::Immutable);
    let (start, end) = range_in(&lt, 0, 0);
    assert_eq!(end - start, 2);
}

#[test]
fn a_borrow_never_used_again_dies_right_after_its_birth_statement() {
    let mut f = Builder::new();
    let a = f.param("a");
    f.let_("r", shared(p(a)));
    f.discard(int_value(1));
    f.discard(int_value(2));
    let built = f.finish();
    let lt = lifetimes_of(&built);
    let (start, end) = range_in(&lt, 0, 0);
    assert_eq!(end - start, 1);
}

#[test]
fn a_with_lend_alias_stays_alive_through_the_end_of_the_with_block_with_no_more_uses() {
    // fun f(a: i32) { with r = &a { let _ = *r; let _ = 1; let _ = 2; } }
    let mut f = Builder::new();
    let a = f.param("a");
    let r = f.decl(Some("r"));
    f.push(StatementKind::StorageLive(r));
    f.push(StatementKind::WithLend(r));
    f.assign(p(r), shared(p(a)));
    f.discard(read(deref(p(r))));
    f.discard(int_value(1));
    f.discard(int_value(2));
    f.push(StatementKind::StorageDead(r));
    let built = f.finish();
    let lt = lifetimes_of(&built);
    let index = lt.aliases.iter().position(|alias| alias.with_lend).expect("the with lend produced a with-scoped alias");
    let (start, end) = range_in(&lt, 0, index);
    assert!(end - start > 2);
}

#[test]
fn a_shared_borrow_copied_into_another_local_attaches_to_both() {
    let mut f = Builder::new();
    let a = f.param("a");
    let r = f.let_("r", shared(p(a)));
    let s = f.let_("s", Rvalue::Use(Operand::Copy(p(r))));
    f.discard(read(deref(p(r))));
    f.discard(read(deref(p(s))));
    let built = f.finish();
    let lt = lifetimes_of(&built);
    let alias = &lt.aliases[0];
    assert_eq!(alias.attached.len(), 2);
    let mut names: Vec<String> = alias.attached.iter().filter_map(|reg| name_of(&built, reg.owner)).collect();
    names.sort();
    assert_eq!(names, vec!["r".to_string(), "s".to_string()]);
}

#[test]
fn a_mutable_borrow_moved_into_another_local_transfers_rather_than_duplicates() {
    let mut f = Builder::new();
    let a0 = f.param("a");
    let a = f.let_("a", read(p(a0)));
    let r = f.let_("r", unique(p(a)));
    let s = f.let_("s", Rvalue::Use(Operand::Move(p(r))));
    f.discard(read(deref(p(s))));
    let built = f.finish();
    let lt = lifetimes_of(&built);
    let alias = &lt.aliases[0];
    assert_eq!(alias.kind, Mutability::Mutable);
    assert_eq!(alias.attached.len(), 2);
}

#[test]
fn a_borrow_of_one_struct_field_is_tracked_as_a_field_precise_alias() {
    let mut f = Builder::new();
    let pl = f.param("p");
    let r = f.let_("r", shared(field(p(pl), 0)));
    f.discard(read(deref(p(r))));
    let built = f.finish();
    let lt = lifetimes_of(&built);
    assert_eq!(lt.aliases.len(), 1);
    assert!(!lt.aliases[0].borrows.subregister.is_empty());
}

#[test]
fn borrows_of_disjoint_struct_fields_are_independent_aliases() {
    let mut f = Builder::new();
    let pl = f.param("p");
    let rx = f.let_("rx", shared(field(p(pl), 0)));
    let ry = f.let_("ry", shared(field(p(pl), 1)));
    f.discard(read(deref(p(rx))));
    f.discard(read(deref(p(ry))));
    let built = f.finish();
    let lt = lifetimes_of(&built);
    assert_eq!(lt.aliases.len(), 2);
    assert_ne!(lt.aliases[0].borrows.subregister, lt.aliases[1].borrows.subregister);
}

#[test]
fn a_borrow_of_an_array_element_is_still_tracked_but_collapses_to_the_whole_array() {
    let mut f = Builder::new();
    let a = f.param("a");
    let i = f.param("i");
    let r = f.let_("r", shared(proj(p(a), Projection::Index(i))));
    f.discard(read(deref(p(r))));
    let built = f.finish();
    let lt = lifetimes_of(&built);
    assert_eq!(lt.aliases.len(), 1);
    assert!(lt.aliases[0].borrows.subregister.is_empty());
}

#[test]
fn borrows_of_two_different_array_elements_are_not_told_apart() {
    let mut f = Builder::new();
    let a = f.param("a");
    let i = f.param("i");
    let j = f.param("j");
    let rx = f.let_("rx", shared(proj(p(a), Projection::Index(i))));
    let ry = f.let_("ry", shared(proj(p(a), Projection::Index(j))));
    f.discard(read(deref(p(rx))));
    f.discard(read(deref(p(ry))));
    let built = f.finish();
    let lt = lifetimes_of(&built);
    assert_eq!(lt.aliases.len(), 2);
    assert_eq!(lt.aliases[0].borrows.owner, lt.aliases[1].borrows.owner);
    assert_eq!(lt.aliases[0].borrows.subregister, lt.aliases[1].borrows.subregister);
}

#[test]
fn a_literal_array_index_is_more_precise_than_a_variable_one() {
    let mut f = Builder::new();
    let a = f.param("a");
    let rx = f.let_("rx", shared(proj(p(a), Projection::ConstantIndex(0))));
    let ry = f.let_("ry", shared(proj(p(a), Projection::ConstantIndex(1))));
    f.discard(read(deref(p(rx))));
    f.discard(read(deref(p(ry))));
    let built = f.finish();
    let lt = lifetimes_of(&built);
    assert_ne!(lt.aliases[0].borrows.subregister, lt.aliases[1].borrows.subregister);
}

#[test]
fn a_borrow_used_in_a_later_block_is_live_in_both() {
    // bb0: r = &a; goto bb1
    // bb1: let _ = *r; return
    let mut f = Builder::new();
    let a = f.param("a");
    let r = f.let_("r", shared(p(a)));
    f.terminate(TerminatorKind::Goto { target: BasicBlock(1) });
    f.discard(read(deref(p(r))));
    let built = f.finish();
    let lt = lifetimes_of(&built);
    assert_eq!(lt.aliases.len(), 1);
    assert_eq!(lt.live_ranges[0][0], Some((2, 3)), "from its birth to the end of the first block");
    assert_eq!(lt.live_ranges[1][0], Some((0, 2)), "up to its use in the second block");
}

#[test]
fn a_borrow_from_before_a_loop_is_not_held_past_the_loop_head() {
    // bb0: r = &a; goto bb1
    // bb1: switch c -> bb3 | bb2
    // bb2: let _ = *r; goto bb1
    // bb3: return
    // The loop head keeps only what every predecessor's exit agrees on, and the least solution
    // has the back edge hold nothing, so the body's read through `r` uses no alias.
    let mut f = Builder::new();
    let a = f.param("a");
    let c = f.param("c");
    let r = f.let_("r", shared(p(a)));
    f.terminate(TerminatorKind::Goto { target: BasicBlock(1) });
    f.terminate(TerminatorKind::SwitchInt {
        discr: Operand::Copy(p(c)),
        targets: midend::mir::terminator::SwitchTargets { values: vec![(0, BasicBlock(3))], otherwise: BasicBlock(2) },
    });
    f.discard(read(deref(p(r))));
    f.terminate(TerminatorKind::Goto { target: BasicBlock(1) });
    let built = f.finish();
    let lt = lifetimes_of(&built);
    assert_eq!(lt.aliases.len(), 1);
    assert_eq!(lt.live_ranges[0][0], Some((2, 3)), "live only right after its birth");
    assert!(lt.live_ranges[1][0].is_none());
    assert!(lt.live_ranges[2][0].is_none());
    assert_eq!(lt.aliases[0].attached.len(), 1);
}

// ---------------------------------------------------------------------------------------------
// Returned references
// ---------------------------------------------------------------------------------------------

/// `i32` is `Ty(0)` and `&i32` is `Ty(1)`.
fn reference_types() -> TyCtx {
    let mut tcx = TyCtx::new();
    let i32_ = tcx.mk(TyKind::Primitive(PrimTy::I32));
    tcx.mk(TyKind::Ref { base: i32_, mutability: Mutability::Immutable });
    tcx
}

fn ref_ty() -> Ty {
    Ty(1)
}

/// A body returning `&i32`.
fn returning_ref() -> Builder {
    let mut f = Builder::new();
    f.locals[0].ty = ref_ty();
    f
}

fn rr_found(built: (Session, Body)) -> Vec<String> {
    let (session, body) = built;
    let tcx = reference_types();
    let mir = program(body);
    returned_reference::check(&session, &tcx, &mir).iter().map(|d| d.message.clone()).collect()
}

fn rr_accepts(built: (Session, Body)) {
    let got = rr_found(built);
    assert!(got.is_empty(), "expected no diagnostic, got {got:?}");
}

fn rr_rejects(built: (Session, Body), expected: &str) {
    let got = rr_found(built);
    assert!(got.iter().any(|m| m.contains(expected)), "expected {expected:?}, got {got:?}");
}

fn ret() -> Place {
    p(Local(0))
}

fn give(place: Place) -> Rvalue {
    Rvalue::Use(Operand::Move(place))
}

/// A call of some function with `args`, its result going to `dest`, continuing in the next block.
fn call(f: &mut Builder, args: Vec<Operand>, dest: Place) {
    let next = BasicBlock(f.blocks.len() as u32 + 1);
    f.terminate(TerminatorKind::Call { func: int_op(0), args, destination: dest, target: Some(next) });
}

#[test]
fn returning_a_borrow_of_a_local_is_rejected() {
    // fun f() -> &i32 { let x = 5; return &x; }
    let mut f = returning_ref();
    let x = f.let_("x", int_value(5));
    f.assign(ret(), shared(p(x)));
    rr_rejects(f.finish(), "cannot return a reference to `x`");
}

#[test]
fn returning_a_local_that_holds_a_borrow_of_another_local_is_rejected() {
    let mut f = returning_ref();
    let x = f.let_("x", int_value(5));
    let r = f.decl_ty(Some("r"), ref_ty());
    f.push(StatementKind::StorageLive(r));
    f.assign(p(r), shared(p(x)));
    f.assign(ret(), give(p(r)));
    rr_rejects(f.finish(), "cannot return a reference to `x`");
}

#[test]
fn returning_a_borrow_of_a_temporary_is_rejected() {
    // fun f() -> &i32 { return &5; }
    let mut f = returning_ref();
    let t = f.temp();
    f.assign(p(t), int_value(5));
    f.assign(ret(), shared(p(t)));
    rr_rejects(f.finish(), "cannot return a reference to a local variable");
}

#[test]
fn returning_a_reborrow_through_a_local_reference_is_rejected() {
    let mut f = returning_ref();
    let x = f.let_("x", int_value(5));
    let r = f.let_("r", shared(p(x)));
    f.assign(ret(), shared(deref(p(r))));
    rr_rejects(f.finish(), "cannot return a reference to a local variable");
}

#[test]
fn returning_a_reborrow_through_a_chain_of_local_references_is_rejected() {
    let mut f = returning_ref();
    let x = f.let_("x", int_value(5));
    let r = f.let_("r", shared(p(x)));
    let s = f.let_("s", shared(deref(p(r))));
    f.assign(ret(), shared(deref(p(s))));
    rr_rejects(f.finish(), "cannot return a reference to a local variable");
}

#[test]
fn returning_a_reference_parameter_is_fine() {
    // fun f(p: &i32) -> &i32 { return p; }
    let mut f = returning_ref();
    let pl = f.param("p");
    f.assign(ret(), give(p(pl)));
    rr_accepts(f.finish());
    // fun f(p: &i32) -> &i32 { let r = p; return r; }
    let mut f = returning_ref();
    let pl = f.param("p");
    let r = f.let_("r", give(p(pl)));
    f.assign(ret(), give(p(r)));
    rr_accepts(f.finish());
}

#[test]
fn returning_a_field_of_a_reference_parameter_is_fine() {
    // struct S { x: i32 } fun f(p: &S) -> &i32 { return &p.x; }
    let mut f = returning_ref();
    let pl = f.param("p");
    f.assign(ret(), shared(field(deref(p(pl)), 0)));
    rr_accepts(f.finish());
}

#[test]
fn returning_a_reborrow_of_a_reference_parameter_is_fine() {
    let mut f = returning_ref();
    let pl = f.param("p");
    f.assign(ret(), shared(deref(p(pl))));
    rr_accepts(f.finish());
}

#[test]
fn returning_a_reborrow_through_a_local_bound_to_a_parameter_is_fine() {
    // fun f(p: &i32) -> &i32 { let r = p; return &*r; }
    let mut f = returning_ref();
    let pl = f.param("p");
    let r = f.let_("r", give(p(pl)));
    f.assign(ret(), shared(deref(p(r))));
    rr_accepts(f.finish());
    // struct S { x: i32 } fun f(p: &S) -> &i32 { let r = p; return &r.x; }
    let mut f = returning_ref();
    let pl = f.param("p");
    let r = f.let_("r", give(p(pl)));
    f.assign(ret(), shared(field(deref(p(r)), 0)));
    rr_accepts(f.finish());
}

/// `if c { <then> } else { <otherwise> }` with each arm returning: bb0 switches on `c`, bb1 is
/// the `then` arm, bb2 the other; `then` and `otherwise` fill each arm's block.
fn two_paths(f: &mut Builder, c: Local, then: impl FnOnce(&mut Builder), otherwise: impl FnOnce(&mut Builder)) {
    f.terminate(TerminatorKind::SwitchInt {
        discr: Operand::Copy(p(c)),
        targets: midend::mir::terminator::SwitchTargets { values: vec![(0, BasicBlock(2))], otherwise: BasicBlock(1) },
    });
    then(f);
    f.terminate(TerminatorKind::Return);
    otherwise(f);
}

#[test]
fn a_local_borrow_on_one_return_path_is_rejected_even_when_another_path_is_fine() {
    let mut f = returning_ref();
    let c = f.param("c");
    let pl = f.param("p");
    two_paths(
        &mut f,
        c,
        |f| {
            let x = f.let_("x", int_value(5));
            f.assign(ret(), shared(p(x)));
        },
        |f| f.assign(ret(), give(p(pl))),
    );
    rr_rejects(f.finish(), "cannot return a reference to `x`");
}

#[test]
fn a_local_borrow_on_an_early_return_path_is_rejected() {
    let mut f = returning_ref();
    let c = f.param("c");
    let pl = f.param("p");
    two_paths(
        &mut f,
        c,
        |f| f.assign(ret(), give(p(pl))),
        |f| {
            let x = f.let_("x", int_value(7));
            f.assign(ret(), shared(p(x)));
        },
    );
    rr_rejects(f.finish(), "cannot return a reference to `x`");
}

#[test]
fn every_return_path_may_hand_back_a_reference_parameter() {
    let mut f = returning_ref();
    let c = f.param("c");
    let pl = f.param("p");
    let q = f.param("q");
    two_paths(&mut f, c, |f| f.assign(ret(), give(p(pl))), |f| f.assign(ret(), give(p(q))));
    rr_accepts(f.finish());
}

/// `let local = 5;` then a temporary holding `&local`, as a call's argument.
fn borrow_of_local(f: &mut Builder) -> Local {
    let local = f.let_("local", int_value(5));
    let t = f.decl_ty(None, ref_ty());
    f.assign(p(t), shared(p(local)));
    t
}

#[test]
fn returning_a_call_result_that_projects_a_local_argument_is_rejected() {
    // fun bar() -> &i32 { let local = 5; return foo(&local); }
    let mut f = returning_ref();
    let t = borrow_of_local(&mut f);
    call(&mut f, vec![Operand::Move(p(t))], ret());
    rr_rejects(f.finish(), "cannot return a reference to a local variable");
}

#[test]
fn returning_a_call_result_stored_in_a_local_is_rejected() {
    // fun bar() -> &i32 { let local = 5; let r = foo(&local); return r; }
    let mut f = returning_ref();
    let t = borrow_of_local(&mut f);
    let r = f.decl_ty(Some("r"), ref_ty());
    f.push(StatementKind::StorageLive(r));
    call(&mut f, vec![Operand::Move(p(t))], p(r));
    f.assign(ret(), give(p(r)));
    rr_rejects(f.finish(), "cannot return a reference to a local variable");
}

#[test]
fn returning_a_call_result_through_a_local_reference_is_rejected() {
    let mut f = returning_ref();
    let t = borrow_of_local(&mut f);
    let r = f.decl_ty(Some("r"), ref_ty());
    f.push(StatementKind::StorageLive(r));
    call(&mut f, vec![Operand::Move(p(t))], p(r));
    f.assign(ret(), shared(deref(p(r))));
    rr_rejects(f.finish(), "cannot return a reference to a local variable");
}

#[test]
fn a_call_result_that_is_not_returned_is_fine() {
    // fun bar(p: &i32) -> i32 { let local = 5; let r = foo(&local); return *r + *p; }
    let mut f = Builder::new();
    let pl = f.param("p");
    let t = borrow_of_local(&mut f);
    let r = f.decl_ty(Some("r"), ref_ty());
    f.push(StatementKind::StorageLive(r));
    call(&mut f, vec![Operand::Move(p(t))], p(r));
    let a = f.temp();
    f.assign(p(a), read(deref(p(r))));
    let b = f.temp();
    f.assign(p(b), read(deref(p(pl))));
    f.assign(ret(), Rvalue::BinaryOp(BinaryOp::Add, Operand::Copy(p(a)), Operand::Copy(p(b))));
    rr_accepts(f.finish());
}

#[test]
fn passing_a_reference_parameter_through_a_call_is_fine() {
    // fun bar(p: &i32) -> &i32 { return foo(p); }
    let mut f = returning_ref();
    let pl = f.param("p");
    call(&mut f, vec![Operand::Move(p(pl))], ret());
    rr_accepts(f.finish());
}

#[test]
fn passing_a_local_to_a_call_that_may_return_a_different_argument_is_conservatively_rejected() {
    // fun bar(p: &i32) -> &i32 { let local = 5; return foo(&local, p); }
    let mut f = returning_ref();
    let pl = f.param("p");
    let t = borrow_of_local(&mut f);
    call(&mut f, vec![Operand::Move(p(t)), Operand::Move(p(pl))], ret());
    rr_rejects(f.finish(), "cannot return a reference to a local variable");
}

#[test]
fn returning_a_call_result_of_an_unknown_callee_with_a_local_argument_is_rejected() {
    // fun bar() -> &i32 { let local = 5; return apply(|x: &i32| -> &i32 { return x; }, &local); }
    let mut f = returning_ref();
    let closure = f.temp();
    f.assign(p(closure), Rvalue::Aggregate(Box::new(AggregateKind::Closure { def: DefId(7), args: Vec::new() }), Vec::new()));
    let t = borrow_of_local(&mut f);
    call(&mut f, vec![Operand::Move(p(closure)), Operand::Move(p(t))], ret());
    rr_rejects(f.finish(), "cannot return a reference to a local variable");
}

#[test]
fn a_returned_local_borrow_is_reported_at_the_borrow() {
    let mut f = returning_ref();
    let x = f.let_("x", int_value(5));
    f.assign(ret(), shared(p(x)));
    let (session, body) = f.finish();
    let span = body.basic_blocks[0].statements[2].span;
    let tcx = reference_types();
    let diags = returned_reference::check(&session, &tcx, &program(body));
    assert_eq!(diags.len(), 1);
    assert_eq!(diags[0].message, "cannot return a reference to `x`");
    assert_eq!(diags[0].span, span);
}

#[test]
fn a_tainted_return_place_is_reported_at_the_first_return() {
    let mut f = returning_ref();
    let t = borrow_of_local(&mut f);
    call(&mut f, vec![Operand::Move(p(t))], ret());
    let (session, body) = f.finish();
    let span = body.basic_blocks[1].terminator.span;
    let tcx = reference_types();
    let diags = returned_reference::check(&session, &tcx, &program(body));
    assert_eq!(diags.len(), 1);
    assert_eq!(diags[0].message, "cannot return a reference to a local variable");
    assert_eq!(diags[0].span, span);
}
