use midend::ast::{BinaryOp, Ident, Mutability, Path, SrcSpan};
use midend::hir::{DefId, ExtendDef, FunctionDef, Hir, HirId, ModuleDef, OwnerNode, StructDef, TraitDef};
use midend::mir::body::{BasicBlockData, Body, BodyKind, LocalDecl};
use midend::mir::def_infos::collect_def_infos;
use midend::mir::def_names::collect_def_names;
use midend::mir::drop_elaboration::elaborate_drops;
use midend::mir::ids::{BasicBlock, Local, StatementId};
use midend::mir::instance::Instance;
use midend::mir::lower::Mir;
use midend::mir::monomorphize::{monomorphize, MonoError};
use midend::mir::operand::{ConstKind, Constant, FunRef, Operand};
use midend::mir::place::Place;
use midend::mir::rvalue::{AggregateKind, CastKind, Rvalue};
use midend::mir::statement::{Statement, StatementKind};
use midend::mir::terminator::{Terminator, TerminatorKind};
use midend::mir::vtables::VtableInfo;
use midend::nameres::res::PrimTy;
use midend::session::Session;
use midend::typeck::{Ty, TyCtx, TyKind};

/// The definitions of a fixture program, root module first.
struct Defs {
    session: Session,
    hir: Hir,
}

impl Defs {
    fn new() -> Defs {
        let mut d = Defs { session: Session::new(), hir: Hir { defs: Vec::new(), parents: Vec::new() } };
        d.add(OwnerNode::Module(ModuleDef { path: Path { segments: Vec::new() } }), None);
        d
    }

    fn ident(&mut self, name: &str) -> Ident {
        Ident { text: self.session.intern(name), span: SrcSpan::new(0, 1) }
    }

    fn add(&mut self, node: OwnerNode, parent: Option<DefId>) -> DefId {
        self.hir.defs.push(node);
        self.hir.parents.push(parent);
        DefId((self.hir.defs.len() - 1) as u32)
    }

    fn next(&self) -> DefId {
        DefId(self.hir.defs.len() as u32)
    }

    /// A function under `parent` declaring `n` generics, which it returns too.
    fn function(&mut self, name: &str, n: u32, parent: DefId) -> (DefId, Vec<HirId>) {
        let owner = self.next();
        let generics: Vec<HirId> = (0..n).map(|i| HirId { owner, local_id: i + 1 }).collect();
        let name = self.ident(name);
        let def = self.add(OwnerNode::Function(FunctionDef { name, generics: generics.clone() }), Some(parent));
        (def, generics)
    }

    fn struct_(&mut self, name: &str, n: u32) -> (DefId, Vec<HirId>) {
        let owner = self.next();
        let generics: Vec<HirId> = (0..n).map(|i| HirId { owner, local_id: i + 1 }).collect();
        let name = self.ident(name);
        let def = self.add(OwnerNode::Struct(StructDef { name, generics: generics.clone() }), Some(DefId(0)));
        (def, generics)
    }

    fn trait_(&mut self, name: &str, n: u32) -> (DefId, Vec<HirId>) {
        let owner = self.next();
        let generics: Vec<HirId> = (0..n).map(|i| HirId { owner, local_id: i + 1 }).collect();
        let name = self.ident(name);
        let def = self.add(OwnerNode::Trait(TraitDef { name, generics: generics.clone(), functions: Vec::new() }), Some(DefId(0)));
        (def, generics)
    }

    fn trait_method(&mut self, trait_: DefId, name: &str) -> DefId {
        let (method, _) = self.function(name, 0, trait_);
        if let OwnerNode::Trait(t) = &mut self.hir.defs[trait_.0 as usize] {
            t.functions.push(method);
        }
        method
    }

    fn extend(&mut self, n: u32) -> (DefId, Vec<HirId>) {
        let owner = self.next();
        let generics: Vec<HirId> = (0..n).map(|i| HirId { owner, local_id: i + 1 }).collect();
        let def = self.add(OwnerNode::Extend(ExtendDef { extend_generics: generics.clone(), methods: Vec::new() }), Some(DefId(0)));
        (def, generics)
    }

    fn extend_method(&mut self, block: DefId, name: &str) -> DefId {
        let (method, _) = self.function(name, 0, block);
        if let OwnerNode::Extend(x) = &mut self.hir.defs[block.0 as usize] {
            x.methods.push(method);
        }
        method
    }

    fn closure(&mut self, parent: DefId) -> DefId {
        self.add(OwnerNode::Closure, Some(parent))
    }

    fn program(&self, bodies: Vec<Body>, vtables: Vec<((Ty, DefId), VtableInfo)>, main: Option<DefId>) -> Mir {
        Mir {
            bodies: bodies.into_iter().map(|b| ((b.def_id, None), b)).collect(),
            vtables,
            def_infos: collect_def_infos(&self.hir),
            def_names: collect_def_names(&self.session, &self.hir),
            main,
        }
    }
}

/// Builds one body block by block.
struct Fn {
    def: DefId,
    kind: BodyKind,
    locals: Vec<LocalDecl>,
    params: usize,
    blocks: Vec<BasicBlockData>,
    current: Vec<Statement>,
    next_stmt: u32,
}

impl Fn {
    fn new(def: DefId, ret: Ty) -> Fn {
        let mut f = Fn { def, kind: BodyKind::Function, locals: Vec::new(), params: 0, blocks: Vec::new(), current: Vec::new(), next_stmt: 0 };
        f.local(ret);
        f
    }

    fn local(&mut self, ty: Ty) -> Local {
        let n = self.locals.len() as u32;
        self.locals.push(LocalDecl { ty, name: None, span: SrcSpan::new(n, n + 1), mutability: Mutability::Mutable });
        Local(n)
    }

    fn param(&mut self, ty: Ty) -> Local {
        self.params += 1;
        self.local(ty)
    }

    fn stmt(&mut self, kind: StatementKind) {
        let id = StatementId(self.next_stmt);
        self.next_stmt += 1;
        self.current.push(Statement { id, kind, span: SrcSpan::new(0, 1) });
    }

    fn assign(&mut self, l: Local, rv: Rvalue) {
        self.stmt(StatementKind::Assign(place(l), rv));
    }

    fn end(&mut self, kind: TerminatorKind) -> BasicBlock {
        let statements = std::mem::take(&mut self.current);
        self.blocks.push(BasicBlockData { statements, terminator: Terminator { kind, span: SrcSpan::new(0, 1) } });
        BasicBlock((self.blocks.len() - 1) as u32)
    }

    /// `dest = func(args)`, continuing in the next block.
    fn call(&mut self, func: Operand, args: Vec<Operand>, dest: Local) {
        let target = BasicBlock(self.blocks.len() as u32 + 1);
        self.end(TerminatorKind::Call { func, args, destination: place(dest), target: Some(target) });
    }

    fn ret(mut self) -> Body {
        self.end(TerminatorKind::Return);
        Body {
            def_id: self.def,
            kind: self.kind,
            basic_blocks: self.blocks,
            local_decls: self.locals,
            param_count: self.params,
            generics: Vec::new(),
            span: SrcSpan::new(0, 1),
        }
    }
}

fn place(l: Local) -> Place {
    Place { local: l, projections: Vec::new() }
}

fn int_const(ty: Ty, v: i128) -> Operand {
    Operand::Constant(Constant { ty, kind: ConstKind::Int(v) })
}

/// A function constant naming `def` with `args`, typed `ty`.
fn fun(ty: Ty, def: DefId, args: Vec<Ty>, self_ty: Option<Ty>) -> Operand {
    Operand::Constant(Constant {
        ty,
        kind: ConstKind::FunDef(FunRef { def, args, any_mode: None, self_ty, trait_method: None }),
    })
}

struct Tys {
    tcx: TyCtx,
    unit: Ty,
    i32: Ty,
    bool: Ty,
}

fn tys() -> Tys {
    let mut tcx = TyCtx::new();
    let unit = tcx.mk(TyKind::Unit);
    let i32 = tcx.mk(TyKind::Primitive(PrimTy::I32));
    let bool = tcx.mk(TyKind::Primitive(PrimTy::Bool));
    Tys { tcx, unit, i32, bool }
}

impl Tys {
    fn generic(&mut self, h: HirId) -> Ty {
        self.tcx.mk(TyKind::Generic(h))
    }

    fn fun_ty(&mut self, params: Vec<Ty>, ret: Ty) -> Ty {
        self.tcx.mk(TyKind::Fun { params, ret: Some(ret) })
    }

    fn adt(&mut self, def: DefId, args: Vec<Ty>) -> Ty {
        self.tcx.mk(TyKind::Adt { def, args })
    }

    fn shared(&mut self, base: Ty) -> Ty {
        self.tcx.mk(TyKind::Ref { base, mutability: Mutability::Immutable })
    }

    fn mentions_generic(&self, ty: Ty) -> bool {
        self.tcx.mentions_generic(ty)
    }
}

fn run(t: &mut Tys, program: &Mir) -> Vec<(Instance, Body)> {
    match monomorphize(&mut t.tcx, program) {
        Ok(out) => out,
        Err(e) => panic!("monomorphize failed: {e:?}"),
    }
}

fn assert_no_generic_locals(t: &Tys, instances: &[(Instance, Body)]) {
    for (instance, body) in instances {
        for decl in &body.local_decls {
            assert!(!t.mentions_generic(decl.ty), "instance {instance:?} kept an unsubstituted local {decl:?}");
        }
    }
}

/// `fun identity<T>(x: T) -> T { return x; }`
fn identity_body(t: &mut Tys, def: DefId, generic: HirId) -> Body {
    let ty = t.generic(generic);
    let mut f = Fn::new(def, ty);
    let x = f.param(ty);
    f.assign(Local(0), Rvalue::Use(Operand::Move(place(x))));
    f.ret()
}

#[test]
fn a_non_generic_body_monomorphizes_to_exactly_itself() {
    let mut t = tys();
    let mut d = Defs::new();
    let (add, _) = d.function("add", 0, DefId(0));
    let mut f = Fn::new(add, t.i32);
    let x = f.param(t.i32);
    let y = f.param(t.i32);
    f.assign(Local(0), Rvalue::BinaryOp(BinaryOp::Add, Operand::Copy(place(x)), Operand::Copy(place(y))));
    let program = d.program(vec![f.ret()], Vec::new(), None);
    let instances = run(&mut t, &program);
    assert_eq!(instances.len(), 1);
    let (instance, _) = &instances[0];
    assert!(instance.args.is_empty());
    assert!(instance.any_mode.is_none());
}

/// `struct Wrap<T> { value: T }`, `extend<T> Wrap<T> { fun ping(&self) -> i32 { return 3; } }`
/// and `fun main() { let w: Wrap<i32> = Wrap { value: 1 }; let n = w.ping(); }`.
#[test]
fn main_is_always_collected_as_a_root() {
    let mut t = tys();
    let mut d = Defs::new();
    let (wrap, _) = d.struct_("Wrap", 1);
    let (block, block_generics) = d.extend(1);
    let ping = d.extend_method(block, "ping");
    let (main, _) = d.function("main", 0, DefId(0));
    let tp = t.generic(block_generics[0]);
    let wrap_t = t.adt(wrap, vec![tp]);
    let wrap_t_ref = t.shared(wrap_t);
    let mut p = Fn::new(ping, t.i32);
    p.param(wrap_t_ref);
    p.assign(Local(0), Rvalue::Use(int_const(t.i32, 3)));
    let wrap_i32 = t.adt(wrap, vec![t.i32]);
    let wrap_i32_ref = t.shared(wrap_i32);
    let ping_ty = t.fun_ty(vec![wrap_i32_ref], t.i32);
    let mut m = Fn::new(main, t.unit);
    let w = m.local(wrap_i32);
    let n = m.local(t.i32);
    let recv = m.local(wrap_i32_ref);
    m.assign(w, Rvalue::Aggregate(Box::new(AggregateKind::Adt { def: wrap, variant: midend::mir::ids::VariantIdx(0) }), vec![int_const(t.i32, 1)]));
    m.assign(recv, Rvalue::Ref { mutability: Mutability::Immutable, place: place(w) });
    m.call(fun(ping_ty, ping, vec![t.i32], None), vec![Operand::Move(place(recv))], n);
    let program = d.program(vec![p.ret(), m.ret()], Vec::new(), Some(main));
    let instances = run(&mut t, &program);
    let mains: Vec<&Instance> = instances.iter().map(|(i, _)| i).filter(|i| i.def == main).collect();
    assert_eq!(mains.len(), 1, "expected exactly one `main` instance: {mains:?}");
    assert!(mains[0].args.is_empty(), "`main` takes no type parameters, so it is never specialized: {:?}", mains[0]);
}

#[test]
fn a_generic_function_is_instantiated_once_per_call_site_type() {
    let mut t = tys();
    let mut d = Defs::new();
    let (identity, generics) = d.function("identity", 1, DefId(0));
    let (f_def, _) = d.function("f", 0, DefId(0));
    let id_body = identity_body(&mut t, identity, generics[0]);
    let id_i32 = t.fun_ty(vec![t.i32], t.i32);
    let id_bool = t.fun_ty(vec![t.bool], t.bool);
    let mut f = Fn::new(f_def, t.i32);
    let a = f.local(t.i32);
    let b = f.local(t.bool);
    f.call(fun(id_i32, identity, vec![t.i32], None), vec![int_const(t.i32, 1)], a);
    let tru = Operand::Constant(Constant { ty: t.bool, kind: ConstKind::Bool(true) });
    f.call(fun(id_bool, identity, vec![t.bool], None), vec![tru], b);
    f.assign(Local(0), Rvalue::Use(Operand::Copy(place(a))));
    let program = d.program(vec![id_body, f.ret()], Vec::new(), None);
    let instances = run(&mut t, &program);
    // `f` itself, plus `identity::<i32>` and `identity::<bool>`.
    assert_eq!(instances.len(), 3);
    let identity_instances: Vec<&Instance> = instances.iter().map(|(i, _)| i).filter(|i| !i.args.is_empty()).collect();
    assert_eq!(identity_instances.len(), 2);
    for instance in identity_instances {
        assert_eq!(instance.args.len(), 1);
    }
}

#[test]
fn a_generic_bodys_locals_are_fully_concrete_after_monomorphizing() {
    let mut t = tys();
    let mut d = Defs::new();
    let (identity, generics) = d.function("identity", 1, DefId(0));
    let (f_def, _) = d.function("f", 0, DefId(0));
    let id_body = identity_body(&mut t, identity, generics[0]);
    let id_i32 = t.fun_ty(vec![t.i32], t.i32);
    let mut f = Fn::new(f_def, t.i32);
    f.call(fun(id_i32, identity, vec![t.i32], None), vec![int_const(t.i32, 1)], Local(0));
    let program = d.program(vec![id_body, f.ret()], Vec::new(), None);
    let instances = run(&mut t, &program);
    for (instance, body) in &instances {
        for decl in &body.local_decls {
            assert!(!t.mentions_generic(decl.ty), "instance {instance:?} still has a generic local");
        }
    }
}

/// `fun f<T>(x: T) -> T { return f(x); }` and `fun g() -> i32 { return f(1); }`.
#[test]
fn a_recursive_generic_call_with_the_same_argument_does_not_loop_forever() {
    let mut t = tys();
    let mut d = Defs::new();
    let (f_def, generics) = d.function("f", 1, DefId(0));
    let (g_def, _) = d.function("g", 0, DefId(0));
    let tp = t.generic(generics[0]);
    let f_t = t.fun_ty(vec![tp], tp);
    let mut f = Fn::new(f_def, tp);
    let x = f.param(tp);
    f.call(fun(f_t, f_def, vec![tp], None), vec![Operand::Move(place(x))], Local(0));
    let f_i32 = t.fun_ty(vec![t.i32], t.i32);
    let mut g = Fn::new(g_def, t.i32);
    g.call(fun(f_i32, f_def, vec![t.i32], None), vec![int_const(t.i32, 1)], Local(0));
    let program = d.program(vec![f.ret(), g.ret()], Vec::new(), None);
    let instances = run(&mut t, &program);
    // `g`, plus exactly one instantiation of `f` (the recursive call inside it is the same
    // instance, deduplicated).
    assert_eq!(instances.len(), 2);
}

/// `fun double(x: i32) -> i32 { return x + x; }`,
/// `fun apply(f: fun(i32) -> i32, x: i32) -> i32 { return f(x); }` and
/// `fun g() -> i32 { return apply(double, 1); }`.
#[test]
fn calling_through_a_reified_function_pointer_still_monomorphizes_the_callee() {
    let mut t = tys();
    let mut d = Defs::new();
    let (double, _) = d.function("double", 0, DefId(0));
    let (apply, _) = d.function("apply", 0, DefId(0));
    let (g_def, _) = d.function("g", 0, DefId(0));
    let fn_ty = t.fun_ty(vec![t.i32], t.i32);
    let mut dbl = Fn::new(double, t.i32);
    let x = dbl.param(t.i32);
    dbl.assign(Local(0), Rvalue::BinaryOp(BinaryOp::Add, Operand::Copy(place(x)), Operand::Copy(place(x))));
    let mut ap = Fn::new(apply, t.i32);
    let fp = ap.param(fn_ty);
    let ax = ap.param(t.i32);
    ap.call(Operand::Copy(place(fp)), vec![Operand::Copy(place(ax))], Local(0));
    let apply_ty = t.fun_ty(vec![fn_ty, t.i32], t.i32);
    let mut g = Fn::new(g_def, t.i32);
    let ptr = g.local(fn_ty);
    g.assign(ptr, Rvalue::Cast { operand: fun(fn_ty, double, Vec::new(), None), ty: fn_ty, kind: CastKind::ReifyFunPointer });
    g.call(fun(apply_ty, apply, Vec::new(), None), vec![Operand::Move(place(ptr)), int_const(t.i32, 1)], Local(0));
    let program = d.program(vec![dbl.ret(), ap.ret(), g.ret()], Vec::new(), None);
    let instances = run(&mut t, &program);
    // `g`, `apply`, and `double` (reified as a value, still its own Body).
    assert_eq!(instances.len(), 3);
    let reifies = instances.iter().any(|(_, body)| {
        body.basic_blocks.iter().flat_map(|b| &b.statements).any(|s| {
            matches!(&s.kind, StatementKind::Assign(_, Rvalue::Cast { kind: CastKind::ReifyFunPointer, .. }))
        })
    });
    assert!(reifies, "`double` used as a value is reified somewhere");
}

/// `struct Wrap<T> { public value: T }`, an `extend<T> Wrap<T>` method taking `self` and
/// returning `ret` (`T`, or `Self`, which is `Wrap<T>`), and `main` calling it on a `Wrap<i32>`.
fn wrap_method_program(t: &mut Tys, returns_self: bool) -> (Mir, DefId) {
    let mut d = Defs::new();
    let (wrap, _) = d.struct_("Wrap", 1);
    let (block, block_generics) = d.extend(1);
    let method = d.extend_method(block, "get");
    let (main, _) = d.function("main", 0, DefId(0));
    let tp = t.generic(block_generics[0]);
    let wrap_t = t.adt(wrap, vec![tp]);
    let ret = if returns_self { wrap_t } else { tp };
    let mut m = Fn::new(method, ret);
    let slf = m.param(wrap_t);
    if returns_self {
        m.assign(Local(0), Rvalue::Use(Operand::Move(place(slf))));
    } else {
        let mut field = place(slf);
        field.projections.push(midend::mir::place::Projection::Field(0));
        m.assign(Local(0), Rvalue::Use(Operand::Move(field)));
    }
    let wrap_i32 = t.adt(wrap, vec![t.i32]);
    let ret_i32 = if returns_self { wrap_i32 } else { t.i32 };
    let method_ty = t.fun_ty(vec![wrap_i32], ret_i32);
    let mut mn = Fn::new(main, t.unit);
    let w = mn.local(wrap_i32);
    let n = mn.local(ret_i32);
    mn.assign(w, Rvalue::Aggregate(Box::new(AggregateKind::Adt { def: wrap, variant: midend::mir::ids::VariantIdx(0) }), vec![int_const(t.i32, 1)]));
    mn.call(fun(method_ty, method, vec![t.i32], None), vec![Operand::Move(place(w))], n);
    (d.program(vec![m.ret(), mn.ret()], Vec::new(), Some(main)), method)
}

#[test]
fn a_generic_extend_method_is_monomorphized_concretely() {
    let mut t = tys();
    let (program, _) = wrap_method_program(&mut t, false);
    let instances = run(&mut t, &program);
    for (instance, body) in &instances {
        for decl in &body.local_decls {
            assert!(!t.mentions_generic(decl.ty), "instance {instance:?} kept an unsubstituted local");
        }
    }
}

#[test]
fn a_method_returning_self_is_monomorphized_concretely() {
    let mut t = tys();
    let (program, _) = wrap_method_program(&mut t, true);
    let instances = run(&mut t, &program);
    for (instance, body) in &instances {
        for decl in &body.local_decls {
            assert!(!t.mentions_generic(decl.ty), "instance {instance:?} kept an unsubstituted local");
        }
    }
}

/// `fun conv<A, B>(x: A, f: fun(A) -> B) -> B { return f(x); }` and
/// `fun main() { let n: i32 = conv(true, |x| 9); }`.
#[test]
fn a_closure_parameter_takes_the_type_its_call_site_gives_it() {
    let mut t = tys();
    let mut d = Defs::new();
    let (conv, generics) = d.function("conv", 2, DefId(0));
    let (main, _) = d.function("main", 0, DefId(0));
    let closure = d.closure(main);
    let a = t.generic(generics[0]);
    let b = t.generic(generics[1]);
    let a_to_b = t.fun_ty(vec![a], b);
    let mut cv = Fn::new(conv, b);
    let x = cv.param(a);
    let f = cv.param(a_to_b);
    cv.call(Operand::Copy(place(f)), vec![Operand::Move(place(x))], Local(0));
    let bool_to_i32 = t.fun_ty(vec![t.bool], t.i32);
    let env = t.tcx.mk(TyKind::Tuple(Vec::new()));
    let env_ref = t.shared(env);
    let mut cl = Fn::new(closure, t.i32);
    cl.kind = BodyKind::Closure;
    cl.param(env_ref);
    cl.param(t.bool);
    cl.assign(Local(0), Rvalue::Use(int_const(t.i32, 9)));
    let conv_ty = t.fun_ty(vec![t.bool, bool_to_i32], t.i32);
    let mut mn = Fn::new(main, t.unit);
    let n = mn.local(t.i32);
    let c = mn.local(bool_to_i32);
    mn.assign(c, Rvalue::Aggregate(Box::new(AggregateKind::Closure { def: closure, args: Vec::new() }), Vec::new()));
    let tru = Operand::Constant(Constant { ty: t.bool, kind: ConstKind::Bool(true) });
    mn.call(fun(conv_ty, conv, vec![t.bool, t.i32], None), vec![tru, Operand::Move(place(c))], n);
    let program = d.program(vec![cv.ret(), cl.ret(), mn.ret()], Vec::new(), Some(main));
    let instances = run(&mut t, &program);
    for (instance, body) in &instances {
        for decl in &body.local_decls {
            assert!(!matches!(t.tcx.kind(decl.ty), TyKind::Var(_)), "instance {instance:?} kept an unresolved local {decl:?}");
        }
    }
    assert!(instances.iter().any(|(i, _)| i.def == closure), "the closure `main` creates is built");
}

/// The `Cloner` fixture: a trait with an abstract `clone_it(&self) -> Self` and a default
/// `twice(&self) -> Self { return self.clone_it(); }`, implemented by `N` and `M`, and `main`
/// calling `twice` on one of each.
struct Cloner {
    program: Mir,
    clone_it: DefId,
}

fn cloner_program(t: &mut Tys) -> Cloner {
    let mut d = Defs::new();
    let (cloner, _) = d.trait_("Cloner", 0);
    let clone_it = d.trait_method(cloner, "clone_it");
    let twice = d.trait_method(cloner, "twice");
    let (n_def, _) = d.struct_("N", 0);
    let (m_def, _) = d.struct_("M", 0);
    let (n_block, _) = d.extend(0);
    let n_clone = d.extend_method(n_block, "clone_it");
    let (m_block, _) = d.extend(0);
    let m_clone = d.extend_method(m_block, "clone_it");
    let (main, _) = d.function("main", 0, DefId(0));
    let self_ty = t.tcx.mk(TyKind::SelfTy(cloner));
    let self_ref = t.shared(self_ty);
    let clone_ty = t.fun_ty(vec![self_ref], self_ty);
    let mut tw = Fn::new(twice, self_ty);
    let slf = tw.param(self_ref);
    tw.call(fun(clone_ty, clone_it, Vec::new(), Some(self_ty)), vec![Operand::Copy(place(slf))], Local(0));
    let n_ty = t.adt(n_def, Vec::new());
    let m_ty = t.adt(m_def, Vec::new());
    let mut bodies = vec![tw.ret()];
    let mut vtables = Vec::new();
    for (ty, block, method, bump) in [(n_ty, n_block, n_clone, 1), (m_ty, m_block, m_clone, 2)] {
        let r = t.shared(ty);
        let mut c = Fn::new(method, ty);
        let s = c.param(r);
        let mut value = place(s);
        value.projections.push(midend::mir::place::Projection::Deref);
        value.projections.push(midend::mir::place::Projection::Field(0));
        let sum = c.local(t.i32);
        c.assign(sum, Rvalue::BinaryOp(BinaryOp::Add, Operand::Copy(value), int_const(t.i32, bump)));
        c.assign(Local(0), Rvalue::Aggregate(Box::new(AggregateKind::Adt { def: ty_def(&t.tcx, ty), variant: midend::mir::ids::VariantIdx(0) }), vec![Operand::Move(place(sum))]));
        bodies.push(c.ret());
        vtables.push(((ty, cloner), VtableInfo { methods: vec![Some(method), None], block, trait_args: Vec::new(), extend_generics: Vec::new() }));
    }
    let mut mn = Fn::new(main, t.unit);
    for ty in [n_ty, m_ty] {
        let v = mn.local(ty);
        let v2 = mn.local(ty);
        let r = t.shared(ty);
        let recv = mn.local(r);
        mn.assign(v, Rvalue::Aggregate(Box::new(AggregateKind::Adt { def: ty_def(&t.tcx, ty), variant: midend::mir::ids::VariantIdx(0) }), vec![int_const(t.i32, 1)]));
        mn.assign(recv, Rvalue::Ref { mutability: Mutability::Immutable, place: place(v) });
        let twice_ty = t.fun_ty(vec![r], ty);
        mn.call(fun(twice_ty, twice, Vec::new(), Some(ty)), vec![Operand::Move(place(recv))], v2);
    }
    bodies.push(mn.ret());
    Cloner { program: d.program(bodies, vtables, Some(main)), clone_it }
}

fn ty_def(tcx: &TyCtx, ty: Ty) -> DefId {
    match tcx.kind(ty) {
        TyKind::Adt { def, .. } => *def,
        _ => panic!("not an ADT"),
    }
}

#[test]
fn a_trait_default_method_body_is_monomorphized_per_implementing_type() {
    let mut t = tys();
    let fixture = cloner_program(&mut t);
    let instances = run(&mut t, &fixture.program);
    assert_no_generic_locals(&t, &instances);
}

#[test]
fn a_trait_default_body_calls_the_implementing_types_own_method() {
    let mut t = tys();
    let fixture = cloner_program(&mut t);
    let instances = run(&mut t, &fixture.program);
    for (_, body) in &instances {
        for block in &body.basic_blocks {
            if let TerminatorKind::Call { func: Operand::Constant(constant), .. } = &block.terminator.kind {
                if let ConstKind::FunDef(callee) = &constant.kind {
                    let has_body = fixture.program.bodies.iter().any(|((def, _), _)| *def == callee.def);
                    assert!(has_body && callee.def != fixture.clone_it, "{callee:?} is abstract; a default body must dispatch to an impl's method");
                }
            }
        }
    }
}

/// `trait Sh<T> { fun sh(&self) -> T; fun go(&self) -> T { return self.sh(); } }`,
/// `extend W with Sh<i32>` and `main` calling `go` on a `W`.
#[test]
fn a_generic_trait_default_body_substitutes_the_trait_arguments() {
    let mut t = tys();
    let mut d = Defs::new();
    let (sh_trait, trait_generics) = d.trait_("Sh", 1);
    let sh = d.trait_method(sh_trait, "sh");
    let go = d.trait_method(sh_trait, "go");
    let (w_def, _) = d.struct_("W", 0);
    let (block, _) = d.extend(0);
    let w_sh = d.extend_method(block, "sh");
    let (main, _) = d.function("main", 0, DefId(0));
    let tp = t.generic(trait_generics[0]);
    let self_ty = t.tcx.mk(TyKind::SelfTy(sh_trait));
    let self_ref = t.shared(self_ty);
    let sh_ty = t.fun_ty(vec![self_ref], tp);
    let mut g = Fn::new(go, tp);
    let slf = g.param(self_ref);
    g.call(fun(sh_ty, sh, Vec::new(), Some(self_ty)), vec![Operand::Copy(place(slf))], Local(0));
    let w_ty = t.adt(w_def, Vec::new());
    let w_ref = t.shared(w_ty);
    let mut ws = Fn::new(w_sh, t.i32);
    let s = ws.param(w_ref);
    let mut value = place(s);
    value.projections.push(midend::mir::place::Projection::Deref);
    value.projections.push(midend::mir::place::Projection::Field(0));
    ws.assign(Local(0), Rvalue::Use(Operand::Copy(value)));
    let mut mn = Fn::new(main, t.unit);
    let w = mn.local(w_ty);
    let n = mn.local(t.i32);
    let recv = mn.local(w_ref);
    mn.assign(w, Rvalue::Aggregate(Box::new(AggregateKind::Adt { def: w_def, variant: midend::mir::ids::VariantIdx(0) }), vec![int_const(t.i32, 5)]));
    mn.assign(recv, Rvalue::Ref { mutability: Mutability::Immutable, place: place(w) });
    let go_ty = t.fun_ty(vec![w_ref], t.i32);
    mn.call(fun(go_ty, go, Vec::new(), Some(w_ty)), vec![Operand::Move(place(recv))], n);
    let vtables = vec![((w_ty, sh_trait), VtableInfo { methods: vec![Some(w_sh), None], block, trait_args: vec![t.i32], extend_generics: Vec::new() })];
    let program = d.program(vec![g.ret(), ws.ret(), mn.ret()], vtables, Some(main));
    let instances = run(&mut t, &program);
    for (instance, body) in &instances {
        for decl in &body.local_decls {
            assert!(!t.mentions_generic(decl.ty), "instance {instance:?} kept an unsubstituted local {decl:?}");
        }
    }
    let go_instance = instances.iter().find(|(i, _)| i.def == go).expect("`go` is built for `W`");
    assert_eq!(go_instance.0.args, vec![t.i32]);
    assert_eq!(go_instance.0.self_ty, Some(w_ty));
}

/// `fun f() { let x = new 1; }` and `fun g() -> i32 { return 1; }`.
#[test]
fn drop_elaboration_preserves_the_set_of_instances_monomorphize_produced() {
    let mut t = tys();
    let mut d = Defs::new();
    let (f_def, _) = d.function("f", 0, DefId(0));
    let (g_def, _) = d.function("g", 0, DefId(0));
    let iso = t.tcx.mk(TyKind::Iso(t.i32));
    let mut f = Fn::new(f_def, t.unit);
    let x = f.local(iso);
    f.stmt(StatementKind::StorageLive(x));
    f.assign(x, Rvalue::New(int_const(t.i32, 1)));
    f.stmt(StatementKind::StorageDead(x));
    let mut g = Fn::new(g_def, t.i32);
    g.assign(Local(0), Rvalue::Use(int_const(t.i32, 1)));
    let program = d.program(vec![f.ret(), g.ret()], Vec::new(), None);
    let before = run(&mut t, &program);
    let before_keys: Vec<(DefId, Vec<Ty>)> = before.iter().map(|(i, _)| (i.def, i.args.clone())).collect();
    let discr = t.tcx.mk(TyKind::Primitive(PrimTy::U32));
    let after = elaborate_drops(&t.tcx, t.bool, discr, before);
    let after_keys: Vec<(DefId, Vec<Ty>)> = after.iter().map(|(i, _)| (i.def, i.args.clone())).collect();
    assert_eq!(before_keys, after_keys, "drop elaboration keeps the set of instances monomorphize decided to emit");
}

#[test]
fn a_call_to_a_definition_without_a_body_is_left_unbuilt() {
    let mut t = tys();
    let mut d = Defs::new();
    let (extern_fn, _) = d.function("missing", 0, DefId(0));
    let (f_def, _) = d.function("f", 0, DefId(0));
    let ty = t.fun_ty(Vec::new(), t.i32);
    let mut f = Fn::new(f_def, t.i32);
    f.call(fun(ty, extern_fn, Vec::new(), None), Vec::new(), Local(0));
    let program = d.program(vec![f.ret()], Vec::new(), None);
    let instances = run(&mut t, &program);
    assert_eq!(instances.len(), 1);
    assert_eq!(instances[0].0.def, f_def);
}

#[test]
fn a_substituted_type_is_interned_once() {
    let mut t = tys();
    let mut d = Defs::new();
    let (identity, generics) = d.function("identity", 1, DefId(0));
    let (f_def, _) = d.function("f", 0, DefId(0));
    let id_body = identity_body(&mut t, identity, generics[0]);
    let id_i32 = t.fun_ty(vec![t.i32], t.i32);
    let mut f = Fn::new(f_def, t.i32);
    f.call(fun(id_i32, identity, vec![t.i32], None), vec![int_const(t.i32, 1)], Local(0));
    let program = d.program(vec![id_body, f.ret()], Vec::new(), None);
    let count = t.tcx.type_count();
    let instances = run(&mut t, &program);
    let (_, body) = instances.iter().find(|(i, _)| i.def == identity).unwrap();
    // `T` becomes the existing `i32`: no new type was needed.
    assert_eq!(body.local_decls[0].ty, t.i32);
    assert_eq!(t.tcx.type_count(), count);
    let _ = MonoError::TypeTableFull;
}
