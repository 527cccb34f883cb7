//! Monomorphization: one concrete body per instance of a definition the program uses.
//!
//! A worklist pass. The roots are the bodies that need no substitution, and `main`. Each
//! instance popped is built once: its generic body with every type substituted, the calls in it
//! queued as further instances, and a closure it creates queued with the substitution of the
//! body that creates it. A call a trait's default body makes through the trait is sent, once
//! the implementing type is known, to that type's own method.

pub mod matching;

use vstd::prelude::*;
use crate::hir::{DefId, HirId};
use crate::mir::body::{BasicBlockData, Body, LocalDecl};
use crate::mir::def_infos::DefKind;
use crate::mir::instance::{AnyMode, Instance};
use crate::mir::lower::Mir;
use crate::mir::monomorphize::matching::{binds_in, binds_leaf, lemma_match_facts, match_facts, match_ty, matches_impl_self};
use crate::mir::operand::{ConstKind, Constant, FunRef, Operand};
use crate::mir::rvalue::{AggregateKind, Rvalue, rvalue_operands};
use crate::mir::statement::{Statement, StatementKind};
use crate::mir::terminator::{AssertMessage, Terminator, TerminatorKind, terminator_operands};
use crate::typeck::{bound_to, extends, generic_within, subst_in, subst_rel, Subst, Ty, TyCtx, TyKind};

verus! {

/// The most instances one run builds; past it the program is taken to instantiate without end.
pub const INSTANTIATION_LIMIT: usize = 4096;

/// Why monomorphization stopped.
#[derive(Clone, Copy, Debug, PartialEq, Eq, Structural)]
pub enum MonoError {
    /// More than [`INSTANTIATION_LIMIT`] instances were asked for.
    TooManyInstances,
    /// The type table has no id left for a substituted type.
    TypeTableFull,
}

/// An instance as a value: its definition, mode, type arguments and `Self` type.
pub open spec fn ikey(i: Instance) -> (DefId, Option<AnyMode>, Seq<Ty>, Option<Ty>) {
    (i.def, i.any_mode, i.args@, i.self_ty)
}

/// The instance a reference to a function names.
pub open spec fn fkey(f: FunRef) -> (DefId, Option<AnyMode>, Seq<Ty>, Option<Ty>) {
    (f.def, f.any_mode, f.args@, f.self_ty)
}

pub open spec fn def_ok(p: Mir, d: DefId) -> bool {
    d.0 < p.def_infos.len()
}

pub open spec fn tys_in(tcx: TyCtx, tys: Seq<Ty>) -> bool {
    forall|i: int| 0 <= i < tys.len() ==> tcx.has(#[trigger] tys[i])
}

/// A function reference names a known definition and types of the table, and carries a
/// `Self` type only for a method a trait declares.
pub open spec fn fun_ok(p: Mir, tcx: TyCtx, f: FunRef) -> bool {
    &&& def_ok(p, f.def)
    &&& tys_in(tcx, f.args@)
    &&& f.self_ty matches Some(t) ==> tcx.has(t)
    &&& f.self_ty is Some ==> (p.def_infos.info(f.def).parent matches Some(q) && p.def_infos.info(q).kind
        == DefKind::Trait)
}

/// The types an operand names are in the table, and the definition it calls is known.
pub open spec fn operand_ok(p: Mir, tcx: TyCtx, o: Operand) -> bool {
    match o {
        Operand::Constant(c) => tcx.has(c.ty) && match c.kind {
            ConstKind::FunDef(f) => fun_ok(p, tcx, f),
            _ => true,
        },
        _ => true,
    }
}

pub open spec fn operands_ok(p: Mir, tcx: TyCtx, os: Seq<Operand>) -> bool {
    forall|i: int| 0 <= i < os.len() ==> operand_ok(p, tcx, #[trigger] os[i])
}

pub open spec fn rvalue_ok(p: Mir, tcx: TyCtx, rv: Rvalue) -> bool {
    &&& operands_ok(p, tcx, rvalue_operands(rv))
    &&& match rv {
        Rvalue::Cast { ty, .. } => tcx.has(ty),
        Rvalue::Aggregate(k, _) => match *k {
            AggregateKind::Closure { def, .. } => def_ok(p, def) && p.def_infos.info(def).kind == DefKind::Closure,
            _ => true,
        },
        _ => true,
    }
}

pub open spec fn message_operands(m: AssertMessage) -> Seq<Operand> {
    match m {
        AssertMessage::Overflow(_, l, r) => seq![l, r],
        AssertMessage::DivisionByZero(o) => seq![o],
        AssertMessage::RemainderByZero(o) => seq![o],
        AssertMessage::BoundsCheck { len, index } => seq![len, index],
    }
}

pub open spec fn terminator_ok(p: Mir, tcx: TyCtx, k: TerminatorKind) -> bool {
    &&& operands_ok(p, tcx, terminator_operands(k))
    &&& k matches TerminatorKind::Assert { msg, .. } ==> operands_ok(p, tcx, message_operands(msg))
}

pub open spec fn block_ok(p: Mir, tcx: TyCtx, b: BasicBlockData) -> bool {
    &&& forall|s: int|
        0 <= s < b.statements@.len() ==> ((#[trigger] b.statements@[s]).kind matches StatementKind::Assign(_, rv)
            ==> rvalue_ok(p, tcx, rv))
    &&& terminator_ok(p, tcx, b.terminator.kind)
}

/// Every type a body names is in the table, and every definition it names is known.
pub open spec fn body_ok(p: Mir, tcx: TyCtx, b: Body) -> bool {
    &&& forall|l: int| 0 <= l < b.local_decls@.len() ==> tcx.has(#[trigger] b.local_decls@[l].ty)
    &&& forall|k: int| 0 <= k < b.basic_blocks@.len() ==> block_ok(p, tcx, #[trigger] b.basic_blocks@[k])
}

/// A vtable entry names types of the table and known definitions, implements every slot of
/// its trait, and binds each of its block's generics from the written self type.
pub open spec fn vtable_ok(p: Mir, tcx: TyCtx, i: int) -> bool {
    let ((pattern, tr), info) = p.vtables@[i];
    &&& tcx.has(pattern)
    &&& def_ok(p, tr)
    &&& tys_in(tcx, info.trait_args@)
    &&& forall|m: int| 0 <= m < info.methods@.len() ==> (#[trigger] info.methods@[m] matches Some(d) ==> def_ok(p, d))
    &&& forall|g: int| 0 <= g < info.extend_generics@.len() ==> binds_leaf(tcx, pattern, #[trigger] info.extend_generics@[g])
    &&& forall|d: int|
        0 <= d < p.def_infos.len() ==> ((#[trigger] p.def_infos.info(DefId(d as u32))).trait_method matches Some((owner, k))
            ==> owner == tr ==> k < info.methods@.len())
}

/// What monomorphizing `p` over the table `tcx` needs.
pub open spec fn ready(p: Mir, tcx: TyCtx) -> bool {
    &&& tcx.wf()
    &&& p.def_infos.len() < u32::MAX
    &&& forall|d: int|
        0 <= d < p.def_infos.len() ==> ((#[trigger] p.def_infos.info(DefId(d as u32))).parent matches Some(q) ==> def_ok(p, q))
    &&& forall|i: int| 0 <= i < p.bodies@.len() ==> def_ok(p, (#[trigger] p.bodies@[i]).0.0) && body_ok(p, tcx, p.bodies@[i].1)
    &&& forall|i: int| 0 <= i < p.vtables@.len() ==> #[trigger] vtable_ok(p, tcx, i)
    &&& p.main matches Some(m) ==> def_ok(p, m)
}

/// The index of the first body `p` has for `def` in mode `mode`, searching from `i`.
pub open spec fn body_from(p: Mir, def: DefId, mode: Option<AnyMode>, i: int) -> Option<int>
    decreases p.bodies@.len() - i,
{
    if i < 0 || i >= p.bodies@.len() {
        None
    } else if p.bodies@[i].0 == (def, mode) {
        Some(i)
    } else {
        body_from(p, def, mode, i + 1)
    }
}

/// Whether vtable entry `i` implements trait `owner` for a type `t` its self type matches.
pub open spec fn vtable_matches(p: Mir, tcx: TyCtx, owner: DefId, t: Ty, i: int) -> bool {
    p.vtables@[i].0.1 == owner && match_ty(tcx, p.vtables@[i].0.0, t, Seq::empty()) is Some
}

/// The first vtable entry, from `i` on, that implements `owner` for `t`.
pub open spec fn vtable_from(p: Mir, tcx: TyCtx, owner: DefId, t: Ty, i: int) -> Option<int>
    decreases p.vtables@.len() - i,
{
    if i < 0 || i >= p.vtables@.len() {
        None
    } else if vtable_matches(p, tcx, owner, t, i) {
        Some(i)
    } else {
        vtable_from(p, tcx, owner, t, i + 1)
    }
}

/// What a matching vtable entry binds.
pub open spec fn vtable_binds(p: Mir, tcx: TyCtx, t: Ty, i: int) -> Seq<(HirId, Ty)> {
    match_ty(tcx, p.vtables@[i].0.0, t, Seq::empty())->0
}

/// The generic parameters an instance's arguments bind, in order: those of an enclosing
/// `extend` block or trait first, then the definition's own.
pub open spec fn params_of(p: Mir, def: DefId) -> Seq<HirId> {
    let own = p.def_infos.info(def).generics@;
    match p.def_infos.info(def).parent {
        Some(q) => if p.def_infos.info(q).kind == DefKind::Extend || p.def_infos.info(q).kind == DefKind::Trait {
            p.def_infos.info(q).generics@ + own
        } else {
            own
        },
        None => own,
    }
}

/// `s` binds each of `params` to the argument at its position, as far as both go, and `Self`
/// to `self_ty`.
pub open spec fn zips(s: Subst, params: Seq<HirId>, args: Seq<Ty>, self_ty: Option<Ty>) -> bool {
    &&& s.generics@.len() == if params.len() < args.len() { params.len() } else { args.len() }
    &&& forall|i: int| 0 <= i < s.generics@.len() ==> #[trigger] s.generics@[i] == (params[i], args[i])
    &&& s.self_ty == self_ty
}

/// What monomorphizing needs of the program still holds as the table grows.
pub proof fn lemma_ready_grows(p: Mir, t0: TyCtx, t1: TyCtx)
    requires
        ready(p, t0),
        extends(t1, t0),
        t1.wf(),
    ensures
        ready(p, t1),
{
    assert forall|i: int| 0 <= i < p.bodies@.len() implies def_ok(p, (#[trigger] p.bodies@[i]).0.0) && body_ok(p, t1, p.bodies@[i].1) by {
        lemma_body_ok_grows(p, t0, t1, p.bodies@[i].1);
    }
    assert forall|i: int| 0 <= i < p.vtables@.len() implies #[trigger] vtable_ok(p, t1, i) by {
        assert(vtable_ok(p, t0, i));
        let ((pattern, tr), info) = p.vtables@[i];
        assert forall|g: int| 0 <= g < info.extend_generics@.len() implies binds_leaf(t1, pattern, #[trigger] info.extend_generics@[g]) by {
            crate::mir::monomorphize::matching::lemma_binds_leaf_grows(t0, t1, pattern, info.extend_generics@[g]);
        }
    }
}

proof fn lemma_body_ok_grows(p: Mir, t0: TyCtx, t1: TyCtx, b: Body)
    requires
        body_ok(p, t0, b),
        extends(t1, t0),
    ensures
        body_ok(p, t1, b),
{
    assert forall|k: int| 0 <= k < b.basic_blocks@.len() implies block_ok(p, t1, #[trigger] b.basic_blocks@[k]) by {
        let blk = b.basic_blocks@[k];
        assert(block_ok(p, t0, blk));
        assert forall|s: int| 0 <= s < blk.statements@.len() implies ((#[trigger] blk.statements@[s]).kind matches StatementKind::Assign(_, rv) ==> rvalue_ok(p, t1, rv)) by {
            match blk.statements@[s].kind {
                StatementKind::Assign(_, rv) => {
                    lemma_operands_ok_grows(p, t0, t1, rvalue_operands(rv));
                },
                _ => {},
            }
        }
        lemma_operands_ok_grows(p, t0, t1, terminator_operands(blk.terminator.kind));
        match blk.terminator.kind {
            TerminatorKind::Assert { msg, .. } => {
                lemma_operands_ok_grows(p, t0, t1, message_operands(msg));
            },
            _ => {},
        }
    }
}

proof fn lemma_operands_ok_grows(p: Mir, t0: TyCtx, t1: TyCtx, os: Seq<Operand>)
    requires
        operands_ok(p, t0, os),
        extends(t1, t0),
    ensures
        operands_ok(p, t1, os),
{
    assert forall|i: int| 0 <= i < os.len() implies operand_ok(p, t1, #[trigger] os[i]) by {
        assert(operand_ok(p, t0, os[i]));
        match os[i] {
            Operand::Constant(c) => {
                match c.kind {
                    ConstKind::FunDef(f) => {
                        assert(tys_in(t1, f.args@));
                    },
                    _ => {},
                }
            },
            _ => {},
        }
    }
}

/// The first vtable entry implementing `owner` for `self_ty`, with what matching bound.
pub fn matching_vtable(program: &Mir, tcx: &TyCtx, owner: DefId, self_ty: Ty) -> (r: Option<(usize, Vec<(HirId, Ty)>)>)
    requires
        ready(*program, *tcx),
        tcx.has(self_ty),
    ensures
        r matches Some((i, b)) ==> Some(i as int) == vtable_from(*program, *tcx, owner, self_ty, 0) && b@
            == vtable_binds(*program, *tcx, self_ty, i as int),
        r is None ==> vtable_from(*program, *tcx, owner, self_ty, 0) is None,
{
    let mut i: usize = 0;
    while i < program.vtables.len()
        invariant
            ready(*program, *tcx),
            tcx.has(self_ty),
            i <= program.vtables@.len(),
            vtable_from(*program, *tcx, owner, self_ty, 0) == vtable_from(*program, *tcx, owner, self_ty, i as int),
        decreases program.vtables@.len() - i,
    {
        let entry = &program.vtables[i];
        assert(vtable_ok(*program, *tcx, i as int));
        if entry.0.1 == owner {
            let mut binds: Vec<(HirId, Ty)> = Vec::new();
            if matches_impl_self(tcx, entry.0.0, self_ty, &mut binds) {
                return Some((i, binds));
            }
        }
        i = i + 1;
    }
    None
}

/// Where a call to the trait method `def` on `self_ty` lands: the implementing type's own
/// method, with the implementing block's bound generics before `args`.
pub open spec fn redirect_spec(p: Mir, tcx: TyCtx, def: DefId, self_ty: Option<Ty>, args: Seq<Ty>) -> Option<(DefId, Seq<Ty>)> {
    match self_ty {
        None => None,
        Some(t) => match p.def_infos.info(def).trait_method {
            None => None,
            Some((owner, idx)) => match vtable_from(p, tcx, owner, t, 0) {
                None => None,
                Some(i) => match p.vtables@[i].1.methods@[idx as int] {
                    None => None,
                    Some(m) => {
                        let b = vtable_binds(p, tcx, t, i);
                        let eg = p.vtables@[i].1.extend_generics@;
                        Some((m, Seq::new(eg.len(), |g: int| bound_to(b, eg[g], b.len() as int)->0) + args))
                    },
                },
            },
        },
    }
}

/// The implementing type's own method for a call a trait's default body makes on `self_ty`,
/// with the arguments its body needs.
fn redirect_trait_default(program: &Mir, tcx: &TyCtx, def: DefId, self_ty: Option<Ty>, args: &Vec<Ty>) -> (r: Option<(DefId, Vec<Ty>)>)
    requires
        ready(*program, *tcx),
        def_ok(*program, def),
        self_ty matches Some(t) ==> tcx.has(t),
    ensures
        match r {
            Some((m, v)) => redirect_spec(*program, *tcx, def, self_ty, args@) == Some((m, v@)),
            None => redirect_spec(*program, *tcx, def, self_ty, args@) is None,
        },
{
    let t = match self_ty {
        Some(t) => t,
        None => return None,
    };
    let (owner, index) = match program.def_infos.trait_method(def) {
        Some(x) => x,
        None => return None,
    };
    let (i, binds) = match matching_vtable(program, tcx, owner, t) {
        Some(x) => x,
        None => return None,
    };
    proof {
        lemma_vtable_from_matches(*program, *tcx, owner, t, 0);
    }
    let info = &program.vtables[i].1;
    proof {
        assert(vtable_ok(*program, *tcx, i as int));
        assert(program.def_infos.info(DefId(def.0 as u32)) == program.def_infos.info(def));
        lemma_match_facts(*tcx, program.vtables@[i as int].0.0, t, Seq::empty());
    }
    let impl_method = match info.methods[index as usize] {
        Some(m) => m,
        None => return None,
    };
    let mut redirected: Vec<Ty> = Vec::new();
    let mut g: usize = 0;
    let ghost b = binds@;
    let ghost eg = info.extend_generics@;
    while g < info.extend_generics.len()
        invariant
            eg == info.extend_generics@,
            b == binds@,
            g <= eg.len(),
            redirected@ == Seq::new(g as nat, |k: int| bound_to(b, eg[k], b.len() as int)->0),
            forall|h: HirId| binds_leaf(*tcx, program.vtables@[i as int].0.0, h) ==> (#[trigger] bound_to(b, h, b.len() as int)) is Some,
            forall|k: int| 0 <= k < eg.len() ==> binds_leaf(*tcx, program.vtables@[i as int].0.0, #[trigger] eg[k]),
        decreases eg.len() - g,
    {
        let h = info.extend_generics[g];
        assert(binds_leaf(*tcx, program.vtables@[i as int].0.0, eg[g as int]));
        let bound = crate::mir::monomorphize::matching::lookup_bound(&binds, h);
        match bound {
            Some(x) => {
                redirected.push(x);
            },
            None => {
                assert(false);
                return None;
            },
        }
        g = g + 1;
        assert(redirected@ =~= Seq::new(g as nat, |k: int| bound_to(b, eg[k], b.len() as int)->0));
    }
    let ghost before = redirected@;
    let mut k: usize = 0;
    while k < args.len()
        invariant
            k <= args@.len(),
            redirected@ == before + args@.take(k as int),
        decreases args@.len() - k,
    {
        redirected.push(args[k]);
        k = k + 1;
        assert(redirected@ =~= before + args@.take(k as int));
    }
    assert(args@.take(args@.len() as int) =~= args@);
    Some((impl_method, redirected))
}

proof fn lemma_vtable_from_matches(p: Mir, tcx: TyCtx, owner: DefId, t: Ty, i: int)
    requires
        0 <= i,
        vtable_from(p, tcx, owner, t, i) is Some,
    ensures
        vtable_matches(p, tcx, owner, t, vtable_from(p, tcx, owner, t, i)->0),
        i <= vtable_from(p, tcx, owner, t, i)->0 < p.vtables@.len(),
    decreases p.vtables@.len() - i,
{
    if i < p.vtables@.len() && !vtable_matches(p, tcx, owner, t, i) {
        lemma_vtable_from_matches(p, tcx, owner, t, i + 1);
    }
}

/// The trait that declares method `def`.
pub open spec fn owner_of(p: Mir, def: DefId) -> DefId {
    match p.def_infos.info(def).trait_method {
        Some((owner, _)) => owner,
        None => def,
    }
}

/// Whether `t` is a `dyn` type of the table.
pub open spec fn is_dyn(tcx: TyCtx, t: Option<Ty>) -> bool {
    t matches Some(x) && tcx.has(x) && tcx.kind_of(x) is Dyn
}

/// The instance a call to `f` asks for, unless it goes through `dyn`.
pub open spec fn fun_call(tcx: TyCtx, f: FunRef) -> Option<(DefId, Option<AnyMode>, Seq<Ty>, Option<Ty>)> {
    if is_dyn(tcx, f.self_ty) { None } else { Some(fkey(f)) }
}

/// The instance an operand asks for: a function constant not dispatched through `dyn`.
pub open spec fn call_of(tcx: TyCtx, o: Operand) -> Option<(DefId, Option<AnyMode>, Seq<Ty>, Option<Ty>)> {
    match o {
        Operand::Constant(c) => match c.kind {
            ConstKind::FunDef(f) => fun_call(tcx, f),
            _ => None,
        },
        _ => None,
    }
}

/// `f1` is the function reference `f0` with `s` applied and resolved: the mode kept, every type
/// in the table, `Self` kept only for a method a trait declares; a call to anything but a trait
/// method keeps its definition and has its arguments substituted; one sent elsewhere is sent
/// to a method of a vtable of the trait.
pub open spec fn fun_subst(p: Mir, t1: TyCtx, f1: FunRef, t0: TyCtx, f0: FunRef, s: Subst) -> bool {
    &&& f1.any_mode == f0.any_mode
    &&& fun_ok(p, t1, f1)
    &&& f1.trait_method == p.def_infos.info(f1.def).trait_method
    &&& f1.self_ty is Some ==> (p.def_infos.info(f1.def).parent matches Some(q) && p.def_infos.info(q).kind
        == DefKind::Trait)
    &&& p.def_infos.info(f0.def).trait_method is None ==> {
        &&& f1.def == f0.def
        &&& f1.args@.len() == f0.args@.len()
        &&& forall|k: int| 0 <= k < f0.args@.len() ==> #[trigger] subst_rel(t1, f1.args@[k], t0, f0.args@[k], s)
    }
    &&& f1.def != f0.def ==> exists|i: int, k: int|
        0 <= i < p.vtables@.len() && 0 <= k < p.vtables@[i].1.methods@.len() && p.def_infos.info(f0.def).trait_method
            is Some && p.vtables@[i].0.1 == owner_of(p, f0.def) && #[trigger] p.vtables@[i].1.methods@[k] == Some(f1.def)
}

/// `o1` is the operand `o0` with `s` applied: a place read stays, a constant has its type
/// substituted and, when it is a function, is resolved as [`fun_subst`] says.
pub open spec fn operand_subst(p: Mir, t1: TyCtx, o1: Operand, t0: TyCtx, o0: Operand, s: Subst) -> bool {
    match o0 {
        Operand::Copy(a) => o1 matches Operand::Copy(b) && b.local == a.local && b.projections@ == a.projections@,
        Operand::Move(a) => o1 matches Operand::Move(b) && b.local == a.local && b.projections@ == a.projections@,
        Operand::Constant(c0) => o1 matches Operand::Constant(c1) && t1.has(c1.ty) && subst_rel(t1, c1.ty, t0, c0.ty, s)
            && match c0.kind {
            ConstKind::FunDef(f0) => c1.kind matches ConstKind::FunDef(f1) && fun_subst(p, t1, f1, t0, f0, s),
            k => c1.kind == k,
        },
    }
}

/// The work that substituting adds: one entry for each call found, none otherwise.
pub open spec fn adds_call(tcx: TyCtx, o: Operand, before: Seq<(Instance, Option<Subst>)>, after: Seq<(Instance, Option<Subst>)>) -> bool {
    adds_key(call_of(tcx, o), before, after)
}

/// `after` is `before` with an entry for `key` added, where there is one.
pub open spec fn adds_key(
    key: Option<(DefId, Option<AnyMode>, Seq<Ty>, Option<Ty>)>,
    before: Seq<(Instance, Option<Subst>)>,
    after: Seq<(Instance, Option<Subst>)>,
) -> bool {
    match key {
        Some(key) => after.len() == before.len() + 1 && grows(before, after) && ikey(after.last().0) == key
            && after.last().1 is None,
        None => after == before,
    }
}

/// `v` with `s` applied to each type.
fn subst_tys(tcx: &mut TyCtx, v: &Vec<Ty>, s: &Subst) -> (r: Result<Vec<Ty>, MonoError>)
    requires
        old(tcx).wf(),
        tys_in(*old(tcx), v@),
        subst_in(*s, *old(tcx)),
    ensures
        final(tcx).wf(),
        extends(*final(tcx), *old(tcx)),
        match r {
            Ok(w) => w@.len() == v@.len() && tys_in(*final(tcx), w@) && forall|k: int|
                0 <= k < v@.len() ==> #[trigger] subst_rel(*final(tcx), w@[k], *old(tcx), v@[k], *s),
            Err(e) => e == MonoError::TypeTableFull && final(tcx).kinds_view().len() + 1 >= u32::MAX,
        },
{
    let ghost t0 = *tcx;
    let mut w: Vec<Ty> = Vec::new();
    let mut i: usize = 0;
    while i < v.len()
        invariant
            tcx.wf(),
            extends(*tcx, t0),
            t0 == *old(tcx),
            t0.wf(),
            tys_in(t0, v@),
            subst_in(*s, t0),
            i <= v@.len(),
            w@.len() == i,
            tys_in(*tcx, w@),
            forall|k: int| 0 <= k < i ==> #[trigger] subst_rel(*tcx, w@[k], t0, v@[k], *s),
        decreases v@.len() - i,
    {
        let ghost before = *tcx;
        proof {
            lemma_subst_in_grows(*s, t0, *tcx);
        }
        match tcx.subst_ty(v[i], s) {
            Some(t) => {
                proof {
                    assert forall|k: int| 0 <= k < i implies #[trigger] subst_rel(*tcx, w@[k], t0, v@[k], *s) by {
                        crate::typeck::lemma_subst_rel_extend(before, *tcx, w@[k], t0, v@[k], *s);
                    }
                    crate::typeck::lemma_subst_rel_from_pub(*tcx, t, before, t0, v@[i as int], *s);
                }
                w.push(t);
            },
            None => {
                return Err(MonoError::TypeTableFull);
            },
        }
        i = i + 1;
    }
    Ok(w)
}

proof fn lemma_subst_in_grows(s: Subst, t0: TyCtx, t1: TyCtx)
    requires
        subst_in(s, t0),
        extends(t1, t0),
    ensures
        subst_in(s, t1),
{
}

/// The trait arguments the implementing type of `self_ty` realizes for the trait that declares
/// `def`, the implementing block's generics substituted out; `None` when `def` is no trait
/// method or no vtable of its trait matches.
fn trait_args_for(program: &Mir, tcx: &mut TyCtx, def: DefId, self_ty: Option<Ty>) -> (r: Result<Option<Vec<Ty>>, MonoError>)
    requires
        ready(*program, *old(tcx)),
        def_ok(*program, def),
        self_ty matches Some(t) ==> old(tcx).has(t),
    ensures
        final(tcx).wf(),
        extends(*final(tcx), *old(tcx)),
        match r {
            Ok(None) => self_ty is None || program.def_infos.info(def).trait_method is None || vtable_from(
                *program,
                *old(tcx),
                owner_of(*program, def),
                self_ty->0,
                0,
            ) is None,
            Ok(Some(v)) => self_ty is Some && program.def_infos.info(def).trait_method is Some && tys_in(*final(tcx), v@)
                && match vtable_from(*program, *old(tcx), owner_of(*program, def), self_ty->0, 0) {
                Some(i) => v@.len() == program.vtables@[i].1.trait_args@.len() && exists|b: Subst|
                    b.generics@ == vtable_binds(*program, *old(tcx), self_ty->0, i) && b.self_ty is None && forall|k: int|
                        0 <= k < v@.len() ==> #[trigger] subst_rel(
                            *final(tcx),
                            v@[k],
                            *old(tcx),
                            program.vtables@[i].1.trait_args@[k],
                            b,
                        ),
                None => false,
            },
            Err(e) => e == MonoError::TypeTableFull && final(tcx).kinds_view().len() + 1 >= u32::MAX,
        },
{
    let t = match self_ty {
        Some(t) => t,
        None => return Ok(None),
    };
    let (owner, _) = match program.def_infos.trait_method(def) {
        Some(x) => x,
        None => return Ok(None),
    };
    let (i, binds) = match matching_vtable(program, tcx, owner, t) {
        Some(x) => x,
        None => return Ok(None),
    };
    proof {
        lemma_vtable_from_matches(*program, *tcx, owner, t, 0);
        assert(vtable_ok(*program, *tcx, i as int));
        lemma_match_facts(*tcx, program.vtables@[i as int].0.0, t, Seq::empty());
    }
    let b = Subst { generics: binds, self_ty: None };
    let ghost t0 = *tcx;
    match subst_tys(tcx, &program.vtables[i].1.trait_args, &b) {
        Ok(v) => {
            proof {
                assert(forall|k: int| 0 <= k < v@.len() ==> #[trigger] subst_rel(*tcx, v@[k], t0, program.vtables@[i as int].1.trait_args@[k], b));
                assert(b.generics@ == vtable_binds(*program, t0, t, i as int));
            }
            Ok(Some(v))
        },
        Err(e) => Err(e),
    }
}

proof fn lemma_fun_subst_from(p: Mir, t2: TyCtx, f1: FunRef, t1: TyCtx, t0: TyCtx, f0: FunRef, s: Subst)
    requires
        fun_subst(p, t2, f1, t1, f0, s),
        extends(t1, t0),
        t0.wf(),
        tys_in(t0, f0.args@),
    ensures
        fun_subst(p, t2, f1, t0, f0, s),
{
    if p.def_infos.info(f0.def).trait_method is None {
        assert forall|k: int| 0 <= k < f0.args@.len() implies #[trigger] subst_rel(t2, f1.args@[k], t0, f0.args@[k], s) by {
            assert(subst_rel(t2, f1.args@[k], t1, f0.args@[k], s));
            crate::typeck::lemma_subst_rel_from_pub(t2, f1.args@[k], t1, t0, f0.args@[k], s);
        }
    }
}

/// `f` with `s` applied and resolved: a call a trait's default body makes is sent to the
/// implementing type's own method where a vtable has one, `Self` is kept only for a method a
/// trait declares, and such a method takes the trait's arguments first.
fn subst_fun(
    program: &Mir,
    tcx: &mut TyCtx,
    f: &FunRef,
    s: &Subst,
    discovered: &mut Vec<(Instance, Option<Subst>)>,
) -> (r: Result<FunRef, MonoError>)
    requires
        ready(*program, *old(tcx)),
        fun_ok(*program, *old(tcx), *f),
        subst_in(*s, *old(tcx)),
    ensures
        final(tcx).wf(),
        extends(*final(tcx), *old(tcx)),
        grows(old(discovered)@, final(discovered)@),
        items_ok(*program, *final(tcx), final(discovered)@, old(discovered)@.len() as int),
        match r {
            Ok(f1) => fun_subst(*program, *final(tcx), f1, *old(tcx), *f, *s) && adds_key(
                fun_call(*final(tcx), f1),
                old(discovered)@,
                final(discovered)@,
            ),
            Err(e) => e == MonoError::TypeTableFull && final(tcx).kinds_view().len() + 1 >= u32::MAX,
        },
{
    let ghost t0 = *tcx;
    let args = match subst_tys(tcx, &f.args, s) {
        Ok(a) => a,
        Err(e) => return Err(e),
    };
    let ghost t1 = *tcx;
    proof {
        lemma_subst_in_grows(*s, t0, *tcx);
    }
    let self_ty = match f.self_ty {
        Some(t) => match tcx.subst_ty(t, s) {
            Some(x) => Some(x),
            None => return Err(MonoError::TypeTableFull),
        },
        None => None,
    };
    let ghost t2 = *tcx;
    proof {
        lemma_ready_grows(*program, t0, *tcx);
        assert forall|k: int| 0 <= k < f.args@.len() implies #[trigger] subst_rel(t2, args@[k], t0, f.args@[k], *s) by {
            crate::typeck::lemma_subst_rel_extend(t1, t2, args@[k], t0, f.args@[k], *s);
        }
        assert(tys_in(t2, args@));
    }
    let dyn_dispatch = match self_ty {
        Some(t) => match tcx.kind(t) {
            TyKind::Dyn { .. } => true,
            _ => false,
        },
        None => false,
    };
    let (def, args, self_ty) = if dyn_dispatch {
        (f.def, args, self_ty)
    } else {
        match redirect_trait_default(program, tcx, f.def, self_ty, &args) {
            Some((m, a)) => {
                proof {
                    assert(program.def_infos.info(DefId(f.def.0 as u32)) == program.def_infos.info(f.def));
                    let (owner, idx) = program.def_infos.info(f.def).trait_method->0;
                    let i = vtable_from(*program, t2, owner, self_ty->0, 0)->0;
                    lemma_vtable_from_matches(*program, t2, owner, self_ty->0, 0);
                    assert(vtable_ok(*program, t2, i));
                    assert(program.def_infos.info(DefId(f.def.0 as u32)).trait_method == Some((owner, idx)));
                    assert(program.vtables@[i].1.methods@[idx as int] == Some(m));
                    assert(0 <= i < program.vtables@.len() && 0 <= idx < program.vtables@[i].1.methods@.len());
                    lemma_bound_values_in(*program, t2, self_ty->0, i);
                    let b = vtable_binds(*program, t2, self_ty->0, i);
                    let eg = program.vtables@[i].1.extend_generics@;
                    lemma_match_facts(t2, program.vtables@[i].0.0, self_ty->0, Seq::empty());
                    assert forall|k: int| 0 <= k < a@.len() implies t2.has(#[trigger] a@[k]) by {
                        if k < eg.len() {
                            assert(binds_leaf(t2, program.vtables@[i].0.0, eg[k]));
                            assert(bound_to(b, eg[k], b.len() as int) is Some);
                            lemma_bound_to_in(t2, b, eg[k], b.len() as int);
                        } else {
                            assert(a@[k] == args@[k - eg.len()]);
                        }
                    }
                }
                (m, a, None)
            },
            None => (f.def, args, self_ty),
        }
    };
    proof {
        assert(def_ok(*program, def));
        assert(tys_in(t2, args@));
    }
    let self_ty = match program.def_infos.parent(def) {
        Some(q) => {
            proof {
                assert(program.def_infos.info(DefId(def.0 as u32)) == program.def_infos.info(def));
            }
            match program.def_infos.kind(q) {
                DefKind::Trait => self_ty,
                _ => None,
            }
        },
        None => None,
    };
    let args = match trait_args_for(program, tcx, def, self_ty) {
        Ok(Some(ta)) => {
            let mut all = ta;
            let ghost pre = all@;
            let mut k: usize = 0;
            while k < args.len()
                invariant
                    k <= args@.len(),
                    all@ == pre + args@.take(k as int),
                decreases args@.len() - k,
            {
                all.push(args[k]);
                k = k + 1;
                assert(all@ =~= pre + args@.take(k as int));
            }
            assert(args@.take(args@.len() as int) =~= args@);
            all
        },
        Ok(None) => args,
        Err(e) => return Err(e),
    };
    let ghost t3 = *tcx;
    proof {
        if dyn_dispatch {
            assert(t3.kinds_view()[(self_ty->0).0 as int] == t2.kinds_view()[(self_ty->0).0 as int]);
        } else if self_ty is Some {
            assert(t3.kinds_view()[(self_ty->0).0 as int] == t2.kinds_view()[(self_ty->0).0 as int]);
        }
    }
    let f1 = FunRef {
        def,
        args: copy_tys(&args),
        any_mode: f.any_mode,
        self_ty,
        trait_method: program.def_infos.trait_method(def),
    };
    let ghost d0 = discovered@;
    if !dyn_dispatch {
        discovered.push((Instance { def, any_mode: f.any_mode, args, self_ty }, None));
        proof {
            assert(!is_dyn(t3, f1.self_ty));
            assert(fun_call(t3, f1) == Some(fkey(f1)));
        }
    } else {
        proof {
            assert(f1.self_ty == self_ty);
            assert(is_dyn(t3, f1.self_ty));
        }
    }
    proof {
        if program.def_infos.info(f.def).trait_method is None {
            assert forall|k: int| 0 <= k < f.args@.len() implies #[trigger] subst_rel(t3, f1.args@[k], t0, f.args@[k], *s) by {
                crate::typeck::lemma_subst_rel_extend(t2, t3, f1.args@[k], t0, f.args@[k], *s);
            }
        }
    }
    Ok(f1)
}

proof fn lemma_bound_to_in(tcx: TyCtx, b: Seq<(HirId, Ty)>, h: HirId, n: int)
    requires
        binds_in(tcx, b),
        0 <= n <= b.len(),
    ensures
        bound_to(b, h, n) matches Some(x) ==> tcx.has(x),
    decreases n,
{
    if n > 0 {
        lemma_bound_to_in(tcx, b, h, n - 1);
    }
}

/// What matching vtable entry `i` binds are types of the table.
proof fn lemma_bound_values_in(p: Mir, tcx: TyCtx, t: Ty, i: int)
    requires
        ready(p, tcx),
        tcx.has(t),
        0 <= i < p.vtables@.len(),
        vtable_matches(p, tcx, p.vtables@[i].0.1, t, i),
    ensures
        binds_in(tcx, vtable_binds(p, tcx, t, i)),
{
    assert(vtable_ok(p, tcx, i));
    lemma_match_facts(tcx, p.vtables@[i].0.0, t, Seq::empty());
}

fn copy_place(p: &crate::mir::place::Place) -> (q: crate::mir::place::Place)
    ensures
        q.local == p.local,
        q.projections@ == p.projections@,
{
    crate::mir::drop_elaboration::tree::projected_copy(p)
}

/// `o` with `s` applied, a function constant resolved; the instance it calls, unless it goes
/// through `dyn`, is added to `discovered`.
fn subst_operand(
    program: &Mir,
    tcx: &mut TyCtx,
    o: &Operand,
    s: &Subst,
    discovered: &mut Vec<(Instance, Option<Subst>)>,
) -> (r: Result<Operand, MonoError>)
    requires
        ready(*program, *old(tcx)),
        operand_ok(*program, *old(tcx), *o),
        subst_in(*s, *old(tcx)),
    ensures
        final(tcx).wf(),
        extends(*final(tcx), *old(tcx)),
        grows(old(discovered)@, final(discovered)@),
        items_ok(*program, *final(tcx), final(discovered)@, old(discovered)@.len() as int),
        match r {
            Ok(o1) => operand_subst(*program, *final(tcx), o1, *old(tcx), *o, *s) && operand_ok(*program, *final(tcx), o1)
                && adds_call(*final(tcx), o1, old(discovered)@, final(discovered)@),
            Err(e) => e == MonoError::TypeTableFull && final(tcx).kinds_view().len() + 1 >= u32::MAX,
        },
{
    let ghost t0 = *tcx;
    match o {
        Operand::Copy(p) => Ok(Operand::Copy(copy_place(p))),
        Operand::Move(p) => Ok(Operand::Move(copy_place(p))),
        Operand::Constant(c) => {
            let ty = match tcx.subst_ty(c.ty, s) {
                Some(t) => t,
                None => return Err(MonoError::TypeTableFull),
            };
            let kind = match &c.kind {
                ConstKind::Int(v) => ConstKind::Int(*v),
                ConstKind::Float(v) => ConstKind::Float(*v),
                ConstKind::Bool(v) => ConstKind::Bool(*v),
                ConstKind::Char(v) => ConstKind::Char(*v),
                ConstKind::Str(v) => ConstKind::Str(*v),
                ConstKind::FunDef(f) => {
                    let ghost t1 = *tcx;
                    proof {
                        lemma_ready_grows(*program, t0, *tcx);
                        lemma_subst_in_grows(*s, t0, *tcx);
                        assert(fun_ok(*program, t1, *f)) by {
                            assert(tys_in(t1, f.args@));
                        }
                    }
                    let f1 = match subst_fun(program, tcx, f, s, discovered) {
                        Ok(f1) => f1,
                        Err(e) => return Err(e),
                    };
                    proof {
                        crate::typeck::lemma_subst_rel_extend(t1, *tcx, ty, t0, c.ty, *s);
                        lemma_fun_subst_from(*program, *tcx, f1, t1, t0, *f, *s);
                    }
                    ConstKind::FunDef(f1)
                },
            };
            Ok(Operand::Constant(Constant { ty, kind }))
        },
    }
}

pub open spec fn same_place(a: crate::mir::place::Place, b: crate::mir::place::Place) -> bool {
    a.local == b.local && a.projections@ == b.projections@
}

/// Each of `os1` is the operand of `os0` at its position with `s` applied.
pub open spec fn operands_subst(p: Mir, t1: TyCtx, os1: Seq<Operand>, t0: TyCtx, os0: Seq<Operand>, s: Subst) -> bool {
    &&& os1.len() == os0.len()
    &&& forall|k: int| 0 <= k < os0.len() ==> #[trigger] operand_subst(p, t1, os1[k], t0, os0[k], s)
}

/// Every call among `os` is listed in `d`.
pub open spec fn calls_listed(tcx: TyCtx, os: Seq<Operand>, d: Seq<(Instance, Option<Subst>)>) -> bool {
    forall|k: int| 0 <= k < os.len() ==> (#[trigger] call_of(tcx, os[k]) matches Some(key) ==> listed(d, key))
}

pub open spec fn listed(d: Seq<(Instance, Option<Subst>)>, key: (DefId, Option<AnyMode>, Seq<Ty>, Option<Ty>)) -> bool {
    exists|j: int| 0 <= j < d.len() && ikey(#[trigger] d[j].0) == key
}

/// `after` keeps `before` as its start.
pub open spec fn grows(before: Seq<(Instance, Option<Subst>)>, after: Seq<(Instance, Option<Subst>)>) -> bool {
    before.len() <= after.len() && forall|j: int| 0 <= j < before.len() ==> #[trigger] after[j] == before[j]
}

/// `rv1` is `rv0` with `s` applied: the same kind of rvalue reading the same places, its
/// operands and cast type substituted, and a closure it creates given `args`.
pub open spec fn rvalue_subst(p: Mir, t1: TyCtx, rv1: Rvalue, t0: TyCtx, rv0: Rvalue, s: Subst, args: Seq<Ty>) -> bool {
    &&& operands_subst(p, t1, rvalue_operands(rv1), t0, rvalue_operands(rv0), s)
    &&& match rv0 {
        Rvalue::Use(_) => rv1 is Use,
        Rvalue::Ref { mutability: m, place: a } => rv1 matches Rvalue::Ref { mutability: n, place: b } && m == n
            && same_place(a, b),
        Rvalue::BinaryOp(op, _, _) => rv1 matches Rvalue::BinaryOp(op1, _, _) && op1 == op,
        Rvalue::CheckedBinaryOp(op, _, _) => rv1 matches Rvalue::CheckedBinaryOp(op1, _, _) && op1 == op,
        Rvalue::UnaryOp(op, _) => rv1 matches Rvalue::UnaryOp(op1, _) && op1 == op,
        Rvalue::Cast { ty, kind, .. } => rv1 matches Rvalue::Cast { ty: ty1, kind: kind1, .. } && kind1 == kind
            && subst_rel(t1, ty1, t0, ty, s),
        Rvalue::Aggregate(k0, _) => rv1 matches Rvalue::Aggregate(k1, _) && match *k0 {
            AggregateKind::Closure { def, .. } => *k1 matches AggregateKind::Closure { def: d1, args: a1 } && d1 == def
                && a1@ == args,
            AggregateKind::Tuple => *k1 is Tuple,
            AggregateKind::Array => *k1 is Array,
            AggregateKind::Adt { def, variant } => *k1 matches AggregateKind::Adt { def: d1, variant: v1 } && d1 == def
                && v1 == variant,
        },
        Rvalue::Discriminant(a) => rv1 matches Rvalue::Discriminant(b) && same_place(a, b),
        Rvalue::Len(a) => rv1 matches Rvalue::Len(b) && same_place(a, b),
        Rvalue::New(_) => rv1 is New,
        Rvalue::NewArray { .. } => rv1 is NewArray,
    }
}

/// The closure instance an rvalue creates, given the arguments and `Self` type of the instance
/// whose body creates it.
pub open spec fn closure_of(rv: Rvalue, self_ty: Option<Ty>) -> Option<(DefId, Option<AnyMode>, Seq<Ty>, Option<Ty>)> {
    match rv {
        Rvalue::Aggregate(k, _) => match *k {
            AggregateKind::Closure { def, args } => Some((def, None, args@, self_ty)),
            _ => None,
        },
        _ => None,
    }
}

fn subst_operands(
    program: &Mir,
    tcx: &mut TyCtx,
    os: &Vec<Operand>,
    s: &Subst,
    discovered: &mut Vec<(Instance, Option<Subst>)>,
) -> (r: Result<Vec<Operand>, MonoError>)
    requires
        ready(*program, *old(tcx)),
        operands_ok(*program, *old(tcx), os@),
        subst_in(*s, *old(tcx)),
    ensures
        final(tcx).wf(),
        extends(*final(tcx), *old(tcx)),
        grows(old(discovered)@, final(discovered)@),
        items_ok(*program, *final(tcx), final(discovered)@, old(discovered)@.len() as int),
        match r {
            Ok(v) => operands_subst(*program, *final(tcx), v@, *old(tcx), os@, *s) && operands_ok(*program, *final(tcx), v@)
                && calls_listed(*final(tcx), v@, final(discovered)@),
            Err(e) => e == MonoError::TypeTableFull && final(tcx).kinds_view().len() + 1 >= u32::MAX,
        },
{
    let ghost t0 = *tcx;
    let ghost d0 = discovered@;
    let mut v: Vec<Operand> = Vec::new();
    let mut i: usize = 0;
    while i < os.len()
        invariant
            ready(*program, *tcx),
            t0 == *old(tcx),
            d0 == old(discovered)@,
            ready(*program, t0),
            extends(*tcx, t0),
            operands_ok(*program, t0, os@),
            subst_in(*s, t0),
            grows(d0, discovered@),
            items_ok(*program, *tcx, discovered@, d0.len() as int),
            i <= os@.len(),
            v@.len() == i,
            forall|k: int| 0 <= k < i ==> #[trigger] operand_subst(*program, *tcx, v@[k], t0, os@[k], *s),
            operands_ok(*program, *tcx, v@),
            calls_listed(*tcx, v@, discovered@),
        decreases os@.len() - i,
    {
        let ghost t1 = *tcx;
        let ghost d1 = discovered@;
        proof {
            lemma_subst_in_grows(*s, t0, *tcx);
            lemma_operands_ok_grows(*program, t0, *tcx, os@);
            assert(operand_ok(*program, *tcx, os@[i as int]));
        }
        let o1 = match subst_operand(program, tcx, &os[i], s, discovered) {
            Ok(o1) => o1,
            Err(e) => {
                proof {
                    lemma_grows_trans(d0, d1, discovered@);
                    lemma_items_ok_grows(*program, t1, *tcx, d1, d0.len() as int);
                    lemma_items_ok_join(*program, *tcx, d1, discovered@, d0.len() as int);
                }
                return Err(e);
            },
        };
        proof {
            lemma_ready_grows(*program, t1, *tcx);
            lemma_operand_subst_from(*program, *tcx, o1, t1, t0, os@[i as int], *s);
            assert forall|k: int| 0 <= k < i implies #[trigger] operand_subst(*program, *tcx, v@[k], t0, os@[k], *s) by {
                lemma_operand_subst_extend(*program, t1, *tcx, v@[k], t0, os@[k], *s);
            }
            lemma_operands_ok_grows(*program, t1, *tcx, v@);
            lemma_grows_trans(d0, d1, discovered@);
            lemma_calls_listed_grows(*program, t1, *tcx, v@, d1, discovered@);
            lemma_items_ok_grows(*program, t1, *tcx, d1, d0.len() as int);
            lemma_items_ok_join(*program, *tcx, d1, discovered@, d0.len() as int);
        }
        v.push(o1);
        proof {
            assert(v@.drop_last() == v@.take(i as int));
            assert forall|k: int| 0 <= k < v@.len() implies (#[trigger] call_of(*tcx, v@[k]) matches Some(key) ==> listed(discovered@, key)) by {
                if k == i {
                    if call_of(*tcx, o1) is Some {
                        assert(ikey(discovered@[discovered@.len() - 1].0) == call_of(*tcx, o1)->0);
                    }
                } else {
                    assert(v@[k] == v@.drop_last()[k]);
                }
            }
            assert forall|k: int| 0 <= k < v@.len() implies operand_ok(*program, *tcx, #[trigger] v@[k]) by {
                if k < i {
                    assert(v@[k] == v@.drop_last()[k]);
                }
            }
        }
        i = i + 1;
    }
    Ok(v)
}

proof fn lemma_grows_trans(a: Seq<(Instance, Option<Subst>)>, b: Seq<(Instance, Option<Subst>)>, c: Seq<(Instance, Option<Subst>)>)
    requires
        grows(a, b),
        grows(b, c),
    ensures
        grows(a, c),
{
    assert forall|j: int| 0 <= j < a.len() implies #[trigger] c[j] == a[j] by {
        assert(c[j] == b[j]);
    }
}

proof fn lemma_listed_grows(b: Seq<(Instance, Option<Subst>)>, c: Seq<(Instance, Option<Subst>)>, key: (DefId, Option<AnyMode>, Seq<Ty>, Option<Ty>))
    requires
        grows(b, c),
        listed(b, key),
    ensures
        listed(c, key),
{
    let j = choose|j: int| 0 <= j < b.len() && ikey(#[trigger] b[j].0) == key;
    assert(c[j] == b[j]);
}

proof fn lemma_calls_listed_grows(p: Mir, t0: TyCtx, t1: TyCtx, os: Seq<Operand>, d0: Seq<(Instance, Option<Subst>)>, d1: Seq<(Instance, Option<Subst>)>)
    requires
        calls_listed(t0, os, d0),
        extends(t1, t0),
        grows(d0, d1),
        operands_ok(p, t0, os),
    ensures
        calls_listed(t1, os, d1),
{
    assert forall|k: int| 0 <= k < os.len() implies (#[trigger] call_of(t1, os[k]) matches Some(key) ==> listed(d1, key)) by {
        match os[k] {
            Operand::Constant(c) => {
                match c.kind {
                    ConstKind::FunDef(f) => {
                        match f.self_ty {
                            Some(x) => {
                                assert(operand_ok(p, t0, os[k]));
                                assert(t1.kinds_view()[x.0 as int] == t0.kinds_view()[x.0 as int]);
                            },
                            None => {},
                        }
                        assert(call_of(t0, os[k]) == call_of(t1, os[k]));
                        if call_of(t1, os[k]) is Some {
                            lemma_listed_grows(d0, d1, call_of(t1, os[k])->0);
                        }
                    },
                    _ => {},
                }
            },
            _ => {},
        }
    }
}

proof fn lemma_operand_subst_from(p: Mir, t2: TyCtx, o1: Operand, t1: TyCtx, t0: TyCtx, o0: Operand, s: Subst)
    requires
        operand_subst(p, t2, o1, t1, o0, s),
        extends(t1, t0),
        t0.wf(),
        operand_ok(p, t0, o0),
    ensures
        operand_subst(p, t2, o1, t0, o0, s),
{
    match o0 {
        Operand::Constant(c0) => {
            crate::typeck::lemma_subst_rel_from_pub(t2, o1->Constant_0.ty, t1, t0, c0.ty, s);
            match c0.kind {
                ConstKind::FunDef(f0) => {
                    lemma_fun_subst_from(p, t2, o1->Constant_0.kind->FunDef_0, t1, t0, f0, s);
                },
                _ => {},
            }
        },
        _ => {},
    }
}

proof fn lemma_operand_subst_extend(p: Mir, t1: TyCtx, t2: TyCtx, o1: Operand, t0: TyCtx, o0: Operand, s: Subst)
    requires
        operand_subst(p, t1, o1, t0, o0, s),
        extends(t2, t1),
    ensures
        operand_subst(p, t2, o1, t0, o0, s),
{
    match o0 {
        Operand::Constant(c0) => {
            crate::typeck::lemma_subst_rel_extend(t1, t2, o1->Constant_0.ty, t0, c0.ty, s);
            match c0.kind {
                ConstKind::FunDef(f0) => {
                    let f1 = o1->Constant_0.kind->FunDef_0;
                    assert(tys_in(t2, f1.args@));
                    if p.def_infos.info(f0.def).trait_method is None {
                        assert forall|k: int| 0 <= k < f0.args@.len() implies #[trigger] subst_rel(t2, f1.args@[k], t0, f0.args@[k], s) by {
                            crate::typeck::lemma_subst_rel_extend(t1, t2, f1.args@[k], t0, f0.args@[k], s);
                        }
                    }
                },
                _ => {},
            }
        },
        _ => {},
    }
}

/// `c` is a copy of `s`.
pub open spec fn carries(c: Option<Subst>, s: Subst) -> bool {
    c matches Some(x) && x.generics@ == s.generics@ && x.self_ty == s.self_ty
}

/// `d` lists the closure instance `key` with the substitution `s` its body takes.
pub open spec fn closure_listed(d: Seq<(Instance, Option<Subst>)>, key: (DefId, Option<AnyMode>, Seq<Ty>, Option<Ty>), s: Subst) -> bool {
    exists|j: int|
        0 <= j < d.len() && ikey(#[trigger] d[j].0) == key && carries(d[j].1, s)
}

/// One operand with `s` applied, its call listed.
fn subst_one(
    program: &Mir,
    tcx: &mut TyCtx,
    o: &Operand,
    s: &Subst,
    discovered: &mut Vec<(Instance, Option<Subst>)>,
) -> (r: Result<Operand, MonoError>)
    requires
        ready(*program, *old(tcx)),
        operand_ok(*program, *old(tcx), *o),
        subst_in(*s, *old(tcx)),
    ensures
        final(tcx).wf(),
        extends(*final(tcx), *old(tcx)),
        grows(old(discovered)@, final(discovered)@),
        items_ok(*program, *final(tcx), final(discovered)@, old(discovered)@.len() as int),
        match r {
            Ok(o1) => operand_subst(*program, *final(tcx), o1, *old(tcx), *o, *s) && operand_ok(*program, *final(tcx), o1)
                && (call_of(*final(tcx), o1) matches Some(key) ==> listed(final(discovered)@, key)),
            Err(e) => e == MonoError::TypeTableFull && final(tcx).kinds_view().len() + 1 >= u32::MAX,
        },
{
    let r = subst_operand(program, tcx, o, s, discovered);
    proof {
        if r is Ok {
            let o1 = r->Ok_0;
            if call_of(*tcx, o1) is Some {
                assert(ikey(discovered@[discovered@.len() - 1].0) == call_of(*tcx, o1)->0);
            }
        }
    }
    r
}

/// Two operands with `s` applied in order, their calls listed.
fn subst_two(
    program: &Mir,
    tcx: &mut TyCtx,
    a: &Operand,
    b: &Operand,
    s: &Subst,
    discovered: &mut Vec<(Instance, Option<Subst>)>,
) -> (r: Result<(Operand, Operand), MonoError>)
    requires
        ready(*program, *old(tcx)),
        operand_ok(*program, *old(tcx), *a),
        operand_ok(*program, *old(tcx), *b),
        subst_in(*s, *old(tcx)),
    ensures
        final(tcx).wf(),
        extends(*final(tcx), *old(tcx)),
        grows(old(discovered)@, final(discovered)@),
        items_ok(*program, *final(tcx), final(discovered)@, old(discovered)@.len() as int),
        match r {
            Ok((a1, b1)) => operands_subst(*program, *final(tcx), seq![a1, b1], *old(tcx), seq![*a, *b], *s) && operands_ok(
                *program,
                *final(tcx),
                seq![a1, b1],
            ) && calls_listed(*final(tcx), seq![a1, b1], final(discovered)@),
            Err(e) => e == MonoError::TypeTableFull && final(tcx).kinds_view().len() + 1 >= u32::MAX,
        },
{
    let ghost t0 = *tcx;
    let ghost d0 = discovered@;
    let a1 = match subst_one(program, tcx, a, s, discovered) {
        Ok(x) => x,
        Err(e) => return Err(e),
    };
    let ghost t1 = *tcx;
    let ghost d1 = discovered@;
    proof {
        lemma_ready_grows(*program, t0, *tcx);
        lemma_subst_in_grows(*s, t0, *tcx);
        lemma_operands_ok_grows(*program, t0, *tcx, seq![*b]);
        assert(operand_ok(*program, *tcx, seq![*b][0]));
    }
    let b1 = match subst_one(program, tcx, b, s, discovered) {
        Ok(x) => x,
        Err(e) => {
            proof {
                lemma_grows_trans(d0, d1, discovered@);
            }
            return Err(e);
        },
    };
    proof {
        lemma_grows_trans(d0, d1, discovered@);
        lemma_operand_subst_extend(*program, t1, *tcx, a1, t0, *a, *s);
        lemma_operand_subst_from(*program, *tcx, b1, t1, t0, *b, *s);
        lemma_operands_ok_grows(*program, t1, *tcx, seq![a1]);
        assert(operand_ok(*program, *tcx, seq![a1][0]));
        lemma_calls_listed_grows(*program, t1, *tcx, seq![a1], d1, discovered@);
        assert(call_of(*tcx, seq![a1][0]) matches Some(key) ==> listed(discovered@, key));
        assert(seq![a1, b1][0] == a1 && seq![a1, b1][1] == b1);
        assert(seq![*a, *b][0] == *a && seq![*a, *b][1] == *b);
    }
    Ok((a1, b1))
}

/// `rv` with `s` applied inside the instance `inst`: its operands substituted, their calls
/// listed, and a closure it creates given `inst`'s arguments and listed with `s`.
fn subst_rvalue(
    program: &Mir,
    tcx: &mut TyCtx,
    rv: &Rvalue,
    s: &Subst,
    inst: &Instance,
    discovered: &mut Vec<(Instance, Option<Subst>)>,
) -> (r: Result<Rvalue, MonoError>)
    requires
        ready(*program, *old(tcx)),
        rvalue_ok(*program, *old(tcx), *rv),
        subst_in(*s, *old(tcx)),
        inst_ok(*program, *old(tcx), *inst, *s),
    ensures
        final(tcx).wf(),
        extends(*final(tcx), *old(tcx)),
        grows(old(discovered)@, final(discovered)@),
        items_ok(*program, *final(tcx), final(discovered)@, old(discovered)@.len() as int),
        match r {
            Ok(rv1) => rvalue_subst(*program, *final(tcx), rv1, *old(tcx), *rv, *s, inst.args@) && rvalue_ok(
                *program,
                *final(tcx),
                rv1,
            ) && calls_listed(*final(tcx), rvalue_operands(rv1), final(discovered)@) && (closure_of(rv1, inst.self_ty) matches Some(
                key,
            ) ==> closure_listed(final(discovered)@, key, *s)),
            Err(e) => e == MonoError::TypeTableFull && final(tcx).kinds_view().len() + 1 >= u32::MAX,
        },
{
    let ghost t0 = *tcx;
    let ghost ops0 = rvalue_operands(*rv);
    proof {
        assert(operands_ok(*program, t0, ops0));
    }
    match rv {
        Rvalue::Use(o) => {
            assert(ops0[0] == *o);
            let o1 = match subst_one(program, tcx, o, s, discovered) {
                Ok(x) => x,
                Err(e) => return Err(e),
            };
            let r = Rvalue::Use(o1);
            proof {
                assert(rvalue_operands(r) =~= seq![o1]);
                assert(ops0 =~= seq![*o]);
            }
            Ok(r)
        },
        Rvalue::UnaryOp(op, o) => {
            assert(ops0[0] == *o);
            let o1 = match subst_one(program, tcx, o, s, discovered) {
                Ok(x) => x,
                Err(e) => return Err(e),
            };
            let r = Rvalue::UnaryOp(*op, o1);
            proof {
                assert(rvalue_operands(r) =~= seq![o1]);
                assert(ops0 =~= seq![*o]);
            }
            Ok(r)
        },
        Rvalue::New(o) => {
            assert(ops0[0] == *o);
            let o1 = match subst_one(program, tcx, o, s, discovered) {
                Ok(x) => x,
                Err(e) => return Err(e),
            };
            let r = Rvalue::New(o1);
            proof {
                assert(rvalue_operands(r) =~= seq![o1]);
                assert(ops0 =~= seq![*o]);
            }
            Ok(r)
        },
        Rvalue::Cast { operand, ty, kind } => {
            assert(ops0[0] == *operand);
            let o1 = match subst_one(program, tcx, operand, s, discovered) {
                Ok(x) => x,
                Err(e) => return Err(e),
            };
            let ghost t1 = *tcx;
            proof {
                lemma_subst_in_grows(*s, t0, *tcx);
            }
            let ty1 = match tcx.subst_ty(*ty, s) {
                Some(t) => t,
                None => return Err(MonoError::TypeTableFull),
            };
            let r = Rvalue::Cast { operand: o1, ty: ty1, kind: *kind };
            proof {
                crate::typeck::lemma_subst_rel_from_pub(*tcx, ty1, t1, t0, *ty, *s);
                lemma_operand_subst_extend(*program, t1, *tcx, o1, t0, *operand, *s);
                lemma_operands_ok_grows(*program, t1, *tcx, seq![o1]);
                assert(operand_ok(*program, *tcx, seq![o1][0]));
                lemma_calls_listed_grows(*program, t1, *tcx, seq![o1], discovered@, discovered@);
                assert(rvalue_operands(r) =~= seq![o1]);
                assert(ops0 =~= seq![*operand]);
            }
            Ok(r)
        },
        Rvalue::BinaryOp(op, a, b) => {
            assert(ops0 =~= seq![*a, *b]);
            let (a1, b1) = match subst_two(program, tcx, a, b, s, discovered) {
                Ok(x) => x,
                Err(e) => return Err(e),
            };
            let r = Rvalue::BinaryOp(*op, a1, b1);
            assert(rvalue_operands(r) =~= seq![a1, b1]);
            Ok(r)
        },
        Rvalue::CheckedBinaryOp(op, a, b) => {
            assert(ops0 =~= seq![*a, *b]);
            let (a1, b1) = match subst_two(program, tcx, a, b, s, discovered) {
                Ok(x) => x,
                Err(e) => return Err(e),
            };
            let r = Rvalue::CheckedBinaryOp(*op, a1, b1);
            assert(rvalue_operands(r) =~= seq![a1, b1]);
            Ok(r)
        },
        Rvalue::NewArray { elem, count } => {
            assert(ops0 =~= seq![*elem, *count]);
            let (a1, b1) = match subst_two(program, tcx, elem, count, s, discovered) {
                Ok(x) => x,
                Err(e) => return Err(e),
            };
            let r = Rvalue::NewArray { elem: a1, count: b1 };
            assert(rvalue_operands(r) =~= seq![a1, b1]);
            Ok(r)
        },
        Rvalue::Ref { mutability, place } => Ok(Rvalue::Ref { mutability: *mutability, place: copy_place(place) }),
        Rvalue::Discriminant(place) => Ok(Rvalue::Discriminant(copy_place(place))),
        Rvalue::Len(place) => Ok(Rvalue::Len(copy_place(place))),
        Rvalue::Aggregate(k, ops) => {
            let ghost d0 = discovered@;
            let ops1 = match subst_operands(program, tcx, ops, s, discovered) {
                Ok(x) => x,
                Err(e) => return Err(e),
            };
            let k1 = match &**k {
                AggregateKind::Tuple => AggregateKind::Tuple,
                AggregateKind::Array => AggregateKind::Array,
                AggregateKind::Adt { def, variant } => AggregateKind::Adt { def: *def, variant: *variant },
                AggregateKind::Closure { def, .. } => {
                    let ghost d1 = discovered@;
                    let key = Instance { def: *def, any_mode: None, args: copy_tys(&inst.args), self_ty: inst.self_ty };
                    discovered.push((key, Some(copy_subst(s))));
                    proof {
                        lemma_grows_trans(d0, d1, discovered@);
                        assert(ikey(discovered@[discovered@.len() - 1].0) == (*def, None::<AnyMode>, inst.args@, inst.self_ty));
                        lemma_calls_listed_grows(*program, *tcx, *tcx, ops1@, d1, discovered@);
                        lemma_inst_ok_grows(*program, t0, *tcx, *inst, *s);
                        lemma_subst_in_grows(*s, t0, *tcx);
                        let it = discovered@[discovered@.len() - 1];
                        let e = choose|e: DefId| def_ok(*program, e) && #[trigger] zips(*s, params_of(*program, e), inst.args@, inst.self_ty);
                        assert(zips(it.1->0, params_of(*program, e), it.0.args@, it.0.self_ty));
                        assert(rvalue_ok(*program, t0, *rv));
                        assert(item_ok(*program, *tcx, it));
                        lemma_items_ok_join(*program, *tcx, d1, discovered@, d0.len() as int);
                    }
                    AggregateKind::Closure { def: *def, args: copy_tys(&inst.args) }
                },
            };
            Ok(Rvalue::Aggregate(Box::new(k1), ops1))
        },
    }
}

/// `k1` is the statement `k0` with `s` applied: an assignment has its rvalue substituted, any
/// other statement stays.
pub open spec fn stmt_subst(p: Mir, t1: TyCtx, k1: StatementKind, t0: TyCtx, k0: StatementKind, s: Subst, args: Seq<Ty>) -> bool {
    match k0 {
        StatementKind::Assign(a, rv0) => k1 matches StatementKind::Assign(b, rv1) && same_place(a, b) && rvalue_subst(
            p,
            t1,
            rv1,
            t0,
            rv0,
            s,
            args,
        ),
        StatementKind::SetDiscriminant { place: a, variant } => k1 matches StatementKind::SetDiscriminant {
            place: b,
            variant: v,
        } && same_place(a, b) && v == variant,
        StatementKind::PlaceMention(a) => k1 matches StatementKind::PlaceMention(b) && same_place(a, b),
        StatementKind::CheckMutable(a) => k1 matches StatementKind::CheckMutable(b) && same_place(a, b),
        StatementKind::StorageLive(l) => k1 == StatementKind::StorageLive(l),
        StatementKind::StorageDead(l) => k1 == StatementKind::StorageDead(l),
        StatementKind::WithLend(l) => k1 == StatementKind::WithLend(l),
    }
}

/// `m1` is the assertion message `m0` with its operands substituted.
pub open spec fn message_subst(p: Mir, t1: TyCtx, m1: AssertMessage, t0: TyCtx, m0: AssertMessage, s: Subst) -> bool {
    &&& operands_subst(p, t1, message_operands(m1), t0, message_operands(m0), s)
    &&& match m0 {
        AssertMessage::Overflow(op, _, _) => m1 matches AssertMessage::Overflow(op1, _, _) && op1 == op,
        AssertMessage::DivisionByZero(_) => m1 is DivisionByZero,
        AssertMessage::RemainderByZero(_) => m1 is RemainderByZero,
        AssertMessage::BoundsCheck { .. } => m1 is BoundsCheck,
    }
}

/// `k1` is the terminator `k0` with `s` applied: the same targets and places, every operand
/// substituted.
pub open spec fn term_subst(p: Mir, t1: TyCtx, k1: TerminatorKind, t0: TyCtx, k0: TerminatorKind, s: Subst) -> bool {
    &&& operands_subst(p, t1, terminator_operands(k1), t0, terminator_operands(k0), s)
    &&& match k0 {
        TerminatorKind::Goto { target } => k1 == TerminatorKind::Goto { target },
        TerminatorKind::Return => k1 is Return,
        TerminatorKind::Unreachable => k1 is Unreachable,
        TerminatorKind::SwitchInt { targets, .. } => k1 matches TerminatorKind::SwitchInt { targets: t, .. }
            && t.values@ == targets.values@ && t.otherwise == targets.otherwise,
        TerminatorKind::Call { destination, target, .. } => k1 matches TerminatorKind::Call {
            destination: d,
            target: t,
            ..
        } && same_place(destination, d) && t == target,
        TerminatorKind::Drop { place, target } => k1 matches TerminatorKind::Drop { place: q, target: t } && same_place(
            place,
            q,
        ) && t == target,
        TerminatorKind::DropIso { place, target } => k1 matches TerminatorKind::DropIso { place: q, target: t }
            && same_place(place, q) && t == target,
        TerminatorKind::Assert { expected, msg, target, .. } => k1 matches TerminatorKind::Assert {
            expected: e,
            msg: m,
            target: t,
            ..
        } && e == expected && t == target && message_subst(p, t1, m, t0, msg, s),
    }
}

fn subst_statement(
    program: &Mir,
    tcx: &mut TyCtx,
    k: &StatementKind,
    s: &Subst,
    inst: &Instance,
    discovered: &mut Vec<(Instance, Option<Subst>)>,
) -> (r: Result<StatementKind, MonoError>)
    requires
        ready(*program, *old(tcx)),
        *k matches StatementKind::Assign(_, rv) ==> rvalue_ok(*program, *old(tcx), rv),
        subst_in(*s, *old(tcx)),
        inst_ok(*program, *old(tcx), *inst, *s),
    ensures
        final(tcx).wf(),
        extends(*final(tcx), *old(tcx)),
        grows(old(discovered)@, final(discovered)@),
        items_ok(*program, *final(tcx), final(discovered)@, old(discovered)@.len() as int),
        match r {
            Ok(k1) => stmt_subst(*program, *final(tcx), k1, *old(tcx), *k, *s, inst.args@) && stmt_found(
                *program,
                *final(tcx),
                k1,
                inst.self_ty,
                *s,
                final(discovered)@,
            ),
            Err(e) => e == MonoError::TypeTableFull && final(tcx).kinds_view().len() + 1 >= u32::MAX,
        },
{
    match k {
        StatementKind::Assign(place, rv) => {
            let rv1 = match subst_rvalue(program, tcx, rv, s, inst, discovered) {
                Ok(x) => x,
                Err(e) => return Err(e),
            };
            Ok(StatementKind::Assign(copy_place(place), rv1))
        },
        StatementKind::SetDiscriminant { place, variant } => Ok(
            StatementKind::SetDiscriminant { place: copy_place(place), variant: *variant },
        ),
        StatementKind::PlaceMention(place) => Ok(StatementKind::PlaceMention(copy_place(place))),
        StatementKind::CheckMutable(place) => Ok(StatementKind::CheckMutable(copy_place(place))),
        StatementKind::StorageLive(l) => Ok(StatementKind::StorageLive(*l)),
        StatementKind::StorageDead(l) => Ok(StatementKind::StorageDead(*l)),
        StatementKind::WithLend(l) => Ok(StatementKind::WithLend(*l)),
    }
}

/// What a substituted statement asks for is listed: its calls, and the closure it creates
/// with the substitution its body takes.
pub open spec fn stmt_found(p: Mir, tcx: TyCtx, k: StatementKind, self_ty: Option<Ty>, s: Subst, d: Seq<(Instance, Option<Subst>)>) -> bool {
    k matches StatementKind::Assign(_, rv) ==> {
        &&& rvalue_ok(p, tcx, rv)
        &&& calls_listed(tcx, rvalue_operands(rv), d)
        &&& closure_of(rv, self_ty) matches Some(key) ==> closure_listed(d, key, s)
    }
}

fn subst_message(
    program: &Mir,
    tcx: &mut TyCtx,
    m: &AssertMessage,
    s: &Subst,
    discovered: &mut Vec<(Instance, Option<Subst>)>,
) -> (r: Result<AssertMessage, MonoError>)
    requires
        ready(*program, *old(tcx)),
        operands_ok(*program, *old(tcx), message_operands(*m)),
        subst_in(*s, *old(tcx)),
    ensures
        final(tcx).wf(),
        extends(*final(tcx), *old(tcx)),
        grows(old(discovered)@, final(discovered)@),
        items_ok(*program, *final(tcx), final(discovered)@, old(discovered)@.len() as int),
        match r {
            Ok(m1) => message_subst(*program, *final(tcx), m1, *old(tcx), *m, *s) && operands_ok(
                *program,
                *final(tcx),
                message_operands(m1),
            ) && calls_listed(*final(tcx), message_operands(m1), final(discovered)@),
            Err(e) => e == MonoError::TypeTableFull && final(tcx).kinds_view().len() + 1 >= u32::MAX,
        },
{
    let ghost t0 = *tcx;
    let ghost d0 = discovered@;
    let ghost ops0 = message_operands(*m);
    match m {
        AssertMessage::Overflow(op, a, b) => {
            assert(ops0 =~= seq![*a, *b]);
            assert(operand_ok(*program, t0, ops0[0]) && operand_ok(*program, t0, ops0[1]));
            let (a1, b1) = match subst_two(program, tcx, a, b, s, discovered) {
                Ok(x) => x,
                Err(e) => return Err(e),
            };
            let r = AssertMessage::Overflow(*op, a1, b1);
            assert(message_operands(r) =~= seq![a1, b1]);
            Ok(r)
        },
        AssertMessage::BoundsCheck { len, index } => {
            assert(ops0 =~= seq![*len, *index]);
            assert(operand_ok(*program, t0, ops0[0]) && operand_ok(*program, t0, ops0[1]));
            let (a1, b1) = match subst_two(program, tcx, len, index, s, discovered) {
                Ok(x) => x,
                Err(e) => return Err(e),
            };
            let r = AssertMessage::BoundsCheck { len: a1, index: b1 };
            assert(message_operands(r) =~= seq![a1, b1]);
            Ok(r)
        },
        AssertMessage::DivisionByZero(o) => {
            assert(ops0 =~= seq![*o]);
            assert(operand_ok(*program, t0, ops0[0]));
            let o1 = match subst_one(program, tcx, o, s, discovered) {
                Ok(x) => x,
                Err(e) => return Err(e),
            };
            let r = AssertMessage::DivisionByZero(o1);
            assert(message_operands(r) =~= seq![o1]);
            Ok(r)
        },
        AssertMessage::RemainderByZero(o) => {
            assert(ops0 =~= seq![*o]);
            assert(operand_ok(*program, t0, ops0[0]));
            let o1 = match subst_one(program, tcx, o, s, discovered) {
                Ok(x) => x,
                Err(e) => return Err(e),
            };
            let r = AssertMessage::RemainderByZero(o1);
            assert(message_operands(r) =~= seq![o1]);
            Ok(r)
        },
    }
}

fn copy_values(v: &Vec<(u128, crate::mir::ids::BasicBlock)>) -> (r: Vec<(u128, crate::mir::ids::BasicBlock)>)
    ensures
        r@ == v@,
{
    let mut r: Vec<(u128, crate::mir::ids::BasicBlock)> = Vec::new();
    let mut i: usize = 0;
    while i < v.len()
        invariant
            i <= v@.len(),
            r@ == v@.take(i as int),
        decreases v@.len() - i,
    {
        r.push(v[i]);
        i = i + 1;
        assert(r@ =~= v@.take(i as int));
    }
    assert(v@.take(v@.len() as int) =~= v@);
    r
}

/// What a substituted terminator asks for is listed: the calls among its operands and its
/// assertion message's.
pub open spec fn term_found(p: Mir, tcx: TyCtx, k: TerminatorKind, d: Seq<(Instance, Option<Subst>)>) -> bool {
    &&& terminator_ok(p, tcx, k)
    &&& calls_listed(tcx, terminator_operands(k), d)
    &&& k matches TerminatorKind::Assert { msg, .. } ==> calls_listed(tcx, message_operands(msg), d)
}

fn subst_terminator(
    program: &Mir,
    tcx: &mut TyCtx,
    k: &TerminatorKind,
    s: &Subst,
    discovered: &mut Vec<(Instance, Option<Subst>)>,
) -> (r: Result<TerminatorKind, MonoError>)
    requires
        ready(*program, *old(tcx)),
        terminator_ok(*program, *old(tcx), *k),
        subst_in(*s, *old(tcx)),
    ensures
        final(tcx).wf(),
        extends(*final(tcx), *old(tcx)),
        grows(old(discovered)@, final(discovered)@),
        items_ok(*program, *final(tcx), final(discovered)@, old(discovered)@.len() as int),
        match r {
            Ok(k1) => term_subst(*program, *final(tcx), k1, *old(tcx), *k, *s) && term_found(
                *program,
                *final(tcx),
                k1,
                final(discovered)@,
            ),
            Err(e) => e == MonoError::TypeTableFull && final(tcx).kinds_view().len() + 1 >= u32::MAX,
        },
{
    let ghost t0 = *tcx;
    let ghost d0 = discovered@;
    let ghost ops0 = terminator_operands(*k);
    match k {
        TerminatorKind::Goto { target } => Ok(TerminatorKind::Goto { target: *target }),
        TerminatorKind::Return => Ok(TerminatorKind::Return),
        TerminatorKind::Unreachable => Ok(TerminatorKind::Unreachable),
        TerminatorKind::Drop { place, target } => Ok(TerminatorKind::Drop { place: copy_place(place), target: *target }),
        TerminatorKind::DropIso { place, target } => Ok(
            TerminatorKind::DropIso { place: copy_place(place), target: *target },
        ),
        TerminatorKind::SwitchInt { discr, targets } => {
            assert(ops0 =~= seq![*discr]);
            assert(operand_ok(*program, t0, ops0[0]));
            let d1 = match subst_one(program, tcx, discr, s, discovered) {
                Ok(x) => x,
                Err(e) => return Err(e),
            };
            let t = crate::mir::terminator::SwitchTargets { values: copy_values(&targets.values), otherwise: targets.otherwise };
            let r = TerminatorKind::SwitchInt { discr: d1, targets: t };
            assert(terminator_operands(r) =~= seq![d1]);
            Ok(r)
        },
        TerminatorKind::Assert { cond, expected, msg, target } => {
            assert(ops0 =~= seq![*cond]);
            assert(operand_ok(*program, t0, ops0[0]));
            let c1 = match subst_one(program, tcx, cond, s, discovered) {
                Ok(x) => x,
                Err(e) => return Err(e),
            };
            let ghost t1 = *tcx;
            let ghost d1 = discovered@;
            proof {
                lemma_ready_grows(*program, t0, *tcx);
                lemma_subst_in_grows(*s, t0, *tcx);
                lemma_operands_ok_grows(*program, t0, *tcx, message_operands(*msg));
            }
            let m1 = match subst_message(program, tcx, msg, s, discovered) {
                Ok(x) => x,
                Err(e) => {
                    proof {
                        lemma_grows_trans(d0, d1, discovered@);
                    }
                    return Err(e);
                },
            };
            let r = TerminatorKind::Assert { cond: c1, expected: *expected, msg: m1, target: *target };
            proof {
                lemma_grows_trans(d0, d1, discovered@);
                assert(terminator_operands(r) =~= seq![c1]);
                lemma_operand_subst_extend(*program, t1, *tcx, c1, t0, *cond, *s);
                lemma_operands_ok_grows(*program, t1, *tcx, seq![c1]);
                assert(operand_ok(*program, *tcx, seq![c1][0]));
                lemma_calls_listed_grows(*program, t1, *tcx, seq![c1], d1, discovered@);
                assert(call_of(*tcx, seq![c1][0]) matches Some(key) ==> listed(discovered@, key));
                let mo0 = message_operands(*msg);
                let mo1 = message_operands(m1);
                assert forall|j: int| 0 <= j < mo0.len() implies #[trigger] operand_subst(*program, *tcx, mo1[j], t0, mo0[j], *s) by {
                    assert(operand_subst(*program, *tcx, mo1[j], t1, mo0[j], *s));
                    assert(operand_ok(*program, t0, mo0[j]));
                    lemma_operand_subst_from(*program, *tcx, mo1[j], t1, t0, mo0[j], *s);
                }
            }
            Ok(r)
        },
        TerminatorKind::Call { func, args, destination, target } => {
            assert(ops0 == seq![*func] + args@);
            assert(ops0[0] == *func);
            assert(operand_ok(*program, t0, ops0[0]));
            let f1 = match subst_one(program, tcx, func, s, discovered) {
                Ok(x) => x,
                Err(e) => return Err(e),
            };
            let ghost t1 = *tcx;
            let ghost d1 = discovered@;
            proof {
                lemma_ready_grows(*program, t0, *tcx);
                lemma_subst_in_grows(*s, t0, *tcx);
                assert forall|j: int| 0 <= j < args@.len() implies operand_ok(*program, t0, #[trigger] args@[j]) by {
                    assert(args@[j] == ops0[j + 1]);
                }
                lemma_operands_ok_grows(*program, t0, *tcx, args@);
            }
            let args1 = match subst_operands(program, tcx, args, s, discovered) {
                Ok(x) => x,
                Err(e) => {
                    proof {
                        lemma_grows_trans(d0, d1, discovered@);
                    }
                    return Err(e);
                },
            };
            let r = TerminatorKind::Call { func: f1, args: args1, destination: copy_place(destination), target: *target };
            proof {
                lemma_grows_trans(d0, d1, discovered@);
                let ops1 = terminator_operands(r);
                assert(ops1 == seq![f1] + args1@);
                lemma_operand_subst_extend(*program, t1, *tcx, f1, t0, *func, *s);
                lemma_operands_ok_grows(*program, t1, *tcx, seq![f1]);
                assert(operand_ok(*program, *tcx, seq![f1][0]));
                lemma_calls_listed_grows(*program, t1, *tcx, seq![f1], d1, discovered@);
                assert(call_of(*tcx, seq![f1][0]) matches Some(key) ==> listed(discovered@, key));
                assert forall|j: int| 0 <= j < ops0.len() implies #[trigger] operand_subst(*program, *tcx, ops1[j], t0, ops0[j], *s) by {
                    if j > 0 {
                        assert(ops1[j] == args1@[j - 1]);
                        assert(ops0[j] == args@[j - 1]);
                        assert(operand_subst(*program, *tcx, args1@[j - 1], t1, args@[j - 1], *s));
                        assert(operand_ok(*program, t0, args@[j - 1]));
                        lemma_operand_subst_from(*program, *tcx, args1@[j - 1], t1, t0, args@[j - 1], *s);
                    }
                }
                assert forall|j: int| 0 <= j < ops1.len() implies operand_ok(*program, *tcx, #[trigger] ops1[j]) by {
                    if j > 0 {
                        assert(ops1[j] == args1@[j - 1]);
                    }
                }
                assert forall|j: int| 0 <= j < ops1.len() implies (#[trigger] call_of(*tcx, ops1[j]) matches Some(key) ==> listed(discovered@, key)) by {
                    if j > 0 {
                        assert(ops1[j] == args1@[j - 1]);
                    }
                }
            }
            Ok(r)
        },
    }
}

proof fn lemma_operands_subst_extend(p: Mir, t1: TyCtx, t2: TyCtx, os1: Seq<Operand>, t0: TyCtx, os0: Seq<Operand>, s: Subst)
    requires
        operands_subst(p, t1, os1, t0, os0, s),
        extends(t2, t1),
    ensures
        operands_subst(p, t2, os1, t0, os0, s),
{
    assert forall|k: int| 0 <= k < os0.len() implies #[trigger] operand_subst(p, t2, os1[k], t0, os0[k], s) by {
        lemma_operand_subst_extend(p, t1, t2, os1[k], t0, os0[k], s);
    }
}

proof fn lemma_operands_subst_from(p: Mir, t2: TyCtx, os1: Seq<Operand>, t1: TyCtx, t0: TyCtx, os0: Seq<Operand>, s: Subst)
    requires
        operands_subst(p, t2, os1, t1, os0, s),
        extends(t1, t0),
        t0.wf(),
        operands_ok(p, t0, os0),
    ensures
        operands_subst(p, t2, os1, t0, os0, s),
{
    assert forall|k: int| 0 <= k < os0.len() implies #[trigger] operand_subst(p, t2, os1[k], t0, os0[k], s) by {
        assert(operand_ok(p, t0, os0[k]));
        lemma_operand_subst_from(p, t2, os1[k], t1, t0, os0[k], s);
    }
}

proof fn lemma_stmt_subst_extend(p: Mir, t1: TyCtx, t2: TyCtx, k1: StatementKind, t0: TyCtx, k0: StatementKind, s: Subst, args: Seq<Ty>)
    requires
        stmt_subst(p, t1, k1, t0, k0, s, args),
        extends(t2, t1),
    ensures
        stmt_subst(p, t2, k1, t0, k0, s, args),
{
    match k0 {
        StatementKind::Assign(_, rv0) => {
            let rv1 = k1->Assign_1;
            lemma_operands_subst_extend(p, t1, t2, rvalue_operands(rv1), t0, rvalue_operands(rv0), s);
            match rv0 {
                Rvalue::Cast { ty, .. } => {
                    crate::typeck::lemma_subst_rel_extend(t1, t2, rv1->Cast_ty, t0, ty, s);
                },
                _ => {},
            }
        },
        _ => {},
    }
}

proof fn lemma_stmt_subst_from(p: Mir, t2: TyCtx, k1: StatementKind, t1: TyCtx, t0: TyCtx, k0: StatementKind, s: Subst, args: Seq<Ty>)
    requires
        stmt_subst(p, t2, k1, t1, k0, s, args),
        extends(t1, t0),
        t0.wf(),
        k0 matches StatementKind::Assign(_, rv) ==> rvalue_ok(p, t0, rv),
    ensures
        stmt_subst(p, t2, k1, t0, k0, s, args),
{
    match k0 {
        StatementKind::Assign(_, rv0) => {
            let rv1 = k1->Assign_1;
            lemma_operands_subst_from(p, t2, rvalue_operands(rv1), t1, t0, rvalue_operands(rv0), s);
            match rv0 {
                Rvalue::Cast { ty, .. } => {
                    crate::typeck::lemma_subst_rel_from_pub(t2, rv1->Cast_ty, t1, t0, ty, s);
                },
                _ => {},
            }
        },
        _ => {},
    }
}

proof fn lemma_term_subst_extend(p: Mir, t1: TyCtx, t2: TyCtx, k1: TerminatorKind, t0: TyCtx, k0: TerminatorKind, s: Subst)
    requires
        term_subst(p, t1, k1, t0, k0, s),
        extends(t2, t1),
    ensures
        term_subst(p, t2, k1, t0, k0, s),
{
    lemma_operands_subst_extend(p, t1, t2, terminator_operands(k1), t0, terminator_operands(k0), s);
    match k0 {
        TerminatorKind::Assert { msg, .. } => {
            lemma_operands_subst_extend(p, t1, t2, message_operands(k1->Assert_msg), t0, message_operands(msg), s);
        },
        _ => {},
    }
}

proof fn lemma_term_subst_from(p: Mir, t2: TyCtx, k1: TerminatorKind, t1: TyCtx, t0: TyCtx, k0: TerminatorKind, s: Subst)
    requires
        term_subst(p, t2, k1, t1, k0, s),
        extends(t1, t0),
        t0.wf(),
        terminator_ok(p, t0, k0),
    ensures
        term_subst(p, t2, k1, t0, k0, s),
{
    lemma_operands_subst_from(p, t2, terminator_operands(k1), t1, t0, terminator_operands(k0), s);
    match k0 {
        TerminatorKind::Assert { msg, .. } => {
            lemma_operands_subst_from(p, t2, message_operands(k1->Assert_msg), t1, t0, message_operands(msg), s);
        },
        _ => {},
    }
}

proof fn lemma_closure_listed_grows(d0: Seq<(Instance, Option<Subst>)>, d1: Seq<(Instance, Option<Subst>)>, key: (DefId, Option<AnyMode>, Seq<Ty>, Option<Ty>), s: Subst)
    requires
        closure_listed(d0, key, s),
        grows(d0, d1),
    ensures
        closure_listed(d1, key, s),
{
    let j = choose|j: int| 0 <= j < d0.len() && ikey(#[trigger] d0[j].0) == key && carries(d0[j].1, s);
    assert(d1[j] == d0[j]);
}

proof fn lemma_rvalue_ok_grows(p: Mir, t0: TyCtx, t1: TyCtx, rv: Rvalue)
    requires
        rvalue_ok(p, t0, rv),
        extends(t1, t0),
    ensures
        rvalue_ok(p, t1, rv),
{
    lemma_operands_ok_grows(p, t0, t1, rvalue_operands(rv));
}

proof fn lemma_stmt_found_grows(p: Mir, t0: TyCtx, t1: TyCtx, k: StatementKind, self_ty: Option<Ty>, s: Subst, d0: Seq<(Instance, Option<Subst>)>, d1: Seq<(Instance, Option<Subst>)>)
    requires
        stmt_found(p, t0, k, self_ty, s, d0),
        extends(t1, t0),
        grows(d0, d1),
    ensures
        stmt_found(p, t1, k, self_ty, s, d1),
{
    match k {
        StatementKind::Assign(_, rv) => {
            lemma_rvalue_ok_grows(p, t0, t1, rv);
            lemma_calls_listed_grows(p, t0, t1, rvalue_operands(rv), d0, d1);
            match closure_of(rv, self_ty) {
                Some(key) => {
                    lemma_closure_listed_grows(d0, d1, key, s);
                },
                None => {},
            }
        },
        _ => {},
    }
}

proof fn lemma_term_found_grows(p: Mir, t0: TyCtx, t1: TyCtx, k: TerminatorKind, d0: Seq<(Instance, Option<Subst>)>, d1: Seq<(Instance, Option<Subst>)>)
    requires
        term_found(p, t0, k, d0),
        extends(t1, t0),
        grows(d0, d1),
    ensures
        term_found(p, t1, k, d1),
{
    lemma_operands_ok_grows(p, t0, t1, terminator_operands(k));
    lemma_calls_listed_grows(p, t0, t1, terminator_operands(k), d0, d1);
    match k {
        TerminatorKind::Assert { msg, .. } => {
            lemma_operands_ok_grows(p, t0, t1, message_operands(msg));
            lemma_calls_listed_grows(p, t0, t1, message_operands(msg), d0, d1);
        },
        _ => {},
    }
}

/// `b1` is the block `b0` with `s` applied: each statement keeps its id and span, and the
/// statements and terminator are substituted.
pub open spec fn block_subst(p: Mir, t1: TyCtx, b1: BasicBlockData, t0: TyCtx, b0: BasicBlockData, s: Subst, args: Seq<Ty>) -> bool {
    &&& b1.statements@.len() == b0.statements@.len()
    &&& forall|j: int|
        0 <= j < b0.statements@.len() ==> {
            let (x, y) = (#[trigger] b1.statements@[j], b0.statements@[j]);
            &&& x.id == y.id
            &&& x.span == y.span
            &&& stmt_subst(p, t1, x.kind, t0, y.kind, s, args)
        }
    &&& b1.terminator.span == b0.terminator.span
    &&& term_subst(p, t1, b1.terminator.kind, t0, b0.terminator.kind, s)
}

/// What a substituted block asks for is listed.
pub open spec fn block_found(p: Mir, tcx: TyCtx, b: BasicBlockData, self_ty: Option<Ty>, s: Subst, d: Seq<(Instance, Option<Subst>)>) -> bool {
    &&& forall|j: int| 0 <= j < b.statements@.len() ==> stmt_found(p, tcx, (#[trigger] b.statements@[j]).kind, self_ty, s, d)
    &&& term_found(p, tcx, b.terminator.kind, d)
}

/// `b1` is the body `b0` with `s` applied: the same definition, kind, parameters, generics and
/// span; each local's type substituted, its name, span and mutability kept; each block
/// substituted.
pub open spec fn body_subst(p: Mir, t1: TyCtx, b1: Body, t0: TyCtx, b0: Body, s: Subst, args: Seq<Ty>) -> bool {
    &&& b1.def_id == b0.def_id
    &&& b1.kind == b0.kind
    &&& b1.param_count == b0.param_count
    &&& b1.span == b0.span
    &&& b1.generics@ == b0.generics@
    &&& b1.local_decls@.len() == b0.local_decls@.len()
    &&& forall|l: int|
        0 <= l < b0.local_decls@.len() ==> {
            let (x, y) = (#[trigger] b1.local_decls@[l], b0.local_decls@[l]);
            &&& subst_rel(t1, x.ty, t0, y.ty, s)
            &&& x.name == y.name
            &&& x.span == y.span
            &&& x.mutability == y.mutability
        }
    &&& b1.basic_blocks@.len() == b0.basic_blocks@.len()
    &&& forall|k: int|
        0 <= k < b0.basic_blocks@.len() ==> block_subst(p, t1, #[trigger] b1.basic_blocks@[k], t0, b0.basic_blocks@[k], s, args)
}

/// What a substituted body asks for is listed, and its locals' types are in the table.
pub open spec fn body_found(p: Mir, tcx: TyCtx, b: Body, self_ty: Option<Ty>, s: Subst, d: Seq<(Instance, Option<Subst>)>) -> bool {
    &&& forall|l: int| 0 <= l < b.local_decls@.len() ==> tcx.has(#[trigger] b.local_decls@[l].ty)
    &&& forall|k: int| 0 <= k < b.basic_blocks@.len() ==> block_found(p, tcx, #[trigger] b.basic_blocks@[k], self_ty, s, d)
}

proof fn lemma_block_grows(
    p: Mir,
    t1: TyCtx,
    t2: TyCtx,
    b1: BasicBlockData,
    t0: TyCtx,
    b0: BasicBlockData,
    s: Subst,
    args: Seq<Ty>,
    self_ty: Option<Ty>,
    d1: Seq<(Instance, Option<Subst>)>,
    d2: Seq<(Instance, Option<Subst>)>,
)
    requires
        block_subst(p, t1, b1, t0, b0, s, args),
        block_found(p, t1, b1, self_ty, s, d1),
        extends(t2, t1),
        grows(d1, d2),
    ensures
        block_subst(p, t2, b1, t0, b0, s, args),
        block_found(p, t2, b1, self_ty, s, d2),
{
    assert forall|j: int| 0 <= j < b0.statements@.len() implies {
        let (x, y) = (#[trigger] b1.statements@[j], b0.statements@[j]);
        &&& x.id == y.id
        &&& x.span == y.span
        &&& stmt_subst(p, t2, x.kind, t0, y.kind, s, args)
    } by {
        lemma_stmt_subst_extend(p, t1, t2, b1.statements@[j].kind, t0, b0.statements@[j].kind, s, args);
    }
    assert forall|j: int| 0 <= j < b1.statements@.len() implies stmt_found(p, t2, (#[trigger] b1.statements@[j]).kind, self_ty, s, d2) by {
        lemma_stmt_found_grows(p, t1, t2, b1.statements@[j].kind, self_ty, s, d1, d2);
    }
    lemma_term_subst_extend(p, t1, t2, b1.terminator.kind, t0, b0.terminator.kind, s);
    lemma_term_found_grows(p, t1, t2, b1.terminator.kind, d1, d2);
}

/// Block `blk` with `s` applied inside the instance `inst`.
fn subst_block(
    program: &Mir,
    tcx: &mut TyCtx,
    blk: &BasicBlockData,
    s: &Subst,
    inst: &Instance,
    discovered: &mut Vec<(Instance, Option<Subst>)>,
) -> (r: Result<BasicBlockData, MonoError>)
    requires
        ready(*program, *old(tcx)),
        block_ok(*program, *old(tcx), *blk),
        subst_in(*s, *old(tcx)),
        inst_ok(*program, *old(tcx), *inst, *s),
    ensures
        final(tcx).wf(),
        extends(*final(tcx), *old(tcx)),
        grows(old(discovered)@, final(discovered)@),
        items_ok(*program, *final(tcx), final(discovered)@, old(discovered)@.len() as int),
        match r {
            Ok(b1) => block_subst(*program, *final(tcx), b1, *old(tcx), *blk, *s, inst.args@) && block_found(
                *program,
                *final(tcx),
                b1,
                inst.self_ty,
                *s,
                final(discovered)@,
            ),
            Err(e) => e == MonoError::TypeTableFull && final(tcx).kinds_view().len() + 1 >= u32::MAX,
        },
{
    let ghost t0 = *tcx;
    let ghost d0 = discovered@;
    let mut statements: Vec<Statement> = Vec::new();
    let mut j: usize = 0;
    while j < blk.statements.len()
        invariant
            ready(*program, *tcx),
            t0 == *old(tcx),
            d0 == old(discovered)@,
            ready(*program, t0),
            block_ok(*program, t0, *blk),
            extends(*tcx, t0),
            subst_in(*s, t0),
            grows(d0, discovered@),
            items_ok(*program, *tcx, discovered@, d0.len() as int),
            inst_ok(*program, *tcx, *inst, *s),
            j <= blk.statements@.len(),
            statements@.len() == j,
            forall|i: int|
                0 <= i < j ==> {
                    let (x, y) = (#[trigger] statements@[i], blk.statements@[i]);
                    &&& x.id == y.id
                    &&& x.span == y.span
                    &&& stmt_subst(*program, *tcx, x.kind, t0, y.kind, *s, inst.args@)
                    &&& stmt_found(*program, *tcx, x.kind, inst.self_ty, *s, discovered@)
                },
        decreases blk.statements@.len() - j,
    {
        let ghost t1 = *tcx;
        let ghost d1 = discovered@;
        let st = &blk.statements[j];
        proof {
            lemma_subst_in_grows(*s, t0, *tcx);
            let sk = st.kind;
            assert(sk matches StatementKind::Assign(_, rv) ==> rvalue_ok(*program, t0, rv));
            match sk {
                StatementKind::Assign(_, rv) => {
                    lemma_rvalue_ok_grows(*program, t0, *tcx, rv);
                },
                _ => {},
            }
        }
        let k1 = match subst_statement(program, tcx, &st.kind, s, inst, discovered) {
            Ok(x) => x,
            Err(e) => {
                proof {
                    lemma_grows_trans(d0, d1, discovered@);
                    lemma_items_ok_grows(*program, t1, *tcx, d1, d0.len() as int);
                    lemma_items_ok_join(*program, *tcx, d1, discovered@, d0.len() as int);
                }
                return Err(e);
            },
        };
        proof {
            lemma_grows_trans(d0, d1, discovered@);
            lemma_items_ok_grows(*program, t1, *tcx, d1, d0.len() as int);
            lemma_items_ok_join(*program, *tcx, d1, discovered@, d0.len() as int);
            lemma_inst_ok_grows(*program, t1, *tcx, *inst, *s);
            lemma_ready_grows(*program, t1, *tcx);
            lemma_stmt_subst_from(*program, *tcx, k1, t1, t0, st.kind, *s, inst.args@);
            assert forall|i: int| 0 <= i < j implies {
                let (x, y) = (#[trigger] statements@[i], blk.statements@[i]);
                &&& x.id == y.id
                &&& x.span == y.span
                &&& stmt_subst(*program, *tcx, x.kind, t0, y.kind, *s, inst.args@)
                &&& stmt_found(*program, *tcx, x.kind, inst.self_ty, *s, discovered@)
            } by {
                lemma_stmt_subst_extend(*program, t1, *tcx, statements@[i].kind, t0, blk.statements@[i].kind, *s, inst.args@);
                lemma_stmt_found_grows(*program, t1, *tcx, statements@[i].kind, inst.self_ty, *s, d1, discovered@);
            }
        }
        statements.push(Statement { id: st.id, kind: k1, span: st.span });
        j = j + 1;
    }
    let ghost t1 = *tcx;
    let ghost d1 = discovered@;
    proof {
        lemma_subst_in_grows(*s, t0, *tcx);
        let tk = blk.terminator.kind;
        lemma_operands_ok_grows(*program, t0, *tcx, terminator_operands(tk));
        match tk {
            TerminatorKind::Assert { msg, .. } => {
                lemma_operands_ok_grows(*program, t0, *tcx, message_operands(msg));
            },
            _ => {},
        }
    }
    let k1 = match subst_terminator(program, tcx, &blk.terminator.kind, s, discovered) {
        Ok(x) => x,
        Err(e) => {
            proof {
                lemma_grows_trans(d0, d1, discovered@);
                lemma_items_ok_grows(*program, t1, *tcx, d1, d0.len() as int);
                lemma_items_ok_join(*program, *tcx, d1, discovered@, d0.len() as int);
            }
            return Err(e);
        },
    };
    let b1 = BasicBlockData { statements, terminator: Terminator { kind: k1, span: blk.terminator.span } };
    proof {
        lemma_grows_trans(d0, d1, discovered@);
        lemma_items_ok_grows(*program, t1, *tcx, d1, d0.len() as int);
        lemma_items_ok_join(*program, *tcx, d1, discovered@, d0.len() as int);
        lemma_term_subst_from(*program, *tcx, k1, t1, t0, blk.terminator.kind, *s);
        assert forall|i: int| 0 <= i < blk.statements@.len() implies {
            let (x, y) = (#[trigger] b1.statements@[i], blk.statements@[i]);
            &&& x.id == y.id
            &&& x.span == y.span
            &&& stmt_subst(*program, *tcx, x.kind, t0, y.kind, *s, inst.args@)
        } by {
            lemma_stmt_subst_extend(*program, t1, *tcx, b1.statements@[i].kind, t0, blk.statements@[i].kind, *s, inst.args@);
        }
        assert forall|i: int| 0 <= i < b1.statements@.len() implies stmt_found(*program, *tcx, (#[trigger] b1.statements@[i]).kind, inst.self_ty, *s, discovered@) by {
            lemma_stmt_found_grows(*program, t1, *tcx, b1.statements@[i].kind, inst.self_ty, *s, d1, discovered@);
        }
    }
    Ok(b1)
}

/// The generic body `generic` with `s` applied inside the instance `inst`; every instance it
/// asks for is added to `discovered`.
pub fn process_body(
    program: &Mir,
    tcx: &mut TyCtx,
    generic: &Body,
    s: &Subst,
    inst: &Instance,
    discovered: &mut Vec<(Instance, Option<Subst>)>,
) -> (r: Result<Body, MonoError>)
    requires
        ready(*program, *old(tcx)),
        body_ok(*program, *old(tcx), *generic),
        subst_in(*s, *old(tcx)),
        inst_ok(*program, *old(tcx), *inst, *s),
    ensures
        final(tcx).wf(),
        extends(*final(tcx), *old(tcx)),
        ready(*program, *final(tcx)),
        grows(old(discovered)@, final(discovered)@),
        items_ok(*program, *final(tcx), final(discovered)@, old(discovered)@.len() as int),
        match r {
            Ok(b1) => body_subst(*program, *final(tcx), b1, *old(tcx), *generic, *s, inst.args@) && body_found(
                *program,
                *final(tcx),
                b1,
                inst.self_ty,
                *s,
                final(discovered)@,
            ),
            Err(e) => e == MonoError::TypeTableFull && final(tcx).kinds_view().len() + 1 >= u32::MAX,
        },
{
    let ghost t0 = *tcx;
    let ghost d0 = discovered@;
    let mut locals: Vec<LocalDecl> = Vec::new();
    let mut l: usize = 0;
    while l < generic.local_decls.len()
        invariant
            ready(*program, *tcx),
            t0 == *old(tcx),
            d0 == old(discovered)@,
            d0 == discovered@,
            inst_ok(*program, *tcx, *inst, *s),
            ready(*program, t0),
            body_ok(*program, t0, *generic),
            extends(*tcx, t0),
            subst_in(*s, t0),
            l <= generic.local_decls@.len(),
            locals@.len() == l,
            forall|i: int|
                0 <= i < l ==> {
                    let (x, y) = (#[trigger] locals@[i], generic.local_decls@[i]);
                    &&& subst_rel(*tcx, x.ty, t0, y.ty, *s)
                    &&& tcx.has(x.ty)
                    &&& x.name == y.name
                    &&& x.span == y.span
                    &&& x.mutability == y.mutability
                },
        decreases generic.local_decls@.len() - l,
    {
        let ghost t1 = *tcx;
        let decl = &generic.local_decls[l];
        proof {
            lemma_subst_in_grows(*s, t0, *tcx);
        }
        let ty = match tcx.subst_ty(decl.ty, s) {
            Some(t) => t,
            None => {
                proof {
                    lemma_ready_grows(*program, t0, *tcx);
                }
                return Err(MonoError::TypeTableFull);
            },
        };
        proof {
            lemma_ready_grows(*program, t1, *tcx);
            lemma_inst_ok_grows(*program, t1, *tcx, *inst, *s);
            crate::typeck::lemma_subst_rel_from_pub(*tcx, ty, t1, t0, decl.ty, *s);
            assert forall|i: int| 0 <= i < l implies {
                let (x, y) = (#[trigger] locals@[i], generic.local_decls@[i]);
                &&& subst_rel(*tcx, x.ty, t0, y.ty, *s)
                &&& tcx.has(x.ty)
                &&& x.name == y.name
                &&& x.span == y.span
                &&& x.mutability == y.mutability
            } by {
                crate::typeck::lemma_subst_rel_extend(t1, *tcx, locals@[i].ty, t0, generic.local_decls@[i].ty, *s);
            }
        }
        locals.push(LocalDecl { ty, name: decl.name, span: decl.span, mutability: decl.mutability });
        l = l + 1;
    }
    let mut blocks: Vec<BasicBlockData> = Vec::new();
    let mut k: usize = 0;
    while k < generic.basic_blocks.len()
        invariant
            ready(*program, *tcx),
            t0 == *old(tcx),
            d0 == old(discovered)@,
            ready(*program, t0),
            body_ok(*program, t0, *generic),
            extends(*tcx, t0),
            subst_in(*s, t0),
            grows(d0, discovered@),
            items_ok(*program, *tcx, discovered@, d0.len() as int),
            inst_ok(*program, *tcx, *inst, *s),
            locals@.len() == generic.local_decls@.len(),
            forall|i: int|
                0 <= i < locals@.len() ==> {
                    let (x, y) = (#[trigger] locals@[i], generic.local_decls@[i]);
                    &&& subst_rel(*tcx, x.ty, t0, y.ty, *s)
                    &&& tcx.has(x.ty)
                    &&& x.name == y.name
                    &&& x.span == y.span
                    &&& x.mutability == y.mutability
                },
            k <= generic.basic_blocks@.len(),
            blocks@.len() == k,
            forall|i: int|
                0 <= i < k ==> block_subst(*program, *tcx, #[trigger] blocks@[i], t0, generic.basic_blocks@[i], *s, inst.args@)
                    && block_found(*program, *tcx, blocks@[i], inst.self_ty, *s, discovered@),
        decreases generic.basic_blocks@.len() - k,
    {
        let ghost t1 = *tcx;
        let ghost d1 = discovered@;
        let blk = &generic.basic_blocks[k];
        proof {
            lemma_subst_in_grows(*s, t0, *tcx);
            assert(block_ok(*program, t0, *blk));
            lemma_body_ok_grows(*program, t0, *tcx, *generic);
            assert(block_ok(*program, *tcx, generic.basic_blocks@[k as int]));
        }
        let b1 = match subst_block(program, tcx, blk, s, inst, discovered) {
            Ok(x) => x,
            Err(e) => {
                proof {
                    lemma_grows_trans(d0, d1, discovered@);
                    lemma_ready_grows(*program, t1, *tcx);
                    lemma_items_ok_grows(*program, t1, *tcx, d1, d0.len() as int);
                    lemma_items_ok_join(*program, *tcx, d1, discovered@, d0.len() as int);
                }
                return Err(e);
            },
        };
        proof {
            lemma_grows_trans(d0, d1, discovered@);
            lemma_ready_grows(*program, t1, *tcx);
            lemma_items_ok_grows(*program, t1, *tcx, d1, d0.len() as int);
            lemma_items_ok_join(*program, *tcx, d1, discovered@, d0.len() as int);
            lemma_inst_ok_grows(*program, t1, *tcx, *inst, *s);
            lemma_block_from(*program, *tcx, b1, t1, t0, *blk, *s, inst.args@);
            assert forall|i: int| 0 <= i < k implies block_subst(*program, *tcx, #[trigger] blocks@[i], t0, generic.basic_blocks@[i], *s, inst.args@)
                && block_found(*program, *tcx, blocks@[i], inst.self_ty, *s, discovered@) by {
                lemma_block_grows(*program, t1, *tcx, blocks@[i], t0, generic.basic_blocks@[i], *s, inst.args@, inst.self_ty, d1, discovered@);
            }
            assert forall|i: int| 0 <= i < locals@.len() implies {
                let (x, y) = (#[trigger] locals@[i], generic.local_decls@[i]);
                &&& subst_rel(*tcx, x.ty, t0, y.ty, *s)
                &&& tcx.has(x.ty)
                &&& x.name == y.name
                &&& x.span == y.span
                &&& x.mutability == y.mutability
            } by {
                crate::typeck::lemma_subst_rel_extend(t1, *tcx, locals@[i].ty, t0, generic.local_decls@[i].ty, *s);
            }
        }
        blocks.push(b1);
        k = k + 1;
    }
    let mut generics: Vec<HirId> = Vec::new();
    push_all(&mut generics, generic.generics.as_slice());
    assert(generics@ =~= generic.generics@);
    Ok(Body {
        def_id: generic.def_id,
        kind: generic.kind,
        basic_blocks: blocks,
        local_decls: locals,
        param_count: generic.param_count,
        generics,
        span: generic.span,
    })
}

proof fn lemma_block_from(p: Mir, t2: TyCtx, b1: BasicBlockData, t1: TyCtx, t0: TyCtx, b0: BasicBlockData, s: Subst, args: Seq<Ty>)
    requires
        block_subst(p, t2, b1, t1, b0, s, args),
        extends(t1, t0),
        t0.wf(),
        block_ok(p, t0, b0),
    ensures
        block_subst(p, t2, b1, t0, b0, s, args),
{
    assert forall|j: int| 0 <= j < b0.statements@.len() implies {
        let (x, y) = (#[trigger] b1.statements@[j], b0.statements@[j]);
        &&& x.id == y.id
        &&& x.span == y.span
        &&& stmt_subst(p, t2, x.kind, t0, y.kind, s, args)
    } by {
        assert(b0.statements@[j].kind matches StatementKind::Assign(_, rv) ==> rvalue_ok(p, t0, rv));
        lemma_stmt_subst_from(p, t2, b1.statements@[j].kind, t1, t0, b0.statements@[j].kind, s, args);
    }
    lemma_term_subst_from(p, t2, b1.terminator.kind, t1, t0, b0.terminator.kind, s);
}

/// A worklist entry names a known definition and types of the table; a substitution it carries
/// is over types of the table and binds the parameters of some definition to its arguments.
pub open spec fn item_ok(p: Mir, tcx: TyCtx, it: (Instance, Option<Subst>)) -> bool {
    &&& def_ok(p, it.0.def)
    &&& tys_in(tcx, it.0.args@)
    &&& it.0.self_ty matches Some(t) ==> tcx.has(t)
    &&& it.1 matches Some(c) ==> {
        &&& subst_in(c, tcx)
        &&& p.def_infos.info(it.0.def).kind == DefKind::Closure
        &&& exists|e: DefId| def_ok(p, e) && #[trigger] zips(c, params_of(p, e), it.0.args@, it.0.self_ty)
    }
}

/// The entries of `d` from `from` on are well formed.
pub open spec fn items_ok(p: Mir, tcx: TyCtx, d: Seq<(Instance, Option<Subst>)>, from: int) -> bool {
    forall|j: int| from <= j < d.len() ==> item_ok(p, tcx, #[trigger] d[j])
}

/// The instance being built and the substitution its body takes: its arguments are types of
/// the table, and the substitution binds some definition's parameters to them.
pub open spec fn inst_ok(p: Mir, tcx: TyCtx, inst: Instance, s: Subst) -> bool {
    &&& tys_in(tcx, inst.args@)
    &&& inst.self_ty matches Some(t) ==> tcx.has(t)
    &&& exists|e: DefId| def_ok(p, e) && #[trigger] zips(s, params_of(p, e), inst.args@, inst.self_ty)
}

proof fn lemma_items_ok_grows(p: Mir, t0: TyCtx, t1: TyCtx, d: Seq<(Instance, Option<Subst>)>, from: int)
    requires
        items_ok(p, t0, d, from),
        extends(t1, t0),
    ensures
        items_ok(p, t1, d, from),
{
    assert forall|j: int| from <= j < d.len() implies item_ok(p, t1, #[trigger] d[j]) by {
        assert(item_ok(p, t0, d[j]));
        assert(tys_in(t1, d[j].0.args@));
        if d[j].1 is Some {
            lemma_subst_in_grows(d[j].1->0, t0, t1);
        }
    }
}

proof fn lemma_items_ok_join(p: Mir, t: TyCtx, d1: Seq<(Instance, Option<Subst>)>, d2: Seq<(Instance, Option<Subst>)>, from: int)
    requires
        0 <= from,
        items_ok(p, t, d1, from),
        items_ok(p, t, d2, d1.len() as int),
        grows(d1, d2),
    ensures
        items_ok(p, t, d2, from),
{
    assert forall|j: int| from <= j < d2.len() implies item_ok(p, t, #[trigger] d2[j]) by {
        if j < d1.len() {
            assert(d2[j] == d1[j]);
        }
    }
}

proof fn lemma_inst_ok_grows(p: Mir, t0: TyCtx, t1: TyCtx, inst: Instance, s: Subst)
    requires
        inst_ok(p, t0, inst, s),
        extends(t1, t0),
    ensures
        inst_ok(p, t1, inst, s),
{
    assert(tys_in(t1, inst.args@));
}

/// Every call and every closure creation of body `b` names an instance listed in `d`.
pub open spec fn body_listed(tcx: TyCtx, b: Body, self_ty: Option<Ty>, d: Seq<(Instance, Option<Subst>)>) -> bool {
    forall|k: int|
        0 <= k < b.basic_blocks@.len() ==> {
            let blk = #[trigger] b.basic_blocks@[k];
            &&& forall|j: int|
                0 <= j < blk.statements@.len() ==> ((#[trigger] blk.statements@[j]).kind matches StatementKind::Assign(_, rv) ==> {
                    &&& calls_listed(tcx, rvalue_operands(rv), d)
                    &&& closure_of(rv, self_ty) matches Some(key) ==> listed(d, key)
                })
            &&& calls_listed(tcx, terminator_operands(blk.terminator.kind), d)
            &&& blk.terminator.kind matches TerminatorKind::Assert { msg, .. } ==> calls_listed(tcx, message_operands(msg), d)
        }
}

/// The operand types of body `b` are in the table, as far as its function constants go.
pub open spec fn body_typed(p: Mir, tcx: TyCtx, b: Body) -> bool {
    forall|k: int|
        0 <= k < b.basic_blocks@.len() ==> {
            let blk = #[trigger] b.basic_blocks@[k];
            &&& forall|j: int|
                0 <= j < blk.statements@.len() ==> ((#[trigger] blk.statements@[j]).kind matches StatementKind::Assign(_, rv)
                    ==> operands_ok(p, tcx, rvalue_operands(rv)))
            &&& operands_ok(p, tcx, terminator_operands(blk.terminator.kind))
            &&& blk.terminator.kind matches TerminatorKind::Assert { msg, .. } ==> operands_ok(p, tcx, message_operands(msg))
        }
}

proof fn lemma_found_listed(p: Mir, tcx: TyCtx, b: Body, self_ty: Option<Ty>, s: Subst, d: Seq<(Instance, Option<Subst>)>)
    requires
        body_found(p, tcx, b, self_ty, s, d),
    ensures
        body_listed(tcx, b, self_ty, d),
        body_typed(p, tcx, b),
{
    assert forall|k: int| 0 <= k < b.basic_blocks@.len() implies {
        let blk = #[trigger] b.basic_blocks@[k];
        &&& forall|j: int|
            0 <= j < blk.statements@.len() ==> ((#[trigger] blk.statements@[j]).kind matches StatementKind::Assign(_, rv) ==> {
                &&& calls_listed(tcx, rvalue_operands(rv), d)
                &&& closure_of(rv, self_ty) matches Some(key) ==> listed(d, key)
            })
        &&& calls_listed(tcx, terminator_operands(blk.terminator.kind), d)
        &&& blk.terminator.kind matches TerminatorKind::Assert { msg, .. } ==> calls_listed(tcx, message_operands(msg), d)
    } by {
        let blk = b.basic_blocks@[k];
        assert(block_found(p, tcx, blk, self_ty, s, d));
        assert forall|j: int| 0 <= j < blk.statements@.len() implies ((#[trigger] blk.statements@[j]).kind matches StatementKind::Assign(_, rv) ==> {
            &&& calls_listed(tcx, rvalue_operands(rv), d)
            &&& closure_of(rv, self_ty) matches Some(key) ==> listed(d, key)
        }) by {
            assert(stmt_found(p, tcx, blk.statements@[j].kind, self_ty, s, d));
            match blk.statements@[j].kind {
                StatementKind::Assign(_, rv) => {
                    match closure_of(rv, self_ty) {
                        Some(key) => {
                            let i = choose|i: int| 0 <= i < d.len() && ikey(#[trigger] d[i].0) == key && carries(d[i].1, s);
                            assert(ikey(d[i].0) == key);
                        },
                        None => {},
                    }
                },
                _ => {},
            }
        }
    }
    assert forall|k: int| 0 <= k < b.basic_blocks@.len() implies {
        let blk = #[trigger] b.basic_blocks@[k];
        &&& forall|j: int|
            0 <= j < blk.statements@.len() ==> ((#[trigger] blk.statements@[j]).kind matches StatementKind::Assign(_, rv)
                ==> operands_ok(p, tcx, rvalue_operands(rv)))
        &&& operands_ok(p, tcx, terminator_operands(blk.terminator.kind))
        &&& blk.terminator.kind matches TerminatorKind::Assert { msg, .. } ==> operands_ok(p, tcx, message_operands(msg))
    } by {
        let blk = b.basic_blocks@[k];
        assert(block_found(p, tcx, blk, self_ty, s, d));
        assert forall|j: int| 0 <= j < blk.statements@.len() implies ((#[trigger] blk.statements@[j]).kind matches StatementKind::Assign(_, rv)
            ==> operands_ok(p, tcx, rvalue_operands(rv))) by {
            assert(stmt_found(p, tcx, blk.statements@[j].kind, self_ty, s, d));
        }
    }
}

proof fn lemma_listed_append(d: Seq<(Instance, Option<Subst>)>, e: Seq<(Instance, Option<Subst>)>, key: (DefId, Option<AnyMode>, Seq<Ty>, Option<Ty>))
    ensures
        listed(d, key) ==> listed(d + e, key),
        listed(e, key) ==> listed(d + e, key),
{
    if listed(d, key) {
        let j = choose|j: int| 0 <= j < d.len() && ikey(#[trigger] d[j].0) == key;
        assert((d + e)[j] == d[j]);
    }
    if listed(e, key) {
        let j = choose|j: int| 0 <= j < e.len() && ikey(#[trigger] e[j].0) == key;
        assert((d + e)[d.len() + j] == e[j]);
    }
}

proof fn lemma_calls_listed_map(
    p: Mir,
    t0: TyCtx,
    t1: TyCtx,
    os: Seq<Operand>,
    d0: Seq<(Instance, Option<Subst>)>,
    d1: Seq<(Instance, Option<Subst>)>,
)
    requires
        calls_listed(t0, os, d0),
        operands_ok(p, t0, os),
        extends(t1, t0),
        forall|key: (DefId, Option<AnyMode>, Seq<Ty>, Option<Ty>)| listed(d0, key) ==> #[trigger] listed(d1, key),
    ensures
        calls_listed(t1, os, d1),
        operands_ok(p, t1, os),
{
    lemma_operands_ok_grows(p, t0, t1, os);
    assert forall|k: int| 0 <= k < os.len() implies (#[trigger] call_of(t1, os[k]) matches Some(key) ==> listed(d1, key)) by {
        assert(operand_ok(p, t0, os[k]));
        match os[k] {
            Operand::Constant(c) => {
                match c.kind {
                    ConstKind::FunDef(f) => {
                        match f.self_ty {
                            Some(x) => {
                                assert(t1.kinds_view()[x.0 as int] == t0.kinds_view()[x.0 as int]);
                            },
                            None => {},
                        }
                        assert(call_of(t0, os[k]) == call_of(t1, os[k]));
                    },
                    _ => {},
                }
            },
            _ => {},
        }
    }
}

/// Body listings carry over to a larger table and to any listing holding every key of the old.
proof fn lemma_body_listed_map(p: Mir, t0: TyCtx, t1: TyCtx, b: Body, self_ty: Option<Ty>, d0: Seq<(Instance, Option<Subst>)>, d1: Seq<(Instance, Option<Subst>)>)
    requires
        body_listed(t0, b, self_ty, d0),
        body_typed(p, t0, b),
        extends(t1, t0),
        forall|key: (DefId, Option<AnyMode>, Seq<Ty>, Option<Ty>)| listed(d0, key) ==> #[trigger] listed(d1, key),
    ensures
        body_listed(t1, b, self_ty, d1),
        body_typed(p, t1, b),
{
    assert forall|k: int| 0 <= k < b.basic_blocks@.len() implies {
        let blk = #[trigger] b.basic_blocks@[k];
        &&& forall|j: int|
            0 <= j < blk.statements@.len() ==> ((#[trigger] blk.statements@[j]).kind matches StatementKind::Assign(_, rv) ==> {
                &&& calls_listed(t1, rvalue_operands(rv), d1)
                &&& closure_of(rv, self_ty) matches Some(key) ==> listed(d1, key)
            })
        &&& calls_listed(t1, terminator_operands(blk.terminator.kind), d1)
        &&& blk.terminator.kind matches TerminatorKind::Assert { msg, .. } ==> calls_listed(t1, message_operands(msg), d1)
    } && {
        let blk = b.basic_blocks@[k];
        &&& forall|j: int|
            0 <= j < blk.statements@.len() ==> ((#[trigger] blk.statements@[j]).kind matches StatementKind::Assign(_, rv)
                ==> operands_ok(p, t1, rvalue_operands(rv)))
        &&& operands_ok(p, t1, terminator_operands(blk.terminator.kind))
        &&& blk.terminator.kind matches TerminatorKind::Assert { msg, .. } ==> operands_ok(p, t1, message_operands(msg))
    } by {
        let blk = b.basic_blocks@[k];
        assert forall|j: int| 0 <= j < blk.statements@.len() implies ((#[trigger] blk.statements@[j]).kind matches StatementKind::Assign(_, rv) ==> {
            &&& calls_listed(t1, rvalue_operands(rv), d1)
            &&& closure_of(rv, self_ty) matches Some(key) ==> listed(d1, key)
        }) && ((blk.statements@[j]).kind matches StatementKind::Assign(_, rv) ==> operands_ok(p, t1, rvalue_operands(rv))) by {
            match blk.statements@[j].kind {
                StatementKind::Assign(_, rv) => {
                    lemma_calls_listed_map(p, t0, t1, rvalue_operands(rv), d0, d1);
                },
                _ => {},
            }
        }
        lemma_calls_listed_map(p, t0, t1, terminator_operands(blk.terminator.kind), d0, d1);
        match blk.terminator.kind {
            TerminatorKind::Assert { msg, .. } => {
                lemma_calls_listed_map(p, t0, t1, message_operands(msg), d0, d1);
            },
            _ => {},
        }
    }
}

proof fn lemma_body_subst_extend(p: Mir, t1: TyCtx, t2: TyCtx, b1: Body, t0: TyCtx, b0: Body, s: Subst, args: Seq<Ty>)
    requires
        body_subst(p, t1, b1, t0, b0, s, args),
        extends(t2, t1),
    ensures
        body_subst(p, t2, b1, t0, b0, s, args),
{
    assert forall|l: int| 0 <= l < b0.local_decls@.len() implies {
        let (x, y) = (#[trigger] b1.local_decls@[l], b0.local_decls@[l]);
        &&& subst_rel(t2, x.ty, t0, y.ty, s)
        &&& x.name == y.name
        &&& x.span == y.span
        &&& x.mutability == y.mutability
    } by {
        crate::typeck::lemma_subst_rel_extend(t1, t2, b1.local_decls@[l].ty, t0, b0.local_decls@[l].ty, s);
    }
    assert forall|k: int| 0 <= k < b0.basic_blocks@.len() implies block_subst(p, t2, #[trigger] b1.basic_blocks@[k], t0, b0.basic_blocks@[k], s, args) by {
        let (x, y) = (b1.basic_blocks@[k], b0.basic_blocks@[k]);
        assert forall|j: int| 0 <= j < y.statements@.len() implies {
            let (u, v) = (#[trigger] x.statements@[j], y.statements@[j]);
            &&& u.id == v.id
            &&& u.span == v.span
            &&& stmt_subst(p, t2, u.kind, t0, v.kind, s, args)
        } by {
            lemma_stmt_subst_extend(p, t1, t2, x.statements@[j].kind, t0, y.statements@[j].kind, s, args);
        }
        lemma_term_subst_extend(p, t1, t2, x.terminator.kind, t0, y.terminator.kind, s);
    }
}

proof fn lemma_body_subst_from(p: Mir, t2: TyCtx, b1: Body, t1: TyCtx, t0: TyCtx, b0: Body, s: Subst, args: Seq<Ty>)
    requires
        body_subst(p, t2, b1, t1, b0, s, args),
        extends(t1, t0),
        t0.wf(),
        body_ok(p, t0, b0),
    ensures
        body_subst(p, t2, b1, t0, b0, s, args),
{
    assert forall|l: int| 0 <= l < b0.local_decls@.len() implies {
        let (x, y) = (#[trigger] b1.local_decls@[l], b0.local_decls@[l]);
        &&& subst_rel(t2, x.ty, t0, y.ty, s)
        &&& x.name == y.name
        &&& x.span == y.span
        &&& x.mutability == y.mutability
    } by {
        crate::typeck::lemma_subst_rel_from_pub(t2, b1.local_decls@[l].ty, t1, t0, b0.local_decls@[l].ty, s);
    }
    assert forall|k: int| 0 <= k < b0.basic_blocks@.len() implies block_subst(p, t2, #[trigger] b1.basic_blocks@[k], t0, b0.basic_blocks@[k], s, args) by {
        assert(block_ok(p, t0, b0.basic_blocks@[k]));
        lemma_block_from(p, t2, b1.basic_blocks@[k], t1, t0, b0.basic_blocks@[k], s, args);
    }
}

/// Where `key` stands among the built instances: built, or naming a definition with no body.
pub open spec fn resolved(p: Mir, out: Seq<(Instance, Body)>, key: (DefId, Option<AnyMode>, Seq<Ty>, Option<Ty>)) -> bool {
    built_in(out, key) || body_from(p, key.0, key.1, 0) is None
}

pub open spec fn built_in(out: Seq<(Instance, Body)>, key: (DefId, Option<AnyMode>, Seq<Ty>, Option<Ty>)) -> bool {
    exists|j: int| 0 <= j < out.len() && ikey(#[trigger] out[j].0) == key
}

pub open spec fn calls_resolved(p: Mir, tcx: TyCtx, os: Seq<Operand>, out: Seq<(Instance, Body)>) -> bool {
    forall|k: int| 0 <= k < os.len() ==> (#[trigger] call_of(tcx, os[k]) matches Some(key) ==> resolved(p, out, key))
}

/// Every call and every closure creation of body `b` names an instance that was built, or a
/// definition with no body.
pub open spec fn body_closed(p: Mir, tcx: TyCtx, b: Body, self_ty: Option<Ty>, out: Seq<(Instance, Body)>) -> bool {
    forall|k: int|
        0 <= k < b.basic_blocks@.len() ==> {
            let blk = #[trigger] b.basic_blocks@[k];
            &&& forall|j: int|
                0 <= j < blk.statements@.len() ==> ((#[trigger] blk.statements@[j]).kind matches StatementKind::Assign(_, rv) ==> {
                    &&& calls_resolved(p, tcx, rvalue_operands(rv), out)
                    &&& closure_of(rv, self_ty) matches Some(key) ==> resolved(p, out, key)
                })
            &&& calls_resolved(p, tcx, terminator_operands(blk.terminator.kind), out)
            &&& blk.terminator.kind matches TerminatorKind::Assert { msg, .. } ==> calls_resolved(
                p,
                tcx,
                message_operands(msg),
                out,
            )
        }
}

/// Output entry `e` is the body its definition has in `p`, with the parameters of some
/// definition (its own, unless it is a closure) bound to its arguments.
pub open spec fn built(p: Mir, t1: TyCtx, t0: TyCtx, e: (Instance, Body)) -> bool {
    &&& body_from(p, e.0.def, e.0.any_mode, 0) is Some
    &&& exists|s: Subst, d: DefId|
        #![trigger zips(s, params_of(p, d), e.0.args@, e.0.self_ty)]
        zips(s, params_of(p, d), e.0.args@, e.0.self_ty) && def_ok(p, d) && (p.def_infos.info(e.0.def).kind
            != DefKind::Closure ==> d == e.0.def) && body_subst(
            p,
            t1,
            e.1,
            t0,
            p.bodies@[body_from(p, e.0.def, e.0.any_mode, 0)->0].1,
            s,
            e.0.args@,
        )
}

/// Whether any local of `b` is typed with a generic parameter or `Self`.
pub open spec fn has_generic_local(tcx: TyCtx, b: Body) -> bool {
    exists|l: int| 0 <= l < b.local_decls@.len() && generic_within(tcx.kinds_view(), (#[trigger] b.local_decls@[l]).ty.0 as int)
}

/// The instance body entry `i` is built as when it is a root: no arguments, no `Self`.
pub open spec fn root_key(p: Mir, i: int) -> (DefId, Option<AnyMode>, Seq<Ty>, Option<Ty>) {
    (p.bodies@[i].0.0, p.bodies@[i].0.1, Seq::empty(), None)
}

/// Body entry `i` is a root: no closure's, and `main`'s or free of generics.
pub open spec fn is_root(p: Mir, tcx: TyCtx, i: int) -> bool {
    let def = p.bodies@[i].0.0;
    p.def_infos.info(def).kind != DefKind::Closure && (p.main == Some(def) || !has_generic_local(tcx, p.bodies@[i].1))
}

/// A key is built, names a definition with no body, or still waits in `work`.
pub open spec fn pending(p: Mir, out: Seq<(Instance, Body)>, work: Seq<(Instance, Option<Subst>)>, key: (DefId, Option<AnyMode>, Seq<Ty>, Option<Ty>)) -> bool {
    resolved(p, out, key) || listed(work, key)
}

fn body_mentions_generic(tcx: &TyCtx, b: &Body) -> (r: bool)
    requires
        tcx.wf(),
        forall|l: int| 0 <= l < b.local_decls@.len() ==> tcx.has(#[trigger] b.local_decls@[l].ty),
    ensures
        r == has_generic_local(*tcx, *b),
{
    let mut l: usize = 0;
    while l < b.local_decls.len()
        invariant
            tcx.wf(),
            forall|i: int| 0 <= i < b.local_decls@.len() ==> tcx.has(#[trigger] b.local_decls@[i].ty),
            l <= b.local_decls@.len(),
            forall|i: int| 0 <= i < l ==> !generic_within(tcx.kinds_view(), (#[trigger] b.local_decls@[i]).ty.0 as int),
        decreases b.local_decls@.len() - l,
    {
        if tcx.mentions_generic(b.local_decls[l].ty) {
            return true;
        }
        l = l + 1;
    }
    false
}

proof fn lemma_body_from_in(p: Mir, def: DefId, mode: Option<AnyMode>, i: int)
    requires
        0 <= i,
        body_from(p, def, mode, i) is Some,
    ensures
        i <= body_from(p, def, mode, i)->0 < p.bodies@.len(),
        p.bodies@[body_from(p, def, mode, i)->0].0 == (def, mode),
    decreases p.bodies@.len() - i,
{
    if i < p.bodies@.len() && p.bodies@[i].0 != (def, mode) {
        lemma_body_from_in(p, def, mode, i + 1);
    }
}

proof fn lemma_built_grows(p: Mir, t1: TyCtx, t2: TyCtx, t0: TyCtx, e: (Instance, Body))
    requires
        built(p, t1, t0, e),
        extends(t2, t1),
    ensures
        built(p, t2, t0, e),
{
    let g = body_from(p, e.0.def, e.0.any_mode, 0)->0;
    let (s, d) = choose|s: Subst, d: DefId|
        #![trigger zips(s, params_of(p, d), e.0.args@, e.0.self_ty)]
        zips(s, params_of(p, d), e.0.args@, e.0.self_ty) && def_ok(p, d) && (p.def_infos.info(e.0.def).kind
            != DefKind::Closure ==> d == e.0.def) && body_subst(p, t1, e.1, t0, p.bodies@[g].1, s, e.0.args@);
    lemma_body_subst_extend(p, t1, t2, e.1, t0, p.bodies@[g].1, s, e.0.args@);
}

proof fn lemma_body_closed(p: Mir, tcx: TyCtx, b: Body, self_ty: Option<Ty>, seen: Seq<(Instance, Option<Subst>)>, out: Seq<(Instance, Body)>)
    requires
        body_listed(tcx, b, self_ty, seen),
        forall|key: (DefId, Option<AnyMode>, Seq<Ty>, Option<Ty>)| listed(seen, key) ==> #[trigger] resolved(p, out, key),
    ensures
        body_closed(p, tcx, b, self_ty, out),
{
    assert forall|k: int| 0 <= k < b.basic_blocks@.len() implies {
        let blk = #[trigger] b.basic_blocks@[k];
        &&& forall|j: int|
            0 <= j < blk.statements@.len() ==> ((#[trigger] blk.statements@[j]).kind matches StatementKind::Assign(_, rv) ==> {
                &&& calls_resolved(p, tcx, rvalue_operands(rv), out)
                &&& closure_of(rv, self_ty) matches Some(key) ==> resolved(p, out, key)
            })
        &&& calls_resolved(p, tcx, terminator_operands(blk.terminator.kind), out)
        &&& blk.terminator.kind matches TerminatorKind::Assert { msg, .. } ==> calls_resolved(p, tcx, message_operands(msg), out)
    } by {
        let blk = b.basic_blocks@[k];
        assert forall|j: int| 0 <= j < blk.statements@.len() implies ((#[trigger] blk.statements@[j]).kind matches StatementKind::Assign(_, rv) ==> {
            &&& calls_resolved(p, tcx, rvalue_operands(rv), out)
            &&& closure_of(rv, self_ty) matches Some(key) ==> resolved(p, out, key)
        }) by {
            match blk.statements@[j].kind {
                StatementKind::Assign(_, rv) => {
                    let os = rvalue_operands(rv);
                    assert forall|i: int| 0 <= i < os.len() implies (#[trigger] call_of(tcx, os[i]) matches Some(key) ==> resolved(p, out, key)) by {
                        if call_of(tcx, os[i]) is Some {
                            assert(listed(seen, call_of(tcx, os[i])->0));
                        }
                    }
                },
                _ => {},
            }
        }
        let os = terminator_operands(blk.terminator.kind);
        assert forall|i: int| 0 <= i < os.len() implies (#[trigger] call_of(tcx, os[i]) matches Some(key) ==> resolved(p, out, key)) by {
            if call_of(tcx, os[i]) is Some {
                assert(listed(seen, call_of(tcx, os[i])->0));
            }
        }
        match blk.terminator.kind {
            TerminatorKind::Assert { msg, .. } => {
                let ms = message_operands(msg);
                assert forall|i: int| 0 <= i < ms.len() implies (#[trigger] call_of(tcx, ms[i]) matches Some(key) ==> resolved(p, out, key)) by {
                    if call_of(tcx, ms[i]) is Some {
                        assert(listed(seen, call_of(tcx, ms[i])->0));
                    }
                }
            },
            _ => {},
        }
    }
}

proof fn lemma_listed_pop(work: Seq<(Instance, Option<Subst>)>, key: (DefId, Option<AnyMode>, Seq<Ty>, Option<Ty>))
    requires
        work.len() > 0,
        listed(work, key),
    ensures
        listed(work.subrange(0, work.len() - 1), key) || key == ikey(work[work.len() - 1].0),
{
    let j = choose|j: int| 0 <= j < work.len() && ikey(#[trigger] work[j].0) == key;
    if j < work.len() - 1 {
        assert(work.subrange(0, work.len() - 1)[j] == work[j]);
    }
}

proof fn lemma_pending_kept(
    p: Mir,
    o0: Seq<(Instance, Body)>,
    w0: Seq<(Instance, Option<Subst>)>,
    o1: Seq<(Instance, Body)>,
    w1: Seq<(Instance, Option<Subst>)>,
    key: (DefId, Option<AnyMode>, Seq<Ty>, Option<Ty>),
)
    requires
        pending(p, o0, w0, key),
        w0.len() > 0,
        resolved(p, o1, ikey(w0[w0.len() - 1].0)),
        forall|k: (DefId, Option<AnyMode>, Seq<Ty>, Option<Ty>)| built_in(o0, k) ==> #[trigger] built_in(o1, k),
        forall|k: (DefId, Option<AnyMode>, Seq<Ty>, Option<Ty>)| listed(w0.subrange(0, w0.len() - 1), k) ==> #[trigger] listed(w1, k),
    ensures
        pending(p, o1, w1, key),
{
    if listed(w0, key) {
        lemma_listed_pop(w0, key);
    }
}

/// Builds one concrete body for each instance `program` uses: the roots, and every instance a
/// built body calls or creates, until none is left. An instance is built once however often it
/// is asked for.
pub fn monomorphize(tcx: &mut TyCtx, program: &Mir) -> (r: Result<Vec<(Instance, Body)>, MonoError>)
    requires
        ready(*program, *old(tcx)),
    ensures
        final(tcx).wf(),
        extends(*final(tcx), *old(tcx)),
        match r {
            Ok(out) => {
                &&& forall|i: int, j: int| 0 <= i < j < out@.len() ==> ikey(#[trigger] out@[i].0) != ikey(#[trigger] out@[j].0)
                &&& forall|k: int| 0 <= k < out@.len() ==> built(*program, *final(tcx), *old(tcx), #[trigger] out@[k])
                &&& forall|k: int|
                    0 <= k < out@.len() ==> body_closed(
                        *program,
                        *final(tcx),
                        (#[trigger] out@[k]).1,
                        out@[k].0.self_ty,
                        out@,
                    )
                &&& forall|i: int|
                    0 <= i < program.bodies@.len() && is_root(*program, *old(tcx), i) ==> built_in(out@, #[trigger] root_key(*program, i))
            },
            Err(MonoError::TypeTableFull) => final(tcx).kinds_view().len() + 1 >= u32::MAX,
            Err(MonoError::TooManyInstances) => true,
        },
{
    let ghost t0 = *tcx;
    let mut work: Vec<(Instance, Option<Subst>)> = Vec::new();
    let mut i: usize = 0;
    while i < program.bodies.len()
        invariant
            *tcx == t0,
            t0 == *old(tcx),
            ready(*program, t0),
            i <= program.bodies@.len(),
            items_ok(*program, t0, work@, 0),
            forall|b: int| 0 <= b < i && is_root(*program, t0, b) ==> listed(work@, #[trigger] root_key(*program, b)),
        decreases program.bodies@.len() - i,
    {
        let key = program.bodies[i].0;
        let body = &program.bodies[i].1;
        proof {
            assert(def_ok(*program, program.bodies@[i as int].0.0) && body_ok(*program, t0, program.bodies@[i as int].1));
            assert(program.def_infos.info(DefId(key.0.0 as u32)) == program.def_infos.info(key.0));
        }
        let is_main = match program.main {
            Some(m) => m == key.0,
            None => false,
        };
        let root = program.def_infos.kind(key.0) != DefKind::Closure && (is_main || !body_mentions_generic(tcx, body));
        if root {
            let ghost w0 = work@;
            work.push((Instance { def: key.0, any_mode: key.1, args: Vec::new(), self_ty: None }, None));
            proof {
                assert(ikey(work@[work@.len() - 1].0) == root_key(*program, i as int));
                assert forall|b: int| 0 <= b < i + 1 && is_root(*program, t0, b) implies listed(work@, #[trigger] root_key(*program, b)) by {
                    if b < i {
                        lemma_listed_append(w0, seq![work@[work@.len() - 1]], root_key(*program, b));
                        assert(w0 + seq![work@[work@.len() - 1]] == work@);
                    }
                }
                assert(item_ok(*program, t0, work@[work@.len() - 1]));
                assert forall|j: int| 0 <= j < work@.len() implies item_ok(*program, t0, #[trigger] work@[j]) by {
                    if j < w0.len() {
                        assert(work@[j] == w0[j]);
                    }
                }
            }
        } else {
            proof {
                assert(!is_root(*program, t0, i as int));
            }
        }
        i = i + 1;
    }
    let ghost mut seen: Seq<(Instance, Option<Subst>)> = work@;
    let mut output: Vec<(Instance, Body)> = Vec::new();
    let mut processed: usize = 0;
    while work.len() > 0
        invariant
            tcx.wf(),
            t0 == *old(tcx),
            ready(*program, t0),
            extends(*tcx, t0),
            ready(*program, *tcx),
            processed <= INSTANTIATION_LIMIT,
            items_ok(*program, *tcx, work@, 0),
            forall|i: int, j: int| 0 <= i < j < output@.len() ==> ikey(#[trigger] output@[i].0) != ikey(#[trigger] output@[j].0),
            forall|k: int| 0 <= k < output@.len() ==> built(*program, *tcx, t0, #[trigger] output@[k]),
            forall|k: int|
                0 <= k < output@.len() ==> body_listed(*tcx, (#[trigger] output@[k]).1, output@[k].0.self_ty, seen)
                    && body_typed(*program, *tcx, output@[k].1),
            forall|key: (DefId, Option<AnyMode>, Seq<Ty>, Option<Ty>)| listed(seen, key) ==> #[trigger] pending(*program, output@, work@, key),
            forall|b: int| 0 <= b < program.bodies@.len() && is_root(*program, t0, b) ==> #[trigger] pending(
                *program,
                output@,
                work@,
                root_key(*program, b),
            ),
        decreases INSTANTIATION_LIMIT - processed, work@.len(),
    {
        let ghost w0 = work@;
        let ghost o0 = output@;
        let item = work.pop().unwrap();
        let ghost w1 = work@;
        proof {
            assert(w1 == w0.subrange(0, w0.len() - 1));
            assert(item == w0[w0.len() - 1]);
            assert(item_ok(*program, *tcx, w0[w0.len() - 1]));
            assert forall|j: int| 0 <= j < w1.len() implies item_ok(*program, *tcx, #[trigger] w1[j]) by {
                assert(w1[j] == w0[j]);
            }
        }
        let (inst, carried) = item;
        if has_instance(&output, &inst) {
            proof {
                assert(built_in(output@, ikey(inst)));
                assert forall|key: (DefId, Option<AnyMode>, Seq<Ty>, Option<Ty>)| listed(seen, key) implies #[trigger] pending(*program, output@, work@, key) by {
                    assert(pending(*program, o0, w0, key));
                    lemma_pending_kept(*program, o0, w0, output@, work@, key);
                }
                assert forall|b: int| 0 <= b < program.bodies@.len() && is_root(*program, t0, b) implies #[trigger] pending(*program, output@, work@, root_key(*program, b)) by {
                    assert(pending(*program, o0, w0, root_key(*program, b)));
                    lemma_pending_kept(*program, o0, w0, output@, work@, root_key(*program, b));
                }
            }
        } else {
            processed = processed + 1;
            if processed > INSTANTIATION_LIMIT {
                return Err(MonoError::TooManyInstances);
            }
            match find_body(program, inst.def, inst.any_mode) {
                None => {
                    proof {
                        assert(resolved(*program, output@, ikey(inst)));
                        assert forall|key: (DefId, Option<AnyMode>, Seq<Ty>, Option<Ty>)| listed(seen, key) implies #[trigger] pending(*program, output@, work@, key) by {
                            assert(pending(*program, o0, w0, key));
                            lemma_pending_kept(*program, o0, w0, output@, work@, key);
                        }
                        assert forall|b: int| 0 <= b < program.bodies@.len() && is_root(*program, t0, b) implies #[trigger] pending(*program, output@, work@, root_key(*program, b)) by {
                            assert(pending(*program, o0, w0, root_key(*program, b)));
                            lemma_pending_kept(*program, o0, w0, output@, work@, root_key(*program, b));
                        }
                    }
                },
                Some(g) => {
                    proof {
                        lemma_body_from_in(*program, inst.def, inst.any_mode, 0);
                        assert(body_ok(*program, *tcx, program.bodies@[g as int].1));
                    }
                    let subst = match carried {
                        Some(c) => c,
                        None => build_subst(program, inst.def, &inst.args, inst.self_ty),
                    };
                    let ghost e = if carried is Some {
                        choose|e: DefId| def_ok(*program, e) && #[trigger] zips(carried->0, params_of(*program, e), inst.args@, inst.self_ty)
                    } else {
                        inst.def
                    };
                    proof {
                        assert(def_ok(*program, e) && zips(subst, params_of(*program, e), inst.args@, inst.self_ty));
                        assert(inst_ok(*program, *tcx, inst, subst));
                        assert forall|j: int| 0 <= j < subst.generics@.len() implies tcx.has(#[trigger] subst.generics@[j].1) by {
                            assert(subst.generics@[j] == (params_of(*program, e)[j], inst.args@[j]));
                        }
                        assert(subst_in(subst, *tcx));
                    }
                    let ghost t1 = *tcx;
                    let mut discovered: Vec<(Instance, Option<Subst>)> = Vec::new();
                    let body = match process_body(program, tcx, &program.bodies[g].1, &subst, &inst, &mut discovered) {
                        Ok(b) => b,
                        Err(e) => return Err(e),
                    };
                    proof {
                        lemma_body_subst_from(*program, *tcx, body, t1, t0, program.bodies@[g as int].1, subst, inst.args@);
                        assert(zips(subst, params_of(*program, e), inst.args@, inst.self_ty));
                        assert(built(*program, *tcx, t0, (inst, body)));
                        assert forall|k: int| 0 <= k < o0.len() implies built(*program, *tcx, t0, #[trigger] o0[k]) by {
                            lemma_built_grows(*program, t1, *tcx, t0, o0[k]);
                        }
                        lemma_found_listed(*program, *tcx, body, inst.self_ty, subst, discovered@);
                    }
                    let ghost d = discovered@;
                    let ghost seen1 = seen + d;
                    output.push((inst, body));
                    work.append(&mut discovered);
                    proof {
                        assert(work@ == w1 + d);
                        assert(output@ == o0.push((inst, body)));
                        assert forall|key: (DefId, Option<AnyMode>, Seq<Ty>, Option<Ty>)| listed(seen, key) implies #[trigger] listed(seen1, key) by {
                            lemma_listed_append(seen, d, key);
                        }
                        assert forall|key: (DefId, Option<AnyMode>, Seq<Ty>, Option<Ty>)| listed(d, key) implies #[trigger] listed(seen1, key) by {
                            lemma_listed_append(seen, d, key);
                        }
                        assert forall|k: int| 0 <= k < output@.len() implies body_listed(*tcx, (#[trigger] output@[k]).1, output@[k].0.self_ty, seen1)
                            && body_typed(*program, *tcx, output@[k].1) by {
                            if k < o0.len() {
                                assert(output@[k] == o0[k]);
                                lemma_body_listed_map(*program, t1, *tcx, o0[k].1, o0[k].0.self_ty, seen, seen1);
                            } else {
                                lemma_body_listed_map(*program, *tcx, *tcx, body, inst.self_ty, d, seen1);
                            }
                        }
                        assert forall|k: (DefId, Option<AnyMode>, Seq<Ty>, Option<Ty>)| built_in(o0, k) implies #[trigger] built_in(output@, k) by {
                            let j = choose|j: int| 0 <= j < o0.len() && ikey(#[trigger] o0[j].0) == k;
                            assert(output@[j] == o0[j]);
                        }
                        assert forall|k: (DefId, Option<AnyMode>, Seq<Ty>, Option<Ty>)| listed(w0.subrange(0, w0.len() - 1), k) implies #[trigger] listed(work@, k) by {
                            lemma_listed_append(w1, d, k);
                        }
                        assert(ikey(output@[o0.len() as int].0) == ikey(inst));
                        assert(built_in(output@, ikey(inst)));
                        assert forall|b: int| 0 <= b < program.bodies@.len() && is_root(*program, t0, b) implies #[trigger] pending(*program, output@, work@, root_key(*program, b)) by {
                            assert(pending(*program, o0, w0, root_key(*program, b)));
                            lemma_pending_kept(*program, o0, w0, output@, work@, root_key(*program, b));
                        }
                        assert forall|key: (DefId, Option<AnyMode>, Seq<Ty>, Option<Ty>)| listed(seen1, key) implies #[trigger] pending(*program, output@, work@, key) by {
                            let j = choose|j: int| 0 <= j < seen1.len() && ikey(#[trigger] seen1[j].0) == key;
                            if j < seen.len() {
                                assert(seen1[j] == seen[j]);
                                assert(listed(seen, key));
                                assert(pending(*program, o0, w0, key));
                                lemma_pending_kept(*program, o0, w0, output@, work@, key);
                            } else {
                                assert(seen1[j] == d[j - seen.len()]);
                                assert(work@[w1.len() + j - seen.len()] == d[j - seen.len()]);
                                assert(listed(work@, key));
                            }
                        }
                        assert forall|i: int, j: int| 0 <= i < j < output@.len() implies ikey(#[trigger] output@[i].0) != ikey(#[trigger] output@[j].0) by {
                            if j == o0.len() {
                                assert(output@[i] == o0[i]);
                            } else {
                                assert(output@[i] == o0[i]);
                                assert(output@[j] == o0[j]);
                            }
                        }
                        assert forall|k: int| 0 <= k < output@.len() implies built(*program, *tcx, t0, #[trigger] output@[k]) by {
                            if k < o0.len() {
                                assert(output@[k] == o0[k]);
                            }
                        }
                        lemma_items_ok_grows(*program, t1, *tcx, w1, 0);
                        assert forall|j: int| 0 <= j < work@.len() implies item_ok(*program, *tcx, #[trigger] work@[j]) by {
                            if j < w1.len() {
                                assert(work@[j] == w1[j]);
                            } else {
                                assert(work@[j] == d[j - w1.len()]);
                            }
                        }
                        seen = seen1;
                    }
                },
            }
        }
    }
    proof {
        assert forall|key: (DefId, Option<AnyMode>, Seq<Ty>, Option<Ty>)| listed(seen, key) implies #[trigger] resolved(*program, output@, key) by {
            assert(pending(*program, output@, work@, key));
        }
        assert forall|k: int| 0 <= k < output@.len() implies body_closed(*program, *tcx, (#[trigger] output@[k]).1, output@[k].0.self_ty, output@) by {
            lemma_body_closed(*program, *tcx, output@[k].1, output@[k].0.self_ty, seen, output@);
        }
        assert forall|i: int| 0 <= i < program.bodies@.len() && is_root(*program, t0, i) implies built_in(output@, #[trigger] root_key(*program, i)) by {
            assert(pending(*program, output@, work@, root_key(*program, i)));
            lemma_body_from_root(*program, i);
        }
    }
    Ok(output)
}

/// A body entry's own key always finds a body.
proof fn lemma_body_from_root(p: Mir, i: int)
    requires
        0 <= i < p.bodies@.len(),
    ensures
        body_from(p, p.bodies@[i].0.0, p.bodies@[i].0.1, 0) is Some,
{
    lemma_body_from_reaches(p, p.bodies@[i].0.0, p.bodies@[i].0.1, 0, i);
}

proof fn lemma_body_from_reaches(p: Mir, def: DefId, mode: Option<AnyMode>, j: int, i: int)
    requires
        0 <= j <= i < p.bodies@.len(),
        p.bodies@[i].0 == (def, mode),
    ensures
        body_from(p, def, mode, j) is Some,
    decreases i - j,
{
    if j < i && p.bodies@[j].0 != (def, mode) {
        lemma_body_from_reaches(p, def, mode, j + 1, i);
    }
}

/// Whether two instances have the same definition, mode, arguments and `Self` type.
pub fn same_instance(a: &Instance, b: &Instance) -> (r: bool)
    ensures
        r == (ikey(*a) == ikey(*b)),
{
    if a.def != b.def {
        return false;
    }
    let modes = match (a.any_mode, b.any_mode) {
        (Some(x), Some(y)) => x == y,
        (None, None) => true,
        _ => false,
    };
    if !modes {
        return false;
    }
    let selves = match (a.self_ty, b.self_ty) {
        (Some(x), Some(y)) => x == y,
        (None, None) => true,
        _ => false,
    };
    if !selves || a.args.len() != b.args.len() {
        return false;
    }
    let mut i: usize = 0;
    while i < a.args.len()
        invariant
            a.args@.len() == b.args@.len(),
            i <= a.args@.len(),
            forall|j: int| 0 <= j < i ==> a.args@[j] == b.args@[j],
        decreases a.args@.len() - i,
    {
        if a.args[i] != b.args[i] {
            return false;
        }
        i = i + 1;
    }
    assert(a.args@ =~= b.args@);
    true
}

/// Whether `output` already has an entry for `inst`.
pub fn has_instance(output: &Vec<(Instance, Body)>, inst: &Instance) -> (r: bool)
    ensures
        r == exists|j: int| 0 <= j < output@.len() && ikey(#[trigger] output@[j].0) == ikey(*inst),
{
    let mut j: usize = 0;
    while j < output.len()
        invariant
            j <= output@.len(),
            forall|k: int| 0 <= k < j ==> ikey(#[trigger] output@[k].0) != ikey(*inst),
        decreases output@.len() - j,
    {
        if same_instance(&output[j].0, inst) {
            return true;
        }
        j = j + 1;
    }
    false
}

fn copy_tys(v: &Vec<Ty>) -> (r: Vec<Ty>)
    ensures
        r@ == v@,
{
    let mut r: Vec<Ty> = Vec::new();
    let mut i: usize = 0;
    while i < v.len()
        invariant
            i <= v@.len(),
            r@ == v@.take(i as int),
        decreases v@.len() - i,
    {
        r.push(v[i]);
        i = i + 1;
        assert(r@ =~= v@.take(i as int));
    }
    assert(v@.take(v@.len() as int) =~= v@);
    r
}

/// A copy of `i`.
pub fn copy_instance(i: &Instance) -> (r: Instance)
    ensures
        ikey(r) == ikey(*i),
{
    Instance { def: i.def, any_mode: i.any_mode, args: copy_tys(&i.args), self_ty: i.self_ty }
}

fn copy_subst(s: &Subst) -> (r: Subst)
    ensures
        r.generics@ == s.generics@,
        r.self_ty == s.self_ty,
{
    let mut g: Vec<(HirId, Ty)> = Vec::new();
    let mut i: usize = 0;
    while i < s.generics.len()
        invariant
            i <= s.generics@.len(),
            g@ == s.generics@.take(i as int),
        decreases s.generics@.len() - i,
    {
        g.push(s.generics[i]);
        i = i + 1;
        assert(g@ =~= s.generics@.take(i as int));
    }
    assert(s.generics@.take(s.generics@.len() as int) =~= s.generics@);
    Subst { generics: g, self_ty: s.self_ty }
}

/// The index of the first body `program` has for `def` in mode `mode`.
pub fn find_body(program: &Mir, def: DefId, mode: Option<AnyMode>) -> (r: Option<usize>)
    ensures
        r matches Some(i) ==> Some(i as int) == body_from(*program, def, mode, 0),
        r is None ==> body_from(*program, def, mode, 0) is None,
{
    let mut i: usize = 0;
    while i < program.bodies.len()
        invariant
            i <= program.bodies@.len(),
            body_from(*program, def, mode, 0) == body_from(*program, def, mode, i as int),
        decreases program.bodies@.len() - i,
    {
        let key = program.bodies[i].0;
        let same_mode = match (key.1, mode) {
            (Some(x), Some(y)) => x == y,
            (None, None) => true,
            _ => false,
        };
        if key.0 == def && same_mode {
            return Some(i);
        }
        i = i + 1;
    }
    None
}

/// The substitution an instance of `def` with `args` and `self_ty` applies to its body.
pub fn build_subst(program: &Mir, def: DefId, args: &Vec<Ty>, self_ty: Option<Ty>) -> (s: Subst)
    requires
        def_ok(*program, def),
        forall|d: int|
            0 <= d < program.def_infos.len() ==> ((#[trigger] program.def_infos.info(DefId(d as u32))).parent matches Some(q)
                ==> def_ok(*program, q)),
    ensures
        zips(s, params_of(*program, def), args@, self_ty),
{
    let infos = &program.def_infos;
    let mut params: Vec<HirId> = Vec::new();
    assert(program.def_infos.info(DefId(def.0 as u32)) == program.def_infos.info(def));
    match infos.parent(def) {
        Some(parent) => {
            match infos.kind(parent) {
                DefKind::Extend | DefKind::Trait => {
                    push_all(&mut params, infos.generics(parent));
                },
                _ => {},
            }
        },
        None => {},
    }
    push_all(&mut params, infos.generics(def));
    assert(params@ == params_of(*program, def));
    let mut generics: Vec<(HirId, Ty)> = Vec::new();
    let mut i: usize = 0;
    while i < params.len() && i < args.len()
        invariant
            i <= params@.len(),
            i <= args@.len(),
            generics@.len() == i,
            forall|j: int| 0 <= j < i ==> #[trigger] generics@[j] == (params@[j], args@[j]),
        decreases params@.len() - i,
    {
        generics.push((params[i], args[i]));
        i = i + 1;
    }
    Subst { generics, self_ty }
}

fn push_all(v: &mut Vec<HirId>, g: &[HirId])
    ensures
        final(v)@ == old(v)@ + g@,
{
    let mut i: usize = 0;
    while i < g.len()
        invariant
            i <= g@.len(),
            v@ == old(v)@ + g@.take(i as int),
        decreases g@.len() - i,
    {
        v.push(g[i]);
        i = i + 1;
        assert(v@ =~= old(v)@ + g@.take(i as int));
    }
    assert(g@.take(g@.len() as int) =~= g@);
}

} // verus!
