//! Definition-level facts the passes after lowering read, snapshotted from the HIR: what each
//! definition is, what encloses it, the generics it declares, and the vtable slot of a trait
//! method.

use vstd::prelude::*;
use crate::hir::{DefId, Hir, HirId, OwnerNode};

verus! {

/// What a definition is: [`OwnerNode`]'s variants without their payloads.
#[derive(Clone, Copy, Debug, PartialEq, Eq, Structural)]
pub enum DefKind {
    Module,
    Function,
    Struct,
    Enum,
    Trait,
    Extend,
    Closure,
}

/// Everything one definition contributes to the passes after lowering.
#[derive(Clone, Debug)]
pub struct DefInfo {
    pub kind: DefKind,
    /// The definition this one is declared inside; `None` for the root module.
    pub parent: Option<DefId>,
    /// The definition's own generic parameters, in written order.
    pub generics: Vec<HirId>,
    /// For a method a trait declares: that trait, and the method's position in the trait's
    /// declaration order, which is its vtable slot.
    pub trait_method: Option<(DefId, u32)>,
}

/// Every [`DefInfo`], indexed by the [`DefId`] it describes.
pub struct DefInfos {
    infos: Vec<DefInfo>,
}

pub open spec fn kind_of_node(node: OwnerNode) -> DefKind {
    match node {
        OwnerNode::Module(_) => DefKind::Module,
        OwnerNode::Function(_) => DefKind::Function,
        OwnerNode::Struct(_) => DefKind::Struct,
        OwnerNode::Enum(_) => DefKind::Enum,
        OwnerNode::Trait(_) => DefKind::Trait,
        OwnerNode::Extend(_) => DefKind::Extend,
        OwnerNode::Closure => DefKind::Closure,
    }
}

/// The generics a definition itself declares; none for a module or a closure.
pub open spec fn generics_of_node(node: OwnerNode) -> Seq<HirId> {
    match node {
        OwnerNode::Function(f) => f.generics@,
        OwnerNode::Struct(s) => s.generics@,
        OwnerNode::Enum(e) => e.generics@,
        OwnerNode::Trait(t) => t.generics@,
        OwnerNode::Extend(x) => x.extend_generics@,
        OwnerNode::Module(_) => Seq::empty(),
        OwnerNode::Closure => Seq::empty(),
    }
}

/// The last position at which `fns` lists `m`.
pub open spec fn last_slot(fns: Seq<DefId>, m: DefId) -> Option<u32>
    decreases fns.len(),
{
    if fns.len() == 0 {
        None
    } else if fns.last() == m {
        Some((fns.len() - 1) as u32)
    } else {
        last_slot(fns.drop_last(), m)
    }
}

/// The trait among the first `n` definitions that lists `m` last, with `m`'s slot in it. A
/// method declared once is listed by exactly one trait, so this is that trait.
pub open spec fn trait_slot(defs: Seq<OwnerNode>, n: int, m: DefId) -> Option<(DefId, u32)>
    decreases n,
{
    if n <= 0 {
        None
    } else {
        let prior = trait_slot(defs, n - 1, m);
        match defs[n - 1] {
            OwnerNode::Trait(t) => match last_slot(t.functions@, m) {
                Some(k) => Some((DefId((n - 1) as u32), k)),
                None => prior,
            },
            _ => prior,
        }
    }
}

/// The slot recorded for a method names it: the trait recorded is a trait, and the method is
/// what that trait lists at that slot.
pub proof fn law_slot_names_the_method(defs: Seq<OwnerNode>, n: int, m: DefId)
    requires
        0 <= n <= defs.len(),
        n <= u32::MAX + 1,
        forall|d: int| 0 <= d < n ==> (#[trigger] defs[d] matches OwnerNode::Trait(tr) ==> tr.functions@.len() <= u32::MAX),
    ensures
        trait_slot(defs, n, m) matches Some((t, k)) ==> (0 <= t.0 < n && (defs[t.0 as int] matches OwnerNode::Trait(tr) && 0 <= k
            < tr.functions@.len() && tr.functions@[k as int] == m)),
    decreases n,
{
    if n > 0 {
        law_slot_names_the_method(defs, n - 1, m);
        match defs[n - 1] {
            OwnerNode::Trait(tr) => {
                lemma_last_slot(tr.functions@, m);
            },
            _ => {},
        }
    }
}

proof fn lemma_last_slot(fns: Seq<DefId>, m: DefId)
    ensures
        last_slot(fns, m) matches Some(k) ==> fns.len() <= u32::MAX + 1 ==> (0 <= k < fns.len() && fns[k as int] == m),
    decreases fns.len(),
{
    if fns.len() > 0 {
        lemma_last_slot(fns.drop_last(), m);
    }
}

impl DefInfos {
    pub closed spec fn len(&self) -> nat {
        self.infos@.len()
    }

    pub closed spec fn info(&self, def: DefId) -> DefInfo {
        self.infos@[def.0 as int]
    }

    fn get(&self, def: DefId) -> (r: &DefInfo)
        requires
            def.0 < self.len(),
        ensures
            *r == self.info(def),
    {
        &self.infos[def.index()]
    }

    pub fn kind(&self, def: DefId) -> (k: DefKind)
        requires
            def.0 < self.len(),
        ensures
            k == self.info(def).kind,
    {
        self.get(def).kind
    }

    pub fn parent(&self, def: DefId) -> (p: Option<DefId>)
        requires
            def.0 < self.len(),
        ensures
            p == self.info(def).parent,
    {
        self.get(def).parent
    }

    /// The definition's own declared generics; empty for one that declares none.
    pub fn generics(&self, def: DefId) -> (g: &[HirId])
        requires
            def.0 < self.len(),
        ensures
            g@ == self.info(def).generics@,
    {
        self.get(def).generics.as_slice()
    }

    /// The trait a method was declared by, and its slot in that trait's vtable.
    pub fn trait_method(&self, def: DefId) -> (t: Option<(DefId, u32)>)
        requires
            def.0 < self.len(),
        ensures
            t == self.info(def).trait_method,
    {
        self.get(def).trait_method
    }

    /// The vtable slot of a trait method; `None` for anything else.
    pub fn vtable_slot(&self, def: DefId) -> (s: Option<u32>)
        requires
            def.0 < self.len(),
        ensures
            s == match self.info(def).trait_method {
                Some((_, slot)) => Some(slot),
                None => None,
            },
    {
        match self.trait_method(def) {
            Some((_, slot)) => Some(slot),
            None => None,
        }
    }
}

pub fn kind_of(node: &OwnerNode) -> (k: DefKind)
    ensures
        k == kind_of_node(*node),
{
    match node {
        OwnerNode::Module(_) => DefKind::Module,
        OwnerNode::Function(_) => DefKind::Function,
        OwnerNode::Struct(_) => DefKind::Struct,
        OwnerNode::Enum(_) => DefKind::Enum,
        OwnerNode::Trait(_) => DefKind::Trait,
        OwnerNode::Extend(_) => DefKind::Extend,
        OwnerNode::Closure => DefKind::Closure,
    }
}

pub fn declared_generics(node: &OwnerNode) -> (g: &[HirId])
    ensures
        g@ == generics_of_node(*node),
{
    match node {
        OwnerNode::Function(f) => f.generics.as_slice(),
        OwnerNode::Struct(s) => s.generics.as_slice(),
        OwnerNode::Enum(e) => e.generics.as_slice(),
        OwnerNode::Trait(t) => t.generics.as_slice(),
        OwnerNode::Extend(x) => x.extend_generics.as_slice(),
        OwnerNode::Module(_) | OwnerNode::Closure => &[],
    }
}

fn copy_generics(g: &[HirId]) -> (v: Vec<HirId>)
    ensures
        v@ == g@,
{
    let mut v: Vec<HirId> = Vec::new();
    let mut i: usize = 0;
    while i < g.len()
        invariant
            i <= g@.len(),
            v@ == g@.take(i as int),
        decreases g@.len() - i,
    {
        v.push(g[i]);
        i = i + 1;
        assert(v@ =~= g@.take(i as int));
    }
    assert(g@.take(g@.len() as int) =~= g@);
    v
}

/// The facts of every definition of `hir`, each method of a trait knowing that trait and its
/// slot.
pub fn collect_def_infos(hir: &Hir) -> (infos: DefInfos)
    requires
        hir.wf(),
    ensures
        infos.len() == hir.defs@.len(),
        forall|d: int|
            0 <= d < hir.defs@.len() ==> {
                let info = #[trigger] infos.info(DefId(d as u32));
                &&& info.kind == kind_of_node(hir.defs@[d])
                &&& info.parent == hir.parents@[d]
                &&& info.generics@ == generics_of_node(hir.defs@[d])
                &&& info.trait_method == trait_slot(hir.defs@, hir.defs@.len() as int, DefId(d as u32))
            },
{
    let n = hir.len();
    let mut infos: Vec<DefInfo> = Vec::new();
    let mut i: usize = 0;
    while i < n
        invariant
            hir.wf(),
            n == hir.defs@.len(),
            i <= n,
            infos@.len() == i,
            forall|d: int|
                0 <= d < i ==> {
                    let info = #[trigger] infos@[d];
                    &&& info.kind == kind_of_node(hir.defs@[d])
                    &&& info.parent == hir.parents@[d]
                    &&& info.generics@ == generics_of_node(hir.defs@[d])
                    &&& info.trait_method is None
                },
        decreases n - i,
    {
        let def = DefId(i as u32);
        let node = hir.def(def);
        infos.push(DefInfo {
            kind: kind_of(node),
            parent: hir.parent(def),
            generics: copy_generics(declared_generics(node)),
            trait_method: None,
        });
        i = i + 1;
    }
    let mut d: usize = 0;
    while d < n
        invariant
            hir.wf(),
            n == hir.defs@.len(),
            d <= n,
            infos@.len() == n,
            forall|m: int|
                0 <= m < n ==> {
                    let info = #[trigger] infos@[m];
                    &&& info.kind == kind_of_node(hir.defs@[m])
                    &&& info.parent == hir.parents@[m]
                    &&& info.generics@ == generics_of_node(hir.defs@[m])
                    &&& info.trait_method == trait_slot(hir.defs@, d as int, DefId(m as u32))
                },
        decreases n - d,
    {
        let ghost start = infos@;
        match hir.def(DefId(d as u32)) {
            OwnerNode::Trait(t) => {
                assert(crate::hir::methods_in_range(hir.defs@[d as int], n as int));
                let mut slot: usize = 0;
                while slot < t.functions.len()
                    invariant
                        hir.wf(),
                        n == hir.defs@.len(),
                        d < n,
                        hir.defs@[d as int] == OwnerNode::Trait(*t),
                        t.functions@.len() <= u32::MAX,
                        forall|k: int| 0 <= k < t.functions@.len() ==> (#[trigger] t.functions@[k]).0 < n,
                        slot <= t.functions@.len(),
                        infos@.len() == n,
                        forall|m: int|
                            0 <= m < n ==> {
                                let info = #[trigger] infos@[m];
                                &&& info.kind == kind_of_node(hir.defs@[m])
                                &&& info.parent == hir.parents@[m]
                                &&& info.generics@ == generics_of_node(hir.defs@[m])
                                &&& info.trait_method == match last_slot(t.functions@.take(slot as int), DefId(m as u32)) {
                                    Some(k) => Some((DefId(d as u32), k)),
                                    None => trait_slot(hir.defs@, d as int, DefId(m as u32)),
                                }
                            },
                    decreases t.functions@.len() - slot,
                {
                    let method = t.functions[slot];
                    let ghost before = infos@;
                    let mut info = DefInfo { kind: DefKind::Module, parent: None, generics: Vec::new(), trait_method: None };
                    std::mem::swap(&mut info, &mut infos[method.index()]);
                    info.trait_method = Some((DefId(d as u32), slot as u32));
                    infos.set(method.index(), info);
                    proof {
                        let fs = t.functions@.take(slot + 1);
                        assert(fs.drop_last() =~= t.functions@.take(slot as int));
                        assert(fs.last() == method);
                        assert forall|m: int| 0 <= m < n implies {
                            let info = #[trigger] infos@[m];
                            &&& info.kind == kind_of_node(hir.defs@[m])
                            &&& info.parent == hir.parents@[m]
                            &&& info.generics@ == generics_of_node(hir.defs@[m])
                            &&& info.trait_method == match last_slot(fs, DefId(m as u32)) {
                                Some(k) => Some((DefId(d as u32), k)),
                                None => trait_slot(hir.defs@, d as int, DefId(m as u32)),
                            }
                        } by {
                            if m != method.0 {
                                assert(infos@[m] == before[m]);
                                assert(DefId(m as u32) != method);
                            } else {
                                assert(DefId(m as u32) == method);
                            }
                        }
                    }
                    slot = slot + 1;
                }
                assert(t.functions@.take(t.functions@.len() as int) =~= t.functions@);
            },
            _ => {},
        }
        d = d + 1;
    }
    DefInfos { infos }
}

} // verus!
