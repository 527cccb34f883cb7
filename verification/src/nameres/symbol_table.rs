//! The namespaces name resolution looks names up in: per-module value, type and module
//! namespaces (with imports resolved into them), and the lexical stacks of locals, generic
//! parameters and `Self`.

use vstd::prelude::*;
use crate::ast::{lemma_child, lemma_index_of, Ast, Ident, Import, Item, ItemKind, Module, NodeId, Path, SrcSpan, Symbol, Visibility};
use crate::diag::Diagnostic;
use crate::nameres::diagnostics::{
    ambiguous_import_message, conflict_message, dyn_not_trait_message, not_found_message,
    private_item_message, report_ambiguous_import, report_conflict, report_dyn_not_trait,
    report_not_found, report_private_item, report_self_unavailable, self_unavailable_message,
};
use crate::nameres::res::{Local, PrimTy, Res, TyDef, Type};
use crate::session::Session;
use crate::support::{
    assoc_get, assoc_has, assoc_unique, bound_after, lemma_assoc_get_index, lemma_assoc_get_prefix, lemma_assoc_has_get, lemma_assoc_get_none,
    lemma_assoc_get_some, lemma_assoc_push, str_eq,
};

verus! {

broadcast use vstd::seq_lib::group_seq_properties;

// ---------------------------------------------------------------------------------------------
// Primitive types

/// How each primitive type is spelled.
pub open spec fn prim_spelling(p: PrimTy) -> Seq<char> {
    match p {
        PrimTy::I8 => "i8"@,
        PrimTy::I16 => "i16"@,
        PrimTy::I32 => "i32"@,
        PrimTy::I64 => "i64"@,
        PrimTy::U8 => "u8"@,
        PrimTy::U16 => "u16"@,
        PrimTy::U32 => "u32"@,
        PrimTy::U64 => "u64"@,
        PrimTy::Usize => "usize"@,
        PrimTy::F32 => "f32"@,
        PrimTy::F64 => "f64"@,
        PrimTy::Bool => "bool"@,
        PrimTy::Char => "char"@,
        PrimTy::Str => "str"@,
    }
}

/// The primitive type spelled `text`, if any: the first, in declaration order, whose
/// spelling it is.
pub open spec fn prim_named(text: Seq<char>) -> Option<PrimTy> {
    prim_named_from(text, 0)
}

pub open spec fn prim_named_from(text: Seq<char>, i: nat) -> Option<PrimTy>
    decreases 14 - i,
{
    if i >= 14 {
        None
    } else if prim_spelling(prim_at_spec(i as usize)) == text {
        Some(prim_at_spec(i as usize))
    } else {
        prim_named_from(text, i + 1)
    }
}

/// The position of `p` in the order primitive types are tried in.
pub open spec fn prim_index(p: PrimTy) -> usize {
    match p {
        PrimTy::I8 => 0,
        PrimTy::I16 => 1,
        PrimTy::I32 => 2,
        PrimTy::I64 => 3,
        PrimTy::U8 => 4,
        PrimTy::U16 => 5,
        PrimTy::U32 => 6,
        PrimTy::U64 => 7,
        PrimTy::Usize => 8,
        PrimTy::F32 => 9,
        PrimTy::F64 => 10,
        PrimTy::Bool => 11,
        PrimTy::Char => 12,
        PrimTy::Str => 13,
    }
}

/// What tells two spellings apart: their length, first two and last characters.
spec fn spelling_key(s: Seq<char>) -> (nat, char, char, char) {
    (s.len(), s[0], s[1], s[s.len() - 1])
}

proof fn lemma_reveal_spellings()
    ensures
        spelling_key("i8"@) == (2nat, 'i', '8', '8'),
        spelling_key("i16"@) == (3nat, 'i', '1', '6'),
        spelling_key("i32"@) == (3nat, 'i', '3', '2'),
        spelling_key("i64"@) == (3nat, 'i', '6', '4'),
        spelling_key("u8"@) == (2nat, 'u', '8', '8'),
        spelling_key("u16"@) == (3nat, 'u', '1', '6'),
        spelling_key("u32"@) == (3nat, 'u', '3', '2'),
        spelling_key("u64"@) == (3nat, 'u', '6', '4'),
        spelling_key("usize"@) == (5nat, 'u', 's', 'e'),
        spelling_key("f32"@) == (3nat, 'f', '3', '2'),
        spelling_key("f64"@) == (3nat, 'f', '6', '4'),
        spelling_key("bool"@) == (4nat, 'b', 'o', 'l'),
        spelling_key("char"@) == (4nat, 'c', 'h', 'r'),
        spelling_key("str"@) == (3nat, 's', 't', 'r'),
{
    reveal_strlit("i8");
    reveal_strlit("i16");
    reveal_strlit("i32");
    reveal_strlit("i64");
    reveal_strlit("u8");
    reveal_strlit("u16");
    reveal_strlit("u32");
    reveal_strlit("u64");
    reveal_strlit("usize");
    reveal_strlit("f32");
    reveal_strlit("f64");
    reveal_strlit("bool");
    reveal_strlit("char");
    reveal_strlit("str");
}

proof fn lemma_prim_named_from(p: PrimTy, i: nat)
    requires
        i <= prim_index(p),
    ensures
        prim_named_from(prim_spelling(p), i) == Some(p),
    decreases prim_index(p) - i,
{
    lemma_reveal_spellings();
    if i < prim_index(p) {
        assert(spelling_key(prim_spelling(prim_at_spec(i as usize))) != spelling_key(prim_spelling(p)));
        lemma_prim_named_from(p, i + 1);
    }
}

/// Each primitive type's spelling names that type: `i64` is `i64`, and likewise for every
/// other primitive.
pub proof fn law_prim_spelling_names_it(p: PrimTy)
    ensures
        prim_named(prim_spelling(p)) == Some(p),
{
    lemma_prim_named_from(p, 0);
}

fn prim_at(i: usize) -> (r: (&'static str, PrimTy))
    requires
        i < 14,
    ensures
        r.0@ == prim_spelling(r.1),
        r.1 == prim_at_spec(i),
{
    proof {
        reveal_strlit("i8");
        reveal_strlit("i16");
        reveal_strlit("i32");
        reveal_strlit("i64");
        reveal_strlit("u8");
        reveal_strlit("u16");
        reveal_strlit("u32");
        reveal_strlit("u64");
        reveal_strlit("usize");
        reveal_strlit("f32");
        reveal_strlit("f64");
        reveal_strlit("bool");
        reveal_strlit("char");
        reveal_strlit("str");
    }
    match i {
        0 => ("i8", PrimTy::I8),
        1 => ("i16", PrimTy::I16),
        2 => ("i32", PrimTy::I32),
        3 => ("i64", PrimTy::I64),
        4 => ("u8", PrimTy::U8),
        5 => ("u16", PrimTy::U16),
        6 => ("u32", PrimTy::U32),
        7 => ("u64", PrimTy::U64),
        8 => ("usize", PrimTy::Usize),
        9 => ("f32", PrimTy::F32),
        10 => ("f64", PrimTy::F64),
        11 => ("bool", PrimTy::Bool),
        12 => ("char", PrimTy::Char),
        _ => ("str", PrimTy::Str),
    }
}

/// The order the primitive types are tried in.
pub open spec fn prim_at_spec(i: usize) -> PrimTy {
    if i == 0 {
        PrimTy::I8
    } else if i == 1 {
        PrimTy::I16
    } else if i == 2 {
        PrimTy::I32
    } else if i == 3 {
        PrimTy::I64
    } else if i == 4 {
        PrimTy::U8
    } else if i == 5 {
        PrimTy::U16
    } else if i == 6 {
        PrimTy::U32
    } else if i == 7 {
        PrimTy::U64
    } else if i == 8 {
        PrimTy::Usize
    } else if i == 9 {
        PrimTy::F32
    } else if i == 10 {
        PrimTy::F64
    } else if i == 11 {
        PrimTy::Bool
    } else if i == 12 {
        PrimTy::Char
    } else {
        PrimTy::Str
    }
}

/// The primitive type `name` spells, if it spells one.
pub fn is_prim_ty(session: &Session, name: Symbol) -> (r: Option<PrimTy>)
    requires
        session.has(name),
    ensures
        r == prim_named(session.text(name)),
{
    let text = session.resolve(name);
    let mut i: usize = 0;
    while i < 14
        invariant
            i <= 14,
            text@ == session.text(name),
            prim_named(text@) == prim_named_from(text@, i as nat),
        decreases 14 - i,
    {
        let (spelling, ty) = prim_at(i);
        if str_eq(spelling, text) {
            return Some(ty);
        }
        i = i + 1;
    }
    None
}

// ---------------------------------------------------------------------------------------------
// Module namespaces

/// What `Self` stands for at the innermost enclosing definition.
pub enum SelfScope {
    Defined(Type),
    /// The definition introduces a `Self`, but what it stands for could not be resolved.
    Unresolved,
}

#[derive(Clone, Copy, Debug, PartialEq, Eq, Structural)]
pub enum Namespace {
    Value,
    Type,
    Module,
}

/// The three namespaces of one module, each an insertion-ordered list with distinct keys.
pub struct ModuleScope {
    functions: Vec<(Symbol, NodeId)>,
    types: Vec<(Symbol, TyDef)>,
    mods: Vec<(Symbol, NodeId)>,
}

/// The value `k` maps to in `s`, found by a front-to-back scan.
fn find_key<V: Copy>(s: &Vec<(Symbol, V)>, k: Symbol) -> (r: Option<V>)
    ensures
        r == assoc_get(s@, k),
        r is Some <==> assoc_has(s@, k),
{
    let mut i: usize = 0;
    while i < s.len()
        invariant
            i <= s@.len(),
            forall|j: int| 0 <= j < i ==> s@[j].0 != k,
        decreases s@.len() - i,
    {
        if s[i].0 == k {
            proof {
                lemma_assoc_get_index(s@, k, i as int);
            }
            return Some(s[i].1);
        }
        i = i + 1;
    }
    proof {
        lemma_assoc_get_none::<Symbol, V>(s@, k);
    }
    None
}

/// Keys all interned in `session`.
pub open spec fn keys_interned<V>(s: Seq<(Symbol, V)>, session: Session) -> bool {
    forall|i: int| 0 <= i < s.len() ==> session.has(#[trigger] s[i].0)
}

impl ModuleScope {
    pub closed spec fn wf(&self, session: Session) -> bool {
        &&& assoc_unique(self.functions@)
        &&& assoc_unique(self.types@)
        &&& assoc_unique(self.mods@)
        &&& keys_interned(self.functions@, session)
        &&& keys_interned(self.types@, session)
        &&& keys_interned(self.mods@, session)
    }

    pub closed spec fn functions_view(&self) -> Seq<(Symbol, NodeId)> {
        self.functions@
    }

    pub closed spec fn types_view(&self) -> Seq<(Symbol, TyDef)> {
        self.types@
    }

    pub closed spec fn mods_view(&self) -> Seq<(Symbol, NodeId)> {
        self.mods@
    }

    /// The number of names bound across the three namespaces.
    pub closed spec fn size(&self) -> nat {
        self.functions@.len() + self.types@.len() + self.mods@.len()
    }

    fn new() -> (s: ModuleScope)
        ensures
            s.functions@.len() == 0,
            s.types@.len() == 0,
            s.mods@.len() == 0,
    {
        ModuleScope { functions: Vec::new(), types: Vec::new(), mods: Vec::new() }
    }

    /// Binds `name` to `id` in the value namespace, unless it is bound there already, in which
    /// case the binding is left alone and a conflict is returned.
    fn insert_function(&mut self, session: &Session, name: Ident, id: NodeId) -> (d: Option<Diagnostic>)
        requires
            old(self).wf(*session),
            session.has(name.text),
        ensures
            final(self).wf(*session),
            final(self).types == old(self).types,
            final(self).mods == old(self).mods,
            if assoc_has(old(self).functions@, name.text) {
                &&& final(self).functions == old(self).functions
                &&& d matches Some(d) && d.message@ == conflict_message(session.text(name.text))
                    && d.span == name.span
            } else {
                &&& final(self).functions@ == old(self).functions@.push((name.text, id))
                &&& d is None
            },
    {
        match find_key(&self.functions, name.text) {
            Some(_) => Some(report_conflict(session, name)),
            None => {
                self.functions.push((name.text, id));
                None
            },
        }
    }

    fn insert_type(&mut self, session: &Session, name: Ident, def: TyDef) -> (d: Option<Diagnostic>)
        requires
            old(self).wf(*session),
            session.has(name.text),
        ensures
            final(self).wf(*session),
            final(self).functions == old(self).functions,
            final(self).mods == old(self).mods,
            if assoc_has(old(self).types@, name.text) {
                &&& final(self).types == old(self).types
                &&& d matches Some(d) && d.message@ == conflict_message(session.text(name.text))
                    && d.span == name.span
            } else {
                &&& final(self).types@ == old(self).types@.push((name.text, def))
                &&& d is None
            },
    {
        match find_key(&self.types, name.text) {
            Some(_) => Some(report_conflict(session, name)),
            None => {
                self.types.push((name.text, def));
                None
            },
        }
    }

    fn insert_mod(&mut self, session: &Session, name: Ident, id: NodeId) -> (d: Option<Diagnostic>)
        requires
            old(self).wf(*session),
            session.has(name.text),
        ensures
            final(self).wf(*session),
            final(self).functions == old(self).functions,
            final(self).types == old(self).types,
            if assoc_has(old(self).mods@, name.text) {
                &&& final(self).mods == old(self).mods
                &&& d matches Some(d) && d.message@ == conflict_message(session.text(name.text))
                    && d.span == name.span
            } else {
                &&& final(self).mods@ == old(self).mods@.push((name.text, id))
                &&& d is None
            },
    {
        match find_key(&self.mods, name.text) {
            Some(_) => Some(report_conflict(session, name)),
            None => {
                self.mods.push((name.text, id));
                None
            },
        }
    }
}

// ---------------------------------------------------------------------------------------------
// What collecting a module's declarations produces

/// The name an item binds, if it binds one.
pub open spec fn item_name(kind: ItemKind) -> Option<Ident> {
    match kind {
        ItemKind::Function(d) => Some(d.name),
        ItemKind::Struct(d) => Some(d.name),
        ItemKind::Enum(d) => Some(d.name),
        ItemKind::Trait(d) => Some(d.name),
        _ => None,
    }
}

/// Every name the program writes is interned in `session`.
pub open spec fn ast_interned(ast: Ast, session: Session) -> bool {
    forall|m: int|
        #![trigger ast.modules@[m]]
        0 <= m < ast.modules@.len() ==> {
            let module = ast.modules@[m];
            &&& forall|k: int|
                0 <= k < module.items@.len() ==> (#[trigger] item_name(module.items@[k].kind) matches Some(n)
                    ==> session.has(n.text))
            &&& forall|k: int|
                0 <= k < module.path.segments@.len() ==> session.has(
                    #[trigger] module.path.segments@[k].text,
                )
            &&& forall|k: int|
                0 <= k < module.imports@.len() ==> import_interned(
                    #[trigger] module.imports@[k],
                    session,
                )
        }
}

pub open spec fn import_interned(import: Import, session: Session) -> bool {
    &&& forall|k: int|
        0 <= k < import.path.segments@.len() ==> session.has(#[trigger] import.path.segments@[k].text)
    &&& import.alias matches Some(a) ==> session.has(a.text)
}

/// Item ids are distinct across the whole program.
pub open spec fn items_distinct(ast: Ast) -> bool {
    forall|m1: int, k1: int, m2: int, k2: int|
        0 <= m1 < ast.modules@.len() && 0 <= m2 < ast.modules@.len() && 0 <= k1
            < ast.modules@[m1].items@.len() && 0 <= k2 < ast.modules@[m2].items@.len() && (m1
            != m2 || k1 != k2) ==> #[trigger] ast.modules@[m1].items@[k1].id
            != #[trigger] ast.modules@[m2].items@[k2].id
}

/// The value-namespace entries `items` declares, in order.
pub open spec fn fn_entries(items: Seq<Item>) -> Seq<(Symbol, NodeId)>
    decreases items.len(),
{
    if items.len() == 0 {
        Seq::empty()
    } else {
        let prev = fn_entries(items.drop_last());
        match items.last().kind {
            ItemKind::Function(d) => prev.push((d.name.text, items.last().id)),
            _ => prev,
        }
    }
}

/// The type-namespace entries `items` declares, in order.
pub open spec fn ty_entries(items: Seq<Item>) -> Seq<(Symbol, TyDef)>
    decreases items.len(),
{
    if items.len() == 0 {
        Seq::empty()
    } else {
        let prev = ty_entries(items.drop_last());
        let item = items.last();
        match item.kind {
            ItemKind::Struct(d) => prev.push((d.name.text, TyDef::Struct(item.id))),
            ItemKind::Enum(d) => prev.push((d.name.text, TyDef::Enum(item.id))),
            ItemKind::Trait(d) => prev.push((d.name.text, TyDef::Trait(item.id))),
            _ => prev,
        }
    }
}

/// The name a submodule is bound under in its parent: the last segment of its path.
pub open spec fn child_name(ast: Ast, child: NodeId) -> Symbol {
    ast.modules@[ast.index_of(child).unwrap()].path.segments@.last().text
}

/// The module-namespace entries `children` declares, in order.
pub open spec fn mod_entries(ast: Ast, children: Seq<NodeId>) -> Seq<(Symbol, NodeId)>
    decreases children.len(),
{
    if children.len() == 0 {
        Seq::empty()
    } else {
        mod_entries(ast, children.drop_last()).push((child_name(ast, children.last()), children.last()))
    }
}

/// `s` with every pair whose key an earlier pair already has dropped.
pub open spec fn first_wins<V>(s: Seq<(Symbol, V)>) -> Seq<(Symbol, V)>
    decreases s.len(),
{
    if s.len() == 0 {
        s
    } else {
        let d = first_wins(s.drop_last());
        if assoc_has(d, s.last().0) {
            d
        } else {
            d.push(s.last())
        }
    }
}

/// Whether `sc` is exactly what collecting module `m`'s own declarations produces.
pub open spec fn scope_is_collected(ast: Ast, m: int, sc: ModuleScope) -> bool {
    &&& sc.functions_view() == first_wins(fn_entries(ast.modules@[m].items@))
    &&& sc.types_view() == first_wins(ty_entries(ast.modules@[m].items@))
    &&& sc.mods_view() == first_wins(mod_entries(ast, ast.modules@[m].children@))
}

proof fn lemma_first_wins_push<V>(s: Seq<(Symbol, V)>, x: (Symbol, V))
    ensures
        first_wins(s.push(x)) == (if assoc_has(first_wins(s), x.0) {
            first_wins(s)
        } else {
            first_wins(s).push(x)
        }),
{
    assert(s.push(x).drop_last() =~= s);
}

pub proof fn lemma_prefix_trans<T>(a: Seq<T>, b: Seq<T>, c: Seq<T>)
    requires
        a.is_prefix_of(b),
        b.is_prefix_of(c),
    ensures
        a.is_prefix_of(c),
{
    assert forall|i: int| 0 <= i < a.len() implies a[i] == c[i] by {
        assert(a[i] == b[i]);
        assert(b[i] == c[i]);
    }
    assert(c.take(a.len() as int) =~= a);
}

// ---------------------------------------------------------------------------------------------
// Lexical stacks

/// The innermost binding of `name` in a stack of scopes.
pub open spec fn stack_get<V>(scopes: Seq<Seq<(Symbol, V)>>, name: Symbol) -> Option<V>
    decreases scopes.len(),
{
    if scopes.len() == 0 {
        None
    } else {
        match assoc_get(scopes.last(), name) {
            Some(v) => Some(v),
            None => stack_get(scopes.drop_last(), name),
        }
    }
}

/// `s` with `k` bound to `v`, whether or not it was bound before.
pub open spec fn assoc_put_ok<V>(old_s: Seq<(Symbol, V)>, new_s: Seq<(Symbol, V)>, k: Symbol, v: V) -> bool {
    &&& assoc_unique(new_s)
    &&& forall|q: Symbol| #[trigger] assoc_get(new_s, q) == if q == k { Some(v) } else { assoc_get(old_s, q) }
}

/// Binds `k` to `v` in `s`, overwriting an earlier binding of `k`.
fn assoc_put<V: Copy>(s: &mut Vec<(Symbol, V)>, k: Symbol, v: V)
    requires
        assoc_unique(old(s)@),
    ensures
        assoc_put_ok(old(s)@, final(s)@, k, v),
        forall|q: Symbol| #[trigger] assoc_has(final(s)@, q) <==> (q == k || assoc_has(old(s)@, q)),
{
    let mut i: usize = 0;
    while i < s.len()
        invariant
            i <= s@.len(),
            s@ == old(s)@,
            assoc_unique(s@),
            forall|j: int| 0 <= j < i ==> s@[j].0 != k,
        decreases s@.len() - i,
    {
        if s[i].0 == k {
            let ghost before = s@;
            s.set(i, (k, v));
            proof {
                assert forall|q: Symbol| #[trigger] assoc_get(s@, q) == if q == k { Some(v) } else { assoc_get(before, q) } by {
                    if q == k {
                        lemma_assoc_get_index(s@, q, i as int);
                    } else {
                        match assoc_get(before, q) {
                            Some(w) => {
                                lemma_assoc_get_some(before, q);
                                let t = choose|t: int| 0 <= t < before.len() && before[t].0 == q && Some(before[t].1) == assoc_get(before, q)
                                    && forall|j: int| 0 <= j < t ==> before[j].0 != q;
                                assert(s@[t] == before[t]);
                                assert forall|j: int| 0 <= j < t implies s@[j].0 != q by {
                                    if j != i { assert(s@[j] == before[j]); }
                                }
                                lemma_assoc_get_index(s@, q, t);
                            }
                            None => {
                                assert forall|j: int| 0 <= j < s@.len() implies s@[j].0 != q by {
                                    if j != i {
                                        assert(s@[j] == before[j]);
                                        if before[j].0 == q {
                                            assert forall|t: int| 0 <= t < j implies before[t].0 != q by {
                                                if before[t].0 == q { assert(before[t].0 != before[j].0); }
                                            }
                                            lemma_assoc_get_index(before, q, j);
                                        }
                                    }
                                }
                                lemma_assoc_get_none::<Symbol, V>(s@, q);
                            }
                        }
                    }
                }
                assert(assoc_unique(s@)) by {
                    assert forall|a: int, b: int| 0 <= a < b < s@.len() implies #[trigger] s@[a].0 != #[trigger] s@[b].0 by {
                        if a != i && b != i {
                            assert(before[a].0 != before[b].0);
                        } else if a == i {
                            assert(before[a].0 != before[b].0);
                        } else {
                            assert(before[a].0 != before[b].0);
                        }
                    }
                }
                assert forall|q: Symbol| #[trigger] assoc_has(s@, q) <==> (q == k || assoc_has(before, q)) by {
                    if assoc_has(before, q) {
                        let t = choose|t: int| 0 <= t < before.len() && #[trigger] before[t].0 == q;
                        assert(s@[t].0 == q);
                    }
                    if assoc_has(s@, q) {
                        let t = choose|t: int| 0 <= t < s@.len() && #[trigger] s@[t].0 == q;
                        if t != i { assert(before[t].0 == q); }
                    }
                }
            }
            return;
        }
        i = i + 1;
    }
    let ghost before = s@;
    s.push((k, v));
    proof {
        assert forall|q: Symbol| #[trigger] assoc_get(s@, q) == if q == k { Some(v) } else { assoc_get(before, q) } by {
            lemma_assoc_push(before, k, v, q);
            if q == k {
                lemma_assoc_get_none::<Symbol, V>(before, k);
            }
        }
        assert(assoc_unique(s@)) by {
            assert forall|a: int, b: int| 0 <= a < b < s@.len() implies #[trigger] s@[a].0 != #[trigger] s@[b].0 by {
                if b < before.len() {
                    assert(before[a].0 != before[b].0);
                } else {
                    assert(s@[a] == before[a]);
                }
            }
        }
        assert forall|q: Symbol| #[trigger] assoc_has(s@, q) <==> (q == k || assoc_has(before, q)) by {
            if assoc_has(before, q) {
                let t = choose|t: int| 0 <= t < before.len() && #[trigger] before[t].0 == q;
                assert(s@[t].0 == q);
            }
            if q == k {
                assert(s@[before.len() as int].0 == q);
            }
            if assoc_has(s@, q) {
                let t = choose|t: int| 0 <= t < s@.len() && #[trigger] s@[t].0 == q;
                if t < before.len() { assert(before[t].0 == q); }
            }
        }
    }
}

// ---------------------------------------------------------------------------------------------
// Sizes, for bounding the glob-import fixpoint

/// The number of names bound across all collected module namespaces.
pub open spec fn total_size(scopes: Seq<Option<ModuleScope>>) -> nat
    decreases scopes.len(),
{
    if scopes.len() == 0 {
        0
    } else {
        total_size(scopes.drop_last()) + match scopes.last() {
            Some(sc) => sc.size(),
            None => 0,
        }
    }
}

/// `new` keeps every binding of `old` and may add more after them.
pub open spec fn scope_grows(old_sc: ModuleScope, new_sc: ModuleScope) -> bool {
    &&& old_sc.functions_view().is_prefix_of(new_sc.functions_view())
    &&& old_sc.types_view().is_prefix_of(new_sc.types_view())
    &&& old_sc.mods_view().is_prefix_of(new_sc.mods_view())
}

pub open spec fn scopes_grow(old_s: Seq<Option<ModuleScope>>, new_s: Seq<Option<ModuleScope>>) -> bool {
    &&& old_s.len() == new_s.len()
    &&& forall|j: int|
        0 <= j < old_s.len() ==> match (#[trigger] old_s[j], new_s[j]) {
            (Some(o), Some(n)) => scope_grows(o, n),
            (None, None) => true,
            _ => false,
        }
}

proof fn lemma_total_size_grows(a: Seq<Option<ModuleScope>>, b: Seq<Option<ModuleScope>>)
    requires
        scopes_grow(a, b),
    ensures
        total_size(a) <= total_size(b),
    decreases a.len(),
{
    if a.len() > 0 {
        assert(scopes_grow(a.drop_last(), b.drop_last())) by {
            assert forall|j: int| 0 <= j < a.drop_last().len() implies match (#[trigger] a.drop_last()[j], b.drop_last()[j]) {
                (Some(o), Some(n)) => scope_grows(o, n),
                (None, None) => true,
                _ => false,
            } by {
                assert(a.drop_last()[j] == a[j]);
                assert(b.drop_last()[j] == b[j]);
            }
        }
        lemma_total_size_grows(a.drop_last(), b.drop_last());
        assert(a[a.len() - 1] == a.last());
    }
}

proof fn lemma_total_size_strict(a: Seq<Option<ModuleScope>>, b: Seq<Option<ModuleScope>>, i: int)
    requires
        scopes_grow(a, b),
        0 <= i < a.len(),
        a[i] is Some,
        b[i] is Some,
        a[i].unwrap().size() < b[i].unwrap().size(),
    ensures
        total_size(a) < total_size(b),
    decreases a.len(),
{
    assert(scopes_grow(a.drop_last(), b.drop_last())) by {
        assert forall|j: int| 0 <= j < a.drop_last().len() implies match (#[trigger] a.drop_last()[j], b.drop_last()[j]) {
            (Some(o), Some(n)) => scope_grows(o, n),
            (None, None) => true,
            _ => false,
        } by {
            assert(a.drop_last()[j] == a[j]);
            assert(b.drop_last()[j] == b[j]);
        }
    }
    if i == a.len() - 1 {
        lemma_total_size_grows(a.drop_last(), b.drop_last());
    } else {
        assert(a.drop_last()[i] == a[i]);
        assert(b.drop_last()[i] == b[i]);
        lemma_total_size_strict(a.drop_last(), b.drop_last(), i);
        assert(a[a.len() - 1] == a.last());
    }
}

/// A list whose keys are distinct symbols below `n` has at most `n` entries.
proof fn lemma_unique_keys_bounded<V>(s: Seq<(Symbol, V)>, n: nat)
    requires
        assoc_unique(s),
        forall|i: int| 0 <= i < s.len() ==> (#[trigger] s[i].0.0 as int) < n,
    ensures
        s.len() <= n,
{
    let keys = s.map_values(|p: (Symbol, V)| p.0.0 as int);
    assert(keys.no_duplicates()) by {
        assert forall|i: int, j: int| 0 <= i < keys.len() && 0 <= j < keys.len() && i != j implies keys[i] != keys[j] by {
            if i < j {
                assert(s[i].0 != s[j].0);
            } else {
                assert(s[j].0 != s[i].0);
            }
        }
    }
    keys.unique_seq_to_set();
    vstd::set_lib::lemma_int_range(0, n as int);
    assert(keys.to_set().subset_of(vstd::set_lib::set_int_range(0, n as int))) by {
        assert forall|x: int| keys.to_set().contains(x) implies vstd::set_lib::set_int_range(0, n as int).contains(x) by {
            let i = choose|i: int| 0 <= i < keys.len() && keys[i] == x;
            assert(keys[i] == s[i].0.0 as int);
        }
    }
    vstd::set_lib::lemma_len_subset(keys.to_set(), vstd::set_lib::set_int_range(0, n as int));
}

proof fn lemma_total_size_bounded(scopes: Seq<Option<ModuleScope>>, session: Session)
    requires
        forall|i: int| 0 <= i < scopes.len() ==> (#[trigger] scopes[i] matches Some(sc) ==> sc.wf(session)),
    ensures
        total_size(scopes) <= 3 * session@.len() * scopes.len(),
    decreases scopes.len(),
{
    if scopes.len() > 0 {
        assert forall|i: int| 0 <= i < scopes.drop_last().len() implies (#[trigger] scopes.drop_last()[i] matches Some(sc) ==> sc.wf(session)) by {
            assert(scopes.drop_last()[i] == scopes[i]);
        }
        lemma_total_size_bounded(scopes.drop_last(), session);
        assert(scopes[scopes.len() - 1] == scopes.last());
        match scopes.last() {
            Some(sc) => {
                lemma_unique_keys_bounded(sc.functions@, session@.len());
                lemma_unique_keys_bounded(sc.types@, session@.len());
                lemma_unique_keys_bounded(sc.mods@, session@.len());
            },
            None => {},
        }
        assert(3 * session@.len() * scopes.len() == 3 * session@.len() * (scopes.len() - 1) + 3 * session@.len()) by (nonlinear_arith);
    }
}

/// Records `key` as reported; returns whether it was new.
fn note_reported(reported: &mut Vec<(NodeId, Symbol, Namespace)>, key: (NodeId, Symbol, Namespace)) -> (fresh: bool)
    ensures
        fresh == !old(reported)@.contains(key),
        final(reported)@ == if fresh { old(reported)@.push(key) } else { old(reported)@ },
{
    let mut i: usize = 0;
    while i < reported.len()
        invariant
            i <= reported@.len(),
            reported@ == old(reported)@,
            forall|j: int| 0 <= j < i ==> reported@[j] != key,
        decreases reported@.len() - i,
    {
        if reported[i].0 == key.0 && reported[i].1 == key.1 && reported[i].2 == key.2 {
            assert(reported@[i as int] == key);
            return false;
        }
        i = i + 1;
    }
    reported.push(key);
    true
}

/// A copy of `s`.
fn copy_pairs<V: Copy>(s: &Vec<(Symbol, V)>) -> (r: Vec<(Symbol, V)>)
    ensures
        r@ == s@,
{
    let mut r: Vec<(Symbol, V)> = Vec::new();
    let mut i: usize = 0;
    while i < s.len()
        invariant
            i <= s@.len(),
            r@ == s@.take(i as int),
        decreases s@.len() - i,
    {
        r.push(s[i]);
        i = i + 1;
        assert(r@ =~= s@.take(i as int));
    }
    assert(s@.take(i as int) =~= s@);
    r
}

impl ModuleScope {
    fn copy(&self) -> (c: ModuleScope)
        ensures
            c.functions@ == self.functions@,
            c.types@ == self.types@,
            c.mods@ == self.mods@,
    {
        ModuleScope {
            functions: copy_pairs(&self.functions),
            types: copy_pairs(&self.types),
            mods: copy_pairs(&self.mods),
        }
    }
}

// ---------------------------------------------------------------------------------------------
// The symbol table

pub struct SymbolTable<'ast> {
    session: &'ast Session,
    ast: &'ast Ast,
    local_scopes: Vec<Vec<(Symbol, Local)>>,
    generic_scopes: Vec<Vec<(Symbol, Type)>>,
    self_scopes: Vec<SelfScope>,
    /// One entry per module of the program, in the order `ast.modules` lists them.
    module_scopes: Vec<Option<ModuleScope>>,
    prelude: Option<NodeId>,
    diagnostics: Vec<Diagnostic>,
}

/// The modules from `id` up to the root: `id` first, then each parent in turn.
pub open spec fn chain_from(ast: Ast, id: NodeId, fuel: nat) -> Seq<NodeId>
    decreases fuel,
{
    if fuel == 0 {
        seq![id]
    } else {
        match ast.parent_of(id) {
            Some(p) => seq![id] + chain_from(ast, p, (fuel - 1) as nat),
            None => seq![id],
        }
    }
}

pub open spec fn module_chain_of(ast: Ast, id: NodeId) -> Seq<NodeId> {
    chain_from(ast, id, ast.modules@.len())
}

impl<'ast> SymbolTable<'ast> {
    pub closed spec fn inv(&self) -> bool {
        &&& self.ast.wf()
        &&& ast_interned(*self.ast, *self.session)
        &&& items_distinct(*self.ast)
        &&& self.session@.len() <= u32::MAX
        &&& self.session.wf()
        &&& self.module_scopes@.len() == self.ast.modules@.len()
        &&& forall|i: int|
            0 <= i < self.module_scopes@.len() ==> (#[trigger] self.module_scopes@[i] matches Some(sc)
                ==> sc.wf(*self.session))
        &&& forall|i: int| 0 <= i < self.local_scopes@.len() ==> assoc_unique(#[trigger] self.local_scopes@[i]@)
        &&& forall|i: int| 0 <= i < self.generic_scopes@.len() ==> assoc_unique(#[trigger] self.generic_scopes@[i]@)
    }

    pub closed spec fn ast_view(&self) -> Ast {
        *self.ast
    }

    pub closed spec fn session_view(&self) -> Session {
        *self.session
    }

    pub closed spec fn diags(&self) -> Seq<Diagnostic> {
        self.diagnostics@
    }

    pub closed spec fn prelude_view(&self) -> Option<NodeId> {
        self.prelude
    }

    /// The scope of the module at index `i`, if it has been collected.
    pub closed spec fn scope_view(&self, i: int) -> Option<ModuleScope> {
        self.module_scopes@[i]
    }

    /// The scopes of all modules, by module index.
    pub closed spec fn scopes_view(&self) -> Seq<Option<ModuleScope>> {
        self.module_scopes@
    }

    /// Each module's scope is its entry in [`SymbolTable::scopes_view`], and there is one entry
    /// per module of the AST.
    pub proof fn lemma_scopes_view(&self)
        requires
            self.inv(),
        ensures
            self.scopes_view().len() == self.ast_view().modules@.len(),
            forall|i: int| 0 <= i < self.scopes_view().len() ==> #[trigger] self.scope_view(i) == self.scopes_view()[i],
    {
    }

    pub closed spec fn locals_view(&self) -> Seq<Seq<(Symbol, Local)>> {
        self.local_scopes@.map_values(|s: Vec<(Symbol, Local)>| s@)
    }

    pub closed spec fn generics_view(&self) -> Seq<Seq<(Symbol, Type)>> {
        self.generic_scopes@.map_values(|s: Vec<(Symbol, Type)>| s@)
    }

    pub closed spec fn self_view(&self) -> Seq<Option<Type>> {
        self.self_scopes@.map_values(|s: SelfScope| match s {
            SelfScope::Defined(t) => Some(t),
            SelfScope::Unresolved => None,
        })
    }

    /// What `name` is bound to in `module`'s value namespace.
    pub open spec fn fn_lookup(&self, module: NodeId, name: Symbol) -> Option<NodeId> {
        match self.ast_view().index_of(module) {
            Some(i) => match self.scope_view(i) {
                Some(sc) => assoc_get(sc.functions_view(), name),
                None => None,
            },
            None => None,
        }
    }

    pub open spec fn ty_lookup(&self, module: NodeId, name: Symbol) -> Option<TyDef> {
        match self.ast_view().index_of(module) {
            Some(i) => match self.scope_view(i) {
                Some(sc) => assoc_get(sc.types_view(), name),
                None => None,
            },
            None => None,
        }
    }

    pub open spec fn mod_lookup(&self, module: NodeId, name: Symbol) -> Option<NodeId> {
        match self.ast_view().index_of(module) {
            Some(i) => match self.scope_view(i) {
                Some(sc) => assoc_get(sc.mods_view(), name),
                None => None,
            },
            None => None,
        }
    }

    /// The module reached from `base` by stepping into the submodule each segment names.
    pub open spec fn walk(&self, base: NodeId, segments: Seq<Ident>) -> Option<NodeId>
        decreases segments.len(),
    {
        if segments.len() == 0 {
            Some(base)
        } else {
            match self.mod_lookup(base, segments[0].text) {
                Some(m) => self.walk(m, segments.drop_first()),
                None => None,
            }
        }
    }

    /// The modules a lookup from `from` searches, in order: its module chain, then the prelude.
    pub open spec fn search_order(&self, from: NodeId) -> Seq<NodeId> {
        module_chain_of(self.ast_view(), from) + match self.prelude_view() {
            Some(p) => seq![p],
            None => Seq::empty(),
        }
    }

    // -----------------------------------------------------------------------------------------

    /// The diagnostics reported so far, in the order they were reported.
    pub fn diagnostics(&self) -> (d: &Vec<Diagnostic>)
        ensures
            d@ == self.diags(),
    {
        &self.diagnostics
    }

    pub fn prelude(&self) -> (r: Option<NodeId>)
        ensures
            r == self.prelude_view(),
    {
        self.prelude
    }

    pub fn lookup_function(&self, module: NodeId, name: Symbol) -> (r: Option<NodeId>)
        requires
            self.inv(),
        ensures
            r == self.fn_lookup(module, name),
    {
        match self.ast.module_index(module) {
            Some(i) => match &self.module_scopes[i] {
                Some(sc) => find_key(&sc.functions, name),
                None => None,
            },
            None => None,
        }
    }

    pub fn lookup_type(&self, module: NodeId, name: Symbol) -> (r: Option<TyDef>)
        requires
            self.inv(),
        ensures
            r == self.ty_lookup(module, name),
    {
        match self.ast.module_index(module) {
            Some(i) => match &self.module_scopes[i] {
                Some(sc) => find_key(&sc.types, name),
                None => None,
            },
            None => None,
        }
    }

    pub fn lookup_mod(&self, module: NodeId, name: Symbol) -> (r: Option<NodeId>)
        requires
            self.inv(),
        ensures
            r == self.mod_lookup(module, name),
    {
        match self.ast.module_index(module) {
            Some(i) => match &self.module_scopes[i] {
                Some(sc) => find_key(&sc.mods, name),
                None => None,
            },
            None => None,
        }
    }

    /// Steps from `base` into the submodule each of `segments` names.
    fn walk_modules(&self, base: NodeId, segments: &[Ident]) -> (r: Option<NodeId>)
        requires
            self.inv(),
        ensures
            r == self.walk(base, segments@),
    {
        let mut current = base;
        let mut k: usize = 0;
        while k < segments.len()
            invariant
                self.inv(),
                k <= segments@.len(),
                self.walk(base, segments@) == self.walk(current, segments@.skip(k as int)),
            decreases segments@.len() - k,
        {
            assert(segments@.skip(k as int).drop_first() =~= segments@.skip(k + 1));
            match self.lookup_mod(current, segments[k].text) {
                Some(m) => current = m,
                None => return None,
            }
            k = k + 1;
        }
        assert(segments@.skip(k as int).len() == 0);
        Some(current)
    }

    /// The module chain from `from` up to the root module.
    fn module_chain(&self, from: NodeId) -> (chain: Vec<NodeId>)
        requires
            self.inv(),
        ensures
            chain@ == module_chain_of(*self.ast, from),
    {
        let ghost ast = *self.ast;
        let ghost n = ast.modules@.len();
        let mut chain: Vec<NodeId> = Vec::new();
        let mut current = from;
        let mut fuel: usize = self.ast.modules.len();
        loop
            invariant
                self.inv(),
                ast == *self.ast,
                n == ast.modules@.len(),
                fuel <= n,
                (ast.index_of(current) matches Some(i) ==> i < fuel),
                chain@ + chain_from(ast, current, fuel as nat) == chain_from(ast, from, n),
            decreases fuel,
        {
            chain.push(current);
            if fuel == 0 {
                return chain;
            }
            let idx = self.ast.module_index(current);
            match idx {
                None => {
                    return chain;
                },
                Some(i) => match self.ast.modules[i].parent {
                    None => {
                        return chain;
                    },
                    Some(p) => {
                        proof {
                            let j = choose|j: int| 0 <= j < i && ast.modules@[i as int].parent == Some(#[trigger] ast.modules@[j].id);
                            assert(ast.modules@[j].id == p);
                            assert(ast.index_of(p) == Some(j)) by {
                                let c = choose|c: int| 0 <= c < ast.modules@.len() && ast.modules@[c].id == p;
                                if c != j {
                                    if c < j {
                                        assert(ast.modules@[c].id != ast.modules@[j].id);
                                    } else {
                                        assert(ast.modules@[j].id != ast.modules@[c].id);
                                    }
                                }
                            }
                            assert(chain_from(ast, current, fuel as nat) == seq![current] + chain_from(ast, p, (fuel - 1) as nat));
                            assert(chain@ =~= (chain@.drop_last()).push(current));
                        }
                        current = p;
                        fuel = fuel - 1;
                    },
                },
            }
        }
    }

    /// Everything but the lexical stacks is unchanged.
    pub open spec fn same_modules(&self, other: &Self) -> bool {
        &&& self.ast_view() == other.ast_view()
        &&& self.session_view() == other.session_view()
        &&& self.scopes_view() == other.scopes_view()
        &&& self.prelude_view() == other.prelude_view()
        &&& self.diags() == other.diags()
    }

    // -----------------------------------------------------------------------------------------
    // Locals

    pub fn push_scope(&mut self)
        requires
            old(self).inv(),
        ensures
            final(self).inv(),
            final(self).same_modules(old(self)),
            final(self).locals_view() == old(self).locals_view().push(Seq::empty()),
            final(self).generics_view() == old(self).generics_view(),
            final(self).self_view() == old(self).self_view(),
    {
        self.local_scopes.push(Vec::new());
        proof {
            assert(self.locals_view() =~= old(self).locals_view().push(Seq::empty()));
        }
    }

    pub fn pop_scope(&mut self)
        requires
            old(self).inv(),
        ensures
            final(self).inv(),
            final(self).same_modules(old(self)),
            final(self).locals_view() == if old(self).locals_view().len() == 0 {
                old(self).locals_view()
            } else {
                old(self).locals_view().drop_last()
            },
            final(self).generics_view() == old(self).generics_view(),
            final(self).self_view() == old(self).self_view(),
    {
        self.local_scopes.pop();
        proof {
            if old(self).local_scopes@.len() > 0 {
                assert(self.locals_view() =~= old(self).locals_view().drop_last());
            }
        }
    }

    /// Binds `name` to `local` in the innermost scope, replacing an earlier binding there.
    pub fn insert_local(&mut self, name: Ident, local: Local)
        requires
            old(self).inv(),
            old(self).locals_view().len() > 0,
        ensures
            final(self).inv(),
            final(self).same_modules(old(self)),
            final(self).locals_view().len() == old(self).locals_view().len(),
            final(self).locals_view().drop_last() == old(self).locals_view().drop_last(),
            assoc_put_ok(old(self).locals_view().last(), final(self).locals_view().last(), name.text, local),
            final(self).generics_view() == old(self).generics_view(),
            final(self).self_view() == old(self).self_view(),
    {
        let mut scope = self.local_scopes.pop().unwrap();
        assert(assoc_unique(scope@)) by {
            assert(scope == old(self).local_scopes@[old(self).local_scopes@.len() - 1]);
        }
        assoc_put(&mut scope, name.text, local);
        self.local_scopes.push(scope);
        proof {
            assert(self.locals_view().drop_last() =~= old(self).locals_view().drop_last());
        }
    }

    pub fn lookup_local(&self, name: Symbol) -> (r: Option<Local>)
        requires
            self.inv(),
        ensures
            r == stack_get(self.locals_view(), name),
    {
        let ghost view = self.locals_view();
        let mut i = self.local_scopes.len();
        while i > 0
            invariant
                i <= self.local_scopes@.len(),
                view == self.locals_view(),
                stack_get(view, name) == stack_get(view.take(i as int), name),
            decreases i,
        {
            assert(view.take(i as int).drop_last() =~= view.take(i - 1));
            assert(view.take(i as int).last() == self.local_scopes@[i - 1]@);
            match find_key(&self.local_scopes[i - 1], name) {
                Some(l) => return Some(l),
                None => {},
            }
            i = i - 1;
        }
        None
    }

    // -----------------------------------------------------------------------------------------
    // Generics

    pub fn push_generics(&mut self)
        requires
            old(self).inv(),
        ensures
            final(self).inv(),
            final(self).same_modules(old(self)),
            final(self).generics_view() == old(self).generics_view().push(Seq::empty()),
            final(self).locals_view() == old(self).locals_view(),
            final(self).self_view() == old(self).self_view(),
    {
        self.generic_scopes.push(Vec::new());
        proof {
            assert(self.generics_view() =~= old(self).generics_view().push(Seq::empty()));
        }
    }

    pub fn pop_generics(&mut self)
        requires
            old(self).inv(),
        ensures
            final(self).inv(),
            final(self).same_modules(old(self)),
            final(self).generics_view() == if old(self).generics_view().len() == 0 {
                old(self).generics_view()
            } else {
                old(self).generics_view().drop_last()
            },
            final(self).locals_view() == old(self).locals_view(),
            final(self).self_view() == old(self).self_view(),
    {
        self.generic_scopes.pop();
        proof {
            if old(self).generic_scopes@.len() > 0 {
                assert(self.generics_view() =~= old(self).generics_view().drop_last());
            }
        }
    }

    /// Binds `name` to `ty` in the innermost generic scope, replacing an earlier binding there.
    pub fn insert_generic(&mut self, name: Symbol, ty: Type)
        requires
            old(self).inv(),
            old(self).generics_view().len() > 0,
        ensures
            final(self).inv(),
            final(self).same_modules(old(self)),
            final(self).generics_view().len() == old(self).generics_view().len(),
            final(self).generics_view().drop_last() == old(self).generics_view().drop_last(),
            assoc_put_ok(old(self).generics_view().last(), final(self).generics_view().last(), name, ty),
            final(self).locals_view() == old(self).locals_view(),
            final(self).self_view() == old(self).self_view(),
    {
        let mut scope = self.generic_scopes.pop().unwrap();
        assert(assoc_unique(scope@)) by {
            assert(scope == old(self).generic_scopes@[old(self).generic_scopes@.len() - 1]);
        }
        assoc_put(&mut scope, name, ty);
        self.generic_scopes.push(scope);
        proof {
            assert(self.generics_view().drop_last() =~= old(self).generics_view().drop_last());
        }
    }

    pub fn lookup_generic(&self, name: Symbol) -> (r: Option<Type>)
        requires
            self.inv(),
        ensures
            r == stack_get(self.generics_view(), name),
    {
        let ghost view = self.generics_view();
        let mut i = self.generic_scopes.len();
        while i > 0
            invariant
                i <= self.generic_scopes@.len(),
                view == self.generics_view(),
                stack_get(view, name) == stack_get(view.take(i as int), name),
            decreases i,
        {
            assert(view.take(i as int).drop_last() =~= view.take(i - 1));
            assert(view.take(i as int).last() == self.generic_scopes@[i - 1]@);
            match find_key(&self.generic_scopes[i - 1], name) {
                Some(t) => return Some(t),
                None => {},
            }
            i = i - 1;
        }
        None
    }

    /// Looks `name` up in the innermost generic scope only.
    pub fn lookup_generic_locally(&self, name: Symbol) -> (r: Option<Type>)
        requires
            self.inv(),
        ensures
            r == if self.generics_view().len() == 0 {
                None
            } else {
                assoc_get(self.generics_view().last(), name)
            },
    {
        let n = self.generic_scopes.len();
        if n == 0 {
            None
        } else {
            find_key(&self.generic_scopes[n - 1], name)
        }
    }

    // -----------------------------------------------------------------------------------------
    // Self

    pub fn insert_self(&mut self, ty: Type)
        requires
            old(self).inv(),
        ensures
            final(self).inv(),
            final(self).same_modules(old(self)),
            final(self).self_view() == old(self).self_view().push(Some(ty)),
            final(self).locals_view() == old(self).locals_view(),
            final(self).generics_view() == old(self).generics_view(),
    {
        self.self_scopes.push(SelfScope::Defined(ty));
        proof {
            assert(self.self_view() =~= old(self).self_view().push(Some(ty)));
        }
    }

    /// Opens a `Self` scope for a definition whose `Self` could not be resolved, such as an
    /// `extend` block whose target is unresolved.
    pub fn insert_self_unresolved(&mut self)
        requires
            old(self).inv(),
        ensures
            final(self).inv(),
            final(self).same_modules(old(self)),
            final(self).self_view() == old(self).self_view().push(None),
            final(self).locals_view() == old(self).locals_view(),
            final(self).generics_view() == old(self).generics_view(),
    {
        self.self_scopes.push(SelfScope::Unresolved);
        proof {
            assert(self.self_view() =~= old(self).self_view().push(None));
        }
    }

    pub fn pop_self(&mut self)
        requires
            old(self).inv(),
        ensures
            final(self).inv(),
            final(self).same_modules(old(self)),
            final(self).self_view() == if old(self).self_view().len() == 0 {
                old(self).self_view()
            } else {
                old(self).self_view().drop_last()
            },
            final(self).locals_view() == old(self).locals_view(),
            final(self).generics_view() == old(self).generics_view(),
    {
        self.self_scopes.pop();
        proof {
            if old(self).self_scopes@.len() > 0 {
                assert(self.self_view() =~= old(self).self_view().drop_last());
            }
        }
    }

    /// The innermost `Self`, if it is defined.
    pub fn lookup_self(&self) -> (r: Option<Type>)
        requires
            self.inv(),
        ensures
            r == if self.self_view().len() == 0 {
                None
            } else {
                self.self_view().last()
            },
    {
        let n = self.self_scopes.len();
        if n == 0 {
            None
        } else {
            match &self.self_scopes[n - 1] {
                SelfScope::Defined(ty) => Some(*ty),
                SelfScope::Unresolved => None,
            }
        }
    }

    /// What `Self` resolves to here; reports when no definition introduces one.
    pub fn lookup_self_res(&mut self, span: SrcSpan) -> (r: Res)
        requires
            old(self).inv(),
        ensures
            final(self).inv(),
            final(self).locals_view() == old(self).locals_view(),
            final(self).generics_view() == old(self).generics_view(),
            final(self).self_view() == old(self).self_view(),
            final(self).ast_view() == old(self).ast_view(),
            final(self).session_view() == old(self).session_view(),
            final(self).prelude_view() == old(self).prelude_view(),
            forall|i: int| 0 <= i < old(self).ast_view().modules@.len() ==> final(self).scope_view(i) == old(self).scope_view(i),
            if old(self).self_view().len() == 0 {
                &&& r == Res::Error
                &&& final(self).diags().len() == old(self).diags().len() + 1
                &&& final(self).diags().drop_last() == old(self).diags()
                &&& final(self).diags().last().message@ == self_unavailable_message()
                &&& final(self).diags().last().span == span
            } else {
                &&& r == match old(self).self_view().last() {
                    Some(t) => Res::SelfTy(t),
                    None => Res::Error,
                }
                &&& final(self).diags() == old(self).diags()
            },
    {
        let n = self.self_scopes.len();
        if n == 0 {
            self.diagnostics.push(report_self_unavailable(span));
            proof {
                assert(self.diags().drop_last() =~= old(self).diags());
            }
            Res::Error
        } else {
            match &self.self_scopes[n - 1] {
                SelfScope::Defined(ty) => Res::SelfTy(*ty),
                SelfScope::Unresolved => Res::Error,
            }
        }
    }

    // -----------------------------------------------------------------------------------------
    // Visibility

    /// `from` may see an item of `owner` with `visibility`: public items anywhere, private ones
    /// from `owner` and the modules nested in it.
    pub open spec fn visible(&self, from: NodeId, owner: NodeId, visibility: Visibility) -> bool {
        visibility is Public || module_chain_of(self.ast_view(), from).contains(owner)
    }

    fn visibility(&self, id: NodeId) -> (v: Visibility)
        requires
            self.inv(),
        ensures
            v == item_visibility(*self.ast, id),
    {
        let ghost ast = *self.ast;
        let mut m: usize = 0;
        while m < self.ast.modules.len()
            invariant
                self.inv(),
                ast == *self.ast,
                m <= ast.modules@.len(),
                forall|m2: int, k2: int|
                    0 <= m2 < m && 0 <= k2 < ast.modules@[m2].items@.len() ==> #[trigger] ast.modules@[m2].items@[k2].id != id,
            decreases ast.modules@.len() - m,
        {
            let mut k: usize = 0;
            while k < self.ast.modules[m].items.len()
                invariant
                    self.inv(),
                    ast == *self.ast,
                    m < ast.modules@.len(),
                    k <= ast.modules@[m as int].items@.len(),
                    forall|m2: int, k2: int|
                        0 <= m2 < m && 0 <= k2 < ast.modules@[m2].items@.len() ==> #[trigger] ast.modules@[m2].items@[k2].id != id,
                    forall|k2: int| 0 <= k2 < k ==> #[trigger] ast.modules@[m as int].items@[k2].id != id,
                decreases ast.modules@[m as int].items@.len() - k,
            {
                let item = &self.ast.modules[m].items[k];
                if item.id == id {
                    proof {
                        let (cm, ck) = choose|cm: int, ck: int| 0 <= cm < ast.modules@.len() && 0 <= ck < ast.modules@[cm].items@.len()
                            && #[trigger] ast.modules@[cm].items@[ck].id == id;
                        assert(cm == m && ck == k) by {
                            if cm != m || ck != k {
                                assert(ast.modules@[cm].items@[ck].id != ast.modules@[m as int].items@[k as int].id);
                            }
                        }
                    }
                    return match item.kind {
                        ItemKind::Function(d) => d.visibility,
                        ItemKind::Struct(d) => d.visibility,
                        ItemKind::Enum(d) => d.visibility,
                        ItemKind::Trait(d) => d.visibility,
                        _ => Visibility::Public,
                    };
                }
                k = k + 1;
            }
            m = m + 1;
        }
        Visibility::Public
    }

    fn is_visible_from(&self, from: NodeId, owner: NodeId, visibility: Visibility) -> (r: bool)
        requires
            self.inv(),
        ensures
            r == self.visible(from, owner, visibility),
    {
        match visibility {
            Visibility::Public => true,
            Visibility::Private => {
                let chain = self.module_chain(from);
                let mut i: usize = 0;
                while i < chain.len()
                    invariant
                        i <= chain@.len(),
                        chain@ == module_chain_of(*self.ast, from),
                        forall|j: int| 0 <= j < i ==> chain@[j] != owner,
                    decreases chain@.len() - i,
                {
                    if chain[i] == owner {
                        assert(chain@[i as int] == owner);
                        return true;
                    }
                    i = i + 1;
                }
                false
            },
        }
    }

    /// The modules a lookup from `from` searches, in order.
    fn search_modules(&self, from: NodeId) -> (order: Vec<NodeId>)
        requires
            self.inv(),
        ensures
            order@ == self.search_order(from),
    {
        let mut order = self.module_chain(from);
        match self.prelude {
            Some(p) => order.push(p),
            None => {},
        }
        proof {
            match self.prelude {
                Some(p) => {}
                None => { assert(order@ =~= self.search_order(from)); }
            }
        }
        order
    }

    // -----------------------------------------------------------------------------------------
    // Path lookups

    /// What the last of `name` resolves to in the value namespace of the module `prefix` leads to
    /// from `base`, provided `from` may see it.
    pub open spec fn value_in(&self, from: NodeId, base: NodeId, prefix: Seq<Ident>, name: Symbol) -> Option<Res> {
        match self.walk(base, prefix) {
            Some(module) => match self.fn_lookup(module, name) {
                Some(id) => if self.visible(from, module, item_visibility(self.ast_view(), id)) {
                    Some(Res::Function(id))
                } else {
                    None
                },
                None => None,
            },
            None => None,
        }
    }

    pub open spec fn first_value_hit(&self, order: Seq<NodeId>, from: NodeId, prefix: Seq<Ident>, name: Symbol) -> Option<Res>
        decreases order.len(),
    {
        if order.len() == 0 {
            None
        } else {
            match self.value_in(from, order[0], prefix, name) {
                Some(r) => Some(r),
                None => self.first_value_hit(order.drop_first(), from, prefix, name),
            }
        }
    }

    /// What `path`, written in `from`, means in the value namespace: a local for a bare name
    /// bound in an open scope, otherwise the first visible function the module chain or the
    /// prelude binds it to.
    pub open spec fn value_path(&self, from: NodeId, segments: Seq<Ident>) -> Option<Res> {
        if segments.len() == 0 {
            None
        } else if segments.len() == 1 && stack_get(self.locals_view(), segments.last().text) is Some {
            Some(Res::Local(stack_get(self.locals_view(), segments.last().text).unwrap()))
        } else {
            self.first_value_hit(self.search_order(from), from, segments.drop_last(), segments.last().text)
        }
    }

    pub open spec fn type_in(&self, from: NodeId, base: NodeId, prefix: Seq<Ident>, name: Symbol) -> Option<Type> {
        match self.walk(base, prefix) {
            Some(module) => match self.ty_lookup(module, name) {
                Some(def) => if self.visible(from, module, item_visibility(self.ast_view(), def.spec_node_id())) {
                    Some(Type::Def(def))
                } else {
                    None
                },
                None => None,
            },
            None => None,
        }
    }

    pub open spec fn first_type_hit(&self, order: Seq<NodeId>, from: NodeId, prefix: Seq<Ident>, name: Symbol) -> Option<Type>
        decreases order.len(),
    {
        if order.len() == 0 {
            None
        } else {
            match self.type_in(from, order[0], prefix, name) {
                Some(t) => Some(t),
                None => self.first_type_hit(order.drop_first(), from, prefix, name),
            }
        }
    }

    /// What `path`, written in `from`, means in the type namespace: for a bare name a primitive
    /// first, then a generic parameter in scope; otherwise the first visible type the module
    /// chain or the prelude binds it to.
    pub open spec fn type_path(&self, from: NodeId, segments: Seq<Ident>) -> Option<Type> {
        if segments.len() == 0 {
            None
        } else if segments.len() == 1 && prim_named(self.session_view().text(segments.last().text)) is Some {
            Some(Type::Prim(prim_named(self.session_view().text(segments.last().text)).unwrap()))
        } else if segments.len() == 1 && stack_get(self.generics_view(), segments.last().text) is Some {
            stack_get(self.generics_view(), segments.last().text)
        } else {
            self.first_type_hit(self.search_order(from), from, segments.drop_last(), segments.last().text)
        }
    }

    fn value_in_exec(&self, from: NodeId, base: NodeId, prefix: &[Ident], name: Symbol) -> (r: Option<Res>)
        requires
            self.inv(),
        ensures
            r == self.value_in(from, base, prefix@, name),
    {
        let module = match self.walk_modules(base, prefix) {
            Some(m) => m,
            None => return None,
        };
        let id = match self.lookup_function(module, name) {
            Some(id) => id,
            None => return None,
        };
        if self.is_visible_from(from, module, self.visibility(id)) {
            Some(Res::Function(id))
        } else {
            None
        }
    }

    fn type_in_exec(&self, from: NodeId, base: NodeId, prefix: &[Ident], name: Symbol) -> (r: Option<Type>)
        requires
            self.inv(),
        ensures
            r == self.type_in(from, base, prefix@, name),
    {
        let module = match self.walk_modules(base, prefix) {
            Some(m) => m,
            None => return None,
        };
        let def = match self.lookup_type(module, name) {
            Some(def) => def,
            None => return None,
        };
        if self.is_visible_from(from, module, self.visibility(def.node_id())) {
            Some(Type::Def(def))
        } else {
            None
        }
    }

    /// Looks `path` up in the value namespace from the module `from`.
    pub fn lookup_value_path(&self, from: NodeId, path: &Path) -> (r: Option<Res>)
        requires
            self.inv(),
        ensures
            r == self.value_path(from, path.segments@),
    {
        let n = path.segments.len();
        if n == 0 {
            return None;
        }
        let last = path.segments[n - 1];
        let prefix = path.segments.as_slice().split_at(n - 1).0;
        assert(prefix@ =~= path.segments@.drop_last());
        if n == 1 {
            match self.lookup_local(last.text) {
                Some(local) => return Some(Res::Local(local)),
                None => {},
            }
        }
        let order = self.search_modules(from);
        let mut i: usize = 0;
        while i < order.len()
            invariant
                self.inv(),
                i <= order@.len(),
                self.first_value_hit(order@, from, prefix@, last.text) == self.first_value_hit(order@.skip(i as int), from, prefix@, last.text),
                order@ == self.search_order(from),
                n == path.segments@.len(),
                n > 0,
                last == path.segments@.last(),
                prefix@ == path.segments@.drop_last(),
                n == 1 ==> stack_get(self.locals_view(), last.text) is None,
            decreases order@.len() - i,
        {
            assert(order@.skip(i as int).drop_first() =~= order@.skip(i + 1));
            assert(order@.skip(i as int)[0] == order@[i as int]);
            match self.value_in_exec(from, order[i], prefix, last.text) {
                Some(res) => return Some(res),
                None => {},
            }
            i = i + 1;
        }
        None
    }

    /// Looks `path` up in the type namespace from the module `from`, reporting nothing.
    pub fn probe_type_path(&self, from: NodeId, path: &Path) -> (r: Option<Type>)
        requires
            self.inv(),
            forall|k: int| 0 <= k < path.segments@.len() ==> self.session_view().has(#[trigger] path.segments@[k].text),
        ensures
            r == self.type_path(from, path.segments@),
    {
        let n = path.segments.len();
        if n == 0 {
            return None;
        }
        let last = path.segments[n - 1];
        let prefix = path.segments.as_slice().split_at(n - 1).0;
        assert(prefix@ =~= path.segments@.drop_last());
        if n == 1 {
            match is_prim_ty(self.session, last.text) {
                Some(prim) => return Some(Type::Prim(prim)),
                None => {},
            }
            match self.lookup_generic(last.text) {
                Some(generic) => return Some(generic),
                None => {},
            }
        }
        let order = self.search_modules(from);
        let mut i: usize = 0;
        while i < order.len()
            invariant
                self.inv(),
                i <= order@.len(),
                self.first_type_hit(order@, from, prefix@, last.text) == self.first_type_hit(order@.skip(i as int), from, prefix@, last.text),
                order@ == self.search_order(from),
                n == path.segments@.len(),
                n > 0,
                last == path.segments@.last(),
                prefix@ == path.segments@.drop_last(),
                n == 1 ==> stack_get(self.generics_view(), last.text) is None,
                n == 1 ==> prim_named(self.session_view().text(last.text)) is None,
            decreases order@.len() - i,
        {
            assert(order@.skip(i as int).drop_first() =~= order@.skip(i + 1));
            assert(order@.skip(i as int)[0] == order@[i as int]);
            match self.type_in_exec(from, order[i], prefix, last.text) {
                Some(t) => return Some(t),
                None => {},
            }
            i = i + 1;
        }
        None
    }

    /// Looks `path` up in the type namespace, reporting a diagnostic when it names nothing.
    pub fn lookup_type_path(&mut self, from: NodeId, path: &Path) -> (r: Res)
        requires
            old(self).inv(),
            path.segments@.len() > 0,
            forall|k: int| 0 <= k < path.segments@.len() ==> old(self).session_view().has(#[trigger] path.segments@[k].text),
        ensures
            final(self).inv(),
            final(self).same_stacks(old(self)),
            match old(self).type_path(from, path.segments@) {
                Some(t) => r == Res::Type(t) && final(self).diags() == old(self).diags(),
                None => {
                    &&& r == Res::Error
                    &&& final(self).diags().drop_last() == old(self).diags()
                    &&& final(self).diags().len() == old(self).diags().len() + 1
                    &&& final(self).diags().last().message@ == not_found_message(
                        old(self).session_view().text(path.segments@.last().text))
                },
            },
    {
        let n = path.segments.len();
        let last = path.segments[n - 1];
        match self.probe_type_path(from, path) {
            Some(ty) => Res::Type(ty),
            None => {
                let d = report_not_found(self.session, last);
                self.diagnostics.push(d);
                proof {
                    assert(self.diags().drop_last() =~= old(self).diags());
                }
                Res::Error
            },
        }
    }

    /// Everything but the diagnostics is unchanged.
    pub open spec fn same_stacks(&self, other: &Self) -> bool {
        &&& self.ast_view() == other.ast_view()
        &&& self.session_view() == other.session_view()
        &&& self.scopes_view() == other.scopes_view()
        &&& self.prelude_view() == other.prelude_view()
        &&& self.locals_view() == other.locals_view()
        &&& self.generics_view() == other.generics_view()
        &&& self.self_view() == other.self_view()
    }

    /// Looks `path` up for a `dyn`, which must name a trait.
    pub fn lookup_dyn_path(&mut self, from: NodeId, path: &Path) -> (r: Res)
        requires
            old(self).inv(),
            path.segments@.len() > 0,
            forall|k: int| 0 <= k < path.segments@.len() ==> old(self).session_view().has(#[trigger] path.segments@[k].text),
        ensures
            final(self).inv(),
            final(self).same_stacks(old(self)),
            match old(self).type_path(from, path.segments@) {
                Some(Type::Def(TyDef::Trait(t))) => r == Res::Type(Type::Def(TyDef::Trait(t)))
                    && final(self).diags() == old(self).diags(),
                Some(_) => {
                    &&& r == Res::Error
                    &&& final(self).diags().drop_last() == old(self).diags()
                    &&& final(self).diags().len() == old(self).diags().len() + 1
                    &&& final(self).diags().last().message@ == dyn_not_trait_message()
                },
                None => {
                    &&& r == Res::Error
                    &&& final(self).diags().drop_last() == old(self).diags()
                    &&& final(self).diags().len() == old(self).diags().len() + 1
                    &&& final(self).diags().last().message@ == not_found_message(
                        old(self).session_view().text(path.segments@.last().text))
                },
            },
    {
        match self.lookup_type_path(from, path) {
            Res::Type(Type::Def(TyDef::Trait(t))) => Res::Type(Type::Def(TyDef::Trait(t))),
            Res::Error => Res::Error,
            _ => {
                let d = report_dyn_not_trait(path.span());
                self.diagnostics.push(d);
                proof {
                    assert(self.diags().drop_last() =~= old(self).diags());
                }
                Res::Error
            },
        }
    }

    // -----------------------------------------------------------------------------------------
    // Collecting declarations

    /// Nothing but the module namespaces and the diagnostics differ.
    pub open spec fn same_frame(&self, other: &Self) -> bool {
        &&& self.ast_view() == other.ast_view()
        &&& self.session_view() == other.session_view()
        &&& self.prelude_view() == other.prelude_view()
        &&& self.locals_view() == other.locals_view()
        &&& self.generics_view() == other.generics_view()
        &&& self.self_view() == other.self_view()
    }

    /// Every collected module namespace holds exactly its module's own declarations.
    pub open spec fn all_collected(&self) -> bool {
        forall|j: int|
            0 <= j < self.scopes_view().len() ==> (#[trigger] self.scopes_view()[j] matches Some(sc)
                ==> scope_is_collected(self.ast_view(), j, sc))
    }

    /// Child `k` of module `p` has been collected.
    spec fn child_collected(&self, p: int, k: int) -> bool {
        match self.ast_view().index_of(self.ast_view().modules@[p].children@[k]) {
            Some(c) => self.scope_view(c) is Some,
            None => false,
        }
    }

    spec fn children_collected(&self, p: int) -> bool {
        forall|k: int| 0 <= k < self.ast_view().modules@[p].children@.len() ==> #[trigger] self.child_collected(p, k)
    }

    /// Every collected module outside `x` has all its submodules collected.
    spec fn closed_but(&self, x: Set<int>) -> bool {
        forall|p: int|
            0 <= p < self.ast_view().modules@.len() && self.scope_view(p) is Some && !x.contains(p)
                ==> #[trigger] self.children_collected(p)
    }

    proof fn lemma_closed_but_grows(&self, later: &Self, x: Set<int>, y: Set<int>)
        requires
            self.closed_but(x),
            x.subset_of(y),
            self.ast_view() == later.ast_view(),
            forall|j: int| 0 <= j < self.ast_view().modules@.len() && self.scope_view(j) is Some ==> later.scope_view(j) is Some,
            forall|j: int| 0 <= j < self.ast_view().modules@.len() && later.scope_view(j) is Some && self.scope_view(j) is None ==> y.contains(j),
        ensures
            later.closed_but(y),
    {
        assert forall|p: int|
            0 <= p < later.ast_view().modules@.len() && later.scope_view(p) is Some && !y.contains(p)
                implies #[trigger] later.children_collected(p) by {
            assert(self.children_collected(p));
            assert forall|k: int| 0 <= k < later.ast_view().modules@[p].children@.len() implies #[trigger] later.child_collected(p, k) by {
                assert(self.child_collected(p, k));
                let c = self.ast_view().index_of(self.ast_view().modules@[p].children@[k])->0;
                crate::ast::lemma_index_of_in(self.ast_view(), self.ast_view().modules@[p].children@[k]);
            }
        }
    }

    /// With only module `0` collected and no module left open, every module is collected.
    proof fn lemma_all_modules_collected(&self, i: int)
        requires
            self.inv(),
            self.ast_view().children_complete(),
            self.closed_but(Set::empty()),
            self.scope_view(0) is Some,
            0 <= i < self.ast_view().modules@.len(),
        ensures
            self.scope_view(i) is Some,
        decreases i,
    {
        if i > 0 {
            reveal(Ast::children_complete);
            let mods = self.ast_view().modules@;
            assert(mods[i].id == mods[i].id);
            let (j, k) = choose|j: int, k: int|
                0 <= j < i && 0 <= k < mods[j].children@.len() && #[trigger] mods[j].children@[k] == mods[i].id;
            self.lemma_all_modules_collected(j);
            assert(self.children_collected(j));
            assert(self.child_collected(j, k));
            lemma_index_of(self.ast_view(), i);
        }
    }

    /// Collects the declarations of the module at index `idx`, then of its submodules.
    fn collect_module(&mut self, idx: usize, Ghost(x): Ghost<Set<int>>)
        requires
            old(self).inv(),
            old(self).all_collected(),
            old(self).closed_but(x),
            idx < old(self).ast_view().modules@.len(),
        ensures
            final(self).closed_but(x),
            final(self).inv(),
            final(self).all_collected(),
            final(self).same_frame(old(self)),
            final(self).scope_view(idx as int) is Some,
            forall|j: int| 0 <= j < old(self).ast_view().modules@.len() && old(self).scope_view(j) is Some
                ==> final(self).scope_view(j) is Some,
            old(self).diags().is_prefix_of(final(self).diags()),
        decreases old(self).ast_view().modules@.len() - idx,
    {
        let ghost ast = *self.ast;
        let ghost session = *self.session;
        let ghost items = ast.modules@[idx as int].items@;
        let ghost children = ast.modules@[idx as int].children@;
        let mut scope = ModuleScope::new();
        let n_items = self.ast.modules[idx].items.len();
        let mut k: usize = 0;
        assert(items.take(0) =~= Seq::<Item>::empty());
        while k < n_items
            invariant
                self.inv(),
                self.all_collected(),
                self.same_frame(old(self)),
                self.module_scopes@ == old(self).module_scopes@,
                old(self).diags().is_prefix_of(self.diags()),
                ast == *self.ast,
                session == *self.session,
                idx < ast.modules@.len(),
                items == ast.modules@[idx as int].items@,
                n_items == items.len(),
                k <= n_items,
                scope.wf(session),
                scope.functions@ == first_wins(fn_entries(items.take(k as int))),
                scope.types@ == first_wins(ty_entries(items.take(k as int))),
                scope.mods@.len() == 0,
            decreases n_items - k,
        {
            let item = self.ast.modules[idx].items[k];
            proof {
                assert(items.take(k + 1).drop_last() =~= items.take(k as int));
                assert(items.take(k + 1).last() == item);
                assert(ast.modules@[idx as int] == ast.modules@[idx as int]);
                assert(item_name(ast.modules@[idx as int].items@[k as int].kind) == item_name(item.kind));
            }
            let ghost before = self.diagnostics@;
            let d = match item.kind {
                ItemKind::Function(f) => {
                    proof { lemma_first_wins_push(fn_entries(items.take(k as int)), (f.name.text, item.id)); }
                    scope.insert_function(self.session, f.name, item.id)
                },
                ItemKind::Struct(st) => {
                    proof { lemma_first_wins_push(ty_entries(items.take(k as int)), (st.name.text, TyDef::Struct(item.id))); }
                    scope.insert_type(self.session, st.name, TyDef::Struct(item.id))
                },
                ItemKind::Enum(e) => {
                    proof { lemma_first_wins_push(ty_entries(items.take(k as int)), (e.name.text, TyDef::Enum(item.id))); }
                    scope.insert_type(self.session, e.name, TyDef::Enum(item.id))
                },
                ItemKind::Trait(t) => {
                    proof { lemma_first_wins_push(ty_entries(items.take(k as int)), (t.name.text, TyDef::Trait(item.id))); }
                    scope.insert_type(self.session, t.name, TyDef::Trait(item.id))
                },
                // `extend` blocks are unnamed, so neither namespace can hold them.
                ItemKind::Extend => None,
                ItemKind::Error => None,
            };
            match d {
                Some(d) => self.diagnostics.push(d),
                None => {},
            }
            proof {
                assert(old(self).diags().is_prefix_of(self.diags()));
            }
            k = k + 1;
        }
        assert(items.take(n_items as int) =~= items);

        // Submodules come from `children`, not from `items`.
        let n_children = self.ast.modules[idx].children.len();
        let mut k: usize = 0;
        assert(children.take(0) =~= Seq::<NodeId>::empty());
        while k < n_children
            invariant
                self.inv(),
                self.all_collected(),
                self.same_frame(old(self)),
                self.module_scopes@ == old(self).module_scopes@,
                old(self).diags().is_prefix_of(self.diags()),
                ast == *self.ast,
                session == *self.session,
                idx < ast.modules@.len(),
                items == ast.modules@[idx as int].items@,
                children == ast.modules@[idx as int].children@,
                n_children == children.len(),
                k <= n_children,
                scope.wf(session),
                scope.functions@ == first_wins(fn_entries(items)),
                scope.types@ == first_wins(ty_entries(items)),
                scope.mods@ == first_wins(mod_entries(ast, children.take(k as int))),
            decreases n_children - k,
        {
            let child = self.ast.modules[idx].children[k];
            let ghost j = lemma_child(ast, idx as int, k as int);
            let ci = match self.ast.module_index(child) {
                Some(ci) => ci,
                None => {
                    assert(false);
                    0
                },
            };
            assert(ci == j);
            let n_segs = self.ast.modules[ci].path.segments.len();
            let name = self.ast.modules[ci].path.segments[n_segs - 1];
            proof {
                assert(ast.modules@[j] == ast.modules@[j]);
                assert(session.has(ast.modules@[j].path.segments@[n_segs - 1].text));
                assert(children.take(k + 1).drop_last() =~= children.take(k as int));
                assert(children.take(k + 1).last() == child);
                assert(child_name(ast, child) == name.text);
                lemma_first_wins_push(mod_entries(ast, children.take(k as int)), (name.text, child));
            }
            match scope.insert_mod(self.session, name, child) {
                Some(d) => self.diagnostics.push(d),
                None => {},
            }
            proof {
                assert(old(self).diags().is_prefix_of(self.diags()));
            }
            k = k + 1;
        }
        assert(children.take(n_children as int) =~= children);

        let ghost pre = *self;
        self.module_scopes.set(idx, Some(scope));
        proof {
            old(self).lemma_closed_but_grows(&pre, x, x);
            assert forall|j: int| 0 <= j < pre.ast_view().modules@.len() && pre.scope_view(j) is Some implies self.scope_view(j) is Some by {
                if j != idx { assert(self.module_scopes@[j] == pre.module_scopes@[j]); }
            }
            assert forall|j: int| 0 <= j < pre.ast_view().modules@.len() && self.scope_view(j) is Some && pre.scope_view(j) is None implies x.insert(idx as int).contains(j) by {
                if j != idx { assert(self.module_scopes@[j] == pre.module_scopes@[j]); }
            }
            pre.lemma_closed_but_grows(self, x, x.insert(idx as int));
            assert forall|j: int| 0 <= j < self.module_scopes@.len() implies (#[trigger] self.module_scopes@[j] matches Some(sc)
                ==> sc.wf(*self.session)) by {
                if j != idx { assert(self.module_scopes@[j] == old(self).module_scopes@[j]); }
            }
            assert forall|j: int| 0 <= j < self.module_scopes@.len() implies (#[trigger] self.module_scopes@[j] matches Some(sc)
                ==> scope_is_collected(*self.ast, j, sc)) by {
                if j != idx { assert(self.module_scopes@[j] == old(self).module_scopes@[j]); }
            }
        }

        let mut k: usize = 0;
        while k < n_children
            invariant
                self.inv(),
                self.all_collected(),
                self.same_frame(old(self)),
                old(self).diags().is_prefix_of(self.diags()),
                ast == *self.ast,
                idx < ast.modules@.len(),
                children == ast.modules@[idx as int].children@,
                n_children == children.len(),
                k <= n_children,
                self.scope_view(idx as int) is Some,
                forall|j: int| 0 <= j < ast.modules@.len() && old(self).scope_view(j) is Some
                    ==> self.scope_view(j) is Some,
                self.closed_but(x.insert(idx as int)),
                forall|k2: int| 0 <= k2 < k ==> #[trigger] self.child_collected(idx as int, k2),
            decreases n_children - k,
        {
            let child = self.ast.modules[idx].children[k];
            let ghost j = lemma_child(ast, idx as int, k as int);
            let ci = match self.ast.module_index(child) {
                Some(ci) => ci,
                None => {
                    assert(false);
                    0
                },
            };
            assert(ci == j);
            let ghost mid = self.diagnostics@;
            let ghost before = *self;
            self.collect_module(ci, Ghost(x.insert(idx as int)));
            proof {
                lemma_prefix_trans(old(self).diags(), mid, self.diags());
                assert forall|k2: int| 0 <= k2 < k + 1 implies #[trigger] self.child_collected(idx as int, k2) by {
                    if k2 < k {
                        assert(before.child_collected(idx as int, k2));
                        crate::ast::lemma_index_of_in(ast, children[k2]);
                    }
                }
            }
            k = k + 1;
        }
        proof {
            assert(self.children_collected(idx as int));
            assert forall|p: int|
                0 <= p < self.ast_view().modules@.len() && self.scope_view(p) is Some && !x.contains(p)
                    implies #[trigger] self.children_collected(p) by {
                if p != idx {
                    assert(!x.insert(idx as int).contains(p));
                }
            }
        }
    }

    /// Builds the module namespaces of `ast` from its declarations alone, before any import.
    pub fn collect(session: &'ast Session, ast: &'ast Ast) -> (table: Self)
        requires
            ast.wf(),
            ast.children_complete(),
            ast_interned(*ast, *session),
            items_distinct(*ast),
            session@.len() <= u32::MAX,
            session.wf(),
        ensures
            table.inv(),
            table.ast_view() == *ast,
            table.session_view() == *session,
            table.prelude_view() is None,
            table.locals_view().len() == 0,
            table.generics_view().len() == 0,
            table.self_view().len() == 0,
            table.all_collected(),
            forall|j: int| 0 <= j < ast.modules@.len() ==> #[trigger] table.scope_view(j) is Some,
    {
        let mut module_scopes: Vec<Option<ModuleScope>> = Vec::new();
        let n = ast.modules.len();
        let mut i: usize = 0;
        while i < n
            invariant
                i <= n,
                n == ast.modules@.len(),
                module_scopes@.len() == i,
                forall|j: int| 0 <= j < i ==> module_scopes@[j] is None,
            decreases n - i,
        {
            module_scopes.push(None);
            i = i + 1;
        }
        let mut table = SymbolTable {
            session,
            ast,
            local_scopes: Vec::new(),
            generic_scopes: Vec::new(),
            self_scopes: Vec::new(),
            module_scopes,
            prelude: None,
            diagnostics: Vec::new(),
        };
        proof {
            assert(table.locals_view() =~= Seq::empty());
            assert(table.generics_view() =~= Seq::empty());
            assert(table.self_view() =~= Seq::empty());
        }
        proof {
            assert forall|p: int|
                0 <= p < table.ast_view().modules@.len() && table.scope_view(p) is Some && !Set::<int>::empty().contains(p)
                    implies #[trigger] table.children_collected(p) by {
            }
        }
        table.collect_module(0, Ghost(Set::empty()));
        proof {
            assert forall|j: int| 0 <= j < ast.modules@.len() implies #[trigger] table.scope_view(j) is Some by {
                table.lemma_all_modules_collected(j);
            }
            assert(table.locals_view() =~= Seq::empty());
            assert(table.generics_view() =~= Seq::empty());
            assert(table.self_view() =~= Seq::empty());
        }
        table
    }

    // -----------------------------------------------------------------------------------------
    // Imports

    pub open spec fn root(&self) -> NodeId {
        self.ast_view().modules@[0].id
    }

    /// The module and function an import path names, resolved from the crate root.
    pub open spec fn import_fn(&self, segs: Seq<Ident>) -> Option<(NodeId, NodeId)> {
        if segs.len() == 0 {
            None
        } else {
            match self.walk(self.root(), segs.drop_last()) {
                Some(m) => match self.fn_lookup(m, segs.last().text) {
                    Some(id) => Some((m, id)),
                    None => None,
                },
                None => None,
            }
        }
    }

    pub open spec fn import_ty(&self, segs: Seq<Ident>) -> Option<(NodeId, TyDef)> {
        if segs.len() == 0 {
            None
        } else {
            match self.walk(self.root(), segs.drop_last()) {
                Some(m) => match self.ty_lookup(m, segs.last().text) {
                    Some(def) => Some((m, def)),
                    None => None,
                },
                None => None,
            }
        }
    }

    pub open spec fn import_mod(&self, segs: Seq<Ident>) -> Option<NodeId> {
        if segs.len() == 0 {
            None
        } else {
            match self.walk(self.root(), segs.drop_last()) {
                Some(m) => self.mod_lookup(m, segs.last().text),
                None => None,
            }
        }
    }

    fn resolve_import_value_path(&self, base: NodeId, path: &Path) -> (r: Option<(NodeId, NodeId)>)
        requires
            self.inv(),
            base == self.root(),
        ensures
            r == self.import_fn(path.segments@),
    {
        let n = path.segments.len();
        if n == 0 {
            return None;
        }
        let prefix = path.segments.as_slice().split_at(n - 1).0;
        assert(prefix@ =~= path.segments@.drop_last());
        let module = match self.walk_modules(base, prefix) {
            Some(m) => m,
            None => return None,
        };
        match self.lookup_function(module, path.segments[n - 1].text) {
            Some(id) => Some((module, id)),
            None => None,
        }
    }

    fn resolve_import_type_path(&self, base: NodeId, path: &Path) -> (r: Option<(NodeId, TyDef)>)
        requires
            self.inv(),
            base == self.root(),
        ensures
            r == self.import_ty(path.segments@),
    {
        let n = path.segments.len();
        if n == 0 {
            return None;
        }
        let prefix = path.segments.as_slice().split_at(n - 1).0;
        assert(prefix@ =~= path.segments@.drop_last());
        let module = match self.walk_modules(base, prefix) {
            Some(m) => m,
            None => return None,
        };
        match self.lookup_type(module, path.segments[n - 1].text) {
            Some(def) => Some((module, def)),
            None => None,
        }
    }

    fn resolve_import_mod_path(&self, base: NodeId, path: &Path) -> (r: Option<NodeId>)
        requires
            self.inv(),
            base == self.root(),
        ensures
            r == self.import_mod(path.segments@),
    {
        let n = path.segments.len();
        if n == 0 {
            return None;
        }
        let prefix = path.segments.as_slice().split_at(n - 1).0;
        assert(prefix@ =~= path.segments@.drop_last());
        let module = match self.walk_modules(base, prefix) {
            Some(m) => m,
            None => return None,
        };
        self.lookup_mod(module, path.segments[n - 1].text)
    }

    /// Replaces the namespaces of the module at index `i`, which must already have some.
    fn store_scope(&mut self, i: usize, sc: ModuleScope)
        requires
            old(self).inv(),
            i < old(self).module_scopes@.len(),
            sc.wf(*old(self).session),
        ensures
            final(self).inv(),
            final(self).same_frame(old(self)),
            final(self).diagnostics@ == old(self).diagnostics@,
            final(self).module_scopes@ == old(self).module_scopes@.update(i as int, Some(sc)),
    {
        self.module_scopes.set(i, Some(sc));
        proof {
            assert forall|j: int| 0 <= j < self.module_scopes@.len() implies (#[trigger] self.module_scopes@[j] matches Some(x)
                ==> x.wf(*self.session)) by {
                if j != i { assert(self.module_scopes@[j] == old(self).module_scopes@[j]); }
            }
        }
    }

    /// Binds an import's name in `importing_module`, in whichever namespace its path resolves
    /// in, reporting a private, ambiguous or unresolved import.
    #[verifier::rlimit(100)]
    fn resolve_import(&mut self, importing_module: NodeId, import: &Import)
        requires
            old(self).inv(),
            import_interned(*import, *old(self).session),
            import.path.segments@.len() > 0,
        ensures
            final(self).inv(),
            final(self).same_frame(old(self)),
            old(self).diags().is_prefix_of(final(self).diags()),
            scopes_grow(old(self).module_scopes@, final(self).module_scopes@),
            forall|j: int| 0 <= j < old(self).module_scopes@.len() && Some(j) != old(self).ast_view().index_of(importing_module)
                ==> final(self).module_scopes@[j] == old(self).module_scopes@[j],
            ({
                let name = match import.alias { Some(a) => a.text, None => import.path.segments@.last().text };
                let t = old(self).import_ty(import.path.segments@);
                let v = old(self).import_fn(import.path.segments@);
                let m = old(self).import_mod(import.path.segments@);
                let t_ok = t matches Some((tm, def)) && old(self).visible(importing_module, tm, item_visibility(old(self).ast_view(), def.spec_node_id()));
                let v_ok = v matches Some((vm, id)) && old(self).visible(importing_module, vm, item_visibility(old(self).ast_view(), id));
                let private_hit = (t is Some && !t_ok) || (v is Some && !v_ok);
                if !t_ok && !v_ok && m is None {
                    &&& final(self).module_scopes@ == old(self).module_scopes@
                    &&& final(self).diags().len() == old(self).diags().len() + 1
                    &&& final(self).diags().last().message@ == if private_hit {
                        private_item_message(old(self).session_view().text(name))
                    } else {
                        not_found_message(old(self).session_view().text(name))
                    }
                } else if t_ok && !v_ok && m is None {
                    old(self).ast_view().index_of(importing_module) matches Some(i) && old(self).scope_view(i) is Some
                        ==> bound_after(old(self).ty_lookup(importing_module, name), final(self).ty_lookup(importing_module, name), t.unwrap().1)
                } else if !t_ok && v_ok && m is None {
                    old(self).ast_view().index_of(importing_module) matches Some(i) && old(self).scope_view(i) is Some
                        ==> bound_after(old(self).fn_lookup(importing_module, name), final(self).fn_lookup(importing_module, name), v.unwrap().1)
                } else if !t_ok && !v_ok && m is Some {
                    old(self).ast_view().index_of(importing_module) matches Some(i) && old(self).scope_view(i) is Some
                        ==> bound_after(old(self).mod_lookup(importing_module, name), final(self).mod_lookup(importing_module, name), m.unwrap())
                } else {
                    &&& final(self).module_scopes@ == old(self).module_scopes@
                    &&& final(self).diags().len() == old(self).diags().len() + 1
                    &&& final(self).diags().last().message@ == ambiguous_import_message(old(self).session_view().text(name))
                }
            }),
    {
        let root = self.ast.root_id();
        let n = import.path.segments.len();
        let name = match import.alias {
            Some(a) => a,
            None => import.path.segments[n - 1],
        };
        proof {
            assert(self.session.has(name.text));
        }

        let mut private_hit = false;
        let type_res = match self.resolve_import_type_path(root, &import.path) {
            Some((module, def)) => {
                if self.is_visible_from(importing_module, module, self.visibility(def.node_id())) {
                    Some(def)
                } else {
                    private_hit = true;
                    None
                }
            },
            None => None,
        };
        let val_res = match self.resolve_import_value_path(root, &import.path) {
            Some((module, id)) => {
                if self.is_visible_from(importing_module, module, self.visibility(id)) {
                    Some(id)
                } else {
                    private_hit = true;
                    None
                }
            },
            None => None,
        };
        let mod_res = self.resolve_import_mod_path(root, &import.path);

        if type_res.is_none() && val_res.is_none() && mod_res.is_none() && private_hit {
            self.diagnostics.push(report_private_item(self.session, name));
            proof {
                assert(old(self).diags().is_prefix_of(self.diags()));
                assert(scopes_grow(old(self).module_scopes@, self.module_scopes@)) by {
                    assert forall|j: int| 0 <= j < old(self).module_scopes@.len() implies match (#[trigger] old(self).module_scopes@[j], self.module_scopes@[j]) {
                        (Some(o), Some(n)) => scope_grows(o, n),
                        (None, None) => true,
                        _ => false,
                    } by {}
                }
            }
            return;
        }

        let idx = self.ast.module_index(importing_module);
        match (type_res, val_res, mod_res) {
            (Some(def), None, None) => {
                match idx {
                    Some(i) => match &self.module_scopes[i] {
                        Some(sc) => {
                            let mut sc = sc.copy();
                            let ghost before = sc.types@;
                            let d = sc.insert_type(self.session, name, def);
                            proof {
                                lemma_assoc_has_get(before, name.text);
                                lemma_assoc_push(before, name.text, def, name.text);
                            }
                            self.store_scope(i, sc);
                            match d {
                                Some(d) => self.diagnostics.push(d),
                                None => {},
                            }
                            proof { self.lemma_grow_after_store(old(self), i as int); }
                        },
                        None => { proof { self.lemma_grow_refl(old(self)); } },
                    },
                    None => { proof { self.lemma_grow_refl(old(self)); } },
                }
            },
            (None, Some(id), None) => {
                match idx {
                    Some(i) => match &self.module_scopes[i] {
                        Some(sc) => {
                            let mut sc = sc.copy();
                            let ghost before = sc.functions@;
                            let d = sc.insert_function(self.session, name, id);
                            proof {
                                lemma_assoc_has_get(before, name.text);
                                lemma_assoc_push(before, name.text, id, name.text);
                            }
                            self.store_scope(i, sc);
                            match d {
                                Some(d) => self.diagnostics.push(d),
                                None => {},
                            }
                            proof { self.lemma_grow_after_store(old(self), i as int); }
                        },
                        None => { proof { self.lemma_grow_refl(old(self)); } },
                    },
                    None => { proof { self.lemma_grow_refl(old(self)); } },
                }
            },
            (None, None, Some(id)) => {
                match idx {
                    Some(i) => match &self.module_scopes[i] {
                        Some(sc) => {
                            let mut sc = sc.copy();
                            let ghost before = sc.mods@;
                            let d = sc.insert_mod(self.session, name, id);
                            proof {
                                lemma_assoc_has_get(before, name.text);
                                lemma_assoc_push(before, name.text, id, name.text);
                            }
                            self.store_scope(i, sc);
                            match d {
                                Some(d) => self.diagnostics.push(d),
                                None => {},
                            }
                            proof { self.lemma_grow_after_store(old(self), i as int); }
                        },
                        None => { proof { self.lemma_grow_refl(old(self)); } },
                    },
                    None => { proof { self.lemma_grow_refl(old(self)); } },
                }
            },
            (None, None, None) => {
                self.diagnostics.push(report_not_found(self.session, name));
                proof { self.lemma_grow_refl(old(self)); }
            },
            _ => {
                self.diagnostics.push(report_ambiguous_import(self.session, name));
                proof { self.lemma_grow_refl(old(self)); }
            },
        }
    }

    proof fn lemma_grow_refl(&self, other: &Self)
        requires
            self.module_scopes@ == other.module_scopes@,
            other.diagnostics@.is_prefix_of(self.diagnostics@),
        ensures
            scopes_grow(other.module_scopes@, self.module_scopes@),
            other.diags().is_prefix_of(self.diags()),
    {
        assert forall|j: int| 0 <= j < other.module_scopes@.len() implies match (#[trigger] other.module_scopes@[j], self.module_scopes@[j]) {
            (Some(o), Some(n)) => scope_grows(o, n),
            (None, None) => true,
            _ => false,
        } by {
            match other.module_scopes@[j] {
                Some(o) => {
                    assert(o.functions_view().is_prefix_of(o.functions_view()));
                    assert(o.types_view().is_prefix_of(o.types_view()));
                    assert(o.mods_view().is_prefix_of(o.mods_view()));
                },
                None => {},
            }
        }
    }

    proof fn lemma_grow_after_store(&self, other: &Self, i: int)
        requires
            0 <= i < other.module_scopes@.len(),
            other.module_scopes@[i] is Some,
            self.module_scopes@ == other.module_scopes@.update(i, self.module_scopes@[i]),
            self.module_scopes@[i] is Some,
            scope_grows(other.module_scopes@[i].unwrap(), self.module_scopes@[i].unwrap()),
            other.diagnostics@.is_prefix_of(self.diagnostics@),
        ensures
            scopes_grow(other.module_scopes@, self.module_scopes@),
            other.diags().is_prefix_of(self.diags()),
    {
        assert forall|j: int| 0 <= j < other.module_scopes@.len() implies match (#[trigger] other.module_scopes@[j], self.module_scopes@[j]) {
            (Some(o), Some(n)) => scope_grows(o, n),
            (None, None) => true,
            _ => false,
        } by {
            if j != i {
                match other.module_scopes@[j] {
                    Some(o) => {
                        assert(o.functions_view().is_prefix_of(o.functions_view()));
                        assert(o.types_view().is_prefix_of(o.types_view()));
                        assert(o.mods_view().is_prefix_of(o.mods_view()));
                    },
                    None => {},
                }
            }
        }
    }

    /// Every name `source` binds and lets `into` see is bound in `into` too (a module name is
    /// always seen).
    pub open spec fn glob_saturated(&self, into: NodeId, source: NodeId) -> bool {
        match (self.ast_view().index_of(into), self.ast_view().index_of(source)) {
            (Some(i), Some(j)) => match (self.scope_view(i), self.scope_view(j)) {
                (Some(di), Some(sj)) => {
                    &&& forall|k: int|
                        0 <= k < sj.functions_view().len() && self.visible(into, source, item_visibility(self.ast_view(), #[trigger] sj.functions_view()[k].1))
                            ==> assoc_has(di.functions_view(), sj.functions_view()[k].0)
                    &&& forall|k: int|
                        0 <= k < sj.types_view().len() && self.visible(into, source, item_visibility(self.ast_view(), (#[trigger] sj.types_view()[k]).1.spec_node_id()))
                            ==> assoc_has(di.types_view(), sj.types_view()[k].0)
                    &&& forall|k: int|
                        0 <= k < sj.mods_view().len() ==> assoc_has(di.mods_view(), (#[trigger] sj.mods_view()[k]).0)
                },
                _ => true,
            },
            _ => true,
        }
    }

    /// Copies every name `source` binds, and `into` may see, into `into`; returns whether
    /// anything new was bound. A name `into` already binds to something else is a conflict,
    /// reported once per module, name and namespace.
    #[verifier::rlimit(100)]
    fn import_glob(
        &mut self,
        into: NodeId,
        source: NodeId,
        import: &Import,
        reported: &mut Vec<(NodeId, Symbol, Namespace)>,
    ) -> (changed: bool)
        requires
            old(self).inv(),
        ensures
            final(self).inv(),
            final(self).same_frame(old(self)),
            old(self).diags().is_prefix_of(final(self).diags()),
            scopes_grow(old(self).module_scopes@, final(self).module_scopes@),
            forall|j: int| 0 <= j < old(self).module_scopes@.len() && Some(j) != old(self).ast_view().index_of(into)
                ==> final(self).module_scopes@[j] == old(self).module_scopes@[j],
            changed ==> total_size(old(self).module_scopes@) < total_size(final(self).module_scopes@),
            !changed ==> final(self).module_scopes@ == old(self).module_scopes@,
            final(self).glob_saturated(into, source),
            forall|name: Symbol| #[trigger] final(self).fn_lookup(into, name) is Some && old(self).fn_lookup(into, name) is None
                ==> final(self).fn_lookup(into, name) == old(self).fn_lookup(source, name),
            forall|name: Symbol| #[trigger] final(self).ty_lookup(into, name) is Some && old(self).ty_lookup(into, name) is None
                ==> final(self).ty_lookup(into, name) == old(self).ty_lookup(source, name),
            forall|name: Symbol| #[trigger] final(self).fn_lookup(into, name) is Some && old(self).fn_lookup(into, name) is None
                ==> final(self).visible(into, source, item_visibility(final(self).ast_view(), final(self).fn_lookup(into, name)->0)),
            forall|name: Symbol| #[trigger] final(self).ty_lookup(into, name) is Some && old(self).ty_lookup(into, name) is None
                ==> final(self).visible(into, source, item_visibility(final(self).ast_view(), final(self).ty_lookup(into, name)->0.spec_node_id())),
            old(reported)@.is_prefix_of(final(reported)@),
            final(self).diags().len() - old(self).diags().len() == final(reported)@.len() - old(reported)@.len(),
            forall|j: int| old(reported)@.len() <= j < final(reported)@.len() ==> (#[trigger] final(reported)@[j]).0 == into,
    {
        let into_idx = match self.ast.module_index(into) {
            Some(i) => i,
            None => { proof { self.lemma_grow_refl(old(self)); } return false; },
        };
        let src_idx = match self.ast.module_index(source) {
            Some(i) => i,
            None => { proof { self.lemma_grow_refl(old(self)); } return false; },
        };
        let (fs, ts, ms) = match &self.module_scopes[src_idx] {
            Some(sc) => (copy_pairs(&sc.functions), copy_pairs(&sc.types), copy_pairs(&sc.mods)),
            None => { proof { self.lemma_grow_refl(old(self)); } return false; },
        };
        let mut dst = match &self.module_scopes[into_idx] {
            Some(sc) => sc.copy(),
            None => { proof { self.lemma_grow_refl(old(self)); } return false; },
        };
        let ghost orig = self.module_scopes@[into_idx as int].unwrap();
        let ghost src = self.module_scopes@[src_idx as int].unwrap();
        let ghost session = *self.session;
        let mut changed = false;

        let mut k: usize = 0;
        while k < fs.len()
            invariant
                self.inv(),
                self.same_frame(old(self)),
                self.module_scopes@ == old(self).module_scopes@,
                old(self).diags().is_prefix_of(self.diags()),
                old(reported)@.is_prefix_of(reported@),
                self.diags().len() - old(self).diags().len() == reported@.len() - old(reported)@.len(),
                forall|j: int| old(reported)@.len() <= j < reported@.len() ==> (#[trigger] reported@[j]).0 == into,
                session == *self.session,
                into_idx < self.module_scopes@.len(),
                self.module_scopes@[into_idx as int] == Some(orig),
                self.module_scopes@[src_idx as int] == Some(src),
                src.wf(session),
                fs@ == src.functions@,
                dst.wf(session),
                dst.types@ == orig.types@,
                dst.mods@ == orig.mods@,
                orig.functions@.is_prefix_of(dst.functions@),
                !changed ==> dst.functions@ == orig.functions@,
                changed ==> dst.functions@.len() > orig.functions@.len(),
                k <= fs@.len(),
                forall|k2: int| 0 <= k2 < k && self.visible(into, source, item_visibility(*self.ast, fs@[k2].1))
                    ==> assoc_has(dst.functions@, #[trigger] fs@[k2].0),
                forall|name: Symbol| #[trigger] assoc_get(dst.functions@, name) is Some && assoc_get(orig.functions@, name) is None
                    ==> assoc_get(dst.functions@, name) == assoc_get(src.functions@, name),
                forall|name: Symbol| #[trigger] assoc_get(dst.functions@, name) is Some && assoc_get(orig.functions@, name) is None
                    ==> self.visible(into, source, item_visibility(*self.ast, assoc_get(dst.functions@, name)->0)),
            decreases fs@.len() - k,
        {
            let (text, id) = fs[k];
            if self.is_visible_from(into, source, self.visibility(id)) {
                let ghost before = dst.functions@;
                match find_key(&dst.functions, text) {
                    Some(existing) => {
                        if existing != id {
                            if note_reported(reported, (into, text, Namespace::Value)) {
                                self.diagnostics.push(report_conflict(self.session, Ident { text, span: import.span }));
                            }
                        }
                    },
                    None => {
                        let _ = dst.insert_function(self.session, Ident { text, span: import.span }, id);
                        changed = true;
                        proof {
                            self.lemma_push_from_source(orig.functions@, before, dst.functions@, src.functions@, text, id, k as int, |v: NodeId| self.visible(into, source, item_visibility(*self.ast, v)));
                        }
                    },
                }
            }
            proof {
                assert(old(self).diags().is_prefix_of(self.diags()));
            }
            k = k + 1;
        }

        let mut k: usize = 0;
        while k < ts.len()
            invariant
                self.inv(),
                self.same_frame(old(self)),
                self.module_scopes@ == old(self).module_scopes@,
                old(self).diags().is_prefix_of(self.diags()),
                old(reported)@.is_prefix_of(reported@),
                self.diags().len() - old(self).diags().len() == reported@.len() - old(reported)@.len(),
                forall|j: int| old(reported)@.len() <= j < reported@.len() ==> (#[trigger] reported@[j]).0 == into,
                session == *self.session,
                into_idx < self.module_scopes@.len(),
                self.module_scopes@[into_idx as int] == Some(orig),
                self.module_scopes@[src_idx as int] == Some(src),
                src.wf(session),
                fs@ == src.functions@,
                ts@ == src.types@,
                dst.wf(session),
                dst.mods@ == orig.mods@,
                orig.functions@.is_prefix_of(dst.functions@),
                orig.types@.is_prefix_of(dst.types@),
                !changed ==> dst.functions@ == orig.functions@ && dst.types@ == orig.types@,
                changed ==> dst.functions@.len() + dst.types@.len() > orig.functions@.len() + orig.types@.len(),
                k <= ts@.len(),
                forall|k2: int| 0 <= k2 < fs@.len() && self.visible(into, source, item_visibility(*self.ast, fs@[k2].1))
                    ==> assoc_has(dst.functions@, #[trigger] fs@[k2].0),
                forall|k2: int| 0 <= k2 < k && self.visible(into, source, item_visibility(*self.ast, ts@[k2].1.spec_node_id()))
                    ==> assoc_has(dst.types@, #[trigger] ts@[k2].0),
                forall|name: Symbol| #[trigger] assoc_get(dst.functions@, name) is Some && assoc_get(orig.functions@, name) is None
                    ==> assoc_get(dst.functions@, name) == assoc_get(src.functions@, name),
                forall|name: Symbol| #[trigger] assoc_get(dst.functions@, name) is Some && assoc_get(orig.functions@, name) is None
                    ==> self.visible(into, source, item_visibility(*self.ast, assoc_get(dst.functions@, name)->0)),
                forall|name: Symbol| #[trigger] assoc_get(dst.types@, name) is Some && assoc_get(orig.types@, name) is None
                    ==> assoc_get(dst.types@, name) == assoc_get(src.types@, name),
                forall|name: Symbol| #[trigger] assoc_get(dst.types@, name) is Some && assoc_get(orig.types@, name) is None
                    ==> self.visible(into, source, item_visibility(*self.ast, assoc_get(dst.types@, name)->0.spec_node_id())),
            decreases ts@.len() - k,
        {
            let (text, def) = ts[k];
            if self.is_visible_from(into, source, self.visibility(def.node_id())) {
                let ghost before = dst.types@;
                match find_key(&dst.types, text) {
                    Some(existing) => {
                        if existing != def {
                            if note_reported(reported, (into, text, Namespace::Type)) {
                                self.diagnostics.push(report_conflict(self.session, Ident { text, span: import.span }));
                            }
                        }
                    },
                    None => {
                        let _ = dst.insert_type(self.session, Ident { text, span: import.span }, def);
                        changed = true;
                        proof {
                            self.lemma_push_from_source(orig.types@, before, dst.types@, src.types@, text, def, k as int, |v: TyDef| self.visible(into, source, item_visibility(*self.ast, v.spec_node_id())));
                        }
                    },
                }
            }
            proof {
                assert(old(self).diags().is_prefix_of(self.diags()));
            }
            k = k + 1;
        }

        let mut k: usize = 0;
        while k < ms.len()
            invariant
                self.inv(),
                self.same_frame(old(self)),
                self.module_scopes@ == old(self).module_scopes@,
                old(self).diags().is_prefix_of(self.diags()),
                old(reported)@.is_prefix_of(reported@),
                self.diags().len() - old(self).diags().len() == reported@.len() - old(reported)@.len(),
                forall|j: int| old(reported)@.len() <= j < reported@.len() ==> (#[trigger] reported@[j]).0 == into,
                session == *self.session,
                into_idx < self.module_scopes@.len(),
                self.module_scopes@[into_idx as int] == Some(orig),
                self.module_scopes@[src_idx as int] == Some(src),
                src.wf(session),
                fs@ == src.functions@,
                ts@ == src.types@,
                ms@ == src.mods@,
                dst.wf(session),
                orig.functions@.is_prefix_of(dst.functions@),
                orig.types@.is_prefix_of(dst.types@),
                orig.mods@.is_prefix_of(dst.mods@),
                !changed ==> dst.functions@ == orig.functions@ && dst.types@ == orig.types@ && dst.mods@ == orig.mods@,
                changed ==> dst.functions@.len() + dst.types@.len() + dst.mods@.len()
                    > orig.functions@.len() + orig.types@.len() + orig.mods@.len(),
                k <= ms@.len(),
                forall|k2: int| 0 <= k2 < fs@.len() && self.visible(into, source, item_visibility(*self.ast, fs@[k2].1))
                    ==> assoc_has(dst.functions@, #[trigger] fs@[k2].0),
                forall|k2: int| 0 <= k2 < ts@.len() && self.visible(into, source, item_visibility(*self.ast, ts@[k2].1.spec_node_id()))
                    ==> assoc_has(dst.types@, #[trigger] ts@[k2].0),
                forall|k2: int| 0 <= k2 < k ==> assoc_has(dst.mods@, #[trigger] ms@[k2].0),
                forall|name: Symbol| #[trigger] assoc_get(dst.functions@, name) is Some && assoc_get(orig.functions@, name) is None
                    ==> assoc_get(dst.functions@, name) == assoc_get(src.functions@, name),
                forall|name: Symbol| #[trigger] assoc_get(dst.functions@, name) is Some && assoc_get(orig.functions@, name) is None
                    ==> self.visible(into, source, item_visibility(*self.ast, assoc_get(dst.functions@, name)->0)),
                forall|name: Symbol| #[trigger] assoc_get(dst.types@, name) is Some && assoc_get(orig.types@, name) is None
                    ==> assoc_get(dst.types@, name) == assoc_get(src.types@, name),
                forall|name: Symbol| #[trigger] assoc_get(dst.types@, name) is Some && assoc_get(orig.types@, name) is None
                    ==> self.visible(into, source, item_visibility(*self.ast, assoc_get(dst.types@, name)->0.spec_node_id())),
            decreases ms@.len() - k,
        {
            let (text, id) = ms[k];
            let ghost before = dst.mods@;
            match find_key(&dst.mods, text) {
                Some(existing) => {
                    if existing != id {
                        if note_reported(reported, (into, text, Namespace::Module)) {
                            self.diagnostics.push(report_conflict(self.session, Ident { text, span: import.span }));
                        }
                    }
                },
                None => {
                    let _ = dst.insert_mod(self.session, Ident { text, span: import.span }, id);
                    changed = true;
                    proof {
                        assert(assoc_has(dst.mods@, text)) by {
                            assert(dst.mods@[dst.mods@.len() - 1].0 == text);
                        }
                        assert forall|k2: int| 0 <= k2 < k implies assoc_has(dst.mods@, #[trigger] ms@[k2].0) by {
                            let w = choose|w: int| 0 <= w < before.len() && #[trigger] before[w].0 == ms@[k2].0;
                            assert(dst.mods@[w] == before[w]);
                        }
                    }
                },
            }
            proof {
                assert(old(self).diags().is_prefix_of(self.diags()));
            }
            k = k + 1;
        }

        if changed {
            let ghost mid = self.module_scopes@;
            self.store_scope(into_idx, dst);
            proof {
                assert(self.module_scopes@[into_idx as int] == Some(dst));
                lemma_total_size_strict(mid, self.module_scopes@, into_idx as int);
                self.lemma_grow_after_store(old(self), into_idx as int);
                lemma_index_of(*self.ast, into_idx as int);
                assert forall|name: Symbol| #[trigger] self.fn_lookup(into, name) is Some && old(self).fn_lookup(into, name) is None
                    implies self.fn_lookup(into, name) == old(self).fn_lookup(source, name) by {
                    lemma_index_of(*self.ast, src_idx as int);
                }
                assert forall|name: Symbol| #[trigger] self.ty_lookup(into, name) is Some && old(self).ty_lookup(into, name) is None
                    implies self.ty_lookup(into, name) == old(self).ty_lookup(source, name) by {
                    lemma_index_of(*self.ast, src_idx as int);
                }
                assert forall|name: Symbol| #[trigger] self.fn_lookup(into, name) is Some && old(self).fn_lookup(into, name) is None
                    implies self.visible(into, source, item_visibility(self.ast_view(), self.fn_lookup(into, name)->0)) by {
                }
                assert forall|name: Symbol| #[trigger] self.ty_lookup(into, name) is Some && old(self).ty_lookup(into, name) is None
                    implies self.visible(into, source, item_visibility(self.ast_view(), self.ty_lookup(into, name)->0.spec_node_id())) by {
                }
            }
        } else {
            proof {
                self.lemma_grow_refl(old(self));
                lemma_index_of(*self.ast, into_idx as int);
                lemma_index_of(*self.ast, src_idx as int);
            }
        }
        changed
    }

    /// Pushing a pair the source binds, under a key `orig` lacks, keeps the bookkeeping true.
    proof fn lemma_push_from_source<V>(
        &self,
        orig: Seq<(Symbol, V)>,
        before: Seq<(Symbol, V)>,
        after: Seq<(Symbol, V)>,
        src: Seq<(Symbol, V)>,
        text: Symbol,
        v: V,
        k: int,
        ok: spec_fn(V) -> bool,
    )
        requires
            ok(v),
            forall|name: Symbol| #[trigger] assoc_get(before, name) is Some && assoc_get(orig, name) is None
                ==> ok(assoc_get(before, name)->0),
            orig.is_prefix_of(before),
            after == before.push((text, v)),
            !assoc_has(before, text),
            assoc_unique(src),
            0 <= k < src.len(),
            src[k] == (text, v),
            forall|name: Symbol| #[trigger] assoc_get(before, name) is Some && assoc_get(orig, name) is None
                ==> assoc_get(before, name) == assoc_get(src, name),
        ensures
            orig.is_prefix_of(after),
            after.len() > orig.len(),
            assoc_has(after, text),
            forall|x: Symbol| assoc_has(before, x) ==> assoc_has(after, x),
            forall|name: Symbol| #[trigger] assoc_get(after, name) is Some && assoc_get(orig, name) is None
                ==> assoc_get(after, name) == assoc_get(src, name),
            forall|name: Symbol| #[trigger] assoc_get(after, name) is Some && assoc_get(orig, name) is None
                ==> ok(assoc_get(after, name)->0),
    {
        assert(after[before.len() as int].0 == text);
        assert forall|x: Symbol| assoc_has(before, x) implies assoc_has(after, x) by {
            let w = choose|w: int| 0 <= w < before.len() && #[trigger] before[w].0 == x;
            assert(after[w] == before[w]);
        }
        assert forall|j: int| 0 <= j < orig.len() implies orig[j] == after[j] by {
            assert(orig[j] == before[j]);
        }
        assert(after.take(orig.len() as int) =~= orig);
        assert forall|j: int| 0 <= j < k implies src[j].0 != text by {
            assert(src[j].0 != src[k].0);
        }
        lemma_assoc_get_index(src, text, k);
        assert forall|name: Symbol| #[trigger] assoc_get(after, name) is Some && assoc_get(orig, name) is None
            implies assoc_get(after, name) == assoc_get(src, name) by {
            lemma_assoc_push(before, text, v, name);
            lemma_assoc_has_get(before, text);
        }
        assert forall|name: Symbol| #[trigger] assoc_get(after, name) is Some && assoc_get(orig, name) is None
            implies ok(assoc_get(after, name)->0) by {
            lemma_assoc_push(before, text, v, name);
            lemma_assoc_has_get(before, text);
        }
    }

    /// A module binding survives any growth of the namespaces.
    proof fn lemma_mod_lookup_stable(&self, later: &Self, m: NodeId, name: Symbol)
        requires
            self.inv(),
            self.ast == later.ast,
            scopes_grow(self.module_scopes@, later.module_scopes@),
            self.mod_lookup(m, name) is Some,
        ensures
            later.mod_lookup(m, name) == self.mod_lookup(m, name),
    {
        let i = self.ast_view().index_of(m).unwrap();
        assert(0 <= i < self.module_scopes@.len());
        let o = self.module_scopes@[i].unwrap();
        assert(match (self.module_scopes@[i], later.module_scopes@[i]) {
            (Some(o), Some(n)) => scope_grows(o, n),
            (None, None) => true,
            _ => false,
        });
        let n = later.module_scopes@[i].unwrap();
        assert(scope_grows(o, n));
        lemma_assoc_get_prefix(o.mods@, n.mods@, name);
    }

    proof fn lemma_walk_stable(&self, later: &Self, base: NodeId, segs: Seq<Ident>)
        requires
            self.inv(),
            self.ast == later.ast,
            scopes_grow(self.module_scopes@, later.module_scopes@),
            self.walk(base, segs) is Some,
        ensures
            later.walk(base, segs) == self.walk(base, segs),
        decreases segs.len(),
    {
        if segs.len() > 0 {
            self.lemma_mod_lookup_stable(later, base, segs[0].text);
            let m = self.mod_lookup(base, segs[0].text).unwrap();
            self.lemma_walk_stable(later, m, segs.drop_first());
        }
    }

    proof fn lemma_walk_same(&self, other: &Self, base: NodeId, segs: Seq<Ident>)
        requires
            self.ast == other.ast,
            self.module_scopes@ == other.module_scopes@,
        ensures
            self.walk(base, segs) == other.walk(base, segs),
        decreases segs.len(),
    {
        if segs.len() > 0 {
            match self.mod_lookup(base, segs[0].text) {
                Some(m) => self.lemma_walk_same(other, m, segs.drop_first()),
                None => {},
            }
        }
    }

    /// An import path that named a module keeps naming it as the namespaces grow.
    proof fn lemma_import_mod_stable(&self, later: &Self, segs: Seq<Ident>)
        requires
            self.inv(),
            self.ast == later.ast,
            scopes_grow(self.module_scopes@, later.module_scopes@),
            self.import_mod(segs) is Some,
        ensures
            later.import_mod(segs) == self.import_mod(segs),
    {
        self.lemma_walk_stable(later, self.root(), segs.drop_last());
        let m = self.walk(self.root(), segs.drop_last()).unwrap();
        self.lemma_mod_lookup_stable(later, m, segs.last().text);
    }

    proof fn lemma_grow_trans(a: Seq<Option<ModuleScope>>, b: Seq<Option<ModuleScope>>, c: Seq<Option<ModuleScope>>)
        requires
            scopes_grow(a, b),
            scopes_grow(b, c),
        ensures
            scopes_grow(a, c),
    {
        assert forall|j: int| 0 <= j < a.len() implies match (#[trigger] a[j], c[j]) {
            (Some(o), Some(n)) => scope_grows(o, n),
            (None, None) => true,
            _ => false,
        } by {
            match (a[j], b[j], c[j]) {
                (Some(x), Some(y), Some(z)) => {
                    lemma_prefix_trans(x.functions_view(), y.functions_view(), z.functions_view());
                    lemma_prefix_trans(x.types_view(), y.types_view(), z.types_view());
                    lemma_prefix_trans(x.mods_view(), y.mods_view(), z.mods_view());
                },
                _ => {},
            }
        }
    }

    /// Whether the glob import `k` of module `m` was carried out to its fixpoint, or reported as
    /// naming no module.
    pub open spec fn glob_done(&self, m: int, k: int) -> bool {
        let import = self.ast_view().modules@[m].imports@[k];
        let into = self.ast_view().modules@[m].id;
        ||| (self.import_mod(import.path.segments@) matches Some(src) && self.glob_saturated(into, src))
        ||| (exists|d: int| 0 <= d < self.diags().len() && #[trigger] self.diags()[d].message@
            == not_found_message(self.session_view().text(import.path.segments@.last().text))
            && self.diags()[d].span == import.path.segments@.last().span)
    }

    /// The name a named import binds: its alias, or its path's last segment.
    pub open spec fn import_name(import: Import) -> Symbol {
        match import.alias {
            Some(a) => a.text,
            None => import.path.segments@.last().text,
        }
    }

    /// Named import `k` of module `m` bound its name in one of the module's namespaces, or was
    /// reported as naming nothing, a private item, or several things.
    pub open spec fn import_settled(&self, m: int, k: int) -> bool {
        let import = self.ast_view().modules@[m].imports@[k];
        let into = self.ast_view().modules@[m].id;
        let name = Self::import_name(import);
        let text = self.session_view().text(name);
        ||| self.fn_lookup(into, name) is Some
        ||| self.ty_lookup(into, name) is Some
        ||| self.mod_lookup(into, name) is Some
        ||| exists|d: int|
            0 <= d < self.diags().len() && (#[trigger] self.diags()[d].message@ == not_found_message(text)
                || self.diags()[d].message@ == private_item_message(text) || self.diags()[d].message@
                == ambiguous_import_message(text))
    }

    proof fn lemma_settled_stable(&self, later: &Self, m: int, k: int)
        requires
            self.inv(),
            self.import_settled(m, k),
            0 <= m < self.ast_view().modules@.len(),
            self.ast == later.ast,
            self.session == later.session,
            scopes_grow(self.module_scopes@, later.module_scopes@),
            self.diags().is_prefix_of(later.diags()),
        ensures
            later.import_settled(m, k),
    {
        let import = self.ast_view().modules@[m].imports@[k];
        let into = self.ast_view().modules@[m].id;
        let name = Self::import_name(import);
        lemma_index_of(*self.ast, m);
        assert(match (self.module_scopes@[m], later.module_scopes@[m]) {
            (Some(o), Some(n)) => scope_grows(o, n),
            (None, None) => true,
            _ => false,
        });
        if self.fn_lookup(into, name) is Some {
            lemma_assoc_get_prefix(self.module_scopes@[m].unwrap().functions_view(), later.module_scopes@[m].unwrap().functions_view(), name);
        } else if self.ty_lookup(into, name) is Some {
            lemma_assoc_get_prefix(self.module_scopes@[m].unwrap().types_view(), later.module_scopes@[m].unwrap().types_view(), name);
        } else if self.mod_lookup(into, name) is Some {
            lemma_assoc_get_prefix(self.module_scopes@[m].unwrap().mods_view(), later.module_scopes@[m].unwrap().mods_view(), name);
        } else {
            let text = self.session_view().text(name);
            let d = choose|d: int|
                0 <= d < self.diags().len() && (#[trigger] self.diags()[d].message@ == not_found_message(text)
                    || self.diags()[d].message@ == private_item_message(text) || self.diags()[d].message@
                    == ambiguous_import_message(text));
            assert(later.diags()[d] == self.diags()[d]);
        }
    }

    /// Resolves every named import, then copies glob imports until no glob brings in anything
    /// new.
    fn resolve_imports(&mut self)
        requires
            old(self).inv(),
            forall|j: int| 0 <= j < old(self).ast_view().modules@.len() ==> #[trigger] old(self).scope_view(j) is Some,
        ensures
            forall|m: int, k: int|
                0 <= m < old(self).ast_view().modules@.len() && 0 <= k < old(self).ast_view().modules@[m].imports@.len()
                    && !(#[trigger] old(self).ast_view().modules@[m].imports@[k]).glob ==> final(self).import_settled(m, k),
            final(self).inv(),
            final(self).same_frame(old(self)),
            old(self).diags().is_prefix_of(final(self).diags()),
            scopes_grow(old(self).module_scopes@, final(self).module_scopes@),
            forall|m: int, k: int|
                0 <= m < old(self).ast_view().modules@.len() && 0 <= k < old(self).ast_view().modules@[m].imports@.len()
                    && (#[trigger] old(self).ast_view().modules@[m].imports@[k]).glob ==> final(self).glob_done(m, k),
    {
        let ghost ast = *self.ast;
        let ghost session = *self.session;
        let n_mods = self.ast.modules.len();
        proof { self.lemma_grow_refl(old(self)); }

        // Named imports first, in module order.
        let mut m: usize = 0;
        while m < n_mods
            invariant
                self.inv(),
                self.same_frame(old(self)),
                old(self).diags().is_prefix_of(self.diags()),
                scopes_grow(old(self).module_scopes@, self.module_scopes@),
                ast == *self.ast,
                session == *self.session,
                n_mods == ast.modules@.len(),
                m <= n_mods,
                forall|j: int| 0 <= j < n_mods ==> #[trigger] self.scope_view(j) is Some,
                forall|m2: int, k2: int|
                    0 <= m2 < m && 0 <= k2 < ast.modules@[m2].imports@.len() && !(#[trigger] ast.modules@[m2].imports@[k2]).glob
                        ==> self.import_settled(m2, k2),
            decreases n_mods - m,
        {
            let module_id = self.ast.modules[m].id;
            let n_imports = self.ast.modules[m].imports.len();
            let mut k: usize = 0;
            while k < n_imports
                invariant
                    self.inv(),
                    self.same_frame(old(self)),
                    old(self).diags().is_prefix_of(self.diags()),
                    scopes_grow(old(self).module_scopes@, self.module_scopes@),
                    ast == *self.ast,
                    session == *self.session,
                    n_mods == ast.modules@.len(),
                    m < n_mods,
                    module_id == ast.modules@[m as int].id,
                    n_imports == ast.modules@[m as int].imports@.len(),
                    k <= n_imports,
                    forall|j: int| 0 <= j < n_mods ==> #[trigger] self.scope_view(j) is Some,
                    forall|m2: int, k2: int|
                        0 <= m2 < m && 0 <= k2 < ast.modules@[m2].imports@.len() && !(#[trigger] ast.modules@[m2].imports@[k2]).glob
                            ==> self.import_settled(m2, k2),
                    forall|k2: int|
                        0 <= k2 < k && !(#[trigger] ast.modules@[m as int].imports@[k2]).glob ==> self.import_settled(m as int, k2),
                decreases n_imports - k,
            {
                let import = &self.ast.modules[m].imports[k];
                if !import.glob {
                    proof {
                        assert(ast.modules@[m as int] == ast.modules@[m as int]);
                        assert(import_interned(ast.modules@[m as int].imports@[k as int], session));
                        assert(ast.modules@[m as int].imports@[k as int].path.segments@.len() > 0);
                    }
                    let ghost before = self.module_scopes@;
                    let ghost mid_d = self.diagnostics@;
                    let ghost bs = *self;
                    self.resolve_import(module_id, import);
                    proof {
                        Self::lemma_grow_trans(old(self).module_scopes@, before, self.module_scopes@);
                        lemma_prefix_trans(old(self).diags(), mid_d, self.diags());
                        assert forall|j: int| 0 <= j < n_mods implies #[trigger] self.scope_view(j) is Some by {
                            assert(bs.scope_view(j) is Some);
                            assert(match (before[j], self.module_scopes@[j]) {
                                (Some(o), Some(n)) => scope_grows(o, n),
                                (None, None) => true,
                                _ => false,
                            });
                        }
                        assert forall|m2: int, k2: int|
                            0 <= m2 < m && 0 <= k2 < ast.modules@[m2].imports@.len() && !(#[trigger] ast.modules@[m2].imports@[k2]).glob
                                implies self.import_settled(m2, k2) by {
                            bs.lemma_settled_stable(self, m2, k2);
                        }
                        assert forall|k2: int|
                            0 <= k2 < k && !(#[trigger] ast.modules@[m as int].imports@[k2]).glob implies self.import_settled(m as int, k2) by {
                            bs.lemma_settled_stable(self, m as int, k2);
                        }
                        assert(*import == ast.modules@[m as int].imports@[k as int]);
                        lemma_index_of(ast, m as int);
                        assert(bs.scope_view(m as int) is Some);
                        let name = Self::import_name(*import);
                        let text = self.session_view().text(name);
                        if self.diags().len() == bs.diags().len() + 1 {
                            assert(self.diags()[self.diags().len() - 1] == self.diags().last());
                        }
                        assert(self.import_settled(m as int, k as int));
                    }
                }
                k = k + 1;
            }
            m = m + 1;
        }

        let ghost named = *self;
        // Then every glob import's source module, resolved from the crate root.
        let root = self.ast.root_id();
        let mut globs: Vec<(NodeId, usize, usize, Option<NodeId>)> = Vec::new();
        let mut m: usize = 0;
        while m < n_mods
            invariant
                self.inv(),
                self.same_frame(old(self)),
                old(self).diags().is_prefix_of(self.diags()),
                scopes_grow(old(self).module_scopes@, self.module_scopes@),
                named.diags().is_prefix_of(self.diags()),
                scopes_grow(named.module_scopes@, self.module_scopes@),
                named.ast == self.ast,
                named.session == self.session,
                named.inv(),
                forall|m2: int, k2: int|
                    0 <= m2 < n_mods && 0 <= k2 < ast.modules@[m2].imports@.len() && !(#[trigger] ast.modules@[m2].imports@[k2]).glob
                        ==> named.import_settled(m2, k2),
                ast == *self.ast,
                session == *self.session,
                n_mods == ast.modules@.len(),
                m <= n_mods,
                root == self.root(),
                forall|g: int| 0 <= g < globs@.len() ==> self.glob_entry(#[trigger] globs@[g]),
                forall|m2: int, k2: int|
                    0 <= m2 < m && 0 <= k2 < ast.modules@[m2].imports@.len() && (#[trigger] ast.modules@[m2].imports@[k2]).glob
                        ==> exists|g: int| 0 <= g < globs@.len() && globs@[g].1 == m2 && globs@[g].2 == k2,
            decreases n_mods - m,
        {
            let module_id = self.ast.modules[m].id;
            let n_imports = self.ast.modules[m].imports.len();
            let mut k: usize = 0;
            while k < n_imports
                invariant
                    self.inv(),
                    self.same_frame(old(self)),
                    old(self).diags().is_prefix_of(self.diags()),
                    scopes_grow(old(self).module_scopes@, self.module_scopes@),
                named.diags().is_prefix_of(self.diags()),
                scopes_grow(named.module_scopes@, self.module_scopes@),
                named.ast == self.ast,
                named.session == self.session,
                named.inv(),
                forall|m2: int, k2: int|
                    0 <= m2 < n_mods && 0 <= k2 < ast.modules@[m2].imports@.len() && !(#[trigger] ast.modules@[m2].imports@[k2]).glob
                        ==> named.import_settled(m2, k2),
                    ast == *self.ast,
                    session == *self.session,
                    n_mods == ast.modules@.len(),
                    m < n_mods,
                    module_id == ast.modules@[m as int].id,
                    n_imports == ast.modules@[m as int].imports@.len(),
                    k <= n_imports,
                    root == self.root(),
                    forall|g: int| 0 <= g < globs@.len() ==> self.glob_entry(#[trigger] globs@[g]),
                    forall|m2: int, k2: int|
                        0 <= m2 < m && 0 <= k2 < ast.modules@[m2].imports@.len() && (#[trigger] ast.modules@[m2].imports@[k2]).glob
                            ==> exists|g: int| 0 <= g < globs@.len() && globs@[g].1 == m2 && globs@[g].2 == k2,
                    forall|k2: int|
                        0 <= k2 < k && (#[trigger] ast.modules@[m as int].imports@[k2]).glob
                            ==> exists|g: int| 0 <= g < globs@.len() && globs@[g].1 == m && globs@[g].2 == k2,
                decreases n_imports - k,
            {
                let import = &self.ast.modules[m].imports[k];
                if import.glob {
                    proof {
                        assert(ast.modules@[m as int] == ast.modules@[m as int]);
                        assert(import_interned(ast.modules@[m as int].imports@[k as int], session));
                        assert(ast.modules@[m as int].imports@[k as int].path.segments@.len() > 0);
                    }
                    let source = self.resolve_import_mod_path(root, &import.path);
                    let ghost before_self = *self;
                    if source.is_none() {
                        let n = import.path.segments.len();
                        let d = report_not_found(self.session, import.path.segments[n - 1]);
                        self.diagnostics.push(d);
                        proof {
                            assert(old(self).diags().is_prefix_of(self.diags()));
                        }
                    }
                    let ghost before = globs@;
                    globs.push((module_id, m, k, source));
                    proof {
                        let g = before.len() as int;
                        assert(globs@[g].1 == m && globs@[g].2 == k);
                        assert forall|g2: int| 0 <= g2 < globs@.len() implies self.glob_entry(#[trigger] globs@[g2]) by {
                            if g2 < before.len() {
                                assert(globs@[g2] == before[g2]);
                                before_self.lemma_grow_refl(&before_self);
                                before_self.lemma_glob_entry_stable(self, before[g2]);
                            } else {
                                assert(globs@[g2] == (module_id, m, k, source));
                                assert(*import == ast.modules@[m as int].imports@[k as int]);
                                if source is None {
                                    let d = self.diags().len() - 1;
                                    assert(self.diags()[d].message@ == not_found_message(
                                        self.session_view().text(ast.modules@[m as int].imports@[k as int].path.segments@.last().text)));
                                    assert(self.diags()[d].span == ast.modules@[m as int].imports@[k as int].path.segments@.last().span);
                                }
                            }
                        }
                        assert forall|m2: int, k2: int|
                            0 <= m2 < m && 0 <= k2 < ast.modules@[m2].imports@.len() && (#[trigger] ast.modules@[m2].imports@[k2]).glob
                                implies exists|g2: int| 0 <= g2 < globs@.len() && globs@[g2].1 == m2 && globs@[g2].2 == k2 by {
                            let g2 = choose|g2: int| 0 <= g2 < before.len() && before[g2].1 == m2 && before[g2].2 == k2;
                            assert(globs@[g2] == before[g2]);
                        }
                        assert forall|k2: int|
                            0 <= k2 < k + 1 && (#[trigger] ast.modules@[m as int].imports@[k2]).glob
                                implies exists|g2: int| 0 <= g2 < globs@.len() && globs@[g2].1 == m && globs@[g2].2 == k2 by {
                            if k2 < k {
                                let g2 = choose|g2: int| 0 <= g2 < before.len() && before[g2].1 == m && before[g2].2 == k2;
                                assert(globs@[g2] == before[g2]);
                            } else {
                                assert(globs@[g].1 == m && globs@[g].2 == k2);
                            }
                        }
                    }
                }
                k = k + 1;
            }
            m = m + 1;
        }

        // Then copy glob imports to their fixpoint.
        let mut reported: Vec<(NodeId, Symbol, Namespace)> = Vec::new();
        let ghost bound = 3 * session@.len() * n_mods;
        proof {
            lemma_total_size_bounded(self.module_scopes@, session);
        }
        loop
            invariant
                self.inv(),
                self.same_frame(old(self)),
                old(self).diags().is_prefix_of(self.diags()),
                scopes_grow(old(self).module_scopes@, self.module_scopes@),
                named.diags().is_prefix_of(self.diags()),
                scopes_grow(named.module_scopes@, self.module_scopes@),
                named.ast == self.ast,
                named.session == self.session,
                named.inv(),
                forall|m2: int, k2: int|
                    0 <= m2 < n_mods && 0 <= k2 < ast.modules@[m2].imports@.len() && !(#[trigger] ast.modules@[m2].imports@[k2]).glob
                        ==> named.import_settled(m2, k2),
                ast == *self.ast,
                session == *self.session,
                n_mods == ast.modules@.len(),
                bound == 3 * session@.len() * n_mods,
                total_size(self.module_scopes@) <= bound,
                forall|g: int| 0 <= g < globs@.len() ==> self.glob_entry(#[trigger] globs@[g]),
                forall|m2: int, k2: int|
                    0 <= m2 < n_mods && 0 <= k2 < ast.modules@[m2].imports@.len() && (#[trigger] ast.modules@[m2].imports@[k2]).glob
                        ==> exists|g: int| 0 <= g < globs@.len() && globs@[g].1 == m2 && globs@[g].2 == k2,
            ensures
                self.inv(),
                self.same_frame(old(self)),
                old(self).diags().is_prefix_of(self.diags()),
                scopes_grow(old(self).module_scopes@, self.module_scopes@),
                named.diags().is_prefix_of(self.diags()),
                scopes_grow(named.module_scopes@, self.module_scopes@),
                named.ast == self.ast,
                named.session == self.session,
                named.inv(),
                forall|m2: int, k2: int|
                    0 <= m2 < n_mods && 0 <= k2 < ast.modules@[m2].imports@.len() && !(#[trigger] ast.modules@[m2].imports@[k2]).glob
                        ==> named.import_settled(m2, k2),
                forall|m2: int, k2: int|
                    0 <= m2 < n_mods && 0 <= k2 < ast.modules@[m2].imports@.len() && (#[trigger] ast.modules@[m2].imports@[k2]).glob
                        ==> self.glob_done(m2, k2),
            decreases bound - total_size(self.module_scopes@),
        {
            let ghost start = self.module_scopes@;
            let mut changed = false;
            let mut g: usize = 0;
            while g < globs.len()
                invariant
                    self.inv(),
                    self.same_frame(old(self)),
                    old(self).diags().is_prefix_of(self.diags()),
                    scopes_grow(old(self).module_scopes@, self.module_scopes@),
                named.diags().is_prefix_of(self.diags()),
                scopes_grow(named.module_scopes@, self.module_scopes@),
                named.ast == self.ast,
                named.session == self.session,
                named.inv(),
                forall|m2: int, k2: int|
                    0 <= m2 < n_mods && 0 <= k2 < ast.modules@[m2].imports@.len() && !(#[trigger] ast.modules@[m2].imports@[k2]).glob
                        ==> named.import_settled(m2, k2),
                    scopes_grow(start, self.module_scopes@),
                    ast == *self.ast,
                    session == *self.session,
                    n_mods == ast.modules@.len(),
                    g <= globs@.len(),
                    forall|g2: int| 0 <= g2 < globs@.len() ==> self.glob_entry(#[trigger] globs@[g2]),
                    !changed ==> self.module_scopes@ == start,
                    !changed ==> (forall|g2: int| 0 <= g2 < g && (#[trigger] globs@[g2]).3 is Some
                        ==> self.glob_saturated(globs@[g2].0, globs@[g2].3.unwrap())),
                    changed ==> total_size(start) < total_size(self.module_scopes@),
                decreases globs@.len() - g,
            {
                let (into, m, k, source) = globs[g];
                match source {
                    Some(src) => {
                        let ghost before = *self;
                        let ghost before_scopes = self.module_scopes@;
                        let ghost before_d = self.diagnostics@;
                        let c = self.import_glob(into, src, &self.ast.modules[m].imports[k], &mut reported);
                        proof {
                            Self::lemma_grow_trans(old(self).module_scopes@, before_scopes, self.module_scopes@);
                            Self::lemma_grow_trans(start, before_scopes, self.module_scopes@);
                            lemma_prefix_trans(old(self).diags(), before_d, self.diags());
                            assert forall|g2: int| 0 <= g2 < globs@.len() implies self.glob_entry(#[trigger] globs@[g2]) by {
                                before.lemma_glob_entry_stable(self, globs@[g2]);
                            }
                            if c {
                                lemma_total_size_grows(start, before_scopes);
                            }
                        }
                        changed = changed || c;
                    },
                    None => {},
                }
                g = g + 1;
            }
            proof {
                lemma_total_size_bounded(self.module_scopes@, session);
            }
            if !changed {
                proof {
                    assert forall|m2: int, k2: int|
                        0 <= m2 < n_mods && 0 <= k2 < ast.modules@[m2].imports@.len() && (#[trigger] ast.modules@[m2].imports@[k2]).glob
                            implies self.glob_done(m2, k2) by {
                        let g2 = choose|g2: int| 0 <= g2 < globs@.len() && globs@[g2].1 == m2 && globs@[g2].2 == k2;
                        assert(self.glob_entry(globs@[g2]));
                        match globs@[g2].3 {
                            Some(src) => {
                                assert(self.glob_saturated(globs@[g2].0, src));
                            },
                            None => {},
                        }
                    }
                }
                break;
            }
        }
        proof {
            assert forall|m: int, k: int|
                0 <= m < old(self).ast_view().modules@.len() && 0 <= k < old(self).ast_view().modules@[m].imports@.len()
                    && !(#[trigger] old(self).ast_view().modules@[m].imports@[k]).glob implies self.import_settled(m, k) by {
                assert(named.import_settled(m, k));
                named.lemma_settled_stable(self, m, k);
            }
        }
    }

    /// A recorded glob: into-module id and index, import index, and what its path named once
    /// named imports were bound.
    pub closed spec fn glob_entry(&self, e: (NodeId, usize, usize, Option<NodeId>)) -> bool {
        let (into, m, k) = (e.0, e.1 as int, e.2 as int);
        &&& 0 <= m < self.ast.modules@.len()
        &&& 0 <= k < self.ast.modules@[m].imports@.len()
        &&& into == self.ast.modules@[m].id
        &&& self.ast.modules@[m].imports@[k].glob
        &&& match e.3 {
            Some(src) => self.import_mod(self.ast.modules@[m].imports@[k].path.segments@) == Some(src),
            None => exists|d: int| 0 <= d < self.diags().len() && #[trigger] self.diags()[d].message@
                == not_found_message(self.session_view().text(self.ast.modules@[m].imports@[k].path.segments@.last().text))
                && self.diags()[d].span == self.ast.modules@[m].imports@[k].path.segments@.last().span,
        }
    }

    proof fn lemma_glob_entry_stable(&self, later: &Self, e: (NodeId, usize, usize, Option<NodeId>))
        requires
            self.inv(),
            self.glob_entry(e),
            self.ast == later.ast,
            self.session == later.session,
            scopes_grow(self.module_scopes@, later.module_scopes@),
            self.diags().is_prefix_of(later.diags()),
        ensures
            later.glob_entry(e),
    {
        let m = e.1 as int;
        let k = e.2 as int;
        match e.3 {
            Some(src) => {
                self.lemma_import_mod_stable(later, self.ast.modules@[m].imports@[k].path.segments@);
            },
            None => {
                let d = choose|d: int| 0 <= d < self.diags().len() && #[trigger] self.diags()[d].message@
                    == not_found_message(self.session_view().text(self.ast.modules@[m].imports@[k].path.segments@.last().text))
                    && self.diags()[d].span == self.ast.modules@[m].imports@[k].path.segments@.last().span;
                assert(later.diags()[d] == self.diags()[d]);
            },
        }
    }

    /// The `core::prelude` module, if the program has one.
    pub open spec fn prelude_of(&self) -> Option<NodeId> {
        match self.session_view().symbol_of("core"@) {
            Some(c) => match self.mod_lookup(self.root(), c) {
                Some(core) => match self.session_view().symbol_of("prelude"@) {
                    Some(p) => self.mod_lookup(core, p),
                    None => None,
                },
                None => None,
            },
            None => None,
        }
    }

    fn find_prelude(&self) -> (r: Option<NodeId>)
        requires
            self.inv(),
        ensures
            r == self.prelude_of(),
    {
        let root = self.ast.root_id();
        let core = match self.session.find("core") {
            Some(c) => c,
            None => return None,
        };
        let core_mod = match self.lookup_mod(root, core) {
            Some(m) => m,
            None => return None,
        };
        let prelude = match self.session.find("prelude") {
            Some(p) => p,
            None => return None,
        };
        self.lookup_mod(core_mod, prelude)
    }

    /// Every module's own declarations are still bound as collecting bound them: imports only
    /// ever add names after them.
    pub open spec fn decls_kept(&self) -> bool {
        forall|j: int|
            0 <= j < self.ast_view().modules@.len() ==> (#[trigger] self.scope_view(j) matches Some(sc) ==> {
                let m = self.ast_view().modules@[j];
                &&& first_wins(fn_entries(m.items@)).is_prefix_of(sc.functions_view())
                &&& first_wins(ty_entries(m.items@)).is_prefix_of(sc.types_view())
                &&& first_wins(mod_entries(self.ast_view(), m.children@)).is_prefix_of(sc.mods_view())
            })
    }

    /// Collects every module's declarations, resolves imports, then finds the prelude.
    #[verifier::rlimit(40)]
    pub fn new(session: &'ast Session, ast: &'ast Ast) -> (table: Self)
        requires
            ast.wf(),
            ast.children_complete(),
            ast_interned(*ast, *session),
            items_distinct(*ast),
            session@.len() <= u32::MAX,
            session.wf(),
        ensures
            table.inv(),
            table.ast_view() == *ast,
            table.session_view() == *session,
            table.locals_view().len() == 0,
            table.generics_view().len() == 0,
            table.self_view().len() == 0,
            forall|j: int| 0 <= j < ast.modules@.len() ==> #[trigger] table.scope_view(j) is Some,
            table.decls_kept(),
            table.prelude_view() == table.prelude_of(),
            forall|m: int, k: int|
                0 <= m < ast.modules@.len() && 0 <= k < ast.modules@[m].imports@.len()
                    && (#[trigger] ast.modules@[m].imports@[k]).glob ==> table.glob_done(m, k),
            forall|m: int, k: int|
                0 <= m < ast.modules@.len() && 0 <= k < ast.modules@[m].imports@.len()
                    && !(#[trigger] ast.modules@[m].imports@[k]).glob ==> table.import_settled(m, k),
    {
        let mut table = Self::collect(session, ast);
        let ghost collected = table;
        table.resolve_imports();
        let ghost imported = table;
        table.prelude = table.find_prelude();
        proof {
            assert forall|j: int| 0 <= j < table.ast_view().modules@.len() implies (#[trigger] table.scope_view(j) matches Some(sc) ==> {
                let m = table.ast_view().modules@[j];
                &&& first_wins(fn_entries(m.items@)).is_prefix_of(sc.functions_view())
                &&& first_wins(ty_entries(m.items@)).is_prefix_of(sc.types_view())
                &&& first_wins(mod_entries(table.ast_view(), m.children@)).is_prefix_of(sc.mods_view())
            }) by {
                assert(match (collected.module_scopes@[j], table.module_scopes@[j]) {
                    (Some(o), Some(n)) => scope_grows(o, n),
                    (None, None) => true,
                    _ => false,
                });
                assert(collected.module_scopes@[j] matches Some(sc) ==> scope_is_collected(*ast, j, sc));
            }
            assert(table.locals_view() == collected.locals_view());
            assert(table.generics_view() == collected.generics_view());
            assert(table.self_view() == collected.self_view());
            assert forall|j: int| 0 <= j < ast.modules@.len() implies #[trigger] table.scope_view(j) is Some by {
                assert(collected.scope_view(j) is Some);
                assert(match (collected.module_scopes@[j], table.module_scopes@[j]) {
                    (Some(o), Some(n)) => scope_grows(o, n),
                    (None, None) => true,
                    _ => false,
                });
            }
            assert forall|m: int, k: int|
                0 <= m < ast.modules@.len() && 0 <= k < ast.modules@[m].imports@.len()
                    && !(#[trigger] ast.modules@[m].imports@[k]).glob implies table.import_settled(m, k) by {
                assert(collected.ast_view().modules@[m].imports@[k] == ast.modules@[m].imports@[k]);
                assert(imported.import_settled(m, k));
                imported.lemma_grow_refl(&imported);
                assert(imported.module_scopes@ == table.module_scopes@);
                imported.lemma_settled_stable(&table, m, k);
            }
            assert forall|m: int, k: int|
                0 <= m < ast.modules@.len() && 0 <= k < ast.modules@[m].imports@.len()
                    && (#[trigger] ast.modules@[m].imports@[k]).glob implies table.glob_done(m, k) by {
                assert(collected.ast_view().modules@[m].imports@[k] == ast.modules@[m].imports@[k]);
                assert(imported.glob_done(m, k));
                let import = ast.modules@[m].imports@[k];
                imported.lemma_walk_same(&table, table.root(), import.path.segments@.drop_last());
                assert(imported.import_mod(import.path.segments@) == table.import_mod(import.path.segments@));
                assert(imported.diags() == table.diags());
                match imported.import_mod(import.path.segments@) {
                    Some(src) => {
                        if imported.glob_saturated(ast.modules@[m].id, src) {
                            assert(table.glob_saturated(ast.modules@[m].id, src));
                        }
                    },
                    None => {},
                }
            }
        }
        table
    }
}

/// The visibility the item `id` was declared with; public for anything not a named item.
pub open spec fn item_visibility(ast: Ast, id: NodeId) -> Visibility {
    if exists|m: int, k: int|
        0 <= m < ast.modules@.len() && 0 <= k < ast.modules@[m].items@.len()
            && #[trigger] ast.modules@[m].items@[k].id == id {
        let (m, k) = choose|m: int, k: int|
            0 <= m < ast.modules@.len() && 0 <= k < ast.modules@[m].items@.len()
                && #[trigger] ast.modules@[m].items@[k].id == id;
        match ast.modules@[m].items@[k].kind {
            ItemKind::Function(d) => d.visibility,
            ItemKind::Struct(d) => d.visibility,
            ItemKind::Enum(d) => d.visibility,
            ItemKind::Trait(d) => d.visibility,
            _ => Visibility::Public,
        }
    } else {
        Visibility::Public
    }
}

/// An item's visibility is the one written on its declaration, for every kind of item that has
/// one; so a private function, struct, enum or trait is visible only from its own module chain.
pub proof fn law_item_visibility_is_declared(ast: Ast, m: int, k: int)
    requires
        items_distinct(ast),
        0 <= m < ast.modules@.len(),
        0 <= k < ast.modules@[m].items@.len(),
    ensures
        match ast.modules@[m].items@[k].kind {
            ItemKind::Function(d) => item_visibility(ast, ast.modules@[m].items@[k].id) == d.visibility,
            ItemKind::Struct(d) => item_visibility(ast, ast.modules@[m].items@[k].id) == d.visibility,
            ItemKind::Enum(d) => item_visibility(ast, ast.modules@[m].items@[k].id) == d.visibility,
            ItemKind::Trait(d) => item_visibility(ast, ast.modules@[m].items@[k].id) == d.visibility,
            _ => item_visibility(ast, ast.modules@[m].items@[k].id) is Public,
        },
{
    let id = ast.modules@[m].items@[k].id;
    assert(ast.modules@[m].items@[k].id == id);
    let (m2, k2) = choose|m2: int, k2: int|
        0 <= m2 < ast.modules@.len() && 0 <= k2 < ast.modules@[m2].items@.len()
            && #[trigger] ast.modules@[m2].items@[k2].id == id;
    if m2 != m || k2 != k {
        assert(ast.modules@[m2].items@[k2].id != ast.modules@[m].items@[k].id);
    }
}

} // verus!
