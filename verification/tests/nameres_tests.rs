use midend::ast::{Ast, Ident, Import, Item, ItemDecl, ItemKind, Module, NodeId, Path, SrcSpan, Symbol, Visibility};
use midend::nameres::res::{Local, PrimTy, Res, TyDef, Type};
use midend::nameres::results::NameResolutions;
use midend::nameres::symbol_table::SymbolTable;
use midend::session::Session;

/// Builds a module tree the way the parser would from `module a::b; ...` files.
struct Program {
    session: Session,
    modules: Vec<Module>,
    next: u32,
}

impl Program {
    fn new() -> Program {
        let mut p = Program { session: Session::new(), modules: Vec::new(), next: 0 };
        let root = p.fresh();
        p.modules.push(Module {
            id: root,
            path: Path { segments: Vec::new() },
            parent: None,
            items: Vec::new(),
            children: Vec::new(),
            imports: Vec::new(),
        });
        p
    }

    fn fresh(&mut self) -> NodeId {
        self.next += 1;
        NodeId(self.next)
    }

    fn sym(&mut self, text: &str) -> Symbol {
        self.session.intern(text)
    }

    fn ident(&mut self, text: &str) -> Ident {
        Ident { text: self.sym(text), span: SrcSpan::new(0, 1) }
    }

    fn path(&mut self, segments: &[&str]) -> Path {
        Path { segments: segments.iter().map(|s| self.ident(s)).collect() }
    }

    /// The index of the module at `segments`, creating it and its ancestors as needed.
    fn module(&mut self, segments: &[&str]) -> usize {
        let mut current = 0;
        for depth in 0..segments.len() {
            let name = self.sym(segments[depth]);
            let found = self.modules[current].children.iter().find_map(|child| {
                let idx = self.modules.iter().position(|m| m.id == *child).unwrap();
                (self.modules[idx].path.segments.last().unwrap().text == name).then_some(idx)
            });
            current = match found {
                Some(idx) => idx,
                None => {
                    let id = self.fresh();
                    let path = self.path(&segments[..=depth]);
                    let parent = self.modules[current].id;
                    self.modules.push(Module {
                        id,
                        path,
                        parent: Some(parent),
                        items: Vec::new(),
                        children: Vec::new(),
                        imports: Vec::new(),
                    });
                    self.modules[current].children.push(id);
                    self.modules.len() - 1
                }
            };
        }
        current
    }

    fn item(&mut self, module: &[&str], kind: &str, name: &str, public: bool) -> NodeId {
        let m = self.module(module);
        let id = self.fresh();
        let decl = ItemDecl {
            name: self.ident(name),
            visibility: if public { Visibility::Public } else { Visibility::Private },
        };
        let kind = match kind {
            "fun" => ItemKind::Function(decl),
            "struct" => ItemKind::Struct(decl),
            "enum" => ItemKind::Enum(decl),
            "trait" => ItemKind::Trait(decl),
            _ => ItemKind::Extend,
        };
        self.modules[m].items.push(Item { id, kind });
        id
    }

    fn import(&mut self, module: &[&str], path: &[&str], alias: Option<&str>, glob: bool) {
        let m = self.module(module);
        let path = self.path(path);
        let alias = alias.map(|a| self.ident(a));
        self.modules[m].imports.push(Import { path, alias, glob, span: SrcSpan::new(0, 1) });
    }

    fn finish(self) -> (Session, Ast) {
        (self.session, Ast { modules: self.modules })
    }
}

fn module_by_path(ast: &Ast, table: &SymbolTable, session: &Session, segments: &[&str]) -> Option<NodeId> {
    let mut current = ast.root_id();
    for seg in segments {
        current = table.lookup_mod(current, session.find(seg)?)?;
    }
    Some(current)
}

fn ident(session: &mut Session, text: &str) -> Ident {
    Ident { text: session.intern(text), span: SrcSpan::new(0, 1) }
}

fn path_in(session: &mut Session, segments: &[&str]) -> Path {
    Path { segments: segments.iter().map(|s| ident(session, s)).collect() }
}

fn messages(table: &SymbolTable) -> Vec<String> {
    table.diagnostics().iter().map(|d| d.message.clone()).collect()
}

// ----------------------------------------------------------------------------------------------
// NameResolutions

fn simple_path(p: &mut Program, segments: &[&str]) -> Path {
    p.path(segments)
}

#[test]
fn get_returns_the_entry_matching_the_path() {
    let mut p = Program::new();
    let mut r = NameResolutions::new();
    let owner = p.fresh();
    let target = p.fresh();
    let vec_path = simple_path(&mut p, &["Vec"]);
    let show_path = simple_path(&mut p, &["Show"]);
    r.record(owner, vec_path.clone(), Res::Error);
    r.record(owner, show_path.clone(), Res::Local(Local::Param(target)));
    assert_eq!(r.get(owner, &show_path), Some(Res::Local(Local::Param(target))));
    assert_eq!(r.get(owner, &vec_path), Some(Res::Error));
}

#[test]
fn get_is_none_for_a_path_the_node_does_not_own() {
    let mut p = Program::new();
    let mut r = NameResolutions::new();
    let owner = p.fresh();
    let vec_path = simple_path(&mut p, &["Vec"]);
    r.record(owner, vec_path, Res::Error);
    assert_eq!(r.get(owner, &simple_path(&mut p, &["Show"])), None);
}

#[test]
fn get_is_none_for_a_node_with_no_entries() {
    let mut p = Program::new();
    let r = NameResolutions::new();
    let owner = p.fresh();
    assert_eq!(r.get(owner, &simple_path(&mut p, &["Vec"])), None);
}

#[test]
fn entries_are_returned_in_the_order_recorded() {
    let mut p = Program::new();
    let mut r = NameResolutions::new();
    let owner = p.fresh();
    let a = simple_path(&mut p, &["a"]);
    let b = simple_path(&mut p, &["b"]);
    r.record(owner, a.clone(), Res::Error);
    r.record(owner, b.clone(), Res::Error);
    let got: Vec<Vec<Ident>> = r.entries(owner).iter().map(|(p, _)| p.segments.clone()).collect();
    assert_eq!(got, vec![a.segments, b.segments]);
}

#[test]
fn entries_is_empty_for_an_unrecorded_node() {
    let mut p = Program::new();
    let r = NameResolutions::new();
    assert!(r.entries(p.fresh()).is_empty());
}

#[test]
fn a_node_with_three_recorded_paths_retrieves_all_three() {
    let mut p = Program::new();
    let mut r = NameResolutions::new();
    let owner = p.fresh();
    let a = simple_path(&mut p, &["a"]);
    let b = simple_path(&mut p, &["b"]);
    let c = simple_path(&mut p, &["c"]);
    r.record(owner, a.clone(), Res::Error);
    r.record(owner, b.clone(), Res::Error);
    r.record(owner, c.clone(), Res::Error);
    assert_eq!(r.get(owner, &a), Some(Res::Error));
    assert_eq!(r.get(owner, &b), Some(Res::Error));
    assert_eq!(r.get(owner, &c), Some(Res::Error));
    let got: Vec<Vec<Ident>> = r.entries(owner).iter().map(|(p, _)| p.segments.clone()).collect();
    assert_eq!(got, vec![a.segments, b.segments, c.segments]);
}

// ----------------------------------------------------------------------------------------------
// Collecting declarations

#[test]
fn collect_puts_a_function_in_the_value_namespace() {
    let mut p = Program::new();
    p.item(&[], "fun", "f", false);
    let (session, ast) = p.finish();
    let table = SymbolTable::collect(&session, &ast);
    assert!(table.lookup_function(ast.root_id(), session.find("f").unwrap()).is_some());
}

#[test]
fn collect_puts_a_struct_in_the_type_namespace() {
    let mut p = Program::new();
    p.item(&[], "struct", "S", false);
    let (session, ast) = p.finish();
    let table = SymbolTable::collect(&session, &ast);
    assert!(matches!(table.lookup_type(ast.root_id(), session.find("S").unwrap()), Some(TyDef::Struct(_))));
}

#[test]
fn collect_keeps_a_trait_and_an_enum_apart_by_tydef_kind() {
    let mut p = Program::new();
    p.item(&[], "enum", "E", false);
    p.item(&[], "trait", "T", false);
    let (session, ast) = p.finish();
    let table = SymbolTable::collect(&session, &ast);
    assert!(matches!(table.lookup_type(ast.root_id(), session.find("E").unwrap()), Some(TyDef::Enum(_))));
    assert!(matches!(table.lookup_type(ast.root_id(), session.find("T").unwrap()), Some(TyDef::Trait(_))));
}

#[test]
fn two_declarations_of_one_name_in_one_namespace_conflict() {
    let mut p = Program::new();
    p.item(&[], "fun", "f", false);
    p.item(&[], "fun", "f", false);
    let (session, ast) = p.finish();
    let table = SymbolTable::collect(&session, &ast);
    let diags = messages(&table);
    assert_eq!(diags.len(), 1);
    assert!(diags[0].contains("is defined multiple times"));
}

#[test]
fn by_path_maps_a_canonical_path_to_its_module() {
    let mut p = Program::new();
    p.item(&["math", "vector"], "fun", "dot", false);
    let (session, ast) = p.finish();
    let table = SymbolTable::collect(&session, &ast);
    assert!(module_by_path(&ast, &table, &session, &["math", "vector"]).is_some());
}

// ----------------------------------------------------------------------------------------------
// Imports

#[test]
fn an_import_binds_into_the_importing_modules_own_scope() {
    let mut p = Program::new();
    p.item(&["math"], "fun", "dot", true);
    p.import(&["app"], &["math", "dot"], None, false);
    let (session, ast) = p.finish();
    let table = SymbolTable::new(&session, &ast);
    let app = module_by_path(&ast, &table, &session, &["app"]).unwrap();
    assert!(table.lookup_function(app, session.find("dot").unwrap()).is_some());
}

#[test]
fn an_import_resolves_absolutely_from_the_root_not_relative_to_where_it_is_written() {
    let mut p = Program::new();
    p.item(&["deep"], "fun", "inner", true);
    p.import(&["app", "nested"], &["deep", "inner"], None, false);
    let (session, ast) = p.finish();
    let table = SymbolTable::new(&session, &ast);
    let nested = module_by_path(&ast, &table, &session, &["app", "nested"]).unwrap();
    assert!(table.lookup_function(nested, session.find("inner").unwrap()).is_some());
}

#[test]
fn an_import_may_name_a_module_the_collect_pass_had_not_reached() {
    let mut p = Program::new();
    p.import(&["app"], &["later", "thing"], None, false);
    p.item(&["later"], "fun", "thing", true);
    let (session, ast) = p.finish();
    let table = SymbolTable::new(&session, &ast);
    assert!(messages(&table).is_empty(), "unexpected diagnostics: {:?}", messages(&table));
    let app = module_by_path(&ast, &table, &session, &["app"]).unwrap();
    assert!(table.lookup_function(app, session.find("thing").unwrap()).is_some());
}

#[test]
fn a_glob_import_copies_every_name_from_the_source_module() {
    let mut p = Program::new();
    p.item(&["math"], "fun", "dot", true);
    p.item(&["math"], "struct", "Vec2", true);
    p.import(&["app"], &["math", "*"], None, true);
    let (mut session, mut ast) = p.finish();
    glob_paths(&mut session, &mut ast);
    let table = SymbolTable::new(&session, &ast);
    let app = module_by_path(&ast, &table, &session, &["app"]).unwrap();
    assert!(table.lookup_function(app, session.find("dot").unwrap()).is_some());
    assert!(table.lookup_type(app, session.find("Vec2").unwrap()).is_some());
}

/// A glob import's path names its source module: `import math::*;` is `math` with `glob` set.
fn glob_paths(_session: &mut Session, ast: &mut Ast) {
    for module in ast.modules.iter_mut() {
        for import in module.imports.iter_mut() {
            if import.glob {
                import.path.segments.pop();
            }
        }
    }
}

#[test]
fn a_glob_import_colliding_with_a_declaration_conflicts() {
    let mut p = Program::new();
    p.item(&["math"], "fun", "dot", true);
    p.import(&["app"], &["math", "*"], None, true);
    p.item(&["app"], "fun", "dot", false);
    let (mut session, mut ast) = p.finish();
    glob_paths(&mut session, &mut ast);
    let table = SymbolTable::new(&session, &ast);
    let diags = messages(&table);
    assert_eq!(diags.len(), 1);
    assert!(diags[0].contains("is defined multiple times"));
}

#[test]
fn an_import_matching_two_namespaces_is_ambiguous() {
    let mut p = Program::new();
    p.item(&["math"], "fun", "thing", true);
    p.item(&["math"], "struct", "thing", true);
    p.import(&["app"], &["math", "thing"], None, false);
    let (session, ast) = p.finish();
    let table = SymbolTable::new(&session, &ast);
    assert!(messages(&table).iter().any(|m| m.contains("ambiguous import")));
}

#[test]
fn an_import_naming_nothing_reports_not_found() {
    let mut p = Program::new();
    p.import(&["app"], &["nowhere", "gone"], None, false);
    let (session, ast) = p.finish();
    let table = SymbolTable::new(&session, &ast);
    let diags = messages(&table);
    assert_eq!(diags.len(), 1);
    assert!(diags[0].contains("cannot find"));
}

#[test]
fn the_prelude_is_found_after_imports_resolve() {
    let mut p = Program::new();
    p.item(&["core", "prelude"], "fun", "print", true);
    p.item(&["core", "option"], "enum", "Option", true);
    p.import(&["core", "prelude"], &["core", "option", "Option"], None, false);
    let (session, ast) = p.finish();
    let table = SymbolTable::new(&session, &ast);
    assert!(table.prelude().is_some());
}

#[test]
fn the_prelude_is_none_without_a_core_library() {
    let mut p = Program::new();
    p.item(&[], "fun", "main", false);
    let (session, ast) = p.finish();
    let table = SymbolTable::new(&session, &ast);
    assert!(table.prelude().is_none());
}

#[test]
fn a_glob_import_does_not_copy_a_private_name() {
    let mut p = Program::new();
    p.item(&["math"], "fun", "secret", false);
    p.import(&["app"], &["math", "*"], None, true);
    let (mut session, mut ast) = p.finish();
    glob_paths(&mut session, &mut ast);
    let table = SymbolTable::new(&session, &ast);
    let app = module_by_path(&ast, &table, &session, &["app"]).unwrap();
    assert!(table.lookup_function(app, session.find("secret").unwrap()).is_none());
}

#[test]
fn a_glob_import_sees_names_a_later_glob_brings_in() {
    let mut p = Program::new();
    p.import(&["a"], &["b", "*"], None, true);
    p.import(&["b"], &["c", "*"], None, true);
    p.item(&["c"], "fun", "f", true);
    let (mut session, mut ast) = p.finish();
    glob_paths(&mut session, &mut ast);
    let table = SymbolTable::new(&session, &ast);
    let a = module_by_path(&ast, &table, &session, &["a"]).unwrap();
    assert!(table.lookup_function(a, session.find("f").unwrap()).is_some());
}

#[test]
fn an_aliased_import_binds_under_the_alias_only() {
    let mut p = Program::new();
    p.item(&["math"], "fun", "dot", true);
    p.import(&["app"], &["math", "dot"], Some("scalar_product"), false);
    let (session, ast) = p.finish();
    let table = SymbolTable::new(&session, &ast);
    let app = module_by_path(&ast, &table, &session, &["app"]).unwrap();
    assert!(table.lookup_function(app, session.find("scalar_product").unwrap()).is_some());
    assert!(table.lookup_function(app, session.find("dot").unwrap()).is_none());
}

#[test]
fn two_glob_imports_colliding_on_a_name_conflict() {
    let mut p = Program::new();
    p.item(&["a"], "fun", "thing", true);
    p.item(&["b"], "fun", "thing", true);
    p.import(&["app"], &["a", "*"], None, true);
    p.import(&["app"], &["b", "*"], None, true);
    let (mut session, mut ast) = p.finish();
    glob_paths(&mut session, &mut ast);
    let table = SymbolTable::new(&session, &ast);
    let diags = messages(&table);
    assert_eq!(diags.len(), 1);
    assert!(diags[0].contains("is defined multiple times"));
}

#[test]
fn a_private_item_is_not_importable_from_an_unrelated_module() {
    let mut p = Program::new();
    p.item(&["math"], "fun", "secret", false);
    p.import(&["app"], &["math", "secret"], None, false);
    let (session, ast) = p.finish();
    let table = SymbolTable::new(&session, &ast);
    assert!(!messages(&table).is_empty());
    let app = module_by_path(&ast, &table, &session, &["app"]).unwrap();
    assert!(table.lookup_function(app, session.find("secret").unwrap()).is_none());
}

#[test]
fn a_function_and_a_struct_of_the_same_name_do_not_conflict() {
    let mut p = Program::new();
    p.item(&["app"], "fun", "Point", false);
    p.item(&["app"], "struct", "Point", false);
    let (session, ast) = p.finish();
    let table = SymbolTable::new(&session, &ast);
    assert!(messages(&table).is_empty());
}

#[test]
fn a_function_and_a_submodule_of_the_same_name_do_not_conflict() {
    let mut p = Program::new();
    p.item(&["app"], "fun", "helper", false);
    p.item(&["app", "helper"], "fun", "f", false);
    let (session, ast) = p.finish();
    let table = SymbolTable::new(&session, &ast);
    assert!(messages(&table).is_empty());
}

#[test]
fn two_unrelated_modules_may_each_declare_a_function_of_the_same_name() {
    let mut p = Program::new();
    p.item(&["a"], "fun", "helper", false);
    p.item(&["b"], "fun", "helper", false);
    let (session, ast) = p.finish();
    let table = SymbolTable::new(&session, &ast);
    assert!(messages(&table).is_empty());
}

// ----------------------------------------------------------------------------------------------
// Lexical stacks

fn main_only() -> (Session, Ast, Program) {
    let mut p = Program::new();
    p.item(&[], "fun", "main", false);
    let ids = Program { session: Session::new(), modules: Vec::new(), next: 1000 };
    let (session, ast) = p.finish();
    (session, ast, ids)
}

#[test]
fn a_local_shadows_an_outer_one_and_the_outer_is_restored_on_pop() {
    let (mut session, ast, mut ids) = main_only();
    let outer = ids.fresh();
    let inner = ids.fresh();
    let x_ident = ident(&mut session, "x");
    let x = x_ident.text;
    let mut t = SymbolTable::new(&session, &ast);
    t.push_scope();
    t.insert_local(x_ident, Local::Variable(outer));
    assert_eq!(t.lookup_local(x), Some(Local::Variable(outer)));
    t.push_scope();
    t.insert_local(x_ident, Local::Variable(inner));
    assert_eq!(t.lookup_local(x), Some(Local::Variable(inner)));
    t.pop_scope();
    assert_eq!(t.lookup_local(x), Some(Local::Variable(outer)));
    t.pop_scope();
    assert_eq!(t.lookup_local(x), None);
}

#[test]
fn rebinding_in_one_scope_overwrites_rather_than_conflicting() {
    let (mut session, ast, mut ids) = main_only();
    let first = ids.fresh();
    let second = ids.fresh();
    let x_ident = ident(&mut session, "x");
    let mut t = SymbolTable::new(&session, &ast);
    t.push_scope();
    t.insert_local(x_ident, Local::Variable(first));
    t.insert_local(x_ident, Local::Variable(second));
    assert_eq!(t.lookup_local(x_ident.text), Some(Local::Variable(second)));
}

#[test]
fn a_generic_is_visible_inside_its_definition_and_not_outside() {
    let (mut session, ast, mut ids) = main_only();
    let g = ids.fresh();
    let name = session.intern("T");
    let mut t = SymbolTable::new(&session, &ast);
    t.push_generics();
    t.insert_generic(name, Type::Generic(g));
    assert_eq!(t.lookup_generic(name), Some(Type::Generic(g)));
    t.pop_generics();
    assert_eq!(t.lookup_generic(name), None);
}

#[test]
fn an_inner_generic_scope_shadows_an_outer_one() {
    let (mut session, ast, mut ids) = main_only();
    let outer = ids.fresh();
    let inner = ids.fresh();
    let name = session.intern("T");
    let mut t = SymbolTable::new(&session, &ast);
    t.push_generics();
    t.insert_generic(name, Type::Generic(outer));
    t.push_generics();
    t.insert_generic(name, Type::Generic(inner));
    assert_eq!(t.lookup_generic(name), Some(Type::Generic(inner)));
    t.pop_generics();
    assert_eq!(t.lookup_generic(name), Some(Type::Generic(outer)));
}

#[test]
fn self_reads_the_innermost_scope_and_is_none_when_the_stack_is_empty() {
    let (session, ast, mut ids) = main_only();
    let s = ids.fresh();
    let mut t = SymbolTable::new(&session, &ast);
    assert_eq!(t.lookup_self(), None);
    t.insert_self(Type::Def(TyDef::Struct(s)));
    assert_eq!(t.lookup_self(), Some(Type::Def(TyDef::Struct(s))));
    t.pop_self();
    assert_eq!(t.lookup_self(), None);
}

#[test]
fn pushing_generics_leaves_locals_and_self_untouched() {
    let (mut session, ast, mut ids) = main_only();
    let local = ids.fresh();
    let self_def = Type::Def(TyDef::Struct(ids.fresh()));
    let x_ident = ident(&mut session, "x");
    let t_name = session.intern("T");
    let generic = ids.fresh();
    let mut t = SymbolTable::new(&session, &ast);
    t.push_scope();
    t.insert_local(x_ident, Local::Variable(local));
    t.insert_self(self_def);
    t.push_generics();
    t.insert_generic(t_name, Type::Generic(generic));
    assert_eq!(t.lookup_local(x_ident.text), Some(Local::Variable(local)));
    assert_eq!(t.lookup_self(), Some(self_def));
    t.pop_generics();
    assert_eq!(t.lookup_local(x_ident.text), Some(Local::Variable(local)));
    assert_eq!(t.lookup_self(), Some(self_def));
}

#[test]
fn pushing_a_local_scope_or_self_leaves_generics_untouched() {
    let (mut session, ast, mut ids) = main_only();
    let name = session.intern("T");
    let g = ids.fresh();
    let x_ident = ident(&mut session, "x");
    let local = ids.fresh();
    let s = ids.fresh();
    let mut t = SymbolTable::new(&session, &ast);
    t.push_generics();
    t.insert_generic(name, Type::Generic(g));
    t.push_scope();
    t.insert_local(x_ident, Local::Variable(local));
    assert_eq!(t.lookup_generic(name), Some(Type::Generic(g)));
    t.pop_scope();
    t.insert_self(Type::Def(TyDef::Struct(s)));
    assert_eq!(t.lookup_generic(name), Some(Type::Generic(g)));
    t.pop_self();
    assert_eq!(t.lookup_generic(name), Some(Type::Generic(g)));
}

// ----------------------------------------------------------------------------------------------
// Path lookups

#[test]
fn a_sibling_item_resolves_without_qualification() {
    let mut p = Program::new();
    p.item(&["app"], "fun", "helper", false);
    p.item(&["app"], "fun", "main", false);
    let (mut session, ast) = p.finish();
    let helper = path_in(&mut session, &["helper"]);
    let table = SymbolTable::new(&session, &ast);
    let app = module_by_path(&ast, &table, &session, &["app"]).unwrap();
    assert!(matches!(table.lookup_value_path(app, &helper), Some(Res::Function(_))));
}

#[test]
fn a_name_falls_back_to_an_ancestor_module() {
    let mut p = Program::new();
    p.item(&["app"], "fun", "shared", true);
    p.item(&["app", "inner"], "fun", "main", false);
    let (mut session, ast) = p.finish();
    let shared = path_in(&mut session, &["shared"]);
    let table = SymbolTable::new(&session, &ast);
    let inner = module_by_path(&ast, &table, &session, &["app", "inner"]).unwrap();
    assert!(table.lookup_value_path(inner, &shared).is_some());
}

#[test]
fn a_fully_qualified_path_resolves_from_anywhere() {
    let mut p = Program::new();
    p.item(&["math", "vector"], "fun", "dot", true);
    p.item(&["app", "deep"], "fun", "main", false);
    let (mut session, ast) = p.finish();
    let dot = path_in(&mut session, &["math", "vector", "dot"]);
    let table = SymbolTable::new(&session, &ast);
    let deep = module_by_path(&ast, &table, &session, &["app", "deep"]).unwrap();
    assert!(table.lookup_value_path(deep, &dot).is_some());
}

#[test]
fn a_primitive_resolves_before_anything_else_in_type_position() {
    let (mut session, ast, _) = main_only();
    let i32_path = path_in(&mut session, &["i32"]);
    let mut table = SymbolTable::new(&session, &ast);
    assert_eq!(table.lookup_type_path(ast.root_id(), &i32_path), Res::Type(Type::Prim(PrimTy::I32)));
}

#[test]
fn a_generic_shadows_a_module_level_type() {
    let mut p = Program::new();
    p.item(&["app"], "struct", "T", false);
    let g = p.fresh();
    let (mut session, ast) = p.finish();
    let t_path = path_in(&mut session, &["T"]);
    let t_name = t_path.segments[0].text;
    let mut table = SymbolTable::new(&session, &ast);
    let app = module_by_path(&ast, &table, &session, &["app"]).unwrap();
    table.push_generics();
    table.insert_generic(t_name, Type::Generic(g));
    assert_eq!(table.lookup_type_path(app, &t_path), Res::Type(Type::Generic(g)));
    table.pop_generics();
    assert!(matches!(table.lookup_type_path(app, &t_path), Res::Type(Type::Def(TyDef::Struct(_)))));
}

#[test]
fn a_local_shadows_a_module_level_function_in_value_position() {
    let mut p = Program::new();
    p.item(&["app"], "fun", "x", false);
    let local = p.fresh();
    let (mut session, ast) = p.finish();
    let x_path = path_in(&mut session, &["x"]);
    let mut table = SymbolTable::new(&session, &ast);
    let app = module_by_path(&ast, &table, &session, &["app"]).unwrap();
    table.push_scope();
    table.insert_local(x_path.segments[0], Local::Variable(local));
    assert_eq!(table.lookup_value_path(app, &x_path), Some(Res::Local(Local::Variable(local))));
}

#[test]
fn a_multi_segment_path_walks_submodules_then_looks_up_the_last_segment() {
    let mut p = Program::new();
    p.item(&["app"], "fun", "main", false);
    p.item(&["app", "inner"], "struct", "S", true);
    let (mut session, ast) = p.finish();
    let s_path = path_in(&mut session, &["inner", "S"]);
    let mut table = SymbolTable::new(&session, &ast);
    let app = module_by_path(&ast, &table, &session, &["app"]).unwrap();
    assert!(matches!(table.lookup_type_path(app, &s_path), Res::Type(Type::Def(TyDef::Struct(_)))));
}

#[test]
fn an_unresolvable_path_is_none() {
    let (mut session, ast, _) = main_only();
    let nope = path_in(&mut session, &["nope"]);
    let table = SymbolTable::new(&session, &ast);
    assert!(table.lookup_value_path(ast.root_id(), &nope).is_none());
}

#[test]
fn a_bare_trait_path_in_type_position_resolves_to_a_trait() {
    let mut p = Program::new();
    p.item(&["app"], "trait", "Show", false);
    let (mut session, ast) = p.finish();
    let show = path_in(&mut session, &["Show"]);
    let mut table = SymbolTable::new(&session, &ast);
    let app = module_by_path(&ast, &table, &session, &["app"]).unwrap();
    assert!(matches!(table.lookup_type_path(app, &show), Res::Type(Type::Def(TyDef::Trait(_)))));
}

#[test]
fn dyn_on_a_trait_resolves() {
    let mut p = Program::new();
    p.item(&["app"], "trait", "Show", false);
    let (mut session, ast) = p.finish();
    let show = path_in(&mut session, &["Show"]);
    let mut table = SymbolTable::new(&session, &ast);
    let app = module_by_path(&ast, &table, &session, &["app"]).unwrap();
    assert!(matches!(table.lookup_dyn_path(app, &show), Res::Type(Type::Def(TyDef::Trait(_)))));
}

#[test]
fn dyn_on_a_struct_errors() {
    let mut p = Program::new();
    p.item(&["app"], "struct", "S", false);
    let (mut session, ast) = p.finish();
    let s = path_in(&mut session, &["S"]);
    let mut table = SymbolTable::new(&session, &ast);
    let app = module_by_path(&ast, &table, &session, &["app"]).unwrap();
    let before = table.diagnostics().len();
    let res = table.lookup_dyn_path(app, &s);
    assert_eq!(res, Res::Error);
    let diags = messages(&table);
    assert_eq!(diags.len() - before, 1);
    assert!(diags[before].contains("`dyn` requires a trait"));
}

#[test]
fn self_outside_a_definition_errors() {
    let (session, ast, _) = main_only();
    let mut table = SymbolTable::new(&session, &ast);
    assert_eq!(table.lookup_self_res(SrcSpan::new(0, 4)), Res::Error);
    let diags = messages(&table);
    assert_eq!(diags.len(), 1);
    assert!(diags[0].contains("`Self` is not available here"));
}

#[test]
fn an_unresolvable_type_path_reports_not_found_and_records_err() {
    let (mut session, ast, _) = main_only();
    let missing = path_in(&mut session, &["Missing"]);
    let mut table = SymbolTable::new(&session, &ast);
    assert_eq!(table.lookup_type_path(ast.root_id(), &missing), Res::Error);
    let diags = messages(&table);
    assert_eq!(diags, vec!["cannot find `Missing` in this scope".to_string()]);
}
