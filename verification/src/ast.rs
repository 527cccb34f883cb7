//! The module tree name resolution runs over: modules, their items and their imports.

use vstd::prelude::*;

verus! {

/// Identifies one AST node: a module or an item.
#[derive(Clone, Copy, Debug, PartialEq, Eq, Structural)]
pub struct NodeId(pub u32);

/// An interned name; see [`crate::session::Session`].
#[derive(Clone, Copy, Debug, PartialEq, Eq, Structural)]
pub struct Symbol(pub u32);

/// A byte range of the source.
#[derive(Clone, Copy, Debug, PartialEq, Eq, Structural)]
pub struct SrcSpan {
    pub lo: u32,
    pub hi: u32,
}

impl SrcSpan {
    pub fn new(lo: u32, hi: u32) -> (s: SrcSpan)
        ensures
            s.lo == lo,
            s.hi == hi,
    {
        SrcSpan { lo, hi }
    }
}

/// A name as written, with where it was written.
#[derive(Clone, Copy, Debug, PartialEq, Eq, Structural)]
pub struct Ident {
    pub text: Symbol,
    pub span: SrcSpan,
}

/// A `::`-separated path such as `math::vector::dot`.
#[derive(Clone, Debug)]
pub struct Path {
    pub segments: Vec<Ident>,
}

impl Path {
    /// The span from the first segment to the last.
    pub fn span(&self) -> (s: SrcSpan)
        requires
            self.segments@.len() > 0,
        ensures
            s.lo == self.segments@[0].span.lo,
            s.hi == self.segments@.last().span.hi,
    {
        let n = self.segments.len();
        SrcSpan { lo: self.segments[0].span.lo, hi: self.segments[n - 1].span.hi }
    }
}

#[derive(Clone, Copy, Debug, PartialEq, Eq, Structural)]
pub enum Visibility {
    Public,
    Private,
}

#[derive(Clone, Copy, Debug, PartialEq, Eq, Structural)]
pub enum Mutability {
    Mutable,
    Immutable,
}

#[derive(Clone, Copy, Debug, PartialEq, Eq, Structural)]
pub enum BinaryOp {
    Add,
    Sub,
    Mul,
    Div,
    Rem,
    Eq,
    Ne,
    Lt,
    Le,
    Gt,
    Ge,
    And,
    Or,
}

#[derive(Clone, Copy, Debug, PartialEq, Eq, Structural)]
pub enum UnaryOp {
    Neg,
    Not,
}

/// The name and visibility every named item carries.
#[derive(Clone, Copy, Debug, PartialEq, Eq, Structural)]
pub struct ItemDecl {
    pub name: Ident,
    pub visibility: Visibility,
}

#[derive(Clone, Copy, Debug, PartialEq, Eq, Structural)]
pub enum ItemKind {
    Function(ItemDecl),
    Struct(ItemDecl),
    Enum(ItemDecl),
    Trait(ItemDecl),
    /// An `extend` block, which carries no name.
    Extend,
    /// An item the parser could not make sense of.
    Error,
}

#[derive(Clone, Copy, Debug, PartialEq, Eq, Structural)]
pub struct Item {
    pub id: NodeId,
    pub kind: ItemKind,
}

/// `import a::b;`, `import a::b as c;` or `import a::*;`.
#[derive(Clone, Debug)]
pub struct Import {
    pub path: Path,
    pub alias: Option<Ident>,
    pub glob: bool,
    pub span: SrcSpan,
}

/// One module: its canonical path, parent, items, submodules and imports.
#[derive(Clone, Debug)]
pub struct Module {
    pub id: NodeId,
    pub path: Path,
    pub parent: Option<NodeId>,
    pub items: Vec<Item>,
    pub children: Vec<NodeId>,
    pub imports: Vec<Import>,
}

/// The whole program's module tree. `modules[0]` is the crate root.
#[derive(Clone, Debug)]
pub struct Ast {
    pub modules: Vec<Module>,
}

/// The index of the module whose id is `id`, if one is.
pub open spec fn module_index_of(mods: Seq<Module>, id: NodeId) -> Option<int> {
    if exists|i: int| 0 <= i < mods.len() && mods[i].id == id {
        Some(choose|i: int| 0 <= i < mods.len() && mods[i].id == id)
    } else {
        None
    }
}

impl Ast {
    /// The shape the passes rely on: module ids are distinct, the root comes first and has no
    /// parent, every other module's parent comes before it, every import names a nonempty path,
    /// and every child a module lists comes after it and names it as parent.
    pub open spec fn wf(&self) -> bool {
        let mods = self.modules@;
        &&& mods.len() > 0
        &&& mods.len() < u32::MAX
        &&& mods[0].parent is None
        &&& forall|i: int, j: int| 0 <= i < j < mods.len() ==> mods[i].id != mods[j].id
        &&& forall|i: int|
            #![trigger mods[i].parent]
            0 < i < mods.len() ==> (exists|j: int|
                0 <= j < i && mods[i].parent == Some(#[trigger] mods[j].id))
        &&& forall|i: int, k: int|
            0 <= i < mods.len() && 0 <= k < mods[i].imports@.len() ==> (#[trigger] mods[i].imports@[k]).path.segments@.len() > 0
        &&& forall|i: int, k: int|
            0 <= i < mods.len() && 0 <= k < mods[i].children@.len() ==> exists|j: int|
                i < j < mods.len() && mods[j].id == #[trigger] mods[i].children@[k]
                    && mods[j].parent == Some(mods[i].id) && mods[j].path.segments@.len() > 0
    }

    /// Every module but the root is listed among the submodules of an earlier module, as a
    /// parsed module tree is.
    #[verifier::opaque]
    pub open spec fn children_complete(&self) -> bool {
        let mods = self.modules@;
        forall|i: int|
            #![trigger mods[i].id]
            0 < i < mods.len() ==> (exists|j: int, k: int|
                0 <= j < i && 0 <= k < mods[j].children@.len() && #[trigger] mods[j].children@[k] == mods[i].id)
    }

    pub open spec fn index_of(&self, id: NodeId) -> Option<int> {
        module_index_of(self.modules@, id)
    }

    pub open spec fn parent_of(&self, id: NodeId) -> Option<NodeId> {
        match self.index_of(id) {
            Some(i) => self.modules@[i].parent,
            None => None,
        }
    }

    pub fn root_id(&self) -> (id: NodeId)
        requires
            self.wf(),
        ensures
            id == self.modules@[0].id,
    {
        self.modules[0].id
    }

    /// The index of the module `id` names.
    pub fn module_index(&self, id: NodeId) -> (r: Option<usize>)
        requires
            self.wf(),
        ensures
            r matches Some(i) ==> i < self.modules@.len() && self.modules@[i as int].id == id,
            r is None ==> forall|i: int| 0 <= i < self.modules@.len() ==> self.modules@[i].id != id,
            r == (match self.index_of(id) { Some(i) => Some(i as usize), None => None }),
    {
        let mut i: usize = 0;
        while i < self.modules.len()
            invariant
                self.wf(),
                i <= self.modules@.len(),
                forall|j: int| 0 <= j < i ==> self.modules@[j].id != id,
            decreases self.modules@.len() - i,
        {
            if self.modules[i].id == id {
                assert(self.modules@[i as int].id == id);
                let ghost c = choose|k: int| 0 <= k < self.modules@.len() && self.modules@[k].id == id;
                assert(c == i) by {
                    if c != i as int {
                        if c < i as int {
                        } else {
                            assert(self.modules@[i as int].id != self.modules@[c].id);
                        }
                    }
                }
                return Some(i);
            }
            i = i + 1;
        }
        None
    }

    /// The module enclosing `id`, or `None` for the root or for an id that names no module.
    pub fn parent(&self, id: NodeId) -> (r: Option<NodeId>)
        requires
            self.wf(),
        ensures
            r == self.parent_of(id),
    {
        match self.module_index(id) {
            Some(i) => self.modules[i].parent,
            None => None,
        }
    }
}

/// The module at index `j` is the one its id names.
pub proof fn lemma_index_of(ast: Ast, j: int)
    requires
        ast.wf(),
        0 <= j < ast.modules@.len(),
    ensures
        ast.index_of(ast.modules@[j].id) == Some(j),
{
    let id = ast.modules@[j].id;
    let c = choose|c: int| 0 <= c < ast.modules@.len() && ast.modules@[c].id == id;
    if c != j {
        if c < j {
            assert(ast.modules@[c].id != ast.modules@[j].id);
        } else {
            assert(ast.modules@[j].id != ast.modules@[c].id);
        }
    }
}

/// The `k`th child of module `i` is a module after `i` with a nonempty path.
/// An id the AST indexes names the module at that index.
pub proof fn lemma_index_of_in(ast: Ast, id: NodeId)
    requires
        ast.index_of(id) is Some,
    ensures
        0 <= ast.index_of(id)->0 < ast.modules@.len(),
        ast.modules@[ast.index_of(id)->0].id == id,
{
}

pub proof fn lemma_child(ast: Ast, i: int, k: int) -> (j: int)
    requires
        ast.wf(),
        0 <= i < ast.modules@.len(),
        0 <= k < ast.modules@[i].children@.len(),
    ensures
        i < j < ast.modules@.len(),
        ast.modules@[j].id == ast.modules@[i].children@[k],
        ast.index_of(ast.modules@[i].children@[k]) == Some(j),
        ast.modules@[j].path.segments@.len() > 0,
        ast.modules@[j].parent == Some(ast.modules@[i].id),
{
    let j = choose|j: int|
        i < j < ast.modules@.len() && ast.modules@[j].id == #[trigger] ast.modules@[i].children@[k]
            && ast.modules@[j].parent == Some(ast.modules@[i].id) && ast.modules@[j].path.segments@.len() > 0;
    lemma_index_of(ast, j);
    j
}

} // verus!
