//! The names of definitions as later passes print them: each definition's own sanitized leaf
//! name, and the chain of leaf names from the root module down to it.

use vstd::prelude::*;
use crate::hir::{DefId, Hir, OwnerNode};
use crate::session::Session;

verus! {

/// The decimal digits `'0'..='9'`, indexed by value.
pub open spec fn digit_char(d: nat) -> char {
    "0123456789"@[d as int]
}

/// `n` written in decimal, without leading zeros.
pub open spec fn decimal(n: nat) -> Seq<char>
    decreases n,
{
    if n < 10 {
        seq![digit_char(n)]
    } else {
        decimal(n / 10).push(digit_char(n % 10))
    }
}

/// ASCII letters and digits, and `_`, are kept by sanitizing; everything else becomes `_`.
pub open spec fn is_name_char(c: char) -> bool {
    ('0' <= c && c <= '9') || ('a' <= c && c <= 'z') || ('A' <= c && c <= 'Z') || c == '_'
}

pub open spec fn sanitize(s: Seq<char>) -> Seq<char> {
    s.map_values(|c: char| if is_name_char(c) { c } else { '_' })
}

/// Every name a definition of `hir` carries is interned in `session`.
pub open spec fn names_interned(session: Session, hir: Hir) -> bool {
    forall|d: int|
        0 <= d < hir.defs@.len() ==> match #[trigger] hir.defs@[d] {
            OwnerNode::Module(m) => forall|k: int|
                0 <= k < m.path.segments@.len() ==> session.has(#[trigger] m.path.segments@[k].text),
            OwnerNode::Function(f) => session.has(f.name.text),
            OwnerNode::Struct(s) => session.has(s.name.text),
            OwnerNode::Enum(e) => session.has(e.name.text),
            OwnerNode::Trait(t) => session.has(t.name.text),
            _ => true,
        }
}

/// A definition's name before sanitizing: a module's last path segment (`crate` for the root),
/// an item's own name, and `extend{index}` or `closure{index}` for the nameless ones.
pub open spec fn raw_name(session: Session, hir: Hir, d: int) -> Seq<char> {
    match hir.defs@[d] {
        OwnerNode::Module(m) => if m.path.segments@.len() == 0 {
            "crate"@
        } else {
            session.text(m.path.segments@.last().text)
        },
        OwnerNode::Function(f) => session.text(f.name.text),
        OwnerNode::Struct(s) => session.text(s.name.text),
        OwnerNode::Enum(e) => session.text(e.name.text),
        OwnerNode::Trait(t) => session.text(t.name.text),
        OwnerNode::Extend(_) => "extend"@ + decimal(d as nat),
        OwnerNode::Closure => "closure"@ + decimal(d as nat),
    }
}

pub open spec fn leaf_name(session: Session, hir: Hir, d: int) -> Seq<char> {
    sanitize(raw_name(session, hir, d))
}

/// The leaf names from the root down to `d`, `d`'s own last.
pub open spec fn ancestry(session: Session, hir: Hir, d: int) -> Seq<Seq<char>>
    decreases d,
{
    if d < 0 || d >= hir.parents@.len() {
        Seq::empty()
    } else {
        match hir.parents@[d] {
            Some(p) => if p.0 < d {
                ancestry(session, hir, p.0 as int).push(leaf_name(session, hir, d))
            } else {
                seq![leaf_name(session, hir, d)]
            },
            None => seq![leaf_name(session, hir, d)],
        }
    }
}

/// A definition's path ends in its own leaf name, and a definition without a parent is its
/// own whole path.
pub proof fn law_path_ends_in_leaf(session: Session, hir: Hir, d: int)
    requires
        0 <= d < hir.parents@.len(),
    ensures
        ancestry(session, hir, d).len() > 0,
        ancestry(session, hir, d).last() == leaf_name(session, hir, d),
        hir.parents@[d] is None ==> ancestry(session, hir, d) == seq![leaf_name(session, hir, d)],
{
}

pub struct DefNames {
    leaf: Vec<String>,
    ancestor_path: Vec<Vec<String>>,
}

impl DefNames {
    pub closed spec fn len(&self) -> nat {
        self.leaf@.len()
    }

    pub closed spec fn leaf_of(&self, d: int) -> Seq<char> {
        self.leaf@[d]@
    }

    pub closed spec fn path_of(&self, d: int) -> Seq<Seq<char>> {
        self.ancestor_path@[d]@.map_values(|s: String| s@)
    }

    pub fn leaf(&self, def: DefId) -> (s: &str)
        requires
            def.0 < self.len(),
        ensures
            s@ == self.leaf_of(def.0 as int),
    {
        self.leaf[def.index()].as_str()
    }

    pub fn ancestor_path(&self, def: DefId) -> (p: &[String])
        requires
            def.0 < self.len(),
            self.wf(),
        ensures
            p@.map_values(|s: String| s@) == self.path_of(def.0 as int),
    {
        self.ancestor_path[def.index()].as_slice()
    }

    pub closed spec fn wf(&self) -> bool {
        self.ancestor_path@.len() == self.leaf@.len()
    }
}

/// Appends `n` in decimal to `s`.
fn push_decimal(s: &mut String, n: usize)
    ensures
        final(s)@ == old(s)@ + decimal(n as nat),
    decreases n,
{
    if n >= 10 {
        push_decimal(s, n / 10);
    }
    let digits = "0123456789";
    proof {
        reveal_strlit("0123456789");
    }
    let d = n % 10;
    s.append(digits.substring_char(d, d + 1));
    proof {
        assert(digits@.subrange(d as int, d + 1) =~= seq![digit_char(d as nat)]);
        if n >= 10 {
            assert(decimal(n as nat) == decimal((n / 10) as nat).push(digit_char((n % 10) as nat)));
        }
    }
    assert(s@ =~= old(s)@ + decimal(n as nat));
}

/// `s` with every character other than an ASCII letter, an ASCII digit or `_` replaced by `_`.
pub fn replace_non_alphanumeric_chars(s: &str) -> (r: String)
    ensures
        r@ == sanitize(s@),
{
    let n = s.unicode_len();
    let mut r = String::new();
    let mut i: usize = 0;
    proof {
        reveal_strlit("_");
    }
    while i < n
        invariant
            n == s@.len(),
            i <= n,
            r@ == sanitize(s@.take(i as int)),
        decreases n - i,
    {
        proof {
            reveal_strlit("_");
        }
        let c = s.get_char(i);
        let keep = ('0' <= c && c <= '9') || ('a' <= c && c <= 'z') || ('A' <= c && c <= 'Z') || c == '_';
        if keep {
            let one = s.substring_char(i, i + 1);
            assert(one@ =~= seq![c]);
            r.append(one);
        } else {
            r.append("_");
        }
        assert(sanitize(s@.take(i + 1)) =~= sanitize(s@.take(i as int)).push(if is_name_char(c) { c } else { '_' }));
        i = i + 1;
    }
    assert(s@.take(n as int) =~= s@);
    r
}

/// The name of definition `d` before sanitizing.
fn def_name(session: &Session, hir: &Hir, def: DefId) -> (r: String)
    requires
        def.0 < hir.defs@.len(),
        names_interned(*session, *hir),
    ensures
        r@ == raw_name(*session, *hir, def.0 as int),
{
    proof {
        reveal_strlit("crate");
        reveal_strlit("extend");
        reveal_strlit("closure");
    }
    let ghost d = def.0 as int;
    assert(match hir.defs@[d] {
        OwnerNode::Module(m) => forall|k: int|
            0 <= k < m.path.segments@.len() ==> session.has(#[trigger] m.path.segments@[k].text),
        OwnerNode::Function(f) => session.has(f.name.text),
        OwnerNode::Struct(s) => session.has(s.name.text),
        OwnerNode::Enum(e) => session.has(e.name.text),
        OwnerNode::Trait(t) => session.has(t.name.text),
        _ => true,
    });
    match hir.def(def) {
        OwnerNode::Module(m) => {
            let k = m.path.segments.len();
            if k == 0 {
                String::from_str("crate")
            } else {
                String::from_str(session.resolve(m.path.segments[k - 1].text))
            }
        },
        OwnerNode::Function(f) => String::from_str(session.resolve(f.name.text)),
        OwnerNode::Struct(x) => String::from_str(session.resolve(x.name.text)),
        OwnerNode::Enum(e) => String::from_str(session.resolve(e.name.text)),
        OwnerNode::Trait(t) => String::from_str(session.resolve(t.name.text)),
        OwnerNode::Extend(_) => {
            let mut s = String::from_str("extend");
            push_decimal(&mut s, def.index());
            s
        },
        OwnerNode::Closure => {
            let mut s = String::from_str("closure");
            push_decimal(&mut s, def.index());
            s
        },
    }
}

fn copy_strings(v: &Vec<String>) -> (r: Vec<String>)
    ensures
        r@.map_values(|s: String| s@) == v@.map_values(|s: String| s@),
{
    let mut r: Vec<String> = Vec::new();
    let mut i: usize = 0;
    while i < v.len()
        invariant
            i <= v@.len(),
            r@.map_values(|s: String| s@) == v@.take(i as int).map_values(|s: String| s@),
        decreases v@.len() - i,
    {
        r.push(String::from_str(v[i].as_str()));
        assert(v@.take(i + 1).map_values(|s: String| s@) =~= v@.take(i as int).map_values(|s: String| s@).push(v@[i as int]@));
        i = i + 1;
        assert(r@.map_values(|s: String| s@) =~= v@.take(i as int).map_values(|s: String| s@));
    }
    assert(v@.take(v@.len() as int) =~= v@);
    r
}

/// The leaf name and the root-to-definition path of every definition of `hir`.
pub fn collect_def_names(session: &Session, hir: &Hir) -> (names: DefNames)
    requires
        hir.wf(),
        names_interned(*session, *hir),
    ensures
        names.wf(),
        names.len() == hir.defs@.len(),
        forall|d: int| 0 <= d < hir.defs@.len() ==> #[trigger] names.leaf_of(d) == leaf_name(*session, *hir, d),
        forall|d: int| 0 <= d < hir.defs@.len() ==> #[trigger] names.path_of(d) == ancestry(*session, *hir, d),
{
    let n = hir.len();
    let mut leaf: Vec<String> = Vec::new();
    let mut i: usize = 0;
    while i < n
        invariant
            n == hir.defs@.len(),
            hir.wf(),
            names_interned(*session, *hir),
            i <= n,
            leaf@.len() == i,
            forall|d: int| 0 <= d < i ==> (#[trigger] leaf@[d])@ == leaf_name(*session, *hir, d),
        decreases n - i,
    {
        let raw = def_name(session, hir, DefId(i as u32));
        leaf.push(replace_non_alphanumeric_chars(raw.as_str()));
        i = i + 1;
    }
    let mut paths: Vec<Vec<String>> = Vec::new();
    let mut d: usize = 0;
    while d < n
        invariant
            n == hir.defs@.len(),
            hir.wf(),
            d <= n,
            leaf@.len() == n,
            forall|k: int| 0 <= k < n ==> (#[trigger] leaf@[k])@ == leaf_name(*session, *hir, k),
            paths@.len() == d,
            forall|k: int| 0 <= k < d ==> (#[trigger] paths@[k])@.map_values(|s: String| s@) == ancestry(*session, *hir, k),
        decreases n - d,
    {
        // The chain is built from `d` upwards, then reversed.
        let mut chain: Vec<String> = Vec::new();
        let mut current: Option<DefId> = Some(DefId(d as u32));
        let ghost mut rest: int = d as int;
        while current.is_some()
            invariant
                n == hir.defs@.len(),
                hir.wf(),
                d < n,
                leaf@.len() == n,
                forall|k: int| 0 <= k < n ==> (#[trigger] leaf@[k])@ == leaf_name(*session, *hir, k),
                match current {
                    Some(c) => c.0 < n && c.0 == rest && ancestry(*session, *hir, d as int)
                        == ancestry(*session, *hir, rest) + chain@.map_values(|s: String| s@).reverse(),
                    None => ancestry(*session, *hir, d as int) == chain@.map_values(|s: String| s@).reverse(),
                },
            decreases (match current { Some(c) => c.0 as int + 1, None => 0 }),
        {
            let id = current.unwrap();
            chain.push(String::from_str(leaf[id.index()].as_str()));
            let next = hir.parent(id);
            proof {
                let r = rest;
                let old_chain = chain@.drop_last().map_values(|s: String| s@);
                assert(chain@.map_values(|s: String| s@) =~= old_chain.push(leaf_name(*session, *hir, r)));
                assert(chain@.map_values(|s: String| s@).reverse() =~= seq![leaf_name(*session, *hir, r)] + old_chain.reverse());
                match next {
                    Some(p) => {
                        assert(p.0 < r);
                        assert(ancestry(*session, *hir, r) == ancestry(*session, *hir, p.0 as int).push(leaf_name(*session, *hir, r)));
                        assert(ancestry(*session, *hir, p.0 as int) + chain@.map_values(|s: String| s@).reverse()
                            =~= ancestry(*session, *hir, r) + old_chain.reverse());
                        rest = p.0 as int;
                    },
                    None => {
                        assert(ancestry(*session, *hir, r) == seq![leaf_name(*session, *hir, r)]);
                        assert(chain@.map_values(|s: String| s@).reverse() =~= ancestry(*session, *hir, r) + old_chain.reverse());
                    },
                }
            }
            current = next;
        }
        let mut path: Vec<String> = Vec::new();
        let mut k: usize = chain.len();
        while k > 0
            invariant
                k <= chain@.len(),
                path@.map_values(|s: String| s@) == chain@.map_values(|s: String| s@).reverse().take(chain@.len() - k),
            decreases k,
        {
            k = k - 1;
            let ghost before = path@.map_values(|s: String| s@);
            let ghost rev = chain@.map_values(|s: String| s@).reverse();
            path.push(String::from_str(chain[k].as_str()));
            assert(rev[chain@.len() - k - 1] == chain@[k as int]@);
            assert(rev.take(chain@.len() - k) =~= rev.take(chain@.len() - k - 1).push(rev[chain@.len() - k - 1]));
            assert(path@.map_values(|s: String| s@) =~= before.push(chain@[k as int]@));
            assert(path@.map_values(|s: String| s@) =~= chain@.map_values(|s: String| s@).reverse().take(chain@.len() - k));
        }
        assert(chain@.map_values(|s: String| s@).reverse().take(chain@.len() as int) =~= chain@.map_values(|s: String| s@).reverse());
        paths.push(path);
        d = d + 1;
    }
    DefNames { leaf, ancestor_path: paths }
}

} // verus!
