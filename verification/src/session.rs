//! The interner that maps each [`Symbol`] to the text it was interned from.

use vstd::prelude::*;
use crate::ast::Symbol;
use crate::support::str_eq;

verus! {

/// Owns the interned spellings; a [`Symbol`] is an index into them.
pub struct Session {
    names: Vec<String>,
}

impl View for Session {
    type V = Seq<Seq<char>>;

    closed spec fn view(&self) -> Seq<Seq<char>> {
        self.names@.map_values(|s: String| s@)
    }
}

impl Session {
    /// Whether every symbol up to the interner's size is distinct in spelling.
    pub open spec fn wf(&self) -> bool {
        forall|i: int, j: int| 0 <= i < j < self@.len() ==> self@[i] != self@[j]
    }

    /// Whether `sym` was handed out by this session.
    pub open spec fn has(&self, sym: Symbol) -> bool {
        (sym.0 as int) < self@.len()
    }

    /// The text `sym` stands for.
    pub open spec fn text(&self, sym: Symbol) -> Seq<char> {
        self@[sym.0 as int]
    }

    pub fn new() -> (s: Session)
        ensures
            s@ == Seq::<Seq<char>>::empty(),
            s.wf(),
    {
        Session { names: Vec::new() }
    }

    /// Interns `text`, returning the symbol it already had or a fresh one.
    pub fn intern(&mut self, text: &str) -> (sym: Symbol)
        requires
            old(self).wf(),
            old(self)@.len() < u32::MAX,
        ensures
            final(self).wf(),
            final(self).has(sym),
            final(self).text(sym) == text@,
            old(self)@.is_prefix_of(final(self)@),
            final(self)@.len() <= old(self)@.len() + 1,
    {
        match self.find(text) {
            Some(sym) => sym,
            None => {
                let ghost before = self@;
                let n = self.names.len();
                self.names.push(text.to_owned());
                assert(self@ =~= before.push(text@));
                Symbol(n as u32)
            },
        }
    }

    /// The symbol `text` was interned as, if it ever was.
    pub open spec fn symbol_of(&self, text: Seq<char>) -> Option<Symbol> {
        if exists|i: int| 0 <= i < self@.len() && self@[i] == text {
            Some(Symbol((choose|i: int| 0 <= i < self@.len() && self@[i] == text) as u32))
        } else {
            None
        }
    }

    /// The symbol `text` was interned as, if it ever was.
    pub fn find(&self, text: &str) -> (r: Option<Symbol>)
        requires
            self@.len() <= u32::MAX,
        ensures
            self.wf() ==> r == self.symbol_of(text@),
            match r {
                Some(sym) => self.has(sym) && self.text(sym) == text@,
                None => forall|i: int| 0 <= i < self@.len() ==> self@[i] != text@,
            },
    {
        let mut i: usize = 0;
        while i < self.names.len()
            invariant
                i <= self.names@.len(),
                self@.len() == self.names@.len(),
                self.names@.len() <= u32::MAX,
                forall|j: int| 0 <= j < i ==> self@[j] != text@,
            decreases self.names@.len() - i,
        {
            if str_eq(self.names[i].as_str(), text) {
                proof {
                    if self.wf() {
                        let c = choose|c: int| 0 <= c < self@.len() && self@[c] == text@;
                        assert(self@[i as int] == text@);
                        if c != i {
                            if c < i { assert(self@[c] != self@[i as int]); } else { assert(self@[i as int] != self@[c]); }
                        }
                    }
                }
                return Some(Symbol(i as u32));
            }
            i = i + 1;
        }
        None
    }

    /// The text `sym` was interned from.
    pub fn resolve(&self, sym: Symbol) -> (s: &str)
        requires
            self.has(sym),
        ensures
            s@ == self.text(sym),
    {
        self.names[sym.0 as usize].as_str()
    }

    pub fn len(&self) -> (n: usize)
        ensures
            n == self@.len(),
    {
        self.names.len()
    }
}

/// Interning a text and resolving the symbol gives the text back, and interning it again gives
/// the same symbol.
pub proof fn law_intern_round_trip(s1: Session, s2: Session, text: Seq<char>, first: Symbol, second: Symbol)
    requires
        s1.wf(),
        s2.wf(),
        s1.has(first),
        s1.text(first) == text,
        s1@.is_prefix_of(s2@),
        s2.has(second),
        s2.text(second) == text,
    ensures
        first == second,
{
    assert(s2@[first.0 as int] == s1@[first.0 as int]);
}

} // verus!
