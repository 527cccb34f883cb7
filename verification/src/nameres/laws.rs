//! What name resolution promises across calls: scopes nest, shadow and unwind.

use vstd::prelude::*;
use crate::ast::Symbol;
use crate::nameres::symbol_table::{assoc_put_ok, stack_get};
use crate::support::assoc_get;

verus! {

/// Looking a name up right after binding it in the innermost scope finds that binding.
pub proof fn law_lookup_after_insert<V>(before: Seq<Seq<(Symbol, V)>>, after: Seq<Seq<(Symbol, V)>>, name: Symbol, value: V)
    requires
        before.len() > 0,
        after.len() == before.len(),
        after.drop_last() == before.drop_last(),
        assoc_put_ok(before.last(), after.last(), name, value),
    ensures
        stack_get(after, name) == Some(value),
{
    assert(assoc_get(after.last(), name) == Some(value));
}

/// Binding a name in the innermost scope changes the lookup of no other name.
pub proof fn law_insert_leaves_other_names<V>(before: Seq<Seq<(Symbol, V)>>, after: Seq<Seq<(Symbol, V)>>, name: Symbol, value: V, other: Symbol)
    requires
        before.len() > 0,
        after.len() == before.len(),
        after.drop_last() == before.drop_last(),
        assoc_put_ok(before.last(), after.last(), name, value),
        other != name,
    ensures
        stack_get(after, other) == stack_get(before, other),
{
    assert(assoc_get(after.last(), other) == assoc_get(before.last(), other));
}

/// An inner scope's binding shadows every outer one, and a name it does not bind is looked up
/// further out.
pub proof fn law_inner_scope_shadows<V>(outer: Seq<Seq<(Symbol, V)>>, inner: Seq<(Symbol, V)>, name: Symbol)
    ensures
        stack_get(outer.push(inner), name) == match assoc_get(inner, name) {
            Some(v) => Some(v),
            None => stack_get(outer, name),
        },
{
    assert(outer.push(inner).drop_last() =~= outer);
}

/// Pushing a scope, binding names in it, then popping it restores every lookup to what it was
/// before the push.
pub proof fn law_pop_restores<V>(
    before: Seq<Seq<(Symbol, V)>>,
    pushed: Seq<Seq<(Symbol, V)>>,
    filled: Seq<Seq<(Symbol, V)>>,
    popped: Seq<Seq<(Symbol, V)>>,
    name: Symbol,
)
    requires
        pushed == before.push(Seq::empty()),
        filled.len() == pushed.len(),
        filled.drop_last() == pushed.drop_last(),
        popped == filled.drop_last(),
    ensures
        popped == before,
        stack_get(popped, name) == stack_get(before, name),
{
    assert(pushed.drop_last() =~= before);
}

/// Binding a name twice in one scope keeps the second binding, rather than reporting a
/// conflict or keeping the first.
pub proof fn law_rebinding_overwrites<V>(s0: Seq<(Symbol, V)>, s1: Seq<(Symbol, V)>, s2: Seq<(Symbol, V)>, name: Symbol, first: V, second: V)
    requires
        assoc_put_ok(s0, s1, name, first),
        assoc_put_ok(s1, s2, name, second),
    ensures
        assoc_get(s2, name) == Some(second),
{
    assert(assoc_get(s2, name) == Some(second));
}

} // verus!
