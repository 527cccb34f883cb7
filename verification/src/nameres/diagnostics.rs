//! The diagnostics AST-level name resolution reports.

use vstd::prelude::*;
use crate::ast::{Ident, SrcSpan};
use crate::diag::{concat3, Diagnostic};
use crate::session::Session;

verus! {

/// The message of a lookup that found nothing.
pub open spec fn not_found_message(name: Seq<char>) -> Seq<char> {
    "cannot find `"@ + name + "` in this scope"@
}

pub open spec fn conflict_message(name: Seq<char>) -> Seq<char> {
    "the name `"@ + name + "` is defined multiple times"@
}

pub open spec fn duplicate_bound_message(name: Seq<char>) -> Seq<char> {
    "duplicate bound `"@ + name + "`"@
}

pub open spec fn self_extend_message(name: Seq<char>) -> Seq<char> {
    "`extend` target and trait are the same type: `"@ + name + "`"@
}

pub open spec fn ambiguous_import_message(name: Seq<char>) -> Seq<char> {
    "ambiguous import: `"@ + name + "` refers to more than one item"@
}

pub open spec fn private_item_message(name: Seq<char>) -> Seq<char> {
    "`"@ + name + "` is private"@
}

pub open spec fn dyn_not_trait_message() -> Seq<char> {
    "`dyn` requires a trait"@
}

pub open spec fn self_unavailable_message() -> Seq<char> {
    "`Self` is not available here"@
}

pub fn report_not_found(session: &Session, name: Ident) -> (d: Diagnostic)
    requires
        session.has(name.text),
    ensures
        d.message@ == not_found_message(session.text(name.text)),
        d.span == name.span,
        d.label matches Some(l) && l@ == "not found in this scope"@,
        d.help is None,
{
    let text = session.resolve(name.text);
    let message = concat3("cannot find `", text, "` in this scope");
    proof {
        reveal_strlit("cannot find `");
        reveal_strlit("` in this scope");
        reveal_strlit("not found in this scope");
    }
    Diagnostic::error(message, name.span).with_label("not found in this scope")
}

pub fn report_conflict(session: &Session, name: Ident) -> (d: Diagnostic)
    requires
        session.has(name.text),
    ensures
        d.message@ == conflict_message(session.text(name.text)),
        d.span == name.span,
        d.label matches Some(l) && l@ == "redefined here"@,
        d.help matches Some(h) && h@ == "a name with the same spelling is already in scope"@,
{
    let text = session.resolve(name.text);
    let message = concat3("the name `", text, "` is defined multiple times");
    proof {
        reveal_strlit("the name `");
        reveal_strlit("` is defined multiple times");
    }
    Diagnostic::error(message, name.span).with_label("redefined here").with_help(
        "a name with the same spelling is already in scope",
    )
}

/// A generic parameter's bound list repeats the same path; only the first writing is kept.
pub fn report_duplicate_bound(session: &Session, name: Ident) -> (d: Diagnostic)
    requires
        session.has(name.text),
    ensures
        d.message@ == duplicate_bound_message(session.text(name.text)),
        d.span == name.span,
        d.label matches Some(l) && l@ == "already listed for this type parameter"@,
        d.help matches Some(h) && h@
            == "a bound only needs to be written once, even if satisfied redundantly"@,
{
    let text = session.resolve(name.text);
    let message = concat3("duplicate bound `", text, "`");
    proof {
        reveal_strlit("duplicate bound `");
        reveal_strlit("`");
    }
    Diagnostic::error(message, name.span).with_label("already listed for this type parameter").with_help(
        "a bound only needs to be written once, even if satisfied redundantly",
    )
}

/// An `extend` block whose target and trait name the same path.
pub fn report_self_extend(session: &Session, name: Ident) -> (d: Diagnostic)
    requires
        session.has(name.text),
    ensures
        d.message@ == self_extend_message(session.text(name.text)),
        d.span == name.span,
        d.label matches Some(l) && l@ == "names the same type as the `extend` target"@,
        d.help matches Some(h) && h@ == "a type cannot implement itself as a trait"@,
{
    let text = session.resolve(name.text);
    let message = concat3("`extend` target and trait are the same type: `", text, "`");
    proof {
        reveal_strlit("`extend` target and trait are the same type: `");
        reveal_strlit("`");
    }
    Diagnostic::error(message, name.span).with_label("names the same type as the `extend` target").with_help(
        "a type cannot implement itself as a trait",
    )
}

/// An import whose path matches more than one namespace at once.
pub fn report_ambiguous_import(session: &Session, name: Ident) -> (d: Diagnostic)
    requires
        session.has(name.text),
    ensures
        d.message@ == ambiguous_import_message(session.text(name.text)),
        d.span == name.span,
        d.label matches Some(l) && l@ == "ambiguous import"@,
        d.help matches Some(h) && h@
            == "this path matches more than one declaration; use a more specific path to disambiguate"@,
{
    let text = session.resolve(name.text);
    let message = concat3("ambiguous import: `", text, "` refers to more than one item");
    proof {
        reveal_strlit("ambiguous import: `");
        reveal_strlit("` refers to more than one item");
    }
    Diagnostic::error(message, name.span).with_label("ambiguous import").with_help(
        "this path matches more than one declaration; use a more specific path to disambiguate",
    )
}

/// An import that names only items the importing module may not see.
pub fn report_private_item(session: &Session, name: Ident) -> (d: Diagnostic)
    requires
        session.has(name.text),
    ensures
        d.message@ == private_item_message(session.text(name.text)),
        d.span == name.span,
        d.label matches Some(l) && l@ == "private item"@,
        d.help is None,
{
    let text = session.resolve(name.text);
    let message = concat3("`", text, "` is private");
    proof {
        reveal_strlit("`");
        reveal_strlit("` is private");
    }
    Diagnostic::error(message, name.span).with_label("private item")
}

/// `dyn` applied to something that is not a trait.
pub fn report_dyn_not_trait(span: SrcSpan) -> (d: Diagnostic)
    ensures
        d.message@ == dyn_not_trait_message(),
        d.span == span,
        d.label matches Some(l) && l@ == "not a trait"@,
        d.help matches Some(h) && h@
            == "`dyn` dispatches dynamically over a trait; a struct or enum is used directly"@,
{
    Diagnostic::error(String::from_str("`dyn` requires a trait"), span).with_label("not a trait").with_help(
        "`dyn` dispatches dynamically over a trait; a struct or enum is used directly",
    )
}

/// `Self` written outside any definition that introduces one.
pub fn report_self_unavailable(span: SrcSpan) -> (d: Diagnostic)
    ensures
        d.message@ == self_unavailable_message(),
        d.span == span,
        d.label matches Some(l) && l@ == "no enclosing struct, enum, trait, or `extend` block"@,
        d.help matches Some(h) && h@ == "`Self` names the definition it is written inside"@,
{
    Diagnostic::error(String::from_str("`Self` is not available here"), span).with_label(
        "no enclosing struct, enum, trait, or `extend` block",
    ).with_help("`Self` names the definition it is written inside")
}

} // verus!
