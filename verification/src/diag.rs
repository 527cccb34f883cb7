//! A diagnostic a pass reports: its message, where it points, and optional advice.

use vstd::prelude::*;
use crate::ast::SrcSpan;

verus! {

#[derive(Clone, Debug)]
pub struct Diagnostic {
    pub message: String,
    pub span: SrcSpan,
    pub label: Option<String>,
    pub help: Option<String>,
}

impl Diagnostic {
    /// An error with `message` at `span`, and neither label nor help.
    pub fn error(message: String, span: SrcSpan) -> (d: Diagnostic)
        ensures
            d.message@ == message@,
            d.span == span,
            d.label is None,
            d.help is None,
    {
        Diagnostic { message, span, label: None, help: None }
    }

    pub fn with_label(self, label: &str) -> (d: Diagnostic)
        ensures
            d.message@ == self.message@,
            d.span == self.span,
            d.label matches Some(l) && l@ == label@,
            d.help == self.help,
    {
        Diagnostic { message: self.message, span: self.span, label: Some(label.to_owned()), help: self.help }
    }

    pub fn with_help(self, help: &str) -> (d: Diagnostic)
        ensures
            d.message@ == self.message@,
            d.span == self.span,
            d.label == self.label,
            d.help matches Some(h) && h@ == help@,
    {
        Diagnostic { message: self.message, span: self.span, label: self.label, help: Some(help.to_owned()) }
    }
}

/// `prefix`, then `middle`, then `suffix`, as one string.
pub fn concat3(prefix: &str, middle: &str, suffix: &str) -> (s: String)
    ensures
        s@ == prefix@ + middle@ + suffix@,
{
    let mut s = String::from_str(prefix);
    s.append(middle);
    s.append(suffix);
    s
}

/// `diags` are the `expected` (message, span) pairs, one for one and in order.
pub open spec fn matches_reports(diags: Seq<Diagnostic>, expected: Seq<(Seq<char>, SrcSpan)>) -> bool {
    &&& diags.len() == expected.len()
    &&& forall|i: int| 0 <= i < diags.len() ==> (#[trigger] diags[i]).message@ == expected[i].0 && diags[i].span == expected[i].1
}

pub proof fn lemma_matches_concat(d1: Seq<Diagnostic>, e1: Seq<(Seq<char>, SrcSpan)>, d2: Seq<Diagnostic>, e2: Seq<(Seq<char>, SrcSpan)>)
    requires
        matches_reports(d1, e1),
        matches_reports(d2, e2),
    ensures
        matches_reports(d1 + d2, e1 + e2),
{
    assert forall|i: int| 0 <= i < (d1 + d2).len() implies (#[trigger] (d1 + d2)[i]).message@ == (e1 + e2)[i].0 && (d1 + d2)[i].span == (e1 + e2)[i].1 by {
        if i < d1.len() {
        } else {
            assert((d1 + d2)[i] == d2[i - d1.len()]);
        }
    }
}

/// `out` grew from `start` to `mid` to its end; the two appended runs make one.
pub proof fn lemma_append_runs(start: Seq<Diagnostic>, mid: Seq<Diagnostic>, end: Seq<Diagnostic>)
    requires
        mid.len() >= start.len(),
        end.len() >= mid.len(),
        mid.take(start.len() as int) == start,
        end.take(mid.len() as int) == mid,
    ensures
        end.take(start.len() as int) == start,
        end.skip(start.len() as int) == mid.skip(start.len() as int) + end.skip(mid.len() as int),
{
    assert(end.take(start.len() as int) =~= start) by {
        assert forall|i: int| 0 <= i < start.len() implies end[i] == start[i] by {
            assert(end.take(mid.len() as int)[i] == end[i]);
            assert(mid.take(start.len() as int)[i] == mid[i]);
        }
    }
    assert(end.skip(start.len() as int) =~= mid.skip(start.len() as int) + end.skip(mid.len() as int)) by {
        assert forall|i: int| 0 <= i < end.len() - start.len() implies end.skip(start.len() as int)[i] == (mid.skip(start.len() as int) + end.skip(mid.len() as int))[i] by {
            if i < mid.len() - start.len() {
                assert(end.take(mid.len() as int)[start.len() + i] == end[start.len() + i]);
            }
        }
    }
}

} // verus!
