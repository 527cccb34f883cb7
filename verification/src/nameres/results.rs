//! The output of name resolution: for each node, the paths it owns and what each resolved to.

use std::collections::HashMap;

use smallvec::SmallVec;
use vstd::prelude::*;

use crate::ast::{NodeId, Path};
use crate::nameres::res::Res;

verus! {

broadcast use vstd::std_specs::hash::group_hash_axioms;

/// The (path, resolution) pairs one node owns, in recording order, kept inline for the usual
/// one or two.
#[verifier::external_body]
pub struct PathResList {
    inner: SmallVec<[(Path, Res); 2]>,
}

/// What a [`PathResList`] holds, in order.
pub uninterp spec fn path_res_items(list: PathResList) -> Seq<(Path, Res)>;

/// An empty list: `SmallVec::new`.
#[verifier::external_body]
fn path_res_new() -> (list: PathResList)
    ensures
        path_res_items(list) == Seq::<(Path, Res)>::empty(),
{
    PathResList { inner: SmallVec::new() }
}

/// Appends one pair: `SmallVec::push`, which panics only when the length would overflow.
#[verifier::external_body]
fn path_res_push(list: &mut PathResList, entry: (Path, Res))
    requires
        path_res_items(*old(list)).len() < usize::MAX,
    ensures
        path_res_items(*final(list)) == path_res_items(*old(list)).push(entry),
{
    list.inner.push(entry)
}

/// The pairs as a slice: `SmallVec::as_slice`.
#[verifier::external_body]
fn path_res_slice(list: &PathResList) -> (s: &[(Path, Res)])
    ensures
        s@ == path_res_items(*list),
{
    list.inner.as_slice()
}

/// Whether two paths are written identically, spans included.
pub fn path_eq(a: &Path, b: &Path) -> (r: bool)
    ensures
        r == (a.segments@ == b.segments@),
{
    let n = a.segments.len();
    if n != b.segments.len() {
        return false;
    }
    let mut i: usize = 0;
    while i < n
        invariant
            n == a.segments@.len(),
            n == b.segments@.len(),
            i <= n,
            forall|j: int| 0 <= j < i ==> a.segments@[j] == b.segments@[j],
        decreases n - i,
    {
        if a.segments[i] != b.segments[i] {
            return false;
        }
        i = i + 1;
    }
    assert(a.segments@ =~= b.segments@);
    true
}

/// The resolution of the first pair whose path is written as `path`.
pub open spec fn first_res(entries: Seq<(Path, Res)>, path: Seq<crate::ast::Ident>) -> Option<Res>
    decreases entries.len(),
{
    if entries.len() == 0 {
        None
    } else if entries[0].0.segments@ == path {
        Some(entries[0].1)
    } else {
        first_res(entries.drop_first(), path)
    }
}

pub struct NameResolutions {
    paths: HashMap<u32, PathResList>,
}

impl NameResolutions {
    /// The pairs `owner` owns, in the order they were recorded.
    pub closed spec fn entries_of(&self, owner: NodeId) -> Seq<(Path, Res)> {
        if self.paths@.contains_key(owner.0) {
            path_res_items(self.paths@[owner.0])
        } else {
            Seq::empty()
        }
    }

    pub fn new() -> (r: NameResolutions)
        ensures
            forall|owner: NodeId| r.entries_of(owner) == Seq::<(Path, Res)>::empty(),
    {
        NameResolutions { paths: HashMap::new() }
    }

    /// Records that `path`, owned by `owner`, resolved to `res`. A node owns each path once.
    pub fn record(&mut self, owner: NodeId, path: Path, res: Res)
        requires
            old(self).entries_of(owner).len() < usize::MAX,
            forall|i: int| 0 <= i < old(self).entries_of(owner).len()
                ==> (#[trigger] old(self).entries_of(owner)[i]).0.segments@ != path.segments@,
        ensures
            final(self).entries_of(owner) == old(self).entries_of(owner).push((path, res)),
            forall|other: NodeId| other != owner ==> final(self).entries_of(other) == old(self).entries_of(other),
    {
        let mut list = match self.paths.remove(&owner.0) {
            Some(list) => list,
            None => path_res_new(),
        };
        path_res_push(&mut list, (path, res));
        self.paths.insert(owner.0, list);
        proof {
            assert forall|other: NodeId| other != owner implies self.entries_of(other) == old(self).entries_of(other) by {
                assert(other.0 != owner.0);
            }
        }
    }

    /// What `path`, owned by `owner`, resolved to.
    pub fn get(&self, owner: NodeId, path: &Path) -> (r: Option<Res>)
        ensures
            r == first_res(self.entries_of(owner), path.segments@),
    {
        let list = match self.paths.get(&owner.0) {
            Some(list) => list,
            None => return None,
        };
        let entries = path_res_slice(list);
        assert(entries@.skip(0) =~= entries@);
        let mut i: usize = 0;
        while i < entries.len()
            invariant
                i <= entries@.len(),
                entries@ == self.entries_of(owner),
                first_res(entries@, path.segments@) == first_res(entries@.skip(i as int), path.segments@),
            decreases entries@.len() - i,
        {
            assert(entries@.skip(i as int).drop_first() =~= entries@.skip(i + 1));
            assert(entries@.skip(i as int)[0] == entries@[i as int]);
            if path_eq(&entries[i].0, path) {
                return Some(entries[i].1);
            }
            i = i + 1;
        }
        None
    }

    /// Every pair `owner` owns, in the order recorded; empty when it owns none.
    pub fn entries(&self, owner: NodeId) -> (r: &[(Path, Res)])
        ensures
            r@ == self.entries_of(owner),
    {
        match self.paths.get(&owner.0) {
            Some(list) => path_res_slice(list),
            None => &[],
        }
    }
}

} // verus!
