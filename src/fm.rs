use vstd::prelude::*;
use dashmap::DashSet;
use rustc_hash::FxBuildHasher;

verus! {

/// Dense identity of a discovered file.
#[derive(Copy, Clone, Debug, PartialEq, Eq, Hash, Structural)]
pub struct FileId(pub u32);

#[verifier::external_type_specification]
#[verifier::external_body]
#[verifier::reject_recursive_types(K)]
#[verifier::reject_recursive_types(S)]
pub struct ExDashSet<K, S>(DashSet<K, S>);

#[verifier::external_type_specification]
#[verifier::external_body]
pub struct ExFxBuildHasher(FxBuildHasher);

/// The paths that a concurrent set holds.
pub uninterp spec fn seen_contents(s: DashSet<String, FxBuildHasher>) -> Set<Seq<char>>;

/// Relies on `DashSet::default`: a new set is empty.
#[verifier::external_body]
fn new_path_set() -> (r: DashSet<String, FxBuildHasher>)
    ensures
        seen_contents(r) == Set::<Seq<char>>::empty(),
{
    DashSet::default()
}

/// Relies on `DashSet::insert`: the key is added, and the result tells
/// whether it was absent before.
#[verifier::external_body]
fn insert_path(s: &mut DashSet<String, FxBuildHasher>, key: String) -> (r: bool)
    ensures
        r == !seen_contents(*old(s)).contains(key@),
        seen_contents(*final(s)) == seen_contents(*old(s)).insert(key@),
{
    s.insert(key)
}

/// The canonical paths already scanned.
pub struct SeenPaths {
    set: DashSet<String, FxBuildHasher>,
}

impl SeenPaths {
    pub closed spec fn view(&self) -> Set<Seq<char>> {
        seen_contents(self.set)
    }

    pub fn new() -> (r: SeenPaths)
        ensures
            r.view() == Set::<Seq<char>>::empty(),
    {
        SeenPaths { set: new_path_set() }
    }

    /// Records a canonical path; true iff it was not recorded before.
    pub fn mark_seen(&mut self, canonical: String) -> (r: bool)
        ensures
            r == !old(self).view().contains(canonical@),
            final(self).view() == old(self).view().insert(canonical@),
    {
        insert_path(&mut self.set, canonical)
    }
}

/// The answers of `mark_seen` to the paths, one after the other, starting
/// from the recorded set `s`.
pub open spec fn marks(s: Set<Seq<char>>, paths: Seq<Seq<char>>) -> Seq<bool>
    decreases paths.len(),
{
    if paths.len() == 0 {
        seq![]
    } else {
        marks(s, paths.drop_last()).push(
            !s.union(paths.drop_last().to_set()).contains(paths.last()),
        )
    }
}

/// Over any sequence of paths, `mark_seen` answers true exactly at the
/// first occurrence of a path not recorded before; so scanning the same
/// tree twice registers each path once, and never in the second pass.
pub proof fn lemma_scan_once(s: Set<Seq<char>>, paths: Seq<Seq<char>>)
    ensures
        marks(s, paths).len() == paths.len(),
        forall|i: int|
            0 <= i < paths.len() ==> (#[trigger] marks(s, paths)[i] <==> (!s.contains(paths[i])
                && forall|j: int| 0 <= j < i ==> paths[j] != paths[i])),
        forall|i: int|
            paths.len() <= i < 2 * paths.len() ==> !#[trigger] marks(s, paths + paths)[i],
    decreases paths.len(),
{
    lemma_marks_first(s, paths);
    lemma_marks_first(s, paths + paths);
    assert forall|i: int| paths.len() <= i < 2 * paths.len() implies !#[trigger] marks(
        s,
        paths + paths,
    )[i] by {
        let j = i - paths.len();
        assert((paths + paths)[j] == (paths + paths)[i]);
    }
}

proof fn lemma_marks_first(s: Set<Seq<char>>, paths: Seq<Seq<char>>)
    ensures
        marks(s, paths).len() == paths.len(),
        forall|i: int|
            0 <= i < paths.len() ==> (#[trigger] marks(s, paths)[i] <==> (!s.contains(paths[i])
                && forall|j: int| 0 <= j < i ==> paths[j] != paths[i])),
    decreases paths.len(),
{
    if paths.len() > 0 {
        let init = paths.drop_last();
        lemma_marks_first(s, init);
        assert forall|i: int|
            0 <= i < paths.len() implies (#[trigger] marks(s, paths)[i] <==> (!s.contains(paths[i])
            && forall|j: int| 0 <= j < i ==> paths[j] != paths[i])) by {
            if i < paths.len() - 1 {
                assert(marks(s, paths)[i] == marks(s, init)[i]);
                assert forall|j: int| 0 <= j < i implies paths[j] == init[j] by {}
                assert(paths[i] == init[i]);
            } else {
                let p = paths.last();
                if init.to_set().contains(p) {
                    let j = choose|j: int| 0 <= j < init.len() && init[j] == p;
                    assert(paths[j] == p);
                }
                if exists|j: int| 0 <= j < i && paths[j] == p {
                    let j = choose|j: int| 0 <= j < i && paths[j] == p;
                    assert(init[j] == p);
                    assert(init.to_set().contains(p));
                }
            }
        }
    }
}

} // verus!
