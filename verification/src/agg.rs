//! The global aggregator: merges every file's class/identifier sets into
//! one global set, and computes added/removed deltas between snapshots so
//! the stylesheet is rewritten only when something actually changed.

use vstd::prelude::*;

use crate::cache::{DirCache, FileEntry};
use crate::strset::NameSet;

verus! {

/// The union of the class sets of the first `n` entries.
pub open spec fn classes_upto(entries: Seq<FileEntry>, n: int) -> Set<Seq<char>>
    decreases n,
{
    if n <= 0 {
        Set::<Seq<char>>::empty()
    } else {
        classes_upto(entries, n - 1) + entries[n - 1].classes@
    }
}

/// The union of the identifier sets of the first `n` entries.
pub open spec fn ids_upto(entries: Seq<FileEntry>, n: int) -> Set<Seq<char>>
    decreases n,
{
    if n <= 0 {
        Set::<Seq<char>>::empty()
    } else {
        ids_upto(entries, n - 1) + entries[n - 1].ids@
    }
}

/// The global class set of a cache: the union over all its entries.
pub open spec fn global_classes(entries: Seq<FileEntry>) -> Set<Seq<char>> {
    classes_upto(entries, entries.len() as int)
}

/// The global identifier set of a cache: the union over all its entries.
pub open spec fn global_ids(entries: Seq<FileEntry>) -> Set<Seq<char>> {
    ids_upto(entries, entries.len() as int)
}

/// Merges every file's contribution into the global class and identifier
/// sets. Set union is commutative and associative, so the merge does not
/// depend on any processing order.
pub fn calculate_global_classnames_and_ids(file_map: &DirCache) -> (r: (NameSet, NameSet))
    requires
        file_map.wf(),
    ensures
        r.0.wf(),
        r.0@ == global_classes(file_map.entries@),
        r.1.wf(),
        r.1@ == global_ids(file_map.entries@),
{
    let mut classes = NameSet::new();
    let mut ids = NameSet::new();
    let mut i: usize = 0;
    proof {
        assert(classes@ =~= classes_upto(file_map.entries@, 0));
        assert(ids@ =~= ids_upto(file_map.entries@, 0));
    }
    while i < file_map.entries.len()
        invariant
            file_map.wf(),
            i <= file_map.entries@.len(),
            classes.wf(),
            classes@ == classes_upto(file_map.entries@, i as int),
            ids.wf(),
            ids@ == ids_upto(file_map.entries@, i as int),
        decreases file_map.entries@.len() - i,
    {
        proof {
            file_map.lemma_entry_wf(i as int);
        }
        let merged_classes = classes.merge(&file_map.entries[i].classes);
        let merged_ids = ids.merge(&file_map.entries[i].ids);
        classes = merged_classes;
        ids = merged_ids;
        i += 1;
    }
    (classes, ids)
}

/// The added and removed deltas between the previous and next snapshot of
/// one set of names: how many names are new, and how many are gone.
pub fn delta_counts(older: &NameSet, newer: &NameSet) -> (r: (usize, usize))
    requires
        older.wf(),
        newer.wf(),
    ensures
        r.0 == newer@.difference(older@).len(),
        r.1 == older@.difference(newer@).len(),
{
    let added = newer.minus(older);
    let removed = older.minus(newer);
    (added.len(), removed.len())
}

/// Whether the stylesheet must be rewritten: the global sets differ from
/// the previous snapshot.
pub fn globals_changed(
    old_classes: &NameSet,
    old_ids: &NameSet,
    new_classes: &NameSet,
    new_ids: &NameSet,
) -> (r: bool)
    requires
        old_classes.wf(),
        old_ids.wf(),
        new_classes.wf(),
        new_ids.wf(),
    ensures
        r == !(new_classes@ == old_classes@ && new_ids@ == old_ids@),
{
    let same = new_classes.set_eq(old_classes) && new_ids.set_eq(old_ids);
    !same
}

proof fn lemma_classes_prefix_eq(a: Seq<FileEntry>, b: Seq<FileEntry>, n: int)
    requires
        0 <= n <= a.len(),
        n <= b.len(),
        forall|k: int| 0 <= k < n ==> a[k] == b[k],
    ensures
        classes_upto(a, n) == classes_upto(b, n),
    decreases n,
{
    if n > 0 {
        lemma_classes_prefix_eq(a, b, n - 1);
    }
}

proof fn lemma_classes_remove_union(a: Seq<FileEntry>, b: Seq<FileEntry>, idx: int, n: int)
    requires
        a.len() == b.len() + 1,
        0 <= idx <= n <= b.len(),
        forall|k: int| 0 <= k < idx ==> a[k] == b[k],
        forall|k: int| idx <= k < b.len() ==> a[k + 1] == b[k],
    ensures
        classes_upto(a, n + 1) == classes_upto(b, n) + a[idx].classes@,
    decreases n,
{
    if n == idx {
        lemma_classes_prefix_eq(a, b, idx);
        assert(classes_upto(a, n + 1) =~= classes_upto(b, n) + a[idx].classes@);
    } else {
        lemma_classes_remove_union(a, b, idx, n - 1);
        assert(a[n] == b[n - 1]);
        assert(classes_upto(a, n + 1) =~= classes_upto(b, n) + a[idx].classes@);
    }
}

/// Removing one file's entry removes from the global class set exactly that
/// file's classes that no other file still contributes: the removed delta
/// of the merge is the file's class set minus the union of the others.
pub proof fn lemma_removal_delta(a: Seq<FileEntry>, b: Seq<FileEntry>, idx: int)
    requires
        0 <= idx < a.len(),
        b.len() == a.len() - 1,
        forall|k: int| 0 <= k < idx ==> a[k] == b[k],
        forall|k: int| idx <= k < b.len() ==> a[k + 1] == b[k],
    ensures
        global_classes(a) == global_classes(b) + a[idx].classes@,
        global_classes(a).difference(global_classes(b)) == a[idx].classes@.difference(
            global_classes(b),
        ),
{
    lemma_classes_remove_union(a, b, idx, b.len() as int);
    assert(global_classes(a).difference(global_classes(b)) =~= a[idx].classes@.difference(
        global_classes(b),
    ));
}

} // verus!
