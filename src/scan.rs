//! Grouping the entries of a directory walk by byte length.
use crate::grouping::{add_file_path, lemma_members_contains, lemma_push_item, members, GroupMap, Item};
use vstd::prelude::*;

verus! {

/// One entry met while walking the directory trees.
pub struct FileEntry {
    /// The entry's path.
    pub path: String,
    /// Its byte length, as its metadata gives it.
    pub len: u64,
    /// Whether it is a regular file.
    pub is_file: bool,
}

/// Whether the entry takes part in the search: a regular file that is not
/// an empty one skipped on request.
pub open spec fn qualifies(e: FileEntry, ignore_empty: bool) -> bool {
    e.is_file && !(ignore_empty && e.len == 0)
}

/// The insertions of the size pass: each qualifying entry in walk order,
/// keyed by its length.
pub open spec fn size_items(entries: Seq<FileEntry>, ignore_empty: bool) -> Seq<Item>
    decreases entries.len(),
{
    if entries.len() == 0 {
        Seq::empty()
    } else {
        let rest = size_items(entries.drop_last(), ignore_empty);
        let e = entries.last();
        if qualifies(e, ignore_empty) {
            rest.push((e.len, e.path@))
        } else {
            rest
        }
    }
}

/// The size pass files `p` under `k` exactly when a qualifying entry has
/// that path and that length.
pub proof fn lemma_size_items_contains(entries: Seq<FileEntry>, ignore_empty: bool, k: u64, p: Seq<char>)
    ensures
        (exists|j: int|
            0 <= j < size_items(entries, ignore_empty).len() && #[trigger] size_items(
                entries,
                ignore_empty,
            )[j] == (k, p)) <==> exists|i: int|
            0 <= i < entries.len() && qualifies(#[trigger] entries[i], ignore_empty) && entries[i].len
                == k && entries[i].path@ == p,
    decreases entries.len(),
{
    if entries.len() > 0 {
        let init = entries.drop_last();
        let items = size_items(entries, ignore_empty);
        let rest = size_items(init, ignore_empty);
        lemma_size_items_contains(init, ignore_empty, k, p);
        if exists|j: int| 0 <= j < items.len() && #[trigger] items[j] == (k, p) {
            let j = choose|j: int| 0 <= j < items.len() && #[trigger] items[j] == (k, p);
            if j < rest.len() {
                assert(rest[j] == items[j]);
                let i = choose|i: int|
                    0 <= i < init.len() && qualifies(#[trigger] init[i], ignore_empty) && init[i].len
                        == k && init[i].path@ == p;
                assert(entries[i] == init[i]);
            } else {
                assert(entries[entries.len() - 1] == entries.last());
            }
        }
        if exists|i: int|
            0 <= i < entries.len() && qualifies(#[trigger] entries[i], ignore_empty) && entries[i].len
                == k && entries[i].path@ == p {
            let i = choose|i: int|
                0 <= i < entries.len() && qualifies(#[trigger] entries[i], ignore_empty)
                    && entries[i].len == k && entries[i].path@ == p;
            if i < entries.len() - 1 {
                assert(init[i] == entries[i]);
                let j = choose|j: int| 0 <= j < rest.len() && #[trigger] rest[j] == (k, p);
                assert(items[j] == rest[j]);
            } else {
                assert(items[items.len() - 1] == (k, p));
            }
        }
    }
}

/// Distinct regular files among `entries` have distinct paths.
pub open spec fn distinct_paths(entries: Seq<FileEntry>) -> bool {
    forall|i: int, j: int|
        0 <= i < entries.len() && 0 <= j < entries.len() && i != j && entries[i].is_file
            && entries[j].is_file ==> (#[trigger] entries[i]).path@ != (#[trigger] entries[j]).path@
}

/// Where paths are distinct, no size group lists a path twice.
pub proof fn lemma_size_group_no_duplicates(entries: Seq<FileEntry>, ignore_empty: bool, k: u64)
    requires
        distinct_paths(entries),
    ensures
        members(size_items(entries, ignore_empty), k).no_duplicates(),
    decreases entries.len(),
{
    if entries.len() > 0 {
        let init = entries.drop_last();
        let e = entries.last();
        assert forall|i: int, j: int|
            0 <= i < init.len() && 0 <= j < init.len() && i != j && init[i].is_file
                && init[j].is_file implies (#[trigger] init[i]).path@ != (#[trigger] init[j]).path@ by {
            assert(init[i] == entries[i] && init[j] == entries[j]);
        }
        lemma_size_group_no_duplicates(init, ignore_empty, k);
        let items = size_items(init, ignore_empty);
        if qualifies(e, ignore_empty) && e.len == k {
            lemma_members_contains(items, k, e.path@);
            lemma_size_items_contains(init, ignore_empty, k, e.path@);
            if members(items, k).contains(e.path@) {
                let i = choose|i: int|
                    0 <= i < init.len() && qualifies(#[trigger] init[i], ignore_empty) && init[i].len
                        == k && init[i].path@ == e.path@;
                assert(entries[i] == init[i]);
                assert(entries[entries.len() - 1] == e);
            }
            assert(size_items(entries, ignore_empty) == items.push((e.len, e.path@)));
            lemma_push_item(items, (e.len, e.path@));
            let m = members(items, k);
            assert forall|a: int, b: int|
                0 <= a < m.push(e.path@).len() && 0 <= b < m.push(e.path@).len() && a != b implies m.push(
                    e.path@,
                )[a] != m.push(e.path@)[b] by {
                if a == m.len() {
                    assert(m[b] == m.push(e.path@)[b]);
                } else if b == m.len() {
                    assert(m[a] == m.push(e.path@)[a]);
                }
            }
        } else if qualifies(e, ignore_empty) {
            lemma_push_item(items, (e.len, e.path@));
        }
    }
}

/// Groups the regular files among `entries` by byte length, skipping empty
/// files when `ignore_empty` is set.
pub fn get_files_with_same_size(entries: &Vec<FileEntry>, ignore_empty: bool) -> (r: GroupMap)
    ensures
        r.models(size_items(entries@, ignore_empty)),
{
    let mut result = GroupMap::new();
    let mut i: usize = 0;
    assert(entries@.take(0) =~= Seq::<FileEntry>::empty());
    while i < entries.len()
        invariant
            0 <= i <= entries@.len(),
            result.models(size_items(entries@.take(i as int), ignore_empty)),
        decreases entries@.len() - i,
    {
        let e = &entries[i];
        assert(entries@.take(i + 1).drop_last() =~= entries@.take(i as int));
        let ghost items = size_items(entries@.take(i as int), ignore_empty);
        if e.is_file && !(ignore_empty && e.len == 0) {
            let ghost before = result;
            add_file_path(&mut result, e.len, e.path.clone());
            proof {
                GroupMap::lemma_models_after_add(&before, &result, items, e.len, e.path@);
            }
        }
        i = i + 1;
    }
    assert(entries@.take(entries@.len() as int) =~= entries@);
    result
}

} // verus!
