//! The content pass: the files that share a size with another file are
//! grouped again by a hash of their bytes.
use crate::grouping::{add_file_path, paths_view, GroupMap, Item};
use std::collections::hash_map::DefaultHasher;
use std::hash::Hasher;
use vstd::prelude::*;
use vstd::std_specs::hash::DefaultHasherAdditionalSpecFns;

verus! {

/// The hash of a file's bytes: what `DefaultHasher` finishes with after
/// the bytes were written to it in one piece.
pub open spec fn content_hash(bytes: Seq<u8>) -> u64 {
    DefaultHasher::spec_finish(seq![bytes])
}

/// Hashes a file's content.
pub fn calculate_hash(content: &Vec<u8>) -> (r: u64)
    ensures
        r == content_hash(content@),
{
    let mut s = DefaultHasher::new();
    s.write(content.as_slice());
    s.finish()
}

/// The paths of the groups of two or more among the groups under `keys`,
/// group after group.
pub open spec fn candidates_under(m: GroupMap, keys: Seq<u64>) -> Seq<Seq<char>>
    decreases keys.len(),
{
    if keys.len() == 0 {
        Seq::empty()
    } else {
        let rest = candidates_under(m, keys.drop_last());
        let g = m.group_of(keys.last());
        if g.len() >= 2 {
            rest + g
        } else {
            rest
        }
    }
}

/// A path is a candidate under `keys` exactly when one of those keys has a
/// group of two or more that holds it.
pub proof fn lemma_candidates_contains(m: GroupMap, keys: Seq<u64>, p: Seq<char>)
    ensures
        candidates_under(m, keys).contains(p) <==> exists|k: u64|
            keys.contains(k) && #[trigger] m.group_of(k).len() >= 2 && m.group_of(k).contains(p),
    decreases keys.len(),
{
    if keys.len() > 0 {
        let init = keys.drop_last();
        let last = keys.last();
        let rest = candidates_under(m, init);
        lemma_candidates_contains(m, init, p);
        let g = m.group_of(last);
        if candidates_under(m, keys).contains(p) {
            if g.len() >= 2 && !rest.contains(p) {
                let j = choose|j: int| 0 <= j < (rest + g).len() && (rest + g)[j] == p;
                assert(g[j - rest.len()] == p);
                assert(keys[keys.len() - 1] == last);
            } else if rest.contains(p) {
                let k = choose|k: u64|
                    init.contains(k) && #[trigger] m.group_of(k).len() >= 2 && m.group_of(k).contains(p);
                let i = choose|i: int| 0 <= i < init.len() && init[i] == k;
                assert(keys[i] == k);
            }
        }
        if exists|k: u64| keys.contains(k) && #[trigger] m.group_of(k).len() >= 2 && m.group_of(k).contains(p) {
            let k = choose|k: u64|
                keys.contains(k) && #[trigger] m.group_of(k).len() >= 2 && m.group_of(k).contains(p);
            let i = choose|i: int| 0 <= i < keys.len() && keys[i] == k;
            if i < keys.len() - 1 {
                assert(init[i] == k);
                let j = choose|j: int| 0 <= j < rest.len() && rest[j] == p;
                assert((rest + g)[j] == p);
            } else {
                let j = choose|j: int| 0 <= j < g.len() && g[j] == p;
                assert((rest + g)[rest.len() + j] == p);
            }
        }
    }
}

/// The paths whose content must be hashed: those of every size group of two
/// or more, in key order.
pub open spec fn candidate_paths(size_groups: GroupMap) -> Seq<Seq<char>> {
    candidates_under(size_groups, size_groups.key_order())
}

/// The insertions of the content pass: each candidate path keyed by its
/// digest.
pub open spec fn hash_items(paths: Seq<Seq<char>>, digests: Seq<u64>) -> Seq<Item> {
    Seq::new(paths.len(), |i: int| (digests[i], paths[i]))
}

/// The paths whose content must be hashed, in the order in which
/// `get_identical_files` expects their digests. A size group of one is left
/// out: its file cannot have a duplicate.
pub fn files_to_hash(size_groups: &GroupMap) -> (r: Vec<String>)
    ensures
        paths_view(r@) == candidate_paths(*size_groups),
{
    let keys = size_groups.key_list();
    let mut r: Vec<String> = Vec::new();
    let mut i: usize = 0;
    while i < keys.len()
        invariant
            i <= keys@.len(),
            keys@ == size_groups.key_order(),
            paths_view(r@) == candidates_under(*size_groups, keys@.take(i as int)),
        decreases keys@.len() - i,
    {
        let group = size_groups.paths(keys[i]);
        assert(keys@.take(i + 1).drop_last() =~= keys@.take(i as int));
        if group.len() > 1 {
            let ghost before = r@;
            let mut j: usize = 0;
            while j < group.len()
                invariant
                    j <= group@.len(),
                    paths_view(r@) =~= paths_view(before) + paths_view(group@.take(j as int)),
                decreases group@.len() - j,
            {
                let ghost r0 = r@;
                r.push(group[j].clone());
                assert(group@.take(j + 1) =~= group@.take(j as int).push(group@[j as int]));
                assert(paths_view(r@) =~= paths_view(r0).push(group@[j as int]@));
                assert(paths_view(group@.take(j + 1)) =~= paths_view(group@.take(j as int)).push(
                    group@[j as int]@,
                ));
                j = j + 1;
            }
            assert(group@.take(group@.len() as int) =~= group@);
        }
        i = i + 1;
    }
    assert(keys@.take(keys@.len() as int) =~= keys@);
    r
}

/// Groups the candidate paths of `size_groups` by content hash; `digests`
/// holds the hash of each path that `files_to_hash` lists, in that order.
pub fn get_identical_files(size_groups: &GroupMap, digests: &Vec<u64>) -> (r: GroupMap)
    requires
        digests@.len() == candidate_paths(*size_groups).len(),
    ensures
        r.models(hash_items(candidate_paths(*size_groups), digests@)),
{
    let paths = files_to_hash(size_groups);
    let ghost items = hash_items(candidate_paths(*size_groups), digests@);
    let mut result = GroupMap::new();
    let mut i: usize = 0;
    assert(items.take(0) =~= Seq::<Item>::empty());
    while i < paths.len()
        invariant
            i <= paths@.len(),
            paths@.len() == digests@.len(),
            paths_view(paths@) == candidate_paths(*size_groups),
            items == hash_items(candidate_paths(*size_groups), digests@),
            result.models(items.take(i as int)),
        decreases paths@.len() - i,
    {
        assert(items.take(i + 1) =~= items.take(i as int).push((digests@[i as int], paths@[i as int]@)));
        let ghost before = result;
        add_file_path(&mut result, digests[i], paths[i].clone());
        proof {
            GroupMap::lemma_models_after_add(&before, &result, items.take(i as int), digests@[i as int], paths@[i as int]@);
        }
        i = i + 1;
    }
    assert(items.take(items.len() as int) =~= items);
    result
}

} // verus!
