//! What holds of a whole run: the size pass over the walked entries, the
//! digests of the listed paths, and the content pass.
use crate::content::{candidate_paths, content_hash, hash_items, lemma_candidates_contains};
use crate::grouping::{lemma_members_contains, members, GroupMap, Item};
use crate::report::{is_report, lemma_reported_contains, reported_keys, reported_under, ReportGroup};
use crate::scan::{
    distinct_paths, lemma_size_group_no_duplicates, lemma_size_items_contains, qualifies,
    size_items, FileEntry,
};
use vstd::prelude::*;

verus! {

/// `size_groups`, `digests` and `hash_groups` are what `get_files_with_same_size`,
/// the hashing of the paths that `files_to_hash` lists, and
/// `get_identical_files` give for `entries`.
pub open spec fn run(
    entries: Seq<FileEntry>,
    ignore_empty: bool,
    size_groups: GroupMap,
    digests: Seq<u64>,
    hash_groups: GroupMap,
) -> bool {
    &&& size_groups.models(size_items(entries, ignore_empty))
    &&& digests.len() == candidate_paths(size_groups).len()
    &&& hash_groups.models(hash_items(candidate_paths(size_groups), digests))
}

/// Each digest is the content hash of its path's bytes.
pub open spec fn digests_of(
    size_groups: GroupMap,
    digests: Seq<u64>,
    contents: spec_fn(Seq<char>) -> Seq<u8>,
) -> bool {
    forall|i: int|
        0 <= i < digests.len() ==> #[trigger] digests[i] == content_hash(
            contents(candidate_paths(size_groups)[i]),
        )
}

/// `p` and `q` stand in one group of `m`.
pub open spec fn same_group(m: GroupMap, p: Seq<char>, q: Seq<char>) -> bool {
    exists|k: u64| #[trigger] m.group_of(k).contains(p) && m.group_of(k).contains(q)
}

/// A hash group holds a path only if the path was listed for hashing, under
/// the digest listed with it.
proof fn lemma_hashed_path(paths: Seq<Seq<char>>, digests: Seq<u64>, hash_groups: GroupMap, k: u64, p: Seq<char>)
    requires
        digests.len() == paths.len(),
        hash_groups.models(hash_items(paths, digests)),
        hash_groups.group_of(k).contains(p),
    ensures
        exists|a: int| 0 <= a < paths.len() && #[trigger] paths[a] == p && digests[a] == k,
{
    let items = hash_items(paths, digests);
    lemma_members_contains(items, k, p);
    let a = choose|a: int| 0 <= a < items.len() && #[trigger] items[a] == (k, p);
    assert(paths[a] == p && digests[a] == k);
}

/// A listed path lands in the hash group of its digest.
proof fn lemma_path_hashed(paths: Seq<Seq<char>>, digests: Seq<u64>, hash_groups: GroupMap, a: int)
    requires
        digests.len() == paths.len(),
        hash_groups.models(hash_items(paths, digests)),
        0 <= a < paths.len(),
    ensures
        hash_groups.group_of(digests[a]).contains(paths[a]),
{
    let items = hash_items(paths, digests);
    assert(items[a] == (digests[a], paths[a]));
    lemma_members_contains(items, digests[a], paths[a]);
}

/// Two distinct files are reported together exactly when they have the same
/// length and the same bytes, provided no two different contents among the
/// files share a hash and each file's bytes are as long as its metadata says.
pub proof fn lemma_duplicates_iff_same_bytes(
    entries: Seq<FileEntry>,
    ignore_empty: bool,
    size_groups: GroupMap,
    digests: Seq<u64>,
    hash_groups: GroupMap,
    contents: spec_fn(Seq<char>) -> Seq<u8>,
    i: int,
    j: int,
)
    requires
        run(entries, ignore_empty, size_groups, digests, hash_groups),
        digests_of(size_groups, digests, contents),
        distinct_paths(entries),
        forall|a: int|
            0 <= a < entries.len() && qualifies(#[trigger] entries[a], ignore_empty) ==> contents(
                entries[a].path@,
            ).len() == entries[a].len,
        forall|a: int, b: int|
            0 <= a < entries.len() && 0 <= b < entries.len() && qualifies(
                #[trigger] entries[a],
                ignore_empty,
            ) && qualifies(#[trigger] entries[b], ignore_empty) && content_hash(
                contents(entries[a].path@),
            ) == content_hash(contents(entries[b].path@)) ==> contents(entries[a].path@)
                == contents(entries[b].path@),
        0 <= i < entries.len(),
        0 <= j < entries.len(),
        i != j,
        qualifies(entries[i], ignore_empty),
        qualifies(entries[j], ignore_empty),
    ensures
        same_group(hash_groups, entries[i].path@, entries[j].path@) <==> (entries[i].len
            == entries[j].len && contents(entries[i].path@) == contents(entries[j].path@)),
{
    let p = entries[i].path@;
    let q = entries[j].path@;
    let cands = candidate_paths(size_groups);
    if same_group(hash_groups, p, q) {
        let k = choose|k: u64| #[trigger] hash_groups.group_of(k).contains(p) && hash_groups.group_of(k).contains(q);
        lemma_hashed_path(cands, digests, hash_groups, k, p);
        lemma_hashed_path(cands, digests, hash_groups, k, q);
        let a = choose|a: int| 0 <= a < cands.len() && #[trigger] cands[a] == p && digests[a] == k;
        let b = choose|b: int| 0 <= b < cands.len() && #[trigger] cands[b] == q && digests[b] == k;
        assert(digests[a] == content_hash(contents(p)));
        assert(digests[b] == content_hash(contents(q)));
    }
    if entries[i].len == entries[j].len && contents(p) == contents(q) {
        let len = entries[i].len;
        let items = size_items(entries, ignore_empty);
        lemma_size_items_contains(entries, ignore_empty, len, p);
        lemma_size_items_contains(entries, ignore_empty, len, q);
        lemma_members_contains(items, len, p);
        lemma_members_contains(items, len, q);
        let g = size_groups.group_of(len);
        assert(g == members(items, len));
        let x = choose|x: int| 0 <= x < g.len() && g[x] == p;
        let y = choose|y: int| 0 <= y < g.len() && g[y] == q;
        assert(x != y);
        size_groups.lemma_listed_keys();
        assert(size_groups.key_order().contains(len));
        lemma_candidates_contains(size_groups, size_groups.key_order(), p);
        lemma_candidates_contains(size_groups, size_groups.key_order(), q);
        let a = choose|a: int| 0 <= a < cands.len() && cands[a] == p;
        let b = choose|b: int| 0 <= b < cands.len() && cands[b] == q;
        assert(digests[a] == content_hash(contents(p)));
        assert(digests[b] == content_hash(contents(q)));
        lemma_path_hashed(cands, digests, hash_groups, a);
        lemma_path_hashed(cands, digests, hash_groups, b);
        assert(hash_groups.group_of(digests[a]).contains(p) && hash_groups.group_of(digests[a]).contains(q));
    }
}

/// A size group holds a path only if a qualifying entry has that path and
/// the group's length.
proof fn lemma_sized_path(entries: Seq<FileEntry>, ignore_empty: bool, size_groups: GroupMap, k: u64, p: Seq<char>)
    requires
        size_groups.models(size_items(entries, ignore_empty)),
        size_groups.group_of(k).contains(p),
    ensures
        exists|i: int|
            0 <= i < entries.len() && qualifies(#[trigger] entries[i], ignore_empty) && entries[i].len
                == k && entries[i].path@ == p,
{
    lemma_members_contains(size_items(entries, ignore_empty), k, p);
    lemma_size_items_contains(entries, ignore_empty, k, p);
}

/// A file whose length no other file shares is never listed for hashing
/// and never stands in a content group.
pub proof fn lemma_unique_size_not_hashed(
    entries: Seq<FileEntry>,
    ignore_empty: bool,
    size_groups: GroupMap,
    digests: Seq<u64>,
    hash_groups: GroupMap,
    i: int,
)
    requires
        run(entries, ignore_empty, size_groups, digests, hash_groups),
        distinct_paths(entries),
        0 <= i < entries.len(),
        qualifies(entries[i], ignore_empty),
        forall|j: int|
            0 <= j < entries.len() && j != i && qualifies(#[trigger] entries[j], ignore_empty)
                ==> entries[j].len != entries[i].len,
    ensures
        !candidate_paths(size_groups).contains(entries[i].path@),
        forall|k: u64| !(#[trigger] hash_groups.group_of(k)).contains(entries[i].path@),
{
    let p = entries[i].path@;
    let cands = candidate_paths(size_groups);
    lemma_candidates_contains(size_groups, size_groups.key_order(), p);
    if cands.contains(p) {
        let k = choose|k: u64|
            size_groups.key_order().contains(k) && #[trigger] size_groups.group_of(k).len() >= 2
                && size_groups.group_of(k).contains(p);
        let g = size_groups.group_of(k);
        lemma_size_group_no_duplicates(entries, ignore_empty, k);
        assert(g == members(size_items(entries, ignore_empty), k));
        lemma_sized_path(entries, ignore_empty, size_groups, k, p);
        let i2 = choose|i2: int|
            0 <= i2 < entries.len() && qualifies(#[trigger] entries[i2], ignore_empty) && entries[i2].len
                == k && entries[i2].path@ == p;
        assert(i2 == i);
        let x: int = if g[0] != p { 0 } else { 1 };
        assert(g[0] != g[1]);
        let q = g[x];
        assert(g.contains(q));
        lemma_sized_path(entries, ignore_empty, size_groups, k, q);
        let j = choose|j: int|
            0 <= j < entries.len() && qualifies(#[trigger] entries[j], ignore_empty) && entries[j].len
                == k && entries[j].path@ == q;
        assert(j != i);
    }
    assert forall|k: u64| !(#[trigger] hash_groups.group_of(k)).contains(p) by {
        if hash_groups.group_of(k).contains(p) {
            lemma_hashed_path(cands, digests, hash_groups, k, p);
            let a = choose|a: int| 0 <= a < cands.len() && #[trigger] cands[a] == p && digests[a] == k;
            assert(cands.contains(p));
        }
    }
}

/// When empty files are ignored, an empty file stands in no size group and
/// in no content group, however many empty files there are.
pub proof fn lemma_empty_files_left_out(
    entries: Seq<FileEntry>,
    size_groups: GroupMap,
    digests: Seq<u64>,
    hash_groups: GroupMap,
    i: int,
)
    requires
        run(entries, true, size_groups, digests, hash_groups),
        distinct_paths(entries),
        0 <= i < entries.len(),
        entries[i].is_file,
        entries[i].len == 0,
    ensures
        forall|k: u64| !(#[trigger] size_groups.group_of(k)).contains(entries[i].path@),
        forall|k: u64| !(#[trigger] hash_groups.group_of(k)).contains(entries[i].path@),
{
    let p = entries[i].path@;
    let cands = candidate_paths(size_groups);
    assert forall|k: u64| !(#[trigger] size_groups.group_of(k)).contains(p) by {
        if size_groups.group_of(k).contains(p) {
            lemma_sized_path(entries, true, size_groups, k, p);
            let j = choose|j: int|
                0 <= j < entries.len() && qualifies(#[trigger] entries[j], true) && entries[j].len == k
                    && entries[j].path@ == p;
            assert(j != i);
        }
    }
    assert forall|k: u64| !(#[trigger] hash_groups.group_of(k)).contains(p) by {
        if hash_groups.group_of(k).contains(p) {
            lemma_hashed_path(cands, digests, hash_groups, k, p);
            let a = choose|a: int| 0 <= a < cands.len() && #[trigger] cands[a] == p && digests[a] == k;
            assert(cands.contains(p));
            lemma_candidates_contains(size_groups, size_groups.key_order(), p);
            let k2 = choose|k2: u64|
                size_groups.key_order().contains(k2) && #[trigger] size_groups.group_of(k2).len() >= 2
                    && size_groups.group_of(k2).contains(p);
            assert(!size_groups.group_of(k2).contains(p));
        }
    }
}

/// Every group of two or more is reported; in each reported group of `n`
/// paths, the first is kept and, when deletion is on, the other `n - 1` are
/// deleted. No group of one is ever reported, so no file of one is deleted.
pub proof fn lemma_first_kept(m: GroupMap, report: Seq<ReportGroup>, delete_dups: bool)
    requires
        m.wf(),
        is_report(m, report, delete_dups),
    ensures
        forall|k: u64|
            #[trigger] reported_keys(m).contains(k) <==> m.key_order().contains(k) && m.group_of(k).len()
                >= 2,
        forall|i: int|
            0 <= i < report.len() ==> {
                &&& (#[trigger] report[i]).entries@.len() >= 2
                &&& !report[i].entries@[0].delete
                &&& forall|j: int|
                    1 <= j < report[i].entries@.len() ==> (#[trigger] report[i].entries@[j]).delete
                        == delete_dups
            },
{
    assert forall|k: u64|
        #[trigger] reported_keys(m).contains(k) <==> m.key_order().contains(k) && m.group_of(k).len()
            >= 2 by {
        lemma_reported_contains(m, m.key_order(), k);
    }
    assert forall|i: int| 0 <= i < report.len() implies (#[trigger] report[i]).entries@.len() >= 2 by {
        let k = reported_keys(m)[i];
        assert(reported_keys(m).contains(k));
    }
}

/// What reported_under gives depends on the groups alone.
proof fn lemma_reported_same(a: GroupMap, b: GroupMap, keys: Seq<u64>)
    requires
        forall|k: u64| #[trigger] a.group_of(k) == b.group_of(k),
    ensures
        reported_under(a, keys) == reported_under(b, keys),
    decreases keys.len(),
{
    if keys.len() > 0 {
        lemma_reported_same(a, b, keys.drop_last());
    }
}

/// Two runs over the same insertions give the same groups in the same
/// order, and the same report: nothing in the grouping depends on anything
/// but its input.
pub proof fn lemma_same_input_same_report(
    a: GroupMap,
    b: GroupMap,
    items: Seq<Item>,
    report_a: Seq<ReportGroup>,
    report_b: Seq<ReportGroup>,
    delete_dups: bool,
)
    requires
        a.models(items),
        b.models(items),
        is_report(a, report_a, delete_dups),
        is_report(b, report_b, delete_dups),
    ensures
        a.key_order() == b.key_order(),
        forall|k: u64| #[trigger] a.group_of(k) == b.group_of(k),
        report_a.len() == report_b.len(),
        forall|i: int|
            0 <= i < report_a.len() ==> {
                &&& (#[trigger] report_a[i]).hash == report_b[i].hash
                &&& report_a[i].entries@.len() == report_b[i].entries@.len()
                &&& forall|j: int|
                    0 <= j < report_a[i].entries@.len() ==> {
                        &&& (#[trigger] report_a[i].entries@[j]).path@ == report_b[i].entries@[j].path@
                        &&& report_a[i].entries@[j].delete == report_b[i].entries@[j].delete
                    }
            },
{
    lemma_reported_same(a, b, a.key_order());
    assert(reported_keys(a) == reported_keys(b));
}

} // verus!
