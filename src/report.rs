//! The outcome of a run: every content group of two or more, each path
//! marked for deletion or kept.
use crate::grouping::{paths_view, GroupMap};
use vstd::prelude::*;

verus! {

/// One path of a reported group.
pub struct ReportEntry {
    /// The path.
    pub path: String,
    /// Whether the file is to be deleted as a duplicate.
    pub delete: bool,
}

/// A group of files with the same content hash.
pub struct ReportGroup {
    /// The content hash shared by the group.
    pub hash: u64,
    /// The group's paths in order of insertion.
    pub entries: Vec<ReportEntry>,
}

/// The keys among `keys` whose group in `m` has two or more paths.
pub open spec fn reported_under(m: GroupMap, keys: Seq<u64>) -> Seq<u64>
    decreases keys.len(),
{
    if keys.len() == 0 {
        Seq::empty()
    } else {
        let rest = reported_under(m, keys.drop_last());
        if m.group_of(keys.last()).len() >= 2 {
            rest.push(keys.last())
        } else {
            rest
        }
    }
}

/// The keys of the groups that are reported, in key order.
pub open spec fn reported_keys(m: GroupMap) -> Seq<u64> {
    reported_under(m, m.key_order())
}

/// `g` reports the group `paths` under `hash`: the paths in order, every one
/// but the first marked for deletion when deletion is on, none otherwise.
pub open spec fn reports(g: ReportGroup, hash: u64, paths: Seq<Seq<char>>, delete_dups: bool) -> bool {
    &&& g.hash == hash
    &&& g.entries@.len() == paths.len()
    &&& forall|j: int|
        0 <= j < paths.len() ==> {
            &&& (#[trigger] g.entries@[j]).path@ == paths[j]
            &&& g.entries@[j].delete == (delete_dups && j > 0)
        }
}

/// `r` is the report over `m`: one group for each key whose group has two
/// or more paths, in key order.
pub open spec fn is_report(m: GroupMap, r: Seq<ReportGroup>, delete_dups: bool) -> bool {
    &&& r.len() == reported_keys(m).len()
    &&& forall|i: int|
        0 <= i < r.len() ==> reports(
            #[trigger] r[i],
            reported_keys(m)[i],
            m.group_of(reported_keys(m)[i]),
            delete_dups,
        )
}

/// A key is reported under `keys` exactly when it is one of them and its
/// group has two or more paths.
pub proof fn lemma_reported_contains(m: GroupMap, keys: Seq<u64>, k: u64)
    ensures
        reported_under(m, keys).contains(k) <==> keys.contains(k) && m.group_of(k).len() >= 2,
    decreases keys.len(),
{
    if keys.len() > 0 {
        let init = keys.drop_last();
        let rest = reported_under(m, init);
        lemma_reported_contains(m, init, k);
        if rest.contains(k) {
            let i = choose|i: int| 0 <= i < init.len() && init[i] == k;
            assert(keys[i] == k);
            let j = choose|j: int| 0 <= j < rest.len() && rest[j] == k;
            assert(reported_under(m, keys)[j] == k);
        }
        if reported_under(m, keys).contains(k) && !rest.contains(k) {
            assert(keys[keys.len() - 1] == k);
        }
        if keys.contains(k) && m.group_of(k).len() >= 2 {
            let i = choose|i: int| 0 <= i < keys.len() && keys[i] == k;
            if i < keys.len() - 1 {
                assert(init[i] == k);
            } else {
                assert(reported_under(m, keys).last() == k);
            }
        }
    }
}

/// The report over the content groups `result`: one group for each key whose
/// group has two or more paths, in key order.
pub fn process_results(result: &GroupMap, delete_dups: bool) -> (r: Vec<ReportGroup>)
    ensures
        is_report(*result, r@, delete_dups),
{
    let keys = result.key_list();
    let mut r: Vec<ReportGroup> = Vec::new();
    let mut i: usize = 0;
    while i < keys.len()
        invariant
            i <= keys@.len(),
            keys@ == result.key_order(),
            r@.len() == reported_under(*result, keys@.take(i as int)).len(),
            forall|n: int|
                0 <= n < r@.len() ==> reports(
                    #[trigger] r@[n],
                    reported_under(*result, keys@.take(i as int))[n],
                    result.group_of(reported_under(*result, keys@.take(i as int))[n]),
                    delete_dups,
                ),
        decreases keys@.len() - i,
    {
        let hash = keys[i];
        let files_paths = result.paths(hash);
        assert(keys@.take(i + 1).drop_last() =~= keys@.take(i as int));
        if files_paths.len() > 1 {
            let mut entries: Vec<ReportEntry> = Vec::new();
            let mut keep = true;
            let mut j: usize = 0;
            while j < files_paths.len()
                invariant
                    j <= files_paths@.len(),
                    keep == (j == 0),
                    entries@.len() == j,
                    forall|m: int|
                        0 <= m < j ==> {
                            &&& (#[trigger] entries@[m]).path@ == files_paths@[m]@
                            &&& entries@[m].delete == (delete_dups && m > 0)
                        },
                decreases files_paths@.len() - j,
            {
                entries.push(ReportEntry { path: files_paths[j].clone(), delete: delete_dups && !keep });
                keep = false;
                j = j + 1;
            }
            let ghost g = paths_view(files_paths@);
            assert forall|m: int| 0 <= m < g.len() implies g[m] == files_paths@[m]@ by {}
            r.push(ReportGroup { hash, entries });
        }
        i = i + 1;
    }
    assert(keys@.take(keys@.len() as int) =~= keys@);
    r
}

} // verus!
