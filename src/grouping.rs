//! A map from a numeric key (a size or a content hash) to the paths filed
//! under it, in the order in which they were added. Keys are also kept in the
//! order of their first insertion, so walking the map is deterministic.
use std::collections::HashMap;
use vstd::prelude::*;

verus! {

broadcast use vstd::std_specs::hash::group_hash_axioms;

/// One insertion: a key and the path filed under it.
pub type Item = (u64, Seq<char>);

/// The paths that a sequence of insertions files under `key`, in order.
pub open spec fn members(items: Seq<Item>, key: u64) -> Seq<Seq<char>>
    decreases items.len(),
{
    if items.len() == 0 {
        Seq::empty()
    } else {
        let rest = members(items.drop_last(), key);
        if items.last().0 == key {
            rest.push(items.last().1)
        } else {
            rest
        }
    }
}

/// The distinct keys of a sequence of insertions, in order of first appearance.
pub open spec fn first_keys(items: Seq<Item>) -> Seq<u64>
    decreases items.len(),
{
    if items.len() == 0 {
        Seq::empty()
    } else {
        let rest = first_keys(items.drop_last());
        if rest.contains(items.last().0) {
            rest
        } else {
            rest.push(items.last().0)
        }
    }
}

/// One more insertion adds its path to its own key's group, and its key to
/// the key order when it is new.
pub proof fn lemma_push_item(items: Seq<Item>, x: Item)
    ensures
        first_keys(items.push(x)) == (if first_keys(items).contains(x.0) {
            first_keys(items)
        } else {
            first_keys(items).push(x.0)
        }),
        forall|k: u64| #[trigger]
            members(items.push(x), k) == (if k == x.0 {
                members(items, k).push(x.1)
            } else {
                members(items, k)
            }),
{
    assert(items.push(x).drop_last() =~= items);
}

/// A path is under `key` exactly when some insertion filed it there.
pub proof fn lemma_members_contains(items: Seq<Item>, key: u64, p: Seq<char>)
    ensures
        members(items, key).contains(p) <==> exists|i: int|
            0 <= i < items.len() && #[trigger] items[i] == (key, p),
    decreases items.len(),
{
    if items.len() > 0 {
        let init = items.drop_last();
        lemma_members_contains(init, key, p);
        let rest = members(init, key);
        if members(items, key).contains(p) {
            if rest.contains(p) {
                let i = choose|i: int| 0 <= i < init.len() && #[trigger] init[i] == (key, p);
                assert(items[i] == init[i]);
            } else {
                assert(items[items.len() - 1] == (key, p));
            }
        }
        if exists|i: int| 0 <= i < items.len() && #[trigger] items[i] == (key, p) {
            let i = choose|i: int| 0 <= i < items.len() && #[trigger] items[i] == (key, p);
            if i < items.len() - 1 {
                assert(init[i] == items[i]);
                let j = choose|j: int| 0 <= j < rest.len() && rest[j] == p;
                assert(members(items, key)[j] == p);
            } else {
                assert(members(items, key).last() == p);
            }
        }
    }
}

/// The views of a sequence of paths.
pub open spec fn paths_view(v: Seq<String>) -> Seq<Seq<char>> {
    v.map_values(|s: String| s@)
}

/// Paths grouped under numeric keys.
pub struct GroupMap {
    order: Vec<u64>,
    groups: HashMap<u64, Vec<String>>,
}

impl GroupMap {
    /// After `add_file_path`, the map models the insertions so far followed
    /// by the one just made.
    pub proof fn lemma_models_after_add(old_map: &GroupMap, new_map: &GroupMap, items: Seq<Item>, id: u64, value: Seq<char>)
        requires
            old_map.models(items),
            new_map.wf(),
            new_map.key_order() == (if old_map.key_order().contains(id) {
                old_map.key_order()
            } else {
                old_map.key_order().push(id)
            }),
            forall|k: u64| #[trigger]
                new_map.group_of(k) == (if k == id {
                    old_map.group_of(k).push(value)
                } else {
                    old_map.group_of(k)
                }),
        ensures
            new_map.models(items.push((id, value))),
    {
        lemma_push_item(items, (id, value));
        assert forall|k: u64| #[trigger] new_map.group_of(k) == members(items.push((id, value)), k) by {
            assert(old_map.group_of(k) == members(items, k));
        }
    }

    /// The keys, in order of first insertion.
    pub closed spec fn key_order(&self) -> Seq<u64> {
        self.order@
    }

    /// The paths under `key`, in order of insertion; empty for an absent key.
    pub closed spec fn group_of(&self, key: u64) -> Seq<Seq<char>> {
        if self.groups@.contains_key(key) {
            paths_view(self.groups@[key]@)
        } else {
            Seq::empty()
        }
    }

    /// Each key is listed once, exactly the keys present are listed, and no
    /// group is empty.
    pub closed spec fn wf(&self) -> bool {
        &&& self.order@.no_duplicates()
        &&& forall|k: u64| self.groups@.contains_key(k) <==> self.order@.contains(k)
        &&& forall|k: u64| self.groups@.contains_key(k) ==> self.groups@[k]@.len() > 0
    }

    /// The map holds exactly what inserting `items` one by one into an empty
    /// map gives.
    pub open spec fn models(&self, items: Seq<Item>) -> bool {
        &&& self.wf()
        &&& self.key_order() == first_keys(items)
        &&& forall|k: u64| #[trigger] self.group_of(k) == members(items, k)
    }

    /// A key is listed exactly when its group is not empty.
    pub proof fn lemma_listed_keys(&self)
        requires
            self.wf(),
        ensures
            forall|k: u64| #[trigger] self.key_order().contains(k) <==> self.group_of(k).len() > 0,
    {
    }

    /// The keys, in order of first insertion.
    pub fn key_list(&self) -> (r: Vec<u64>)
        ensures
            r@ == self.key_order(),
    {
        self.order.clone()
    }

    /// Copies of the paths under `key`, in order of insertion.
    pub fn paths(&self, key: u64) -> (r: Vec<String>)
        ensures
            paths_view(r@) == self.group_of(key),
    {
        let mut r: Vec<String> = Vec::new();
        match self.groups.get(&key) {
            Some(v) => {
                let mut j: usize = 0;
                while j < v.len()
                    invariant
                        j <= v@.len(),
                        self.groups@.contains_key(key),
                        self.groups@[key] == *v,
                        paths_view(r@) =~= paths_view(v@.take(j as int)),
                    decreases v@.len() - j,
                {
                    let ghost r0 = r@;
                    r.push(v[j].clone());
                    assert(v@.take(j + 1) =~= v@.take(j as int).push(v@[j as int]));
                    assert(paths_view(r@) =~= paths_view(r0).push(v@[j as int]@));
                    assert(paths_view(v@.take(j + 1)) =~= paths_view(v@.take(j as int)).push(
                        v@[j as int]@,
                    ));
                    j = j + 1;
                }
                assert(v@.take(v@.len() as int) =~= v@);
            },
            None => {},
        }
        r
    }

    /// An empty map.
    pub fn new() -> (r: GroupMap)
        ensures
            r.models(Seq::empty()),
    {
        GroupMap { order: Vec::new(), groups: HashMap::new() }
    }
}

/// Files `value` under `id`, creating the group if it is absent.
pub fn add_file_path(result: &mut GroupMap, id: u64, value: String)
    requires
        old(result).wf(),
    ensures
        final(result).wf(),
        final(result).key_order() == (if old(result).key_order().contains(id) {
            old(result).key_order()
        } else {
            old(result).key_order().push(id)
        }),
        forall|k: u64| #[trigger]
            final(result).group_of(k) == (if k == id {
                old(result).group_of(k).push(value@)
            } else {
                old(result).group_of(k)
            }),
{
    let ghost v = value@;
    let removed = result.groups.remove(&id);
    match removed {
        Some(mut files_group) => {
            let ghost before = files_group@;
            files_group.push(value);
            assert(paths_view(files_group@) =~= paths_view(before).push(v));
            result.groups.insert(id, files_group);
            assert(result.groups@.dom() =~= old(result).groups@.dom());
        },
        None => {
            let files_group: Vec<String> = vec![value];
            assert(paths_view(files_group@) =~= seq![v]);
            result.groups.insert(id, files_group);
            result.order.push(id);
            assert(!old(result).order@.contains(id));
        },
    }
    let ghost o = old(result).order@;
    assert(result.order@ == o || result.order@ == o.push(id));
    assert forall|k: u64| result.groups@.contains_key(k) <==> result.order@.contains(k) by {
        if o.contains(k) {
            let i = choose|i: int| 0 <= i < o.len() && o[i] == k;
            assert(result.order@[i] == k);
        }
        if result.order@.contains(k) && k != id {
            let i = choose|i: int| 0 <= i < result.order@.len() && result.order@[i] == k;
            assert(o[i] == k);
        }
        if k == id {
            if o.contains(id) {
                let i = choose|i: int| 0 <= i < o.len() && o[i] == id;
                assert(result.order@[i] == id);
            } else {
                assert(result.order@[o.len() as int] == id);
            }
        }
    }
}

} // verus!
