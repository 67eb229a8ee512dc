//! Insertion-ordered maps keyed by strings (`indexmap::IndexMap`), modelled
//! as sequences of entries in insertion order.

use indexmap::IndexMap;
use vstd::prelude::*;

verus! {

#[verifier::external_type_specification]
#[verifier::external_body]
#[verifier::reject_recursive_types(K)]
#[verifier::reject_recursive_types(V)]
#[verifier::reject_recursive_types(S)]
pub struct ExIndexMap<K, V, S>(IndexMap<K, V, S>);

// ---------------------------------------------------------------------------
// Sequence model of an insertion-ordered map
// ---------------------------------------------------------------------------

/// No key occurs twice.
pub open spec fn keys_distinct<V>(s: Seq<(Seq<char>, V)>) -> bool {
    forall|i: int, j: int|
        0 <= i < s.len() && 0 <= j < s.len() && i != j ==> #[trigger] s[i].0 != #[trigger] s[j].0
}

/// `k` is the key of some entry.
pub open spec fn has_key<V>(s: Seq<(Seq<char>, V)>, k: Seq<char>) -> bool {
    exists|i: int| 0 <= i < s.len() && #[trigger] s[i].0 == k
}

/// The position of the entry whose key is `k` (meaningful when `has_key`).
pub open spec fn key_pos<V>(s: Seq<(Seq<char>, V)>, k: Seq<char>) -> int {
    choose|i: int| 0 <= i < s.len() && #[trigger] s[i].0 == k
}

/// The value stored under `k`, if any.
pub open spec fn lookup<V>(s: Seq<(Seq<char>, V)>, k: Seq<char>) -> Option<V> {
    if has_key(s, k) {
        Some(s[key_pos(s, k)].1)
    } else {
        None
    }
}

/// Insertion: an existing key keeps its place and takes the new value;
/// a new key goes last.
pub open spec fn insert_entry<V>(s: Seq<(Seq<char>, V)>, k: Seq<char>, v: V) -> Seq<(Seq<char>, V)> {
    if has_key(s, k) {
        s.update(key_pos(s, k), (k, v))
    } else {
        s.push((k, v))
    }
}

/// Order-preserving removal of the entry under `k`, if any.
pub open spec fn remove_entry<V>(s: Seq<(Seq<char>, V)>, k: Seq<char>) -> Seq<(Seq<char>, V)> {
    if has_key(s, k) {
        s.remove(key_pos(s, k))
    } else {
        s
    }
}

/// The keys, in order.
pub open spec fn keys_of<V>(s: Seq<(Seq<char>, V)>) -> Seq<Seq<char>> {
    s.map_values(|e: (Seq<char>, V)| e.0)
}

pub proof fn lemma_key_pos<V>(s: Seq<(Seq<char>, V)>, k: Seq<char>, i: int)
    requires
        keys_distinct(s),
        0 <= i < s.len(),
        s[i].0 == k,
    ensures
        has_key(s, k),
        key_pos(s, k) == i,
        lookup(s, k) == Some(s[i].1),
{
    assert(has_key(s, k));
    let p = key_pos(s, k);
    assert(s[p].0 == k);
}

pub proof fn lemma_insert_distinct<V>(s: Seq<(Seq<char>, V)>, k: Seq<char>, v: V)
    requires
        keys_distinct(s),
    ensures
        keys_distinct(insert_entry(s, k, v)),
        has_key(insert_entry(s, k, v), k),
        lookup(insert_entry(s, k, v), k) == Some(v),
        forall|k2: Seq<char>| k2 != k ==> lookup(#[trigger] insert_entry(s, k, v), k2) == lookup(s, k2),
        forall|k2: Seq<char>| has_key(#[trigger] insert_entry(s, k, v), k2) <==> (has_key(s, k2) || k2 == k),
{
    let t = insert_entry(s, k, v);
    if has_key(s, k) {
        let p = key_pos(s, k);
        assert(s[p].0 == k);
        assert(keys_distinct(t));
    } else {
        assert(keys_distinct(t));
    }
    let q = choose|i: int| 0 <= i < t.len() && t[i].0 == k;
    if has_key(s, k) {
        assert(t[key_pos(s, k)].0 == k);
    } else {
        assert(t[s.len() as int].0 == k);
    }
    assert(has_key(t, k));
    lemma_key_pos(t, k, key_pos(t, k));
    if has_key(s, k) {
        lemma_key_pos(t, k, key_pos(s, k));
    } else {
        lemma_key_pos(t, k, s.len() as int);
    }
    assert forall|k2: Seq<char>| k2 != k implies lookup(#[trigger] insert_entry(s, k, v), k2) == lookup(s, k2) by {
        if has_key(s, k2) {
            let p2 = key_pos(s, k2);
            assert(t[p2].0 == k2);
            lemma_key_pos(t, k2, p2);
        } else {
            if has_key(t, k2) {
                let p2 = key_pos(t, k2);
                assert(s[p2].0 == k2);
            }
        }
    }
    assert forall|k2: Seq<char>| has_key(#[trigger] insert_entry(s, k, v), k2) <==> (has_key(s, k2) || k2 == k) by {
        if has_key(s, k2) && k2 != k {
            let p2 = key_pos(s, k2);
            assert(t[p2].0 == k2);
        }
        if has_key(t, k2) && k2 != k {
            let p2 = key_pos(t, k2);
            assert(s[p2].0 == k2);
        }
    }
}

pub proof fn lemma_remove_distinct<V>(s: Seq<(Seq<char>, V)>, k: Seq<char>)
    requires
        keys_distinct(s),
    ensures
        keys_distinct(remove_entry(s, k)),
        !has_key(remove_entry(s, k), k),
        forall|k2: Seq<char>| k2 != k ==> lookup(#[trigger] remove_entry(s, k), k2) == lookup(s, k2),
        forall|k2: Seq<char>| has_key(#[trigger] remove_entry(s, k), k2) <==> (has_key(s, k2) && k2 != k),
{
    let t = remove_entry(s, k);
    if has_key(s, k) {
        let p = key_pos(s, k);
        assert(s[p].0 == k);
        assert forall|i: int, j: int|
            0 <= i < t.len() && 0 <= j < t.len() && i != j implies #[trigger] t[i].0 != #[trigger] t[j].0 by {
            let si = if i < p { i } else { i + 1 };
            let sj = if j < p { j } else { j + 1 };
            assert(t[i] == s[si]);
            assert(t[j] == s[sj]);
        }
        if has_key(t, k) {
            let q = key_pos(t, k);
            let sq = if q < p { q } else { q + 1 };
            assert(t[q] == s[sq]);
        }
        assert forall|k2: Seq<char>| has_key(#[trigger] remove_entry(s, k), k2) <==> (has_key(s, k2) && k2 != k) by {
            if has_key(s, k2) && k2 != k {
                let p2 = key_pos(s, k2);
                assert(s[p2].0 == k2);
                let tp = if p2 < p { p2 } else { p2 - 1 };
                assert(t[tp] == s[p2]);
            }
            if has_key(t, k2) {
                let q = key_pos(t, k2);
                let sq = if q < p { q } else { q + 1 };
                assert(t[q] == s[sq]);
            }
        }
        assert forall|k2: Seq<char>| k2 != k implies lookup(#[trigger] remove_entry(s, k), k2) == lookup(s, k2) by {
            if has_key(s, k2) {
                let p2 = key_pos(s, k2);
                assert(s[p2].0 == k2);
                let tp = if p2 < p { p2 } else { p2 - 1 };
                assert(t[tp] == s[p2]);
                lemma_key_pos(t, k2, tp);
                lemma_key_pos(s, k2, p2);
            } else if has_key(t, k2) {
                let q = key_pos(t, k2);
                let sq = if q < p { q } else { q + 1 };
                assert(t[q] == s[sq]);
            }
        }
    }
}

/// Insert the entries of `ents` one after another.
pub open spec fn insert_all<V>(acc: Seq<(Seq<char>, V)>, ents: Seq<(Seq<char>, V)>) -> Seq<(Seq<char>, V)>
    decreases ents.len(),
{
    if ents.len() == 0 {
        acc
    } else {
        insert_entry(insert_all(acc, ents.drop_last()), ents.last().0, ents.last().1)
    }
}

/// Remove the entries under `keys` one after another.
pub open spec fn remove_all<V>(acc: Seq<(Seq<char>, V)>, keys: Seq<Seq<char>>) -> Seq<(Seq<char>, V)>
    decreases keys.len(),
{
    if keys.len() == 0 {
        acc
    } else {
        remove_entry(remove_all(acc, keys.drop_last()), keys.last())
    }
}

pub proof fn lemma_insert_all_distinct<V>(acc: Seq<(Seq<char>, V)>, ents: Seq<(Seq<char>, V)>)
    requires
        keys_distinct(acc),
    ensures
        keys_distinct(insert_all(acc, ents)),
    decreases ents.len(),
{
    if ents.len() > 0 {
        lemma_insert_all_distinct(acc, ents.drop_last());
        lemma_insert_distinct(insert_all(acc, ents.drop_last()), ents.last().0, ents.last().1);
    }
}

pub proof fn lemma_remove_all_distinct<V>(acc: Seq<(Seq<char>, V)>, keys: Seq<Seq<char>>)
    requires
        keys_distinct(acc),
    ensures
        keys_distinct(remove_all(acc, keys)),
    decreases keys.len(),
{
    if keys.len() > 0 {
        lemma_remove_all_distinct(acc, keys.drop_last());
        lemma_remove_distinct(remove_all(acc, keys.drop_last()), keys.last());
    }
}

pub proof fn lemma_insert_keys<V>(s: Seq<(Seq<char>, V)>, k: Seq<char>, v: V, k2: Seq<char>)
    ensures
        has_key(insert_entry(s, k, v), k2) <==> (has_key(s, k2) || k2 == k),
{
    let t = insert_entry(s, k, v);
    if has_key(s, k) {
        let p = key_pos(s, k);
        assert(s[p].0 == k);
        if has_key(s, k2) && k2 != k {
            let q = key_pos(s, k2);
            assert(t[q].0 == k2);
        }
        if has_key(t, k2) {
            let q = key_pos(t, k2);
            if q != p {
                assert(s[q].0 == k2);
            }
        }
        if k2 == k {
            assert(t[p].0 == k);
        }
    } else {
        if has_key(s, k2) {
            let q = key_pos(s, k2);
            assert(t[q].0 == k2);
        }
        if has_key(t, k2) {
            let q = key_pos(t, k2);
            if q < s.len() {
                assert(s[q].0 == k2);
            }
        }
        if k2 == k {
            assert(t[s.len() as int].0 == k);
        }
    }
}

pub proof fn lemma_remove_keys<V>(s: Seq<(Seq<char>, V)>, k: Seq<char>, k2: Seq<char>)
    ensures
        has_key(remove_entry(s, k), k2) ==> has_key(s, k2),
{
    let t = remove_entry(s, k);
    if has_key(s, k) && has_key(t, k2) {
        let p = key_pos(s, k);
        let q = key_pos(t, k2);
        let sq = if q < p { q } else { q + 1 };
        assert(t[q] == s[sq]);
    }
}

pub proof fn lemma_insert_all_keys<V>(acc: Seq<(Seq<char>, V)>, ents: Seq<(Seq<char>, V)>, k: Seq<char>)
    ensures
        has_key(insert_all(acc, ents), k) <==> (has_key(acc, k) || has_key(ents, k)),
    decreases ents.len(),
{
    if ents.len() > 0 {
        let init = ents.drop_last();
        lemma_insert_all_keys(acc, init, k);
        lemma_insert_keys(insert_all(acc, init), ents.last().0, ents.last().1, k);
        if has_key(init, k) {
            let q = key_pos(init, k);
            assert(ents[q].0 == k);
        }
        if has_key(ents, k) {
            let q = key_pos(ents, k);
            if q < init.len() {
                assert(init[q].0 == k);
            }
        }
    }
}

pub proof fn lemma_remove_all_keys<V>(acc: Seq<(Seq<char>, V)>, keys: Seq<Seq<char>>, k: Seq<char>)
    ensures
        has_key(remove_all(acc, keys), k) ==> has_key(acc, k),
    decreases keys.len(),
{
    if keys.len() > 0 {
        lemma_remove_all_keys(acc, keys.drop_last(), k);
        lemma_remove_keys(remove_all(acc, keys.drop_last()), keys.last(), k);
    }
}

// ---------------------------------------------------------------------------
// IndexMap<String, String>: a permission table (command pattern -> value)
// ---------------------------------------------------------------------------

/// The entries of a string-to-string map, in insertion order.
pub uninterp spec fn perm_entries(m: IndexMap<String, String>) -> Seq<(Seq<char>, Seq<char>)>;

/// `IndexMap::new`: a map with no entries.
#[verifier::external_body]
pub(crate) fn pm_new() -> (m: IndexMap<String, String>)
    ensures
        perm_entries(m) == Seq::<(Seq<char>, Seq<char>)>::empty(),
{
    IndexMap::new()
}

/// `IndexMap::len`: the number of entries; an `IndexMap` never holds a key twice.
#[verifier::external_body]
pub(crate) fn pm_len(m: &IndexMap<String, String>) -> (n: usize)
    ensures
        n == perm_entries(*m).len(),
        forall|i: int, j: int|
            0 <= i < n && 0 <= j < n && i != j ==> #[trigger] perm_entries(*m)[i].0
                != #[trigger] perm_entries(*m)[j].0,
{
    m.len()
}

/// `IndexMap::get_index`: the entry at position `i`, if `i` is below the length.
#[verifier::external_body]
pub(crate) fn pm_get_index(m: &IndexMap<String, String>, i: usize) -> (r: Option<(&String, &String)>)
    ensures
        i < perm_entries(*m).len() ==> r is Some && r.unwrap().0@ == perm_entries(*m)[i as int].0
            && r.unwrap().1@ == perm_entries(*m)[i as int].1,
        i >= perm_entries(*m).len() ==> r is None,
{
    m.get_index(i)
}

/// `IndexMap::get`: the value stored under `k`, if any.
#[verifier::external_body]
pub(crate) fn pm_get<'a>(m: &'a IndexMap<String, String>, k: &str) -> (r: Option<&'a String>)
    ensures
        match r {
            Some(v) => lookup(perm_entries(*m), k@) == Some(v@),
            None => !has_key(perm_entries(*m), k@),
        },
{
    m.get(k)
}

/// `IndexMap::contains_key`.
#[verifier::external_body]
pub(crate) fn pm_contains_key(m: &IndexMap<String, String>, k: &str) -> (b: bool)
    ensures
        b == has_key(perm_entries(*m), k@),
{
    m.contains_key(k)
}

/// `IndexMap::insert`: an existing key keeps its place and takes the new
/// value; a new key is appended last.
#[verifier::external_body]
pub(crate) fn pm_insert(m: &mut IndexMap<String, String>, k: String, v: String)
    ensures
        perm_entries(*final(m)) == insert_entry(perm_entries(*old(m)), k@, v@),
{
    m.insert(k, v);
}

/// `IndexMap::shift_remove`: removes the entry under `k`, keeping the order
/// of the others.
#[verifier::external_body]
pub(crate) fn pm_shift_remove(m: &mut IndexMap<String, String>, k: &str)
    ensures
        perm_entries(*final(m)) == remove_entry(perm_entries(*old(m)), k@),
{
    m.shift_remove(k);
}

/// `IndexMap::clone`: a map with the same entries in the same order.
#[verifier::external_body]
pub(crate) fn pm_clone(m: &IndexMap<String, String>) -> (c: IndexMap<String, String>)
    ensures
        perm_entries(c) == perm_entries(*m),
{
    m.clone()
}

} // verus!

verus! {

// ---------------------------------------------------------------------------
// IndexMap<String, SotAgent>: a permissions file (agent name -> block)
// ---------------------------------------------------------------------------

/// The agents of a permissions file, in file order.
pub uninterp spec fn sot_entries(m: IndexMap<String, crate::models::SotAgent>) -> Seq<(Seq<char>, crate::models::SotAgent)>;

/// `IndexMap::len` on a permissions file; an `IndexMap` never holds a key twice.
#[verifier::external_body]
pub(crate) fn sot_len(m: &IndexMap<String, crate::models::SotAgent>) -> (n: usize)
    ensures
        n == sot_entries(*m).len(),
        forall|i: int, j: int|
            0 <= i < n && 0 <= j < n && i != j ==> #[trigger] sot_entries(*m)[i].0
                != #[trigger] sot_entries(*m)[j].0,
{
    m.len()
}

/// `IndexMap::get_index` on a permissions file: the agent at position `i`,
/// if `i` is below the length.
#[verifier::external_body]
pub(crate) fn sot_get_index(m: &IndexMap<String, crate::models::SotAgent>, i: usize) -> (r: Option<(&String, &crate::models::SotAgent)>)
    ensures
        i < sot_entries(*m).len() ==> r is Some && r.unwrap().0@ == sot_entries(*m)[i as int].0
            && *r.unwrap().1 == sot_entries(*m)[i as int].1,
        i >= sot_entries(*m).len() ==> r is None,
{
    m.get_index(i)
}

/// `IndexMap::new`: a permissions file with no agents.
#[verifier::external_body]
pub(crate) fn sot_new() -> (m: IndexMap<String, crate::models::SotAgent>)
    ensures
        sot_entries(m) == Seq::<(Seq<char>, crate::models::SotAgent)>::empty(),
{
    IndexMap::new()
}

/// `IndexMap::insert` on a permissions file: an agent already present keeps
/// its place and takes the new block; a new agent is appended last.
#[verifier::external_body]
pub(crate) fn sot_insert(m: &mut IndexMap<String, crate::models::SotAgent>, k: String, v: crate::models::SotAgent)
    ensures
        sot_entries(*final(m)) == insert_entry(sot_entries(*old(m)), k@, v),
{
    m.insert(k, v);
}

/// `IndexMap::get` on a permissions file: the block of agent `k`, if any.
#[verifier::external_body]
pub(crate) fn sot_get<'a>(m: &'a IndexMap<String, crate::models::SotAgent>, k: &str) -> (r: Option<&'a crate::models::SotAgent>)
    ensures
        match r {
            Some(v) => lookup(sot_entries(*m), k@) == Some(*v),
            None => !has_key(sot_entries(*m), k@),
        },
{
    m.get(k)
}

} // verus!

verus! {

// ---------------------------------------------------------------------------
// IndexMap<String, Vec<String>>: named groups of names (command groups,
// categories with their agents)
// ---------------------------------------------------------------------------

/// The views of a list of strings.
pub open spec fn names_view(v: Vec<String>) -> Seq<Seq<char>> {
    v@.map_values(|s: String| s@)
}

/// The groups of a name-to-names map, in insertion order.
pub uninterp spec fn group_entries(m: IndexMap<String, Vec<String>>) -> Seq<(Seq<char>, Seq<Seq<char>>)>;

/// `IndexMap::new`: no groups.
#[verifier::external_body]
pub(crate) fn gm_new() -> (m: IndexMap<String, Vec<String>>)
    ensures
        group_entries(m) == Seq::<(Seq<char>, Seq<Seq<char>>)>::empty(),
{
    IndexMap::new()
}

/// `IndexMap::len`: the number of groups; an `IndexMap` never holds a key twice.
#[verifier::external_body]
pub(crate) fn gm_len(m: &IndexMap<String, Vec<String>>) -> (n: usize)
    ensures
        n == group_entries(*m).len(),
        forall|i: int, j: int|
            0 <= i < n && 0 <= j < n && i != j ==> #[trigger] group_entries(*m)[i].0
                != #[trigger] group_entries(*m)[j].0,
{
    m.len()
}

/// `IndexMap::get_index`: the group at position `i`, if `i` is below the length.
#[verifier::external_body]
pub(crate) fn gm_get_index(m: &IndexMap<String, Vec<String>>, i: usize) -> (r: Option<(&String, &Vec<String>)>)
    ensures
        i < group_entries(*m).len() ==> r is Some && r.unwrap().0@ == group_entries(*m)[i as int].0
            && names_view(*r.unwrap().1) == group_entries(*m)[i as int].1,
        i >= group_entries(*m).len() ==> r is None,
{
    m.get_index(i)
}

/// `IndexMap::get`: the names of group `k`, if any.
#[verifier::external_body]
pub(crate) fn gm_get<'a>(m: &'a IndexMap<String, Vec<String>>, k: &str) -> (r: Option<&'a Vec<String>>)
    ensures
        match r {
            Some(v) => lookup(group_entries(*m), k@) == Some(names_view(*v)),
            None => !has_key(group_entries(*m), k@),
        },
{
    m.get(k)
}

/// `IndexMap::insert`: an existing key keeps its place and takes the new
/// names; a new key is appended last.
#[verifier::external_body]
pub(crate) fn gm_insert(m: &mut IndexMap<String, Vec<String>>, k: String, v: Vec<String>)
    ensures
        group_entries(*final(m)) == insert_entry(group_entries(*old(m)), k@, names_view(v)),
{
    m.insert(k, v);
}

/// `IndexMap::entry(k).or_default().push(name)`: append `name` to the group
/// `k`; a new group is appended last.
#[verifier::external_body]
pub(crate) fn gm_push(m: &mut IndexMap<String, Vec<String>>, k: String, name: String)
    ensures
        group_entries(*final(m)) == push_to_group(group_entries(*old(m)), k@, name@),
{
    m.entry(k).or_default().push(name);
}

/// `IndexMap::sort_keys`: the same groups, reordered by key (`String`'s
/// `Ord`).
#[verifier::external_body]
pub(crate) fn gm_sort_keys(m: &mut IndexMap<String, Vec<String>>)
    ensures
        group_entries(*final(m)).to_multiset() == group_entries(*old(m)).to_multiset(),
        forall|i: int, j: int|
            0 <= i < j < group_entries(*final(m)).len() ==> !crate::order::text_lt(
                #[trigger] group_entries(*final(m))[j].0,
                #[trigger] group_entries(*final(m))[i].0,
            ),
{
    m.sort_keys();
}

} // verus!

verus! {

// ---------------------------------------------------------------------------
// IndexMap<String, BaselineValue>: a template baseline object
// ---------------------------------------------------------------------------

/// The entries of a baseline object, in the order the object lists them.
pub uninterp spec fn value_entries(m: IndexMap<String, crate::models::BaselineValue>) -> Seq<(Seq<char>, crate::models::BaselineValue)>;

/// `IndexMap::len`: the number of entries; an `IndexMap` never holds a key twice.
#[verifier::external_body]
pub(crate) fn vm_len(m: &IndexMap<String, crate::models::BaselineValue>) -> (n: usize)
    ensures
        n == value_entries(*m).len(),
        forall|i: int, j: int|
            0 <= i < n && 0 <= j < n && i != j ==> #[trigger] value_entries(*m)[i].0
                != #[trigger] value_entries(*m)[j].0,
{
    m.len()
}

/// `IndexMap::get_index`: the entry at position `i`, if `i` is below the length.
#[verifier::external_body]
pub(crate) fn vm_get_index(m: &IndexMap<String, crate::models::BaselineValue>, i: usize) -> (r: Option<(&String, &crate::models::BaselineValue)>)
    ensures
        i < value_entries(*m).len() ==> r is Some && r.unwrap().0@ == value_entries(*m)[i as int].0
            && *r.unwrap().1 == value_entries(*m)[i as int].1,
        i >= value_entries(*m).len() ==> r is None,
{
    m.get_index(i)
}

/// `IndexMap::get`: the value stored under `k`, if any.
#[verifier::external_body]
pub(crate) fn vm_get<'a>(m: &'a IndexMap<String, crate::models::BaselineValue>, k: &str) -> (r: Option<&'a crate::models::BaselineValue>)
    ensures
        match r {
            Some(v) => lookup(value_entries(*m), k@) == Some(*v),
            None => !has_key(value_entries(*m), k@),
        },
{
    m.get(k)
}

} // verus!

verus! {

// ---------------------------------------------------------------------------
// IndexMap<String, Template>: the loaded templates by category name
// ---------------------------------------------------------------------------

/// The templates of a template map, in insertion order.
pub uninterp spec fn template_entries(m: IndexMap<String, crate::models::Template>) -> Seq<(Seq<char>, crate::models::Template)>;

/// `IndexMap::len`: the number of templates; an `IndexMap` never holds a key twice.
#[verifier::external_body]
pub(crate) fn tm_len(m: &IndexMap<String, crate::models::Template>) -> (n: usize)
    ensures
        n == template_entries(*m).len(),
        forall|i: int, j: int|
            0 <= i < n && 0 <= j < n && i != j ==> #[trigger] template_entries(*m)[i].0
                != #[trigger] template_entries(*m)[j].0,
{
    m.len()
}

/// `IndexMap::get_index`: the template at position `i`, if `i` is below the length.
#[verifier::external_body]
pub(crate) fn tm_get_index(m: &IndexMap<String, crate::models::Template>, i: usize) -> (r: Option<(&String, &crate::models::Template)>)
    ensures
        i < template_entries(*m).len() ==> r is Some && r.unwrap().0@ == template_entries(*m)[i as int].0
            && *r.unwrap().1 == template_entries(*m)[i as int].1,
        i >= template_entries(*m).len() ==> r is None,
{
    m.get_index(i)
}

/// `IndexMap::get`: the template stored under `k`, if any.
#[verifier::external_body]
pub(crate) fn tm_get<'a>(m: &'a IndexMap<String, crate::models::Template>, k: &str) -> (r: Option<&'a crate::models::Template>)
    ensures
        match r {
            Some(v) => lookup(template_entries(*m), k@) == Some(*v),
            None => !has_key(template_entries(*m), k@),
        },
{
    m.get(k)
}

/// `IndexMap::sort_keys` on templates: the same templates, reordered by
/// name (`String`'s `Ord`).
#[verifier::external_body]
pub(crate) fn tm_sort_keys(m: &mut IndexMap<String, crate::models::Template>)
    ensures
        template_entries(*final(m)).to_multiset() == template_entries(*old(m)).to_multiset(),
        forall|i: int, j: int|
            0 <= i < j < template_entries(*final(m)).len() ==> !crate::order::text_lt(
                #[trigger] template_entries(*final(m))[j].0,
                #[trigger] template_entries(*final(m))[i].0,
            ),
{
    m.sort_keys();
}

// ---------------------------------------------------------------------------
// IndexMap<String, IndexMap<String, String>>: effective baselines by category
// ---------------------------------------------------------------------------

/// The baselines of a baseline map, each as its category and its entries,
/// in insertion order.
pub uninterp spec fn baseline_map_entries(m: IndexMap<String, IndexMap<String, String>>) -> Seq<(Seq<char>, Seq<(Seq<char>, Seq<char>)>)>;

/// `IndexMap::new`: no baselines.
#[verifier::external_body]
pub(crate) fn bm_new() -> (m: IndexMap<String, IndexMap<String, String>>)
    ensures
        baseline_map_entries(m) == Seq::<(Seq<char>, Seq<(Seq<char>, Seq<char>)>)>::empty(),
{
    IndexMap::new()
}

/// `IndexMap::get`: the baseline of category `k`, if any.
#[verifier::external_body]
pub(crate) fn bm_get<'a>(m: &'a IndexMap<String, IndexMap<String, String>>, k: &str) -> (r: Option<&'a IndexMap<String, String>>)
    ensures
        match r {
            Some(v) => lookup(baseline_map_entries(*m), k@) == Some(perm_entries(*v)),
            None => !has_key(baseline_map_entries(*m), k@),
        },
{
    m.get(k)
}

/// `IndexMap::insert`: an existing key keeps its place and takes the new
/// baseline; a new key is appended last.
#[verifier::external_body]
pub(crate) fn bm_insert(m: &mut IndexMap<String, IndexMap<String, String>>, k: String, v: IndexMap<String, String>)
    ensures
        baseline_map_entries(*final(m)) == insert_entry(baseline_map_entries(*old(m)), k@, perm_entries(v)),
{
    m.insert(k, v);
}

} // verus!

verus! {

// ---------------------------------------------------------------------------
// IndexMap<String, Override>: the agent files by agent name
// ---------------------------------------------------------------------------

/// The agent files of an override map, in insertion order.
pub uninterp spec fn override_entries(m: IndexMap<String, crate::models::Override>) -> Seq<(Seq<char>, crate::models::Override)>;

/// `IndexMap::get`: the agent file of agent `k`, if any.
#[verifier::external_body]
pub(crate) fn om_get<'a>(m: &'a IndexMap<String, crate::models::Override>, k: &str) -> (r: Option<&'a crate::models::Override>)
    ensures
        match r {
            Some(v) => lookup(override_entries(*m), k@) == Some(*v),
            None => !has_key(override_entries(*m), k@),
        },
{
    m.get(k)
}

} // verus!

verus! {

// ---------------------------------------------------------------------------
// IndexMap<String, Vec<(String, String)>>: entries grouped under names
// ---------------------------------------------------------------------------

/// The views of a list of string pairs.
pub open spec fn pairs_view(v: Seq<(String, String)>) -> Seq<(Seq<char>, Seq<char>)> {
    v.map_values(|p: (String, String)| (p.0@, p.1@))
}

/// Append `e` to the group named `g`; a new group goes last.
pub open spec fn push_to_group<V>(acc: Seq<(Seq<char>, Seq<V>)>, g: Seq<char>, e: V) -> Seq<(Seq<char>, Seq<V>)> {
    if has_key(acc, g) {
        acc.update(key_pos(acc, g), (g, acc[key_pos(acc, g)].1.push(e)))
    } else {
        acc.push((g, seq![e]))
    }
}

/// The groups of a grouping map, in insertion order, each with its pairs.
pub uninterp spec fn grouped_pairs(m: IndexMap<String, Vec<(String, String)>>) -> Seq<(Seq<char>, Seq<(Seq<char>, Seq<char>)>)>;

/// `IndexMap::new`: no groups.
#[verifier::external_body]
pub(crate) fn gp_new() -> (m: IndexMap<String, Vec<(String, String)>>)
    ensures
        grouped_pairs(m) == Seq::<(Seq<char>, Seq<(Seq<char>, Seq<char>)>)>::empty(),
{
    IndexMap::new()
}

/// `m.entry(g).or_default().push(e)`: append `e` to group `g`, which is
/// created empty, last, when missing.
#[verifier::external_body]
pub(crate) fn gp_push(m: &mut IndexMap<String, Vec<(String, String)>>, g: String, e: (String, String))
    ensures
        grouped_pairs(*final(m)) == push_to_group(grouped_pairs(*old(m)), g@, (e.0@, e.1@)),
{
    m.entry(g).or_default().push(e);
}

/// `IndexMap::len`: the number of groups; an `IndexMap` never holds a key twice.
#[verifier::external_body]
pub(crate) fn gp_len(m: &IndexMap<String, Vec<(String, String)>>) -> (n: usize)
    ensures
        n == grouped_pairs(*m).len(),
        forall|i: int, j: int|
            0 <= i < n && 0 <= j < n && i != j ==> #[trigger] grouped_pairs(*m)[i].0
                != #[trigger] grouped_pairs(*m)[j].0,
{
    m.len()
}

/// `IndexMap::get_index`: the group at position `i`, if `i` is below the length.
#[verifier::external_body]
pub(crate) fn gp_get_index(m: &IndexMap<String, Vec<(String, String)>>, i: usize) -> (r: Option<(&String, &Vec<(String, String)>)>)
    ensures
        i < grouped_pairs(*m).len() ==> r is Some && r.unwrap().0@ == grouped_pairs(*m)[i as int].0
            && pairs_view(r.unwrap().1@) == grouped_pairs(*m)[i as int].1,
        i >= grouped_pairs(*m).len() ==> r is None,
{
    m.get_index(i)
}

/// `IndexMap::get`: the pairs of group `k`, if any.
#[verifier::external_body]
pub(crate) fn gp_get<'a>(m: &'a IndexMap<String, Vec<(String, String)>>, k: &str) -> (r: Option<&'a Vec<(String, String)>>)
    ensures
        match r {
            Some(v) => lookup(grouped_pairs(*m), k@) == Some(pairs_view(v@)),
            None => !has_key(grouped_pairs(*m), k@),
        },
{
    m.get(k)
}

} // verus!

verus! {

// ---------------------------------------------------------------------------
// IndexMap<usize, Vec<String>>: names grouped under sizes
// ---------------------------------------------------------------------------

/// Some group has size `k`.
pub open spec fn has_size(acc: Seq<(nat, Seq<Seq<char>>)>, k: nat) -> bool {
    exists|i: int| 0 <= i < acc.len() && #[trigger] acc[i].0 == k
}

/// The position of the group of size `k` (meaningful when `has_size`).
pub open spec fn size_pos(acc: Seq<(nat, Seq<Seq<char>>)>, k: nat) -> int {
    choose|i: int| 0 <= i < acc.len() && #[trigger] acc[i].0 == k
}

/// Append `a` to the group of size `k`; a new group goes last.
pub open spec fn push_size(acc: Seq<(nat, Seq<Seq<char>>)>, k: nat, a: Seq<char>) -> Seq<(nat, Seq<Seq<char>>)> {
    if has_size(acc, k) {
        acc.update(size_pos(acc, k), (k, acc[size_pos(acc, k)].1.push(a)))
    } else {
        acc.push((k, seq![a]))
    }
}

/// The groups of a size-keyed map, in insertion order, each with its names.
pub uninterp spec fn size_groups(m: IndexMap<usize, Vec<String>>) -> Seq<(nat, Seq<Seq<char>>)>;

/// `IndexMap::new`: no groups.
#[verifier::external_body]
pub(crate) fn sg_new() -> (m: IndexMap<usize, Vec<String>>)
    ensures
        size_groups(m) == Seq::<(nat, Seq<Seq<char>>)>::empty(),
{
    IndexMap::new()
}

/// `m.entry(k).or_default().push(a)`: append `a` to group `k`, which is
/// created empty, last, when missing.
#[verifier::external_body]
pub(crate) fn sg_push(m: &mut IndexMap<usize, Vec<String>>, k: usize, a: String)
    ensures
        size_groups(*final(m)) == push_size(size_groups(*old(m)), k as nat, a@),
{
    m.entry(k).or_default().push(a);
}

/// `IndexMap::len`: the number of groups; an `IndexMap` never holds a key twice.
#[verifier::external_body]
pub(crate) fn sg_len(m: &IndexMap<usize, Vec<String>>) -> (n: usize)
    ensures
        n == size_groups(*m).len(),
        forall|i: int, j: int|
            0 <= i < n && 0 <= j < n && i != j ==> #[trigger] size_groups(*m)[i].0
                != #[trigger] size_groups(*m)[j].0,
{
    m.len()
}

/// `IndexMap::get_index`: the group at position `i`, if `i` is below the length.
#[verifier::external_body]
pub(crate) fn sg_get_index(m: &IndexMap<usize, Vec<String>>, i: usize) -> (r: Option<(&usize, &Vec<String>)>)
    ensures
        i < size_groups(*m).len() ==> r is Some && *r.unwrap().0 == size_groups(*m)[i as int].0
            && names_view(*r.unwrap().1) == size_groups(*m)[i as int].1,
        i >= size_groups(*m).len() ==> r is None,
{
    m.get_index(i)
}

} // verus!

verus! {

// ---------------------------------------------------------------------------
// Lookups after insertions and removals
// ---------------------------------------------------------------------------

/// After inserting `ents` into `acc`, a key holds its value from `ents`
/// when `ents` has it, else its value in `acc`.
pub proof fn lemma_insert_all_lookup<V>(acc: Seq<(Seq<char>, V)>, ents: Seq<(Seq<char>, V)>, k: Seq<char>)
    requires
        keys_distinct(acc),
        keys_distinct(ents),
    ensures
        lookup(insert_all(acc, ents), k) == if has_key(ents, k) {
            lookup(ents, k)
        } else {
            lookup(acc, k)
        },
    decreases ents.len(),
{
    if ents.len() > 0 {
        let init = ents.drop_last();
        let last = ents.last();
        assert(keys_distinct(init));
        lemma_insert_all_lookup(acc, init, k);
        lemma_insert_all_distinct(acc, init);
        lemma_insert_distinct(insert_all(acc, init), last.0, last.1);
        lemma_key_pos(ents, last.0, ents.len() - 1);
        if k == last.0 {
        } else {
            if has_key(init, k) {
                let q = key_pos(init, k);
                assert(ents[q].0 == k);
                lemma_key_pos(init, k, q);
                lemma_key_pos(ents, k, q);
            }
            if has_key(ents, k) {
                let q = key_pos(ents, k);
                assert(q != ents.len() - 1);
                assert(init[q].0 == k);
            }
        }
    }
}

/// After removing `keys` from `acc`, a removed key is absent and any other
/// key keeps its value.
pub proof fn lemma_remove_all_lookup<V>(acc: Seq<(Seq<char>, V)>, keys: Seq<Seq<char>>, k: Seq<char>)
    requires
        keys_distinct(acc),
    ensures
        lookup(remove_all(acc, keys), k) == if keys.contains(k) {
            None
        } else {
            lookup(acc, k)
        },
    decreases keys.len(),
{
    if keys.len() > 0 {
        let init = keys.drop_last();
        lemma_remove_all_lookup(acc, init, k);
        lemma_remove_all_distinct(acc, init);
        lemma_remove_distinct(remove_all(acc, init), keys.last());
        if k != keys.last() {
            if init.contains(k) {
                let q = choose|q: int| 0 <= q < init.len() && init[q] == k;
                assert(keys[q] == k);
            }
            if keys.contains(k) {
                let q = choose|q: int| 0 <= q < keys.len() && keys[q] == k;
                assert(init[q] == k);
            }
        } else {
            assert(keys[keys.len() - 1] == k);
        }
    }
}

} // verus!
