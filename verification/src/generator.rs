//! Deltas between a permissions file and template baselines, command group
//! classification, and the text of agent override files.

use indexmap::IndexMap;
use vstd::prelude::*;
use vstd::string::*;

use crate::can::prefix_covers;
use crate::maps::{
    lemma_insert_all_distinct, lemma_insert_all_lookup, lemma_key_pos, lemma_remove_all_lookup, lemma_remove_all_distinct, insert_all,
    remove_all,
    gm_get_index, gm_len, group_entries, has_key, key_pos, keys_distinct, keys_of, lookup,
    names_view, perm_entries, pm_get, pm_get_index, pm_len, sot_entries, sot_get, value_entries,
    vm_get, vm_get_index, vm_len, push_to_group, grouped_pairs, gp_new, gp_push, gp_len, gp_get_index, gp_get,
    pairs_view, template_entries, tm_get,
};
use crate::models::{
    is_simple_category, simple_categories, BashPermission, BaselinePermission, BaselineValue,
    CategoryMap, Delta, Sot, SotPermission, Template, ValueView,
};
use crate::resolver::{baseline_table, baseline_table_of, Entries};
use crate::template_dag::join_with;
use crate::order::{lemma_text_lt_irreflexive, lemma_text_lt_total, lemma_text_lt_transitive, str_lt, text_lt};
use crate::jsonc_writer::{join_lines, joined};
use crate::text::{
    decimal, json_object, json_object_text, json_quoted, json_str, lowercase, starts_with, str_eq, string_of,
    to_lowercase, usize_text,
};

verus! {

// ---------------------------------------------------------------------------
// Group classification
// ---------------------------------------------------------------------------

/// Configurable command group classifier.
///
/// Maps command prefixes to human-readable group names.  Key insertion
/// order defines display order.  Commands that don't match any prefix are
/// classified as "Other".
pub struct CommandGroupClassifier {
    groups: IndexMap<String, Vec<String>>,
}

impl View for CommandGroupClassifier {
    type V = Seq<(Seq<char>, Seq<Seq<char>>)>;

    closed spec fn view(&self) -> Self::V {
        group_entries(self.groups)
    }
}

/// Some prefix of the group covers command `k` (is `k` or a word-prefix of it).
pub open spec fn group_covers(prefixes: Seq<Seq<char>>, k: Seq<char>) -> bool {
    exists|j: int| 0 <= j < prefixes.len() && prefix_covers(#[trigger] prefixes[j], k)
}

/// The name of the first group from position `i` on that covers `k`, or
/// `"Other"`.
pub open spec fn classify_from(gs: Seq<(Seq<char>, Seq<Seq<char>>)>, k: Seq<char>, i: int) -> Seq<char>
    decreases gs.len() - i,
{
    if i < 0 || i >= gs.len() {
        "Other"@
    } else if group_covers(gs[i].1, k) {
        gs[i].0
    } else {
        classify_from(gs, k, i + 1)
    }
}

/// A command is classified into one of the configured groups, or
/// `"Other"`; and into a group whose prefixes cover it.
pub proof fn lemma_classify_names_a_group(gs: Seq<(Seq<char>, Seq<Seq<char>>)>, k: Seq<char>, i: int)
    requires
        0 <= i,
    ensures
        classify_from(gs, k, i) == "Other"@ || exists|j: int|
            i <= j < gs.len() && #[trigger] gs[j].0 == classify_from(gs, k, i) && group_covers(gs[j].1, k),
    decreases gs.len() - i,
{
    if i < gs.len() && !group_covers(gs[i].1, k) {
        lemma_classify_names_a_group(gs, k, i + 1);
    }
}

impl CommandGroupClassifier {
    pub fn new(groups: IndexMap<String, Vec<String>>) -> (r: Self)
        ensures
            r@ == group_entries(groups),
    {
        Self { groups }
    }

    /// Classify a command key into its group name: the first group with a
    /// prefix that covers the lowercased key.
    pub fn get_group(&self, key: &str) -> (r: String)
        ensures
            r@ == classify_from(self@, lowercase(key@), 0),
    {
        let k = to_lowercase(key);
        let ghost gs = self@;
        let n = gm_len(&self.groups);
        let mut i: usize = 0;
        while i < n
            invariant
                gs == group_entries(self.groups),
                n == gs.len(),
                i <= n,
                classify_from(gs, k@, 0) == classify_from(gs, k@, i as int),
                k@ == lowercase(key@),
            decreases n - i,
        {
            let (name, prefixes) = gm_get_index(&self.groups, i).unwrap();
            let ghost ps = gs[i as int].1;
            let mut j: usize = 0;
            while j < prefixes.len()
                invariant
                    ps == names_view(*prefixes),
                    gs == group_entries(self.groups),
                    i < n,
                    n == gs.len(),
                    name@ == gs[i as int].0,
                    ps == gs[i as int].1,
                    classify_from(gs, k@, 0) == classify_from(gs, k@, i as int),
                    k@ == lowercase(key@),
                    j <= prefixes@.len(),
                    forall|q: int| 0 <= q < j ==> !prefix_covers(#[trigger] ps[q], k@),
                decreases prefixes.len() - j,
            {
                let prefix = &prefixes[j];
                let mut spaced = prefix.clone();
                spaced.append(" ");
                let same = str_eq(k.as_str(), prefix.as_str());
                let word = starts_with(k.as_str(), spaced.as_str());
                let hit = same || word;
                proof {
                    reveal_strlit(" ");
                    let p = prefix@;
                    assert(ps[j as int] == p);
                    if word {
                        assert(spaced@ =~= p + seq![' ']);
                        assert(k@.subrange(0, spaced@.len() as int)[p.len() as int] == k@[p.len() as int]);
                        assert(p.is_prefix_of(k@)) by {
                            assert(k@.subrange(0, p.len() as int) =~= k@.subrange(0, spaced@.len() as int).subrange(0, p.len() as int));
                            assert(spaced@.subrange(0, p.len() as int) =~= p);
                        }
                    }
                    if prefix_covers(p, k@) && k@ != p {
                        assert(spaced@ =~= p + seq![' ']);
                        assert(spaced@ =~= k@.subrange(0, spaced@.len() as int));
                    }
                    assert(hit == prefix_covers(p, k@));
                }
                if hit {
                    proof {
                        assert(group_covers(ps, k@));
                    }
                    return name.clone();
                }
                j = j + 1;
            }
            proof {
                assert(!group_covers(ps, k@));
            }
            i = i + 1;
        }
        string_of("Other")
    }

    /// The group display order: configured groups followed by "Other".
    pub fn group_order(&self) -> (r: Vec<String>)
        ensures
            names_view(r) == keys_of(self@).push("Other"@),
    {
        let ghost gs = self@;
        let n = gm_len(&self.groups);
        let mut order: Vec<String> = Vec::new();
        let mut i: usize = 0;
        while i < n
            invariant
                gs == group_entries(self.groups),
                n == gs.len(),
                i <= n,
                names_view(order) == keys_of(gs).take(i as int),
                order@.len() == i,
            decreases n - i,
        {
            let (name, _) = gm_get_index(&self.groups, i).unwrap();
            let ghost before = order@;
            order.push(name.clone());
            proof {
                assert(names_view(order) =~= names_view(order).take(i as int).push(name@));
                assert(order@.take(i as int) =~= before);
                assert(keys_of(gs).take(i + 1) =~= keys_of(gs).take(i as int).push(gs[i as int].0));
                assert(names_view(order) =~= keys_of(gs).take(i + 1));
            }
            i = i + 1;
        }
        order.push(string_of("Other"));
        proof {
            assert(keys_of(gs).take(n as int) =~= keys_of(gs));
            assert(names_view(order) =~= keys_of(gs).push("Other"@));
        }
        order
    }
}

// ---------------------------------------------------------------------------
// Delta computation
// ---------------------------------------------------------------------------

/// The entries and removed keys that a delta lists.
pub open spec fn delta_view(d: Delta) -> (Entries, Seq<Seq<char>>) {
    (d.adds@.map_values(|e: (String, String)| (e.0@, e.1@)), names_view(d.removes))
}

/// The entries among the first `n` of `sot` that the baseline lacks or
/// holds with another value.
pub open spec fn table_adds(sot: Entries, base: Entries, n: int) -> Entries
    decreases n,
{
    if n <= 0 {
        Seq::empty()
    } else if lookup(base, sot[n - 1].0) == Some(sot[n - 1].1) {
        table_adds(sot, base, n - 1)
    } else {
        table_adds(sot, base, n - 1).push(sot[n - 1])
    }
}

/// The keys among the first `n` of the baseline that `sot` lacks.
pub open spec fn table_removes(sot: Entries, base: Entries, n: int) -> Seq<Seq<char>>
    decreases n,
{
    if n <= 0 {
        Seq::empty()
    } else if has_key(sot, base[n - 1].0) {
        table_removes(sot, base, n - 1)
    } else {
        table_removes(sot, base, n - 1).push(base[n - 1].0)
    }
}

/// The delta of a command table against a baseline table: the table's
/// entries that differ from the baseline, in table order, then the
/// baseline's keys that the table lacks, in baseline order.
pub open spec fn table_delta(sot: Entries, base: Entries) -> (Entries, Seq<Seq<char>>) {
    (table_adds(sot, base, sot.len() as int), table_removes(sot, base, base.len() as int))
}

proof fn lemma_table_adds(sot: Entries, base: Entries, n: int)
    requires
        keys_distinct(sot),
        0 <= n <= sot.len(),
    ensures
        keys_distinct(table_adds(sot, base, n)),
        forall|k: Seq<char>| #[trigger] has_key(table_adds(sot, base, n), k) ==> exists|i: int| 0 <= i < n && sot[i].0 == k,
        forall|i: int|
            0 <= i < n ==> (has_key(table_adds(sot, base, n), #[trigger] sot[i].0) <==> lookup(base, sot[i].0)
                != Some(sot[i].1)),
        forall|i: int|
            0 <= i < n && has_key(table_adds(sot, base, n), #[trigger] sot[i].0) ==> lookup(
                table_adds(sot, base, n),
                sot[i].0,
            ) == Some(sot[i].1),
    decreases n,
{
    if n > 0 {
        lemma_table_adds(sot, base, n - 1);
        let prev = table_adds(sot, base, n - 1);
        let e = sot[n - 1];
        if lookup(base, e.0) == Some(e.1) {
            assert forall|i: int| 0 <= i < n implies (has_key(table_adds(sot, base, n), #[trigger] sot[i].0) <==> lookup(base, sot[i].0)
                != Some(sot[i].1)) by {
                if i == n - 1 {
                    if has_key(prev, e.0) {
                        let q = key_pos(prev, e.0);
                        assert(prev[q].0 == e.0);
                        let j = choose|j: int| 0 <= j < n - 1 && sot[j].0 == e.0;
                        assert(sot[j].0 == sot[n - 1].0);
                    }
                }
            }
        } else {
            let cur = prev.push(e);
            assert(!has_key(prev, e.0)) by {
                if has_key(prev, e.0) {
                    let q = key_pos(prev, e.0);
                    assert(prev[q].0 == e.0);
                    let j = choose|j: int| 0 <= j < n - 1 && sot[j].0 == e.0;
                    assert(sot[j].0 == sot[n - 1].0);
                }
            }
            assert(keys_distinct(cur)) by {
                assert forall|a: int, b: int| 0 <= a < cur.len() && 0 <= b < cur.len() && a != b implies #[trigger] cur[a].0
                    != #[trigger] cur[b].0 by {
                    if a == prev.len() {
                        if cur[b].0 == e.0 {
                            assert(prev[b].0 == e.0);
                        }
                    } else if b == prev.len() {
                        if cur[a].0 == e.0 {
                            assert(prev[a].0 == e.0);
                        }
                    }
                }
            }
            assert forall|k: Seq<char>| #[trigger] has_key(cur, k) implies exists|i: int| 0 <= i < n && sot[i].0 == k by {
                let q = key_pos(cur, k);
                if q < prev.len() {
                    assert(prev[q].0 == k);
                    assert(has_key(prev, k));
                } else {
                    assert(sot[n - 1].0 == k);
                }
            }
            assert forall|i: int| 0 <= i < n implies (has_key(cur, #[trigger] sot[i].0) <==> lookup(base, sot[i].0)
                != Some(sot[i].1)) by {
                if i < n - 1 {
                    assert(sot[i].0 != e.0);
                    if has_key(cur, sot[i].0) {
                        let q = key_pos(cur, sot[i].0);
                        if q < prev.len() {
                            assert(prev[q].0 == sot[i].0);
                        }
                    }
                    if has_key(prev, sot[i].0) {
                        let q = key_pos(prev, sot[i].0);
                        assert(cur[q].0 == sot[i].0);
                    }
                } else {
                    assert(cur[prev.len() as int].0 == e.0);
                }
            }
            assert forall|i: int| 0 <= i < n && has_key(cur, #[trigger] sot[i].0) implies lookup(cur, sot[i].0) == Some(
                sot[i].1,
            ) by {
                if i == n - 1 {
                    lemma_key_pos(cur, e.0, prev.len() as int);
                } else {
                    assert(sot[i].0 != e.0);
                    let q = key_pos(cur, sot[i].0);
                    assert(q < prev.len());
                    assert(prev[q].0 == sot[i].0);
                    lemma_key_pos(prev, sot[i].0, q);
                    lemma_key_pos(cur, sot[i].0, q);
                }
            }
        }
    }
}

proof fn lemma_table_removes(sot: Entries, base: Entries, n: int, k: Seq<char>)
    requires
        0 <= n <= base.len(),
    ensures
        table_removes(sot, base, n).contains(k) <==> (exists|i: int| 0 <= i < n && #[trigger] base[i].0 == k)
            && !has_key(sot, k),
    decreases n,
{
    if n > 0 {
        lemma_table_removes(sot, base, n - 1, k);
        let prev = table_removes(sot, base, n - 1);
        if !has_key(sot, base[n - 1].0) {
            let cur = prev.push(base[n - 1].0);
            assert(cur[prev.len() as int] == base[n - 1].0);
            if prev.contains(k) {
                let q = choose|q: int| 0 <= q < prev.len() && #[trigger] prev[q] == k;
                assert(cur[q] == k);
            }
            if cur.contains(k) {
                let q = choose|q: int| 0 <= q < cur.len() && #[trigger] cur[q] == k;
                if q < prev.len() {
                    assert(prev[q] == k);
                }
            }
        }
        if exists|i: int| 0 <= i < n && #[trigger] base[i].0 == k {
            let i = choose|i: int| 0 <= i < n && #[trigger] base[i].0 == k;
            if i < n - 1 {
                assert(exists|i2: int| 0 <= i2 < n - 1 && #[trigger] base[i2].0 == k);
            }
        }
    }
}

/// Round trip: the agent file generated from a table's delta against a
/// baseline, applied to that baseline, gives back the table, key by key.
pub proof fn lemma_delta_round_trip(sot: Entries, base: Entries, k: Seq<char>)
    requires
        keys_distinct(sot),
        keys_distinct(base),
    ensures
        lookup(remove_all(insert_all(base, table_delta(sot, base).0), table_delta(sot, base).1), k) == lookup(sot, k),
{
    let adds = table_delta(sot, base).0;
    let removes = table_delta(sot, base).1;
    lemma_table_adds(sot, base, sot.len() as int);
    lemma_table_removes(sot, base, base.len() as int, k);
    lemma_insert_all_distinct(base, adds);
    lemma_remove_all_lookup(insert_all(base, adds), removes, k);
    lemma_insert_all_lookup(base, adds, k);
    if has_key(sot, k) {
        let i = key_pos(sot, k);
        assert(sot[i].0 == k);
        lemma_key_pos(sot, k, i);
        if !has_key(adds, k) {
            assert(lookup(base, k) == Some(sot[i].1));
        }
    } else {
        if has_key(adds, k) {
            let j = choose|j: int| 0 <= j < sot.len() && sot[j].0 == k;
            assert(has_key(sot, k));
        }
        if has_key(base, k) && !removes.contains(k) {
            let i = key_pos(base, k);
            assert(base[i].0 == k);
        }
    }
}

proof fn lemma_table_adds_members(sot: Entries, base: Entries, n: int, x: (Seq<char>, Seq<char>))
    requires
        0 <= n <= sot.len(),
    ensures
        table_adds(sot, base, n).contains(x) <==> exists|i: int|
            0 <= i < n && sot[i] == x && lookup(base, sot[i].0) != Some(sot[i].1),
    decreases n,
{
    if n > 0 {
        lemma_table_adds_members(sot, base, n - 1, x);
        let prev = table_adds(sot, base, n - 1);
        if lookup(base, sot[n - 1].0) != Some(sot[n - 1].1) {
            assert(table_adds(sot, base, n) == prev.push(sot[n - 1]));
            if prev.contains(x) {
                let j = choose|j: int| 0 <= j < prev.len() && #[trigger] prev[j] == x;
                assert(prev.push(sot[n - 1])[j] == x);
            }
            if x == sot[n - 1] {
                assert(prev.push(sot[n - 1])[prev.len() as int] == x);
            }
            if table_adds(sot, base, n).contains(x) && x != sot[n - 1] {
                let j = choose|j: int| 0 <= j < prev.len() + 1 && #[trigger] prev.push(sot[n - 1])[j] == x;
                assert(prev[j] == x);
            }
        }
    }
}

proof fn lemma_table_removes_members(sot: Entries, base: Entries, n: int, x: Seq<char>)
    requires
        0 <= n <= base.len(),
    ensures
        table_removes(sot, base, n).contains(x) <==> exists|i: int| 0 <= i < n && base[i].0 == x && !has_key(sot, x),
    decreases n,
{
    if n > 0 {
        lemma_table_removes_members(sot, base, n - 1, x);
        let prev = table_removes(sot, base, n - 1);
        if !has_key(sot, base[n - 1].0) {
            assert(table_removes(sot, base, n) == prev.push(base[n - 1].0));
            if prev.contains(x) {
                let j = choose|j: int| 0 <= j < prev.len() && #[trigger] prev[j] == x;
                assert(prev.push(base[n - 1].0)[j] == x);
            }
            if x == base[n - 1].0 {
                assert(prev.push(base[n - 1].0)[prev.len() as int] == x);
            }
            if table_removes(sot, base, n).contains(x) && x != base[n - 1].0 {
                let j = choose|j: int| 0 <= j < prev.len() + 1 && #[trigger] prev.push(base[n - 1].0)[j] == x;
                assert(prev[j] == x);
            }
        }
    }
}

/// The delta recovers the override: when a table is a baseline with an
/// override applied, whose removed keys are baseline keys that it does not
/// also add, and whose added entries each change or introduce a value, the
/// delta of the table against the baseline lists exactly the override's
/// added entries and exactly its removed keys.
pub proof fn lemma_delta_recovers_override(base: Entries, adds: Entries, removes: Seq<Seq<char>>)
    requires
        keys_distinct(base),
        keys_distinct(adds),
        forall|k: Seq<char>| removes.contains(k) ==> has_key(base, k) && !has_key(adds, k),
        forall|k: Seq<char>| has_key(adds, k) ==> lookup(base, k) != lookup(adds, k),
    ensures
        ({
            let d = table_delta(remove_all(insert_all(base, adds), removes), base);
            d.0.to_set() == adds.to_set() && d.1.to_set() == removes.to_set()
        }),
{
    let mid = insert_all(base, adds);
    let fin = remove_all(mid, removes);
    lemma_insert_all_distinct(base, adds);
    lemma_remove_all_distinct(mid, removes);
    let d = table_delta(fin, base);
    assert forall|x: (Seq<char>, Seq<char>)| d.0.to_set().contains(x) <==> adds.to_set().contains(x) by {
        lemma_table_adds_members(fin, base, fin.len() as int, x);
        let k = x.0;
        lemma_remove_all_lookup(mid, removes, k);
        lemma_insert_all_lookup(base, adds, k);
        if d.0.contains(x) {
            let i = choose|i: int| 0 <= i < fin.len() && #[trigger] fin[i] == x && lookup(base, fin[i].0) != Some(fin[i].1);
            lemma_key_pos(fin, k, i);
            if has_key(adds, k) {
                let q = key_pos(adds, k);
                assert(adds[q].0 == k);
                lemma_key_pos(adds, k, q);
                assert(adds[q] == x);
                assert(adds.contains(x));
            }
        }
        if adds.contains(x) {
            let q = choose|q: int| 0 <= q < adds.len() && #[trigger] adds[q] == x;
            lemma_key_pos(adds, k, q);
            assert(!removes.contains(k));
            assert(lookup(fin, k) == Some(x.1));
            let i = key_pos(fin, k);
            assert(fin[i].0 == k);
            lemma_key_pos(fin, k, i);
            assert(fin[i] == x);
        }
    }
    assert forall|k: Seq<char>| d.1.to_set().contains(k) <==> removes.to_set().contains(k) by {
        lemma_table_removes_members(fin, base, base.len() as int, k);
        lemma_remove_all_lookup(mid, removes, k);
        lemma_insert_all_lookup(base, adds, k);
        if removes.contains(k) {
            assert(has_key(base, k));
            let i = key_pos(base, k);
            assert(base[i].0 == k);
            if has_key(fin, k) {
                let j = key_pos(fin, k);
                assert(fin[j].0 == k);
                lemma_key_pos(fin, k, j);
            }
        }
        if d.1.contains(k) {
            let i = choose|i: int| 0 <= i < base.len() && #[trigger] base[i].0 == k && !has_key(fin, k);
            lemma_key_pos(base, k, i);
            if !removes.contains(k) {
                assert(lookup(fin, k) is Some);
                let j = key_pos(fin, k);
                assert(has_key(fin, k)) by {
                    if has_key(adds, k) {
                        let q = key_pos(adds, k);
                        assert(adds[q].0 == k);
                    }
                }
            }
        }
    }
    assert(d.0.to_set() =~= adds.to_set());
    assert(d.1.to_set() =~= removes.to_set());
}

/// For a complex category, the delta of an agent whose `bash` table is its
/// effective baseline with its agent file's override applied lists exactly
/// that override's added entries and removed keys (under the conditions of
/// `lemma_delta_recovers_override`).
pub proof fn lemma_baseline_delta_recovers_override(
    sot: Sot,
    base: Entries,
    agent: Seq<char>,
    category: Seq<char>,
    o: crate::models::Override,
)
    requires
        !simple_categories().contains(category),
        keys_distinct(base),
        keys_distinct(crate::resolver::override_adds(o)),
        forall|k: Seq<char>|
            crate::resolver::override_removes(o).contains(k) ==> has_key(base, k) && !has_key(
                crate::resolver::override_adds(o),
                k,
            ),
        forall|k: Seq<char>|
            has_key(crate::resolver::override_adds(o), k) ==> lookup(base, k) != lookup(
                crate::resolver::override_adds(o),
                k,
            ),
        lookup(sot_entries(sot), agent) is Some,
        lookup(sot_entries(sot), agent)->0.permission.bash.bash_view() == crate::models::BashView::Detailed(
            crate::resolver::apply_overrides(base, o),
        ),
    ensures
        baseline_delta(sot, base, agent, category).0.to_set() == crate::resolver::override_adds(o).to_set(),
        baseline_delta(sot, base, agent, category).1.to_set() == crate::resolver::override_removes(o).to_set(),
{
    lemma_delta_recovers_override(base, crate::resolver::override_adds(o), crate::resolver::override_removes(o));
}

pub open spec fn no_delta() -> (Entries, Seq<Seq<char>>) {
    (Seq::empty(), Seq::empty())
}

fn empty_delta() -> (d: Delta)
    ensures
        delta_view(d) == no_delta(),
{
    let d = Delta { adds: Vec::new(), removes: Vec::new() };
    proof {
        assert(delta_view(d).0 =~= Seq::<(Seq<char>, Seq<char>)>::empty());
        assert(delta_view(d).1 =~= Seq::<Seq<char>>::empty());
    }
    d
}

fn table_delta_of(sot_bash: &IndexMap<String, String>, base: &IndexMap<String, String>) -> (d: Delta)
    ensures
        delta_view(d) == table_delta(perm_entries(*sot_bash), perm_entries(*base)),
{
    let ghost s = perm_entries(*sot_bash);
    let ghost b = perm_entries(*base);
    let mut adds: Vec<(String, String)> = Vec::new();
    let mut removes: Vec<String> = Vec::new();
    let n = pm_len(sot_bash);
    let mut i: usize = 0;
    while i < n
        invariant
            s == perm_entries(*sot_bash),
            b == perm_entries(*base),
            n == s.len(),
            i <= n,
            adds@.map_values(|e: (String, String)| (e.0@, e.1@)) == table_adds(s, b, i as int),
        decreases n - i,
    {
        let (k, v) = pm_get_index(sot_bash, i).unwrap();
        let ghost before = adds@;
        let same = match pm_get(base, k.as_str()) {
            Some(tv) => str_eq(tv.as_str(), v.as_str()),
            None => false,
        };
        if !same {
            adds.push((k.clone(), v.clone()));
            proof {
                assert(adds@.map_values(|e: (String, String)| (e.0@, e.1@)) =~= before.map_values(
                    |e: (String, String)| (e.0@, e.1@),
                ).push((k@, v@)));
            }
        }
        i = i + 1;
    }
    let m = pm_len(base);
    let mut j: usize = 0;
    while j < m
        invariant
            s == perm_entries(*sot_bash),
            b == perm_entries(*base),
            m == b.len(),
            j <= m,
            names_view(removes) == table_removes(s, b, j as int),
        decreases m - j,
    {
        let (k, _) = pm_get_index(base, j).unwrap();
        let ghost before = removes@;
        if !crate::maps::pm_contains_key(sot_bash, k.as_str()) {
            removes.push(k.clone());
            proof {
                assert(names_view(removes) =~= before.map_values(|x: String| x@).push(k@));
            }
        }
        j = j + 1;
    }
    Delta { adds, removes }
}

/// The entries of a permission block as a JSON object would hold them:
/// `write` and `edit` when present, then `bash` as a string or an object.
pub open spec fn block_entries(p: SotPermission) -> Seq<(Seq<char>, ValueView)> {
    let w = match p.write {
        Some(s) => seq![("write"@, ValueView::Text(s@))],
        None => Seq::empty(),
    };
    let e = match p.edit {
        Some(s) => seq![("edit"@, ValueView::Text(s@))],
        None => Seq::empty(),
    };
    let b = match p.bash {
        BashPermission::Simple(s) => ("bash"@, ValueView::Text(s@)),
        BashPermission::Detailed(m) => ("bash"@, ValueView::TextMap(perm_entries(m))),
    };
    w + e + seq![b]
}

/// Two tables hold the same entries, in any order.
pub open spec fn same_table(a: Entries, b: Entries) -> bool {
    &&& a.len() == b.len()
    &&& forall|i: int| 0 <= i < a.len() ==> lookup(b, (#[trigger] a[i]).0) == Some(a[i].1)
}

/// JSON equality of a baseline value and a block value.
pub open spec fn values_equal(a: ValueView, b: ValueView) -> bool {
    match (a, b) {
        (ValueView::Text(x), ValueView::Text(y)) => x == y,
        (ValueView::TextMap(x), ValueView::TextMap(y)) => same_table(x, y),
        _ => false,
    }
}

/// How a block value is written in a delta: a string as itself, an object
/// as its JSON text.
pub open spec fn value_text(x: ValueView) -> Seq<char> {
    match x {
        ValueView::Text(s) => s,
        ValueView::TextMap(m) => json_object_text(m),
        _ => Seq::empty(),
    }
}

/// The block entries among the first `n` that the baseline object lacks
/// or holds with an unequal value, each with its value's text.
pub open spec fn simple_adds(
    block: Seq<(Seq<char>, ValueView)>,
    tv: Seq<(Seq<char>, ValueView)>,
    n: int,
) -> Entries
    decreases n,
{
    if n <= 0 {
        Seq::empty()
    } else if has_key(tv, block[n - 1].0) && values_equal(lookup(tv, block[n - 1].0)->0, block[n - 1].1) {
        simple_adds(block, tv, n - 1)
    } else {
        simple_adds(block, tv, n - 1).push((block[n - 1].0, value_text(block[n - 1].1)))
    }
}

/// The keys among the first `n` of the baseline object that the block lacks.
pub open spec fn simple_removes(
    block: Seq<(Seq<char>, ValueView)>,
    tv: Seq<(Seq<char>, ValueView)>,
    n: int,
) -> Seq<Seq<char>>
    decreases n,
{
    if n <= 0 {
        Seq::empty()
    } else if has_key(block, tv[n - 1].0) {
        simple_removes(block, tv, n - 1)
    } else {
        simple_removes(block, tv, n - 1).push(tv[n - 1].0)
    }
}

/// The delta of a whole permission block against a baseline object.
pub open spec fn simple_delta(p: SotPermission, tv: Seq<(Seq<char>, ValueView)>) -> (Entries, Seq<Seq<char>>) {
    let block = block_entries(p);
    (simple_adds(block, tv, block.len() as int), simple_removes(block, tv, tv.len() as int))
}

/// The block's value `v` is not the baseline's value `b`: different text,
/// tables with different entries, or values of different kinds.
pub open spec fn value_changed(b: ValueView, v: ValueView) -> bool {
    match (b, v) {
        (ValueView::Text(x), ValueView::Text(y)) => x != y,
        (ValueView::TextMap(x), ValueView::TextMap(y)) => !same_table(x, y),
        _ => true,
    }
}

/// What block entry `i` adds to a simple delta, if anything.
spec fn add_at(block: Seq<(Seq<char>, ValueView)>, tv: Seq<(Seq<char>, ValueView)>, i: int) -> Option<(Seq<char>, Seq<char>)> {
    if has_key(tv, block[i].0) && values_equal(lookup(tv, block[i].0)->0, block[i].1) {
        None
    } else {
        Some((block[i].0, value_text(block[i].1)))
    }
}

proof fn lemma_simple_adds_members(
    block: Seq<(Seq<char>, ValueView)>,
    tv: Seq<(Seq<char>, ValueView)>,
    n: int,
    e: (Seq<char>, Seq<char>),
)
    requires
        0 <= n <= block.len(),
    ensures
        simple_adds(block, tv, n).contains(e) <==> exists|i: int| 0 <= i < n && #[trigger] add_at(block, tv, i) == Some(e),
    decreases n,
{
    if n > 0 {
        lemma_simple_adds_members(block, tv, n - 1, e);
        let prev = simple_adds(block, tv, n - 1);
        let cur = simple_adds(block, tv, n);
        if add_at(block, tv, n - 1) is Some {
            let x = add_at(block, tv, n - 1)->0;
            assert(cur == prev.push(x));
            if cur.contains(e) {
                let q = choose|q: int| 0 <= q < cur.len() && cur[q] == e;
                if q < prev.len() {
                    assert(prev[q] == e);
                } else {
                    assert(add_at(block, tv, n - 1) == Some(e));
                }
            }
            if exists|i: int| 0 <= i < n && #[trigger] add_at(block, tv, i) == Some(e) {
                let i = choose|i: int| 0 <= i < n && #[trigger] add_at(block, tv, i) == Some(e);
                if i < n - 1 {
                    let q = choose|q: int| 0 <= q < prev.len() && prev[q] == e;
                    assert(cur[q] == e);
                } else {
                    assert(cur[prev.len() as int] == e);
                }
            }
        } else {
            assert(cur == prev);
            if exists|i: int| 0 <= i < n && #[trigger] add_at(block, tv, i) == Some(e) {
                let i = choose|i: int| 0 <= i < n && #[trigger] add_at(block, tv, i) == Some(e);
                assert(i < n - 1);
            }
        }
    }
}

proof fn lemma_simple_removes_members(
    block: Seq<(Seq<char>, ValueView)>,
    tv: Seq<(Seq<char>, ValueView)>,
    n: int,
    k: Seq<char>,
)
    requires
        0 <= n <= tv.len(),
    ensures
        simple_removes(block, tv, n).contains(k) <==> exists|j: int|
            0 <= j < n && #[trigger] tv[j].0 == k && !has_key(block, k),
    decreases n,
{
    if n > 0 {
        lemma_simple_removes_members(block, tv, n - 1, k);
        let prev = simple_removes(block, tv, n - 1);
        let cur = simple_removes(block, tv, n);
        if !has_key(block, tv[n - 1].0) {
            assert(cur == prev.push(tv[n - 1].0));
            if cur.contains(k) {
                let q = choose|q: int| 0 <= q < cur.len() && cur[q] == k;
                if q < prev.len() {
                    assert(prev[q] == k);
                } else {
                    assert(tv[n - 1].0 == k);
                }
            }
            if exists|j: int| 0 <= j < n && #[trigger] tv[j].0 == k && !has_key(block, k) {
                let j = choose|j: int| 0 <= j < n && #[trigger] tv[j].0 == k && !has_key(block, k);
                if j < n - 1 {
                    let q = choose|q: int| 0 <= q < prev.len() && prev[q] == k;
                    assert(cur[q] == k);
                } else {
                    assert(cur[prev.len() as int] == k);
                }
            }
        } else {
            assert(cur == prev);
            if exists|j: int| 0 <= j < n && #[trigger] tv[j].0 == k && !has_key(block, k) {
                let j = choose|j: int| 0 <= j < n && #[trigger] tv[j].0 == k && !has_key(block, k);
                if j == n - 1 {
                    assert(has_key(block, tv[n - 1].0));
                }
            }
        }
    }
}

/// The simple delta is what turns the baseline object back into the
/// agent's block: it adds, with its value's text, exactly each block entry
/// that the baseline lacks or holds with a changed value, and removes
/// exactly the baseline keys that the block lacks.
pub proof fn lemma_simple_delta_exact(p: SotPermission, tv: Seq<(Seq<char>, ValueView)>)
    ensures
        ({
            let block = block_entries(p);
            let d = simple_delta(p, tv);
            &&& forall|i: int|
                0 <= i < block.len() ==> (d.0.contains((block[i].0, value_text(block[i].1))) <==> (!has_key(
                    tv,
                    #[trigger] block[i].0,
                ) || value_changed(lookup(tv, block[i].0)->0, block[i].1)))
            &&& forall|e: (Seq<char>, Seq<char>)|
                d.0.contains(e) ==> exists|i: int|
                    0 <= i < block.len() && e == (#[trigger] block[i].0, value_text(block[i].1))
            &&& forall|j: int| 0 <= j < tv.len() ==> (d.1.contains(#[trigger] tv[j].0) <==> !has_key(block, tv[j].0))
            &&& forall|k: Seq<char>| d.1.contains(k) ==> exists|j: int| 0 <= j < tv.len() && #[trigger] tv[j].0 == k
        }),
{
    let block = block_entries(p);
    let d = simple_delta(p, tv);
    reveal_strlit("write");
    reveal_strlit("edit");
    reveal_strlit("bash");
    assert(keys_distinct(block)) by {
        assert("write"@[0] != "edit"@[0] && "write"@[0] != "bash"@[0] && "edit"@[0] != "bash"@[0]);
    }
    assert forall|i: int| 0 <= i < block.len() implies (d.0.contains((block[i].0, value_text(block[i].1))) <==> (
    !has_key(tv, #[trigger] block[i].0) || value_changed(lookup(tv, block[i].0)->0, block[i].1))) by {
        let e = (block[i].0, value_text(block[i].1));
        lemma_simple_adds_members(block, tv, block.len() as int, e);
        if d.0.contains(e) {
            let i2 = choose|i2: int| 0 <= i2 < block.len() && #[trigger] add_at(block, tv, i2) == Some(e);
            assert(block[i2].0 == block[i].0);
        } else {
            assert(add_at(block, tv, i) != Some(e));
        }
    }
    assert forall|e: (Seq<char>, Seq<char>)| d.0.contains(e) implies exists|i: int|
        0 <= i < block.len() && e == (#[trigger] block[i].0, value_text(block[i].1)) by {
        lemma_simple_adds_members(block, tv, block.len() as int, e);
        let i = choose|i: int| 0 <= i < block.len() && #[trigger] add_at(block, tv, i) == Some(e);
        assert(e == (block[i].0, value_text(block[i].1)));
    }
    assert forall|j: int| 0 <= j < tv.len() implies (d.1.contains(#[trigger] tv[j].0) <==> !has_key(block, tv[j].0)) by {
        lemma_simple_removes_members(block, tv, tv.len() as int, tv[j].0);
    }
    assert forall|k: Seq<char>| d.1.contains(k) implies exists|j: int| 0 <= j < tv.len() && #[trigger] tv[j].0 == k by {
        lemma_simple_removes_members(block, tv, tv.len() as int, k);
    }
}

/// A table of strings seen as an object of string values.
pub open spec fn text_values(base: Entries) -> Seq<(Seq<char>, ValueView)> {
    base.map_values(|e: (Seq<char>, Seq<char>)| (e.0, ValueView::Text(e.1)))
}

/// The entries of a baseline object, by value.
pub open spec fn object_values(v: Seq<(Seq<char>, BaselineValue)>) -> Seq<(Seq<char>, ValueView)> {
    v.map_values(|e: (Seq<char>, BaselineValue)| (e.0, e.1.value_view()))
}

proof fn lemma_text_values_lookup(s: Entries, k: Seq<char>)
    requires
        keys_distinct(s),
    ensures
        has_key(text_values(s), k) == has_key(s, k),
        has_key(s, k) ==> lookup(text_values(s), k) == Some(ValueView::Text(lookup(s, k)->0)),
        keys_distinct(text_values(s)),
{
    let t = text_values(s);
    assert forall|i: int, j: int|
        0 <= i < t.len() && 0 <= j < t.len() && i != j implies #[trigger] t[i].0 != #[trigger] t[j].0 by {
        assert(t[i].0 == s[i].0);
        assert(t[j].0 == s[j].0);
    }
    if has_key(s, k) {
        let p = key_pos(s, k);
        assert(s[p].0 == k);
        assert(t[p].0 == k);
        crate::maps::lemma_key_pos(t, k, p);
        crate::maps::lemma_key_pos(s, k, p);
    }
    if has_key(t, k) {
        let p = key_pos(t, k);
        assert(s[p].0 == t[p].0);
    }
}

proof fn lemma_object_values_lookup(s: Seq<(Seq<char>, BaselineValue)>, k: Seq<char>)
    requires
        keys_distinct(s),
    ensures
        has_key(object_values(s), k) == has_key(s, k),
        has_key(s, k) ==> lookup(object_values(s), k) == Some(lookup(s, k)->0.value_view()),
        keys_distinct(object_values(s)),
{
    let t = object_values(s);
    assert forall|i: int, j: int|
        0 <= i < t.len() && 0 <= j < t.len() && i != j implies #[trigger] t[i].0 != #[trigger] t[j].0 by {
        assert(t[i].0 == s[i].0);
        assert(t[j].0 == s[j].0);
    }
    if has_key(s, k) {
        let p = key_pos(s, k);
        assert(s[p].0 == k);
        assert(t[p].0 == k);
        crate::maps::lemma_key_pos(t, k, p);
        crate::maps::lemma_key_pos(s, k, p);
    }
    if has_key(t, k) {
        let p = key_pos(t, k);
        assert(s[p].0 == t[p].0);
    }
}

/// Copy of a block's `bash` value as a baseline value.
fn bash_value(p: &SotPermission) -> (r: BaselineValue)
    ensures
        block_entries(*p).last().1 == r.value_view(),
{
    match &p.bash {
        BashPermission::Simple(s) => BaselineValue::Text(s.clone()),
        BashPermission::Detailed(m) => BaselineValue::TextMap(crate::maps::pm_clone(m)),
    }
}

/// The entries of a block as exec values.
fn block_of(p: &SotPermission) -> (r: Vec<(String, BaselineValue)>)
    ensures
        r@.len() == block_entries(*p).len(),
        forall|i: int| 0 <= i < r@.len() ==> (#[trigger] r@[i]).0@ == block_entries(*p)[i].0
            && r@[i].1.value_view() == block_entries(*p)[i].1,
{
    let mut r: Vec<(String, BaselineValue)> = Vec::new();
    let ghost b = block_entries(*p);
    match &p.write {
        Some(w) => {
            r.push((string_of("write"), BaselineValue::Text(w.clone())));
        },
        None => {},
    }
    match &p.edit {
        Some(e) => {
            r.push((string_of("edit"), BaselineValue::Text(e.clone())));
        },
        None => {},
    }
    r.push((string_of("bash"), bash_value(p)));
    r
}

fn same_table_exec(a: &IndexMap<String, String>, b: &IndexMap<String, String>) -> (r: bool)
    ensures
        r == same_table(perm_entries(*a), perm_entries(*b)),
{
    let ghost sa = perm_entries(*a);
    let ghost sb = perm_entries(*b);
    let n = pm_len(a);
    if n != pm_len(b) {
        return false;
    }
    let mut i: usize = 0;
    while i < n
        invariant
            sa == perm_entries(*a),
            sb == perm_entries(*b),
            n == sa.len(),
            sa.len() == sb.len(),
            i <= n,
            forall|q: int| 0 <= q < i ==> lookup(sb, (#[trigger] sa[q]).0) == Some(sa[q].1),
        decreases n - i,
    {
        let (k, v) = pm_get_index(a, i).unwrap();
        match pm_get(b, k.as_str()) {
            Some(w) => {
                if !str_eq(w.as_str(), v.as_str()) {
                    return false;
                }
            },
            None => {
                return false;
            },
        }
        i = i + 1;
    }
    true
}

fn values_equal_exec(a: &BaselineValue, b: &BaselineValue) -> (r: bool)
    ensures
        r == values_equal(a.value_view(), b.value_view()),
{
    match (a, b) {
        (BaselineValue::Text(x), BaselineValue::Text(y)) => str_eq(x.as_str(), y.as_str()),
        (BaselineValue::TextMap(x), BaselineValue::TextMap(y)) => same_table_exec(x, y),
        _ => false,
    }
}

fn value_text_exec(x: &BaselineValue) -> (r: String)
    requires
        x.value_view() is Text || x.value_view() is TextMap,
    ensures
        r@ == value_text(x.value_view()),
{
    match x {
        BaselineValue::Text(s) => s.clone(),
        BaselineValue::TextMap(m) => json_object(m),
        _ => String::new(),
    }
}

fn block_has_key(p: &SotPermission, k: &str) -> (r: bool)
    ensures
        r == has_key(block_entries(*p), k@),
{
    let b = block_of(p);
    let ghost bs = block_entries(*p);
    let mut i: usize = 0;
    while i < b.len()
        invariant
            bs == block_entries(*p),
            b@.len() == bs.len(),
            forall|q: int| 0 <= q < b@.len() ==> (#[trigger] b@[q]).0@ == bs[q].0,
            i <= b@.len(),
            forall|q: int| 0 <= q < i ==> (#[trigger] bs[q]).0 != k@,
        decreases b.len() - i,
    {
        if str_eq(b[i].0.as_str(), k) {
            proof {
                assert(bs[i as int].0 == k@);
            }
            return true;
        }
        i = i + 1;
    }
    false
}

/// The adds of a block against a baseline object given by its lookup
/// function `tv_get`.
fn simple_adds_of(p: &SotPermission, base: &IndexMap<String, String>) -> (r: Vec<(String, String)>)
    ensures
        r@.map_values(|e: (String, String)| (e.0@, e.1@)) == simple_adds(
            block_entries(*p),
            text_values(perm_entries(*base)),
            block_entries(*p).len() as int,
        ),
{
    let b = block_of(p);
    let ghost bs = block_entries(*p);
    let ghost tv = text_values(perm_entries(*base));
    let _ = pm_len(base);
    let mut adds: Vec<(String, String)> = Vec::new();
    let mut i: usize = 0;
    while i < b.len()
        invariant
            bs == block_entries(*p),
            tv == text_values(perm_entries(*base)),
            keys_distinct(perm_entries(*base)),
            b@.len() == bs.len(),
            forall|q: int| 0 <= q < b@.len() ==> (#[trigger] b@[q]).0@ == bs[q].0 && b@[q].1.value_view()
                == bs[q].1,
            i <= b@.len(),
            adds@.map_values(|e: (String, String)| (e.0@, e.1@)) == simple_adds(bs, tv, i as int),
        decreases b.len() - i,
    {
        let k = &b[i].0;
        let x = &b[i].1;
        proof {
            lemma_text_values_lookup(perm_entries(*base), k@);
            assert(bs[i as int] == (k@, x.value_view()));
        }
        let same = match pm_get(base, k.as_str()) {
            Some(tv_s) => match x {
                BaselineValue::Text(xs) => str_eq(tv_s.as_str(), xs.as_str()),
                _ => false,
            },
            None => false,
        };
        let ghost before = adds@;
        if !same {
            let t = value_text_exec(x);
            adds.push((k.clone(), t));
            proof {
                assert(adds@.map_values(|e: (String, String)| (e.0@, e.1@)) =~= before.map_values(
                    |e: (String, String)| (e.0@, e.1@),
                ).push((k@, value_text(x.value_view()))));
            }
        }
        i = i + 1;
    }
    adds
}

fn simple_removes_of(p: &SotPermission, base: &IndexMap<String, String>) -> (r: Vec<String>)
    ensures
        names_view(r) == simple_removes(
            block_entries(*p),
            text_values(perm_entries(*base)),
            perm_entries(*base).len() as int,
        ),
{
    let ghost bs = block_entries(*p);
    let ghost tv = text_values(perm_entries(*base));
    let m = pm_len(base);
    let mut removes: Vec<String> = Vec::new();
    let mut j: usize = 0;
    while j < m
        invariant
            bs == block_entries(*p),
            tv == text_values(perm_entries(*base)),
            m == perm_entries(*base).len(),
            j <= m,
            names_view(removes) == simple_removes(bs, tv, j as int),
        decreases m - j,
    {
        let (k, _) = pm_get_index(base, j).unwrap();
        assert(tv[j as int].0 == k@);
        let ghost before = removes@;
        if !block_has_key(p, k.as_str()) {
            removes.push(k.clone());
            proof {
                assert(names_view(removes) =~= before.map_values(|x: String| x@).push(k@));
            }
        }
        j = j + 1;
    }
    removes
}

fn simple_adds_of_object(p: &SotPermission, obj: &IndexMap<String, BaselineValue>) -> (r: Vec<(String, String)>)
    ensures
        r@.map_values(|e: (String, String)| (e.0@, e.1@)) == simple_adds(
            block_entries(*p),
            object_values(value_entries(*obj)),
            block_entries(*p).len() as int,
        ),
{
    let b = block_of(p);
    let ghost bs = block_entries(*p);
    let ghost tv = object_values(value_entries(*obj));
    let _ = vm_len(obj);
    let mut adds: Vec<(String, String)> = Vec::new();
    let mut i: usize = 0;
    while i < b.len()
        invariant
            bs == block_entries(*p),
            tv == object_values(value_entries(*obj)),
            keys_distinct(value_entries(*obj)),
            b@.len() == bs.len(),
            forall|q: int| 0 <= q < b@.len() ==> (#[trigger] b@[q]).0@ == bs[q].0 && b@[q].1.value_view()
                == bs[q].1,
            i <= b@.len(),
            adds@.map_values(|e: (String, String)| (e.0@, e.1@)) == simple_adds(bs, tv, i as int),
        decreases b.len() - i,
    {
        let k = &b[i].0;
        let x = &b[i].1;
        proof {
            lemma_object_values_lookup(value_entries(*obj), k@);
            assert(bs[i as int] == (k@, x.value_view()));
        }
        let same = match vm_get(obj, k.as_str()) {
            Some(tv_v) => values_equal_exec(tv_v, x),
            None => false,
        };
        let ghost before = adds@;
        if !same {
            let t = value_text_exec(x);
            adds.push((k.clone(), t));
            proof {
                assert(adds@.map_values(|e: (String, String)| (e.0@, e.1@)) =~= before.map_values(
                    |e: (String, String)| (e.0@, e.1@),
                ).push((k@, value_text(x.value_view()))));
            }
        }
        i = i + 1;
    }
    adds
}

fn simple_removes_of_object(p: &SotPermission, obj: &IndexMap<String, BaselineValue>) -> (r: Vec<String>)
    ensures
        names_view(r) == simple_removes(
            block_entries(*p),
            object_values(value_entries(*obj)),
            value_entries(*obj).len() as int,
        ),
{
    let ghost bs = block_entries(*p);
    let ghost tv = object_values(value_entries(*obj));
    let m = vm_len(obj);
    let mut removes: Vec<String> = Vec::new();
    let mut j: usize = 0;
    while j < m
        invariant
            bs == block_entries(*p),
            tv == object_values(value_entries(*obj)),
            m == value_entries(*obj).len(),
            j <= m,
            names_view(removes) == simple_removes(bs, tv, j as int),
        decreases m - j,
    {
        let (k, _) = vm_get_index(obj, j).unwrap();
        assert(tv[j as int].0 == k@);
        let ghost before = removes@;
        if !block_has_key(p, k.as_str()) {
            removes.push(k.clone());
            proof {
                assert(names_view(removes) =~= before.map_values(|x: String| x@).push(k@));
            }
        }
        j = j + 1;
    }
    removes
}

/// The delta of agent `agent_name` of `sot` against a pre-merged baseline:
/// none for an agent the file lacks; for a simple category the whole block
/// against the baseline's keys; for a complex category the `bash` table
/// against the baseline table (none when `bash` is a single value).
pub open spec fn baseline_delta(sot: Sot, base: Entries, agent: Seq<char>, category: Seq<char>) -> (Entries, Seq<Seq<char>>) {
    match lookup(sot_entries(sot), agent) {
        None => no_delta(),
        Some(a) => if simple_categories().contains(category) {
            simple_delta(a.permission, text_values(base))
        } else {
            match a.permission.bash {
                BashPermission::Simple(_) => no_delta(),
                BashPermission::Detailed(m) => table_delta(perm_entries(m), base),
            }
        },
    }
}

/// Compute the delta between a permissions file and an effective baseline
/// for one agent (the baseline is pre-merged along the inheritance chain).
pub fn compute_delta_from_baseline(
    sot: &Sot,
    effective_baseline: &IndexMap<String, String>,
    agent_name: &str,
    category_name: &str,
) -> (d: Delta)
    ensures
        delta_view(d) == baseline_delta(*sot, perm_entries(*effective_baseline), agent_name@, category_name@),
{
    let sot_entry = match sot_get(sot, agent_name) {
        Some(e) => e,
        None => {
            return empty_delta();
        },
    };
    if is_simple_category(category_name) {
        let adds = simple_adds_of(&sot_entry.permission, effective_baseline);
        let removes = simple_removes_of(&sot_entry.permission, effective_baseline);
        Delta { adds, removes }
    } else {
        match &sot_entry.permission.bash {
            BashPermission::Simple(_) => empty_delta(),
            BashPermission::Detailed(m) => table_delta_of(m, effective_baseline),
        }
    }
}

/// The object a template baseline is read as for a simple category: its
/// entries, or none when it is not an object.
pub open spec fn template_object(t: Template) -> Seq<(Seq<char>, ValueView)> {
    match t.baseline.permission {
        BaselinePermission::Object(m) => object_values(value_entries(m)),
        BaselinePermission::NotObject => Seq::empty(),
    }
}

/// The table a template baseline is read as for a complex category: its
/// table, or none when it is not a table of strings.
pub open spec fn template_table(t: Template) -> Entries {
    match baseline_table(t.baseline.permission) {
        Some(e) => e,
        None => Seq::empty(),
    }
}

/// Delta for simple categories: compare the full permission objects.
pub fn compute_simple_delta(sot_entry: &crate::models::SotAgent, template: &Template) -> (d: Delta)
    ensures
        delta_view(d) == simple_delta(sot_entry.permission, template_object(*template)),
{
    match &template.baseline.permission {
        BaselinePermission::Object(obj) => {
            let adds = simple_adds_of_object(&sot_entry.permission, obj);
            let removes = simple_removes_of_object(&sot_entry.permission, obj);
            Delta { adds, removes }
        },
        BaselinePermission::NotObject => {
            let empty = crate::maps::pm_new();
            let adds = simple_adds_of(&sot_entry.permission, &empty);
            let removes = simple_removes_of(&sot_entry.permission, &empty);
            proof {
                assert(text_values(perm_entries(empty)) =~= Seq::<(Seq<char>, ValueView)>::empty());
            }
            Delta { adds, removes }
        },
    }
}

/// Delta for complex categories: compare the `bash` tables.
pub fn compute_complex_delta(sot_entry: &crate::models::SotAgent, template: &Template) -> (d: Delta)
    ensures
        delta_view(d) == match sot_entry.permission.bash {
            BashPermission::Simple(_) => no_delta(),
            BashPermission::Detailed(m) => table_delta(perm_entries(m), template_table(*template)),
        },
{
    let template_bash = match baseline_table_of(&template.baseline.permission) {
        Some(m) => m,
        None => crate::maps::pm_new(),
    };
    match &sot_entry.permission.bash {
        BashPermission::Simple(_) => empty_delta(),
        BashPermission::Detailed(m) => table_delta_of(m, &template_bash),
    }
}

/// The delta of agent `agent` of `sot` against its template's own baseline.
pub open spec fn template_delta(sot: Sot, t: Template, agent: Seq<char>, category: Seq<char>) -> (Entries, Seq<Seq<char>>) {
    match lookup(sot_entries(sot), agent) {
        None => no_delta(),
        Some(a) => if simple_categories().contains(category) {
            simple_delta(a.permission, template_object(t))
        } else {
            match a.permission.bash {
                BashPermission::Simple(_) => no_delta(),
                BashPermission::Detailed(m) => table_delta(perm_entries(m), template_table(t)),
            }
        },
    }
}

/// Compute the delta between a permissions file and a template baseline
/// for one agent.
pub fn compute_delta(sot: &Sot, template: &Template, agent_name: &str, category_name: &str) -> (d: Delta)
    ensures
        delta_view(d) == template_delta(*sot, *template, agent_name@, category_name@),
{
    let sot_entry = match sot_get(sot, agent_name) {
        Some(e) => e,
        None => {
            return empty_delta();
        },
    };
    if is_simple_category(category_name) {
        compute_simple_delta(sot_entry, template)
    } else {
        compute_complex_delta(sot_entry, template)
    }
}

// ---------------------------------------------------------------------------
// Override files
// ---------------------------------------------------------------------------

/// `"entry"` for one, `"entries"` otherwise.
pub open spec fn entry_word(n: nat) -> Seq<char> {
    if n == 1 {
        "entry"@
    } else {
        "entries"@
    }
}

/// The `// Delta:` comment line for `a` additions and `r` removals.
pub open spec fn delta_summary(a: nat, r: nat) -> Seq<char> {
    if a + r == 0 {
        "// Delta: none"@
    } else {
        let parts = (if a > 0 {
            seq!["adds "@ + decimal(a) + " "@ + entry_word(a)]
        } else {
            Seq::empty()
        }) + (if r > 0 {
            seq!["removes "@ + decimal(r) + " "@ + entry_word(r)]
        } else {
            Seq::empty()
        });
        "// Delta: "@ + join_with(parts, ", "@)
    }
}

/// One line of the `add` object.
pub open spec fn add_line(k: Seq<char>, v: Seq<char>, comma: bool) -> Seq<char> {
    "        "@ + json_quoted(k) + ": "@ + json_quoted(v) + if comma {
        ","@
    } else {
        Seq::empty()
    }
}

/// The `add` lines without grouping: every entry but the last with a comma.
pub open spec fn plain_add_lines(adds: Entries) -> Seq<Seq<char>> {
    Seq::new(adds.len(), |i: int| add_line(adds[i].0, adds[i].1, i < adds.len() - 1))
}

/// The additions grouped by command group (first `n`), groups in order of
/// first appearance, entries in delta order.
pub open spec fn group_adds(gs: Seq<(Seq<char>, Seq<Seq<char>>)>, adds: Entries, n: int) -> Seq<(Seq<char>, Entries)>
    decreases n,
{
    if n <= 0 {
        Seq::empty()
    } else {
        push_to_group(group_adds(gs, adds, n - 1), classify_from(gs, lowercase(adds[n - 1].0), 0), adds[n - 1])
    }
}

/// The groups of `grouped` that the first `k` names of `order` name, in
/// that order.
pub open spec fn groups_in_order(grouped: Seq<(Seq<char>, Entries)>, order: Seq<Seq<char>>, k: int) -> Seq<(Seq<char>, Entries)>
    decreases k,
{
    if k <= 0 {
        Seq::empty()
    } else {
        groups_in_order(grouped, order, k - 1) + if has_key(grouped, order[k - 1]) {
            seq![(order[k - 1], lookup(grouped, order[k - 1])->0)]
        } else {
            Seq::empty()
        }
    }
}

/// `acc` followed by those of the first `k` groups of `grouped` that it
/// does not name yet.
pub open spec fn remaining_groups(grouped: Seq<(Seq<char>, Entries)>, acc: Seq<(Seq<char>, Entries)>, k: int) -> Seq<(Seq<char>, Entries)>
    decreases k,
{
    if k <= 0 {
        acc
    } else {
        let a = remaining_groups(grouped, acc, k - 1);
        if keys_of(a).contains(grouped[k - 1].0) {
            a
        } else {
            a.push(grouped[k - 1])
        }
    }
}

/// The groups in display order: those of `order`, then any others.
pub open spec fn ordered_groups(grouped: Seq<(Seq<char>, Entries)>, order: Seq<Seq<char>>) -> Seq<(Seq<char>, Entries)> {
    remaining_groups(grouped, groups_in_order(grouped, order, order.len() as int), grouped.len() as int)
}

/// A flattened item: key, value, and whether it is a group header.
pub type Item = (Seq<char>, Seq<char>, bool);

/// The first `k` groups flattened: each header, then its entries.
pub open spec fn group_items(groups: Seq<(Seq<char>, Entries)>, k: int) -> Seq<Item>
    decreases k,
{
    if k <= 0 {
        Seq::empty()
    } else {
        group_items(groups, k - 1) + seq![(groups[k - 1].0, Seq::<char>::empty(), true)]
            + groups[k - 1].1.map_values(|e: (Seq<char>, Seq<char>)| (e.0, e.1, false))
    }
}

/// An entry comes after position `i`.
pub open spec fn later_entry(items: Seq<Item>, i: int) -> bool {
    exists|j: int| i < j < items.len() && !(#[trigger] items[j]).2
}

/// The lines of the flattened items: a comment for each header, an entry
/// line for each entry, with a comma unless no entry follows.
pub open spec fn item_lines(items: Seq<Item>) -> Seq<Seq<char>> {
    Seq::new(
        items.len(),
        |i: int|
            if items[i].2 {
                "        // --- "@ + items[i].0 + " ---"@
            } else {
                add_line(items[i].0, items[i].1, later_entry(items, i))
            },
    )
}

/// The lines inside the `add` object: grouped from three additions on.
pub open spec fn add_body(adds: Entries, gs: Seq<(Seq<char>, Seq<Seq<char>>)>) -> Seq<Seq<char>> {
    if adds.len() >= 3 {
        let groups = ordered_groups(group_adds(gs, adds, adds.len() as int), keys_of(gs).push("Other"@));
        item_lines(group_items(groups, groups.len() as int))
    } else {
        plain_add_lines(adds)
    }
}

/// The lines inside the `remove` array.
pub open spec fn remove_lines(removes: Seq<Seq<char>>) -> Seq<Seq<char>> {
    Seq::new(
        removes.len(),
        |i: int|
            "        "@ + json_quoted(removes[i]) + if i < removes.len() - 1 {
                ","@
            } else {
                Seq::empty()
            },
    )
}

/// The lines of the `permission` object of an agent file.
pub open spec fn permission_body(adds: Entries, removes: Seq<Seq<char>>, gs: Seq<(Seq<char>, Seq<Seq<char>>)>) -> Seq<Seq<char>> {
    (if adds.len() > 0 {
        seq!["      \"add\": {"@] + add_body(adds, gs) + seq![
            if removes.len() > 0 {
                "      },"@
            } else {
                "      }"@
            },
        ]
    } else {
        Seq::empty()
    }) + (if removes.len() > 0 {
        seq!["      \"remove\": ["@] + remove_lines(removes) + seq!["      ]"@]
    } else {
        Seq::empty()
    })
}

/// The schema line of an agent file.
pub open spec fn schema_line() -> Seq<char> {
    "  \"$schema\": \"https://raw.githubusercontent.com/nmindz/agency/master/schemas/agent.json\","@
}

/// The lines of an agent file for `agent` in category `cat` with this delta.
pub open spec fn override_lines(
    agent: Seq<char>,
    cat: Seq<char>,
    adds: Entries,
    removes: Seq<Seq<char>>,
    gs: Seq<(Seq<char>, Seq<Seq<char>>)>,
) -> Seq<Seq<char>> {
    seq![
        "// Override: "@ + agent,
        "// Extends: "@ + cat,
        delta_summary(adds.len(), removes.len()),
        "{"@,
        schema_line(),
        "  \"$version\": \"1.0.0\","@,
        "  \"agent\": "@ + json_quoted(agent) + ","@,
        "  \"$extends\": "@ + json_quoted(cat) + ","@,
    ] + (if adds.len() + removes.len() == 0 {
        seq!["  \"overrides\": {}"@]
    } else {
        seq!["  \"overrides\": {"@, "    \"permission\": {"@] + permission_body(adds, removes, gs) + seq![
            "    }"@,
            "  }"@,
        ]
    }) + seq!["}"@]
}

fn push_text(v: &mut Vec<String>, s: String)
    ensures
        names_view(*final(v)) == names_view(*old(v)).push(s@),
{
    let ghost pre = names_view(*v);
    v.push(s);
    proof {
        assert(names_view(*v) =~= pre.push(s@));
    }
}

fn summary_line(a: usize, r: usize) -> (s: String)
    requires
        a + r <= usize::MAX,
    ensures
        s@ == delta_summary(a as nat, r as nat),
{
    proof {
        reveal_strlit("// Delta: none");
        reveal_strlit("// Delta: ");
        reveal_strlit("adds ");
        reveal_strlit("removes ");
        reveal_strlit(" ");
        reveal_strlit("entry");
        reveal_strlit("entries");
        reveal_strlit(", ");
    }
    if a + r == 0 {
        return string_of("// Delta: none");
    }
    let mut line = string_of("// Delta: ");
    let ghost mut parts: Seq<Seq<char>> = Seq::empty();
    if a > 0 {
        line.append("adds ");
        let n = usize_text(a);
        line.append(n.as_str());
        line.append(" ");
        line.append(if a == 1 { "entry" } else { "entries" });
        proof {
            parts = parts.push("adds "@ + decimal(a as nat) + " "@ + entry_word(a as nat));
        }
    }
    if r > 0 {
        if a > 0 {
            line.append(", ");
        }
        line.append("removes ");
        let n = usize_text(r);
        line.append(n.as_str());
        line.append(" ");
        line.append(if r == 1 { "entry" } else { "entries" });
        proof {
            parts = parts.push("removes "@ + decimal(r as nat) + " "@ + entry_word(r as nat));
        }
    }
    proof {
        let full = (if a > 0 {
            seq!["adds "@ + decimal(a as nat) + " "@ + entry_word(a as nat)]
        } else {
            Seq::empty()
        }) + (if r > 0 {
            seq!["removes "@ + decimal(r as nat) + " "@ + entry_word(r as nat)]
        } else {
            Seq::empty()
        });
        assert(parts =~= full);
        if a > 0 && r > 0 {
            assert(parts.drop_last() =~= seq![parts[0]]);
            assert(join_with(parts, ", "@) == join_with(parts.drop_last(), ", "@) + ", "@ + parts.last());
        }
        assert(line@ =~= "// Delta: "@ + join_with(parts, ", "@));
    }
    line
}

fn add_line_exec(k: &str, v: &str, comma: bool) -> (s: String)
    ensures
        s@ == add_line(k@, v@, comma),
{
    let mut line = string_of("        ");
    let qk = json_str(k);
    let qv = json_str(v);
    line.append(qk.as_str());
    line.append(": ");
    line.append(qv.as_str());
    if comma {
        line.append(",");
    }
    proof {
        reveal_strlit("        ");
        reveal_strlit(": ");
        reveal_strlit(",");
        if !comma {
            assert(line@ =~= add_line(k@, v@, comma));
        }
    }
    line
}

fn plain_adds(adds: &Vec<(String, String)>, out: &mut Vec<String>)
    ensures
        names_view(*final(out)) == names_view(*old(out)) + plain_add_lines(pairs_view(adds@)),
{
    let ghost av = pairs_view(adds@);
    let ghost o0 = names_view(*out);
    let mut i: usize = 0;
    while i < adds.len()
        invariant
            av == pairs_view(adds@),
            i <= adds@.len(),
            names_view(*out) == o0 + plain_add_lines(av).take(i as int),
        decreases adds.len() - i,
    {
        let (k, v) = &adds[i];
        let line = add_line_exec(k.as_str(), v.as_str(), i + 1 < adds.len());
        push_text(out, line);
        proof {
            assert(plain_add_lines(av).take(i + 1) =~= plain_add_lines(av).take(i as int).push(line@));
        }
        i = i + 1;
    }
    proof {
        assert(plain_add_lines(av).take(adds@.len() as int) =~= plain_add_lines(av));
    }
}

fn remove_lines_exec(removes: &Vec<String>, out: &mut Vec<String>)
    ensures
        names_view(*final(out)) == names_view(*old(out)) + remove_lines(names_view(*removes)),
{
    let ghost rv = names_view(*removes);
    let ghost o0 = names_view(*out);
    let mut i: usize = 0;
    while i < removes.len()
        invariant
            rv == names_view(*removes),
            i <= removes@.len(),
            names_view(*out) == o0 + remove_lines(rv).take(i as int),
        decreases removes.len() - i,
    {
        let mut line = string_of("        ");
        let q = json_str(removes[i].as_str());
        line.append(q.as_str());
        if i + 1 < removes.len() {
            line.append(",");
        }
        proof {
            reveal_strlit("        ");
            reveal_strlit(",");
            assert(line@ =~= remove_lines(rv)[i as int]);
        }
        push_text(out, line);
        proof {
            assert(remove_lines(rv).take(i + 1) =~= remove_lines(rv).take(i as int).push(line@));
        }
        i = i + 1;
    }
    proof {
        assert(remove_lines(rv).take(removes@.len() as int) =~= remove_lines(rv));
    }
}

fn copy_pairs(v: &Vec<(String, String)>) -> (r: Vec<(String, String)>)
    ensures
        pairs_view(r@) == pairs_view(v@),
{
    let mut r: Vec<(String, String)> = Vec::new();
    let mut i: usize = 0;
    while i < v.len()
        invariant
            i <= v@.len(),
            pairs_view(r@) == pairs_view(v@).take(i as int),
        decreases v.len() - i,
    {
        let (a, b) = &v[i];
        let ghost pre = pairs_view(r@);
        r.push((a.clone(), b.clone()));
        proof {
            assert(pairs_view(r@) =~= pre.push((a@, b@)));
            assert(pairs_view(v@).take(i + 1) =~= pairs_view(v@).take(i as int).push((a@, b@)));
        }
        i = i + 1;
    }
    proof {
        assert(pairs_view(v@).take(v@.len() as int) =~= pairs_view(v@));
    }
    r
}

/// The views of a list of groups.
pub open spec fn groups_view(v: Seq<(String, Vec<(String, String)>)>) -> Seq<(Seq<char>, Entries)> {
    v.map_values(|g: (String, Vec<(String, String)>)| (g.0@, pairs_view(g.1@)))
}

fn names_contain(v: &Vec<(String, Vec<(String, String)>)>, name: &str) -> (r: bool)
    ensures
        r == keys_of(groups_view(v@)).contains(name@),
{
    let ghost ks = keys_of(groups_view(v@));
    let mut i: usize = 0;
    while i < v.len()
        invariant
            ks == keys_of(groups_view(v@)),
            i <= v@.len(),
            forall|j: int| 0 <= j < i ==> ks[j] != name@,
        decreases v.len() - i,
    {
        if str_eq(v[i].0.as_str(), name) {
            proof {
                assert(ks[i as int] == name@);
            }
            return true;
        }
        i = i + 1;
    }
    false
}

fn ordered_groups_exec(
    grouped: &IndexMap<String, Vec<(String, String)>>,
    order: &Vec<String>,
) -> (r: Vec<(String, Vec<(String, String)>)>)
    ensures
        groups_view(r@) == ordered_groups(grouped_pairs(*grouped), names_view(*order)),
{
    let ghost gp = grouped_pairs(*grouped);
    let ghost ov = names_view(*order);
    let mut ordered: Vec<(String, Vec<(String, String)>)> = Vec::new();
    let mut i: usize = 0;
    while i < order.len()
        invariant
            gp == grouped_pairs(*grouped),
            ov == names_view(*order),
            i <= order@.len(),
            groups_view(ordered@) == groups_in_order(gp, ov, i as int),
        decreases order.len() - i,
    {
        let g = &order[i];
        assert(ov[i as int] == g@);
        let ghost pre = groups_view(ordered@);
        match gp_get(grouped, g.as_str()) {
            Some(es) => {
                let c = copy_pairs(es);
                ordered.push((g.clone(), c));
                proof {
                    assert(groups_view(ordered@) =~= pre.push((g@, pairs_view(c@))));
                }
            },
            None => {
                proof {
                    assert(groups_in_order(gp, ov, i + 1) =~= groups_in_order(gp, ov, i as int));
                }
            },
        }
        i = i + 1;
    }
    let ghost first = groups_view(ordered@);
    let n = gp_len(grouped);
    let mut j: usize = 0;
    while j < n
        invariant
            gp == grouped_pairs(*grouped),
            n == gp.len(),
            j <= n,
            groups_view(ordered@) == remaining_groups(gp, first, j as int),
        decreases n - j,
    {
        let (g, es) = gp_get_index(grouped, j).unwrap();
        if !names_contain(&ordered, g.as_str()) {
            let ghost pre = groups_view(ordered@);
            let c = copy_pairs(es);
            ordered.push((g.clone(), c));
            proof {
                assert(groups_view(ordered@) =~= pre.push((g@, pairs_view(c@))));
            }
        }
        j = j + 1;
    }
    ordered
}

fn group_items_exec(groups: &Vec<(String, Vec<(String, String)>)>) -> (r: Vec<(String, String, bool)>)
    ensures
        r@.map_values(|t: (String, String, bool)| (t.0@, t.1@, t.2)) == group_items(groups_view(groups@), groups@.len() as int),
{
    let ghost gv = groups_view(groups@);
    let mut items: Vec<(String, String, bool)> = Vec::new();
    let mut i: usize = 0;
    while i < groups.len()
        invariant
            gv == groups_view(groups@),
            i <= groups@.len(),
            items@.map_values(|t: (String, String, bool)| (t.0@, t.1@, t.2)) == group_items(gv, i as int),
        decreases groups.len() - i,
    {
        let (g, es) = &groups[i];
        let ghost base = items@.map_values(|t: (String, String, bool)| (t.0@, t.1@, t.2));
        items.push((g.clone(), String::new(), true));
        let ghost ev = pairs_view(es@);
        let mut k: usize = 0;
        while k < es.len()
            invariant
                ev == pairs_view(es@),
                k <= es@.len(),
                items@.map_values(|t: (String, String, bool)| (t.0@, t.1@, t.2)) == base + seq![
                    (g@, Seq::<char>::empty(), true),
                ] + ev.take(k as int).map_values(|e: (Seq<char>, Seq<char>)| (e.0, e.1, false)),
            decreases es.len() - k,
        {
            let (a, b) = &es[k];
            let ghost pre = items@.map_values(|t: (String, String, bool)| (t.0@, t.1@, t.2));
            items.push((a.clone(), b.clone(), false));
            proof {
                assert(items@.map_values(|t: (String, String, bool)| (t.0@, t.1@, t.2)) =~= pre.push((a@, b@, false)));
                assert(ev.take(k + 1).map_values(|e: (Seq<char>, Seq<char>)| (e.0, e.1, false)) =~= ev.take(
                    k as int,
                ).map_values(|e: (Seq<char>, Seq<char>)| (e.0, e.1, false)).push((a@, b@, false)));
            }
            k = k + 1;
        }
        proof {
            assert(ev.take(es@.len() as int) =~= ev);
            assert(gv[i as int] == (g@, ev));
        }
        i = i + 1;
    }
    items
}

fn item_lines_exec(items: &Vec<(String, String, bool)>, out: &mut Vec<String>)
    ensures
        names_view(*final(out)) == names_view(*old(out)) + item_lines(
            items@.map_values(|t: (String, String, bool)| (t.0@, t.1@, t.2)),
        ),
{
    let ghost iv = items@.map_values(|t: (String, String, bool)| (t.0@, t.1@, t.2));
    let ghost o0 = names_view(*out);
    // the position of the last entry, or the length when there is none
    let mut last: usize = items.len();
    let mut b: usize = items.len();
    while b > 0
        invariant
            iv == items@.map_values(|t: (String, String, bool)| (t.0@, t.1@, t.2)),
            b <= items@.len(),
            last <= items@.len(),
            last == items@.len() ==> forall|j: int| b <= j < items@.len() ==> (#[trigger] iv[j]).2,
            last < items@.len() ==> !iv[last as int].2 && forall|j: int| last < j < items@.len() ==> (#[trigger] iv[j]).2,
            last < items@.len() ==> b <= last,
        decreases b,
    {
        b = b - 1;
        if last == items.len() && !items[b].2 {
            last = b;
        }
    }
    let mut i: usize = 0;
    while i < items.len()
        invariant
            iv == items@.map_values(|t: (String, String, bool)| (t.0@, t.1@, t.2)),
            last <= items@.len(),
            last == items@.len() ==> forall|j: int| 0 <= j < items@.len() ==> (#[trigger] iv[j]).2,
            last < items@.len() ==> !iv[last as int].2 && forall|j: int| last < j < items@.len() ==> (#[trigger] iv[j]).2,
            i <= items@.len(),
            names_view(*out) == o0 + item_lines(iv).take(i as int),
        decreases items.len() - i,
    {
        let (k, v, header) = &items[i];
        let line = if *header {
            let mut l = string_of("        // --- ");
            l.append(k.as_str());
            l.append(" ---");
            proof {
                reveal_strlit("        // --- ");
                reveal_strlit(" ---");
            }
            l
        } else {
            let comma = i < last && last < items.len();
            proof {
                assert(iv.len() == items@.len());
                if last < items@.len() {
                    if i < last {
                        assert(later_entry(iv, i as int)) by {
                            assert(!iv[last as int].2);
                        }
                    } else {
                        if later_entry(iv, i as int) {
                            let j = choose|j: int| i < j < iv.len() && !(#[trigger] iv[j]).2;
                            assert(iv[j].2);
                        }
                    }
                } else {
                    if later_entry(iv, i as int) {
                        let j = choose|j: int| i < j < iv.len() && !(#[trigger] iv[j]).2;
                        assert(iv[j].2);
                    }
                }
            }
            add_line_exec(k.as_str(), v.as_str(), comma)
        };
        proof {
            assert(iv[i as int] == (k@, v@, *header));
            assert(line@ == item_lines(iv)[i as int]);
        }
        push_text(out, line);
        proof {
            assert(item_lines(iv).take(i + 1) =~= item_lines(iv).take(i as int).push(line@));
        }
        i = i + 1;
    }
    proof {
        assert(item_lines(iv).take(items@.len() as int) =~= item_lines(iv));
    }
}

fn grouped_adds(adds: &Vec<(String, String)>, classifier: &CommandGroupClassifier, out: &mut Vec<String>)
    ensures
        ({
            let av = pairs_view(adds@);
            let groups = ordered_groups(group_adds(classifier@, av, av.len() as int), keys_of(classifier@).push("Other"@));
            names_view(*final(out)) == names_view(*old(out)) + item_lines(group_items(groups, groups.len() as int))
        }),
{
    let ghost av = pairs_view(adds@);
    let mut grouped = gp_new();
    let mut i: usize = 0;
    while i < adds.len()
        invariant
            av == pairs_view(adds@),
            i <= adds@.len(),
            grouped_pairs(grouped) == group_adds(classifier@, av, i as int),
        decreases adds.len() - i,
    {
        let (k, v) = &adds[i];
        let g = classifier.get_group(k.as_str());
        gp_push(&mut grouped, g, (k.clone(), v.clone()));
        i = i + 1;
    }
    let order = classifier.group_order();
    let ordered = ordered_groups_exec(&grouped, &order);
    let items = group_items_exec(&ordered);
    item_lines_exec(&items, out);
}

/// Build the text of an agent file that reproduces `delta` on top of
/// category `category_name`: header comments, then the JSON object with
/// the additions (grouped by command group from three on) and removals.
pub fn build_override_jsonc(
    agent_name: &str,
    category_name: &str,
    delta: &Delta,
    classifier: &CommandGroupClassifier,
) -> (r: String)
    requires
        delta.adds@.len() + delta.removes@.len() <= usize::MAX,
    ensures
        r@ == joined(
            override_lines(
                agent_name@,
                category_name@,
                pairs_view(delta.adds@),
                names_view(delta.removes),
                classifier@,
            ),
        ) + "\n"@,
{
    let ghost av = pairs_view(delta.adds@);
    let ghost rv = names_view(delta.removes);
    let ghost gs = classifier@;
    let add_count = delta.adds.len();
    let remove_count = delta.removes.len();
    proof {
        reveal_strlit("// Override: ");
        reveal_strlit("// Extends: ");
        reveal_strlit("{");
        reveal_strlit("  \"$version\": \"1.0.0\",");
        reveal_strlit("  \"agent\": ");
        reveal_strlit("  \"$extends\": ");
        reveal_strlit(",");
        reveal_strlit("  \"overrides\": {}");
        reveal_strlit("  \"overrides\": {");
        reveal_strlit("    \"permission\": {");
        reveal_strlit("      \"add\": {");
        reveal_strlit("      },");
        reveal_strlit("      }");
        reveal_strlit("      \"remove\": [");
        reveal_strlit("      ]");
        reveal_strlit("    }");
        reveal_strlit("  }");
        reveal_strlit("}");
        reveal_strlit("\n");
    }
    let mut lines: Vec<String> = Vec::new();
    let mut l1 = string_of("// Override: ");
    l1.append(agent_name);
    push_text(&mut lines, l1);
    let mut l2 = string_of("// Extends: ");
    l2.append(category_name);
    push_text(&mut lines, l2);
    push_text(&mut lines, summary_line(add_count, remove_count));
    push_text(&mut lines, string_of("{"));
    push_text(
        &mut lines,
        string_of("  \"$schema\": \"https://raw.githubusercontent.com/nmindz/agency/master/schemas/agent.json\","),
    );
    push_text(&mut lines, string_of("  \"$version\": \"1.0.0\","));
    let mut l7 = string_of("  \"agent\": ");
    let qa = json_str(agent_name);
    l7.append(qa.as_str());
    l7.append(",");
    push_text(&mut lines, l7);
    let mut l8 = string_of("  \"$extends\": ");
    let qc = json_str(category_name);
    l8.append(qc.as_str());
    l8.append(",");
    push_text(&mut lines, l8);
    let ghost head = names_view(lines);
    proof {
        reveal_strlit("  \"$schema\": \"https://raw.githubusercontent.com/nmindz/agency/master/schemas/agent.json\",");
        assert(head =~= seq![
            "// Override: "@ + agent_name@,
            "// Extends: "@ + category_name@,
            delta_summary(av.len(), rv.len()),
            "{"@,
            schema_line(),
            "  \"$version\": \"1.0.0\","@,
            "  \"agent\": "@ + json_quoted(agent_name@) + ","@,
            "  \"$extends\": "@ + json_quoted(category_name@) + ","@,
        ]);
    }
    if add_count + remove_count == 0 {
        push_text(&mut lines, string_of("  \"overrides\": {}"));
    } else {
        push_text(&mut lines, string_of("  \"overrides\": {"));
        push_text(&mut lines, string_of("    \"permission\": {"));
        let ghost before_body = names_view(lines);
        if add_count > 0 {
            push_text(&mut lines, string_of("      \"add\": {"));
            if add_count >= 3 {
                grouped_adds(&delta.adds, classifier, &mut lines);
            } else {
                plain_adds(&delta.adds, &mut lines);
            }
            if remove_count > 0 {
                push_text(&mut lines, string_of("      },"));
            } else {
                push_text(&mut lines, string_of("      }"));
            }
        }
        let ghost mid = names_view(lines);
        if remove_count > 0 {
            push_text(&mut lines, string_of("      \"remove\": ["));
            remove_lines_exec(&delta.removes, &mut lines);
            push_text(&mut lines, string_of("      ]"));
        }
        proof {
            assert(names_view(lines) =~= before_body + permission_body(av, rv, gs));
        }
        push_text(&mut lines, string_of("    }"));
        push_text(&mut lines, string_of("  }"));
    }
    push_text(&mut lines, string_of("}"));
    proof {
        assert(names_view(lines) =~= override_lines(agent_name@, category_name@, av, rv, gs));
    }
    let mut text = join_lines(&lines);
    text.append("\n");
    text
}

// ---------------------------------------------------------------------------
// Generating every agent file
// ---------------------------------------------------------------------------

/// Counts for one generated agent file.
#[derive(Debug, Clone)]
pub struct GenerateResult {
    pub agent: String,
    pub category: String,
    pub adds: usize,
    pub removes: usize,
}

/// A result by content: agent, category, additions, removals.
pub type ResultView = (Seq<char>, Seq<char>, nat, nat);

impl GenerateResult {
    pub open spec fn result_view(&self) -> ResultView {
        (self.agent@, self.category@, self.adds as nat, self.removes as nat)
    }
}

/// The views of a list of results.
pub open spec fn results_view(v: Seq<GenerateResult>) -> Seq<ResultView> {
    v.map_values(|r: GenerateResult| r.result_view())
}

/// Results are ordered by category, then by agent.
pub open spec fn result_lt(a: ResultView, b: ResultView) -> bool {
    text_lt(a.1, b.1) || (a.1 == b.1 && text_lt(a.0, b.0))
}

/// Where `x` goes in `s`, scanning from `i`: before the first element
/// that it is below, else last.
pub open spec fn insert_pos_from(s: Seq<ResultView>, x: ResultView, i: int) -> int
    decreases s.len() - i,
{
    if i < 0 || i >= s.len() {
        s.len() as int
    } else if result_lt(x, s[i]) {
        i
    } else {
        insert_pos_from(s, x, i + 1)
    }
}

/// The first `n` results sorted stably by (category, agent): each is
/// inserted after every earlier one that it is not below.
pub open spec fn sorted_results(v: Seq<ResultView>, n: int) -> Seq<ResultView>
    decreases n,
{
    if n <= 0 {
        Seq::empty()
    } else {
        let s = sorted_results(v, n - 1);
        s.insert(insert_pos_from(s, v[n - 1], 0), v[n - 1])
    }
}

pub proof fn lemma_insert_pos_bounds(s: Seq<ResultView>, x: ResultView, i: int)
    requires
        0 <= i <= s.len(),
    ensures
        i <= insert_pos_from(s, x, i) <= s.len(),
    decreases s.len() - i,
{
    if i < s.len() && !result_lt(x, s[i]) {
        lemma_insert_pos_bounds(s, x, i + 1);
    }
}

pub proof fn lemma_sorted_results_len(v: Seq<ResultView>, n: int)
    requires
        0 <= n <= v.len(),
    ensures
        sorted_results(v, n).len() == n,
    decreases n,
{
    if n > 0 {
        lemma_sorted_results_len(v, n - 1);
        lemma_insert_pos_bounds(sorted_results(v, n - 1), v[n - 1], 0);
    }
}

/// Sorting keeps the results: every sorted one is one of the first `n`.
pub proof fn lemma_sorted_results_from(v: Seq<ResultView>, n: int)
    requires
        0 <= n <= v.len(),
    ensures
        forall|i: int|
            0 <= i < sorted_results(v, n).len() ==> exists|j: int| 0 <= j < n && #[trigger] sorted_results(v, n)[i] == v[j],
    decreases n,
{
    if n > 0 {
        lemma_sorted_results_from(v, n - 1);
        let s = sorted_results(v, n - 1);
        lemma_insert_pos_bounds(s, v[n - 1], 0);
        let p = insert_pos_from(s, v[n - 1], 0);
        assert forall|i: int| 0 <= i < sorted_results(v, n).len() implies exists|j: int| 0 <= j < n && #[trigger] sorted_results(v, n)[i] == v[j] by {
            let t = sorted_results(v, n);
            assert(t == s.insert(p, v[n - 1]));
            if i < p {
                assert(t[i] == s[i]);
                let j = choose|j: int| 0 <= j < n - 1 && #[trigger] s[i] == v[j];
                assert(t[i] == v[j]);
            } else if i == p {
                assert(t[i] == v[n - 1]);
            } else {
                assert(t[i] == s[i - 1]);
                let j = choose|j: int| 0 <= j < n - 1 && #[trigger] s[i - 1] == v[j];
                assert(t[i] == v[j]);
            }
        }
    }
}

proof fn lemma_insert_pos_facts(s: Seq<ResultView>, x: ResultView, i: int)
    requires
        0 <= i <= s.len(),
    ensures
        forall|j: int| i <= j < insert_pos_from(s, x, i) ==> !result_lt(x, #[trigger] s[j]),
        insert_pos_from(s, x, i) < s.len() ==> result_lt(x, s[insert_pos_from(s, x, i)]),
    decreases s.len() - i,
{
    if i < s.len() && !result_lt(x, s[i]) {
        lemma_insert_pos_facts(s, x, i + 1);
    }
}

/// No result is below an earlier one.
pub open spec fn results_sorted(s: Seq<ResultView>) -> bool {
    forall|i: int, j: int| 0 <= i < j < s.len() ==> !result_lt(#[trigger] s[j], #[trigger] s[i])
}

proof fn lemma_result_lt_transitive(a: ResultView, b: ResultView, c: ResultView)
    requires
        result_lt(a, b),
        result_lt(b, c),
    ensures
        result_lt(a, c),
{
    if text_lt(a.1, b.1) && text_lt(b.1, c.1) {
        lemma_text_lt_transitive(a.1, b.1, c.1);
    } else if text_lt(a.1, b.1) {
    } else if text_lt(b.1, c.1) {
    } else {
        lemma_text_lt_transitive(a.0, b.0, c.0);
    }
}

/// Sorted results come ordered by category, then agent.
pub proof fn lemma_sorted_results_sorted(v: Seq<ResultView>, n: int)
    requires
        0 <= n <= v.len(),
    ensures
        results_sorted(sorted_results(v, n)),
    decreases n,
{
    if n > 0 {
        lemma_sorted_results_sorted(v, n - 1);
        let s = sorted_results(v, n - 1);
        let x = v[n - 1];
        lemma_insert_pos_bounds(s, x, 0);
        lemma_insert_pos_facts(s, x, 0);
        let p = insert_pos_from(s, x, 0);
        let t = s.insert(p, x);
        assert forall|i: int, j: int| 0 <= i < j < t.len() implies !result_lt(#[trigger] t[j], #[trigger] t[i]) by {
            if j < p {
                assert(t[i] == s[i] && t[j] == s[j]);
            } else if j == p {
                assert(t[i] == s[i]);
                assert(!result_lt(x, s[i]));
            } else if i < p {
                assert(t[i] == s[i] && t[j] == s[j - 1]);
            } else if i == p {
                assert(t[j] == s[j - 1]);
                assert(result_lt(x, s[p]));
                if p < j - 1 {
                    assert(!result_lt(s[j - 1], s[p]));
                }
                if result_lt(s[j - 1], x) {
                    if p == j - 1 {
                        lemma_result_lt_transitive(x, s[p], x);
                    } else {
                        lemma_result_lt_transitive(s[j - 1], x, s[p]);
                    }
                    lemma_text_lt_irreflexive(x.1);
                    lemma_text_lt_irreflexive(x.0);
                    lemma_text_lt_irreflexive(s[p].1);
                    lemma_text_lt_irreflexive(s[p].0);
                }
            } else {
                assert(t[i] == s[i - 1] && t[j] == s[j - 1]);
            }
        }
    }
}

/// Sort results by category, then agent, keeping the given order among
/// equal keys.
pub fn sort_results(v: Vec<GenerateResult>) -> (r: Vec<GenerateResult>)
    ensures
        results_view(r@) == sorted_results(results_view(v@), v@.len() as int),
{
    let ghost orig = results_view(v@);
    let total = v.len();
    let ghost n = v@.len();
    let mut rest = v;
    let mut out: Vec<GenerateResult> = Vec::new();
    let mut k: usize = 0;
    while rest.len() > 0
        invariant
            orig.len() == n,
            n == total,
            k <= n,
            rest@.len() == n - k,
            results_view(rest@) == orig.subrange(k as int, n as int),
            results_view(out@) == sorted_results(orig, k as int),
        decreases rest.len(),
    {
        let ghost pre = rest@;
        let x = rest.remove(0);
        proof {
            assert(rest@ == pre.remove(0));
            assert(x == pre[0]);
            assert(results_view(pre)[0] == x.result_view());
            assert(orig.subrange(k as int, n as int)[0] == orig[k as int]);
            assert(x.result_view() == orig[k as int]);
            assert forall|i: int| 0 <= i < rest@.len() implies #[trigger] results_view(rest@)[i] == orig.subrange(
                k + 1,
                n as int,
            )[i] by {
                assert(rest@[i] == pre[i + 1]);
                assert(results_view(pre)[i + 1] == orig.subrange(k as int, n as int)[i + 1]);
            }
            assert(results_view(rest@) =~= orig.subrange(k + 1, n as int));
        }
        let ghost s = results_view(out@);
        let mut p: usize = 0;
        while p < out.len() && !(str_lt(x.category.as_str(), out[p].category.as_str()) || (str_eq(
            x.category.as_str(),
            out[p].category.as_str(),
        ) && str_lt(x.agent.as_str(), out[p].agent.as_str())))
            invariant
                s == results_view(out@),
                p <= out@.len(),
                insert_pos_from(s, x.result_view(), 0) == insert_pos_from(s, x.result_view(), p as int),
            decreases out.len() - p,
        {
            p = p + 1;
        }
        proof {
            lemma_insert_pos_bounds(s, x.result_view(), 0);
        }
        let ghost xv = x.result_view();
        out.insert(p, x);
        proof {
            assert(results_view(out@) =~= s.insert(p as int, xv));
        }
        k = k + 1;
    }
    out
}

/// A planned agent file by content: agent, category, text, additions,
/// removals.
pub type Planned = (Seq<char>, Seq<char>, Seq<char>, nat, nat);

/// The size of an agent's delta against its template.
pub open spec fn delta_size(sot: Sot, t: Template, agent: Seq<char>, cat: Seq<char>) -> nat {
    template_delta(sot, t, agent, cat).0.len() + template_delta(sot, t, agent, cat).1.len()
}

/// Every agent's delta fits the machine's counts.
pub open spec fn deltas_fit(sot: Sot, gs: Seq<(Seq<char>, Seq<Seq<char>>)>, ts: Seq<(Seq<char>, Template)>) -> bool {
    forall|i: int, j: int|
        0 <= i < gs.len() && 0 <= j < gs[i].1.len() && has_key(ts, gs[i].0) ==> #[trigger] delta_size(
            sot,
            lookup(ts, gs[i].0)->0,
            gs[i].1[j],
            gs[i].0,
        ) <= usize::MAX
}

/// The agent file planned for `agent` in category `cat` with template `t`.
pub open spec fn planned_file(
    sot: Sot,
    t: Template,
    cls: Seq<(Seq<char>, Seq<Seq<char>>)>,
    agent: Seq<char>,
    cat: Seq<char>,
) -> Planned {
    let d = template_delta(sot, t, agent, cat);
    (agent, cat, joined(override_lines(agent, cat, d.0, d.1, cls)) + "\n"@, d.0.len(), d.1.len())
}

/// The files of the first `k` categories, in order; a category without a
/// template fails.
pub open spec fn planned_files(
    sot: Sot,
    gs: Seq<(Seq<char>, Seq<Seq<char>>)>,
    ts: Seq<(Seq<char>, Template)>,
    cls: Seq<(Seq<char>, Seq<Seq<char>>)>,
    k: int,
) -> Result<Seq<Planned>, Seq<char>>
    decreases k,
{
    if k <= 0 {
        Ok(Seq::empty())
    } else {
        match planned_files(sot, gs, ts, cls, k - 1) {
            Err(c) => Err(c),
            Ok(ps) => match lookup(ts, gs[k - 1].0) {
                None => Err(gs[k - 1].0),
                Some(t) => Ok(
                    ps + gs[k - 1].1.map_values(|a: Seq<char>| planned_file(sot, t, cls, a, gs[k - 1].0)),
                ),
            },
        }
    }
}

/// The result of a planned file.
pub open spec fn planned_result(p: Planned) -> ResultView {
    (p.0, p.1, p.3, p.4)
}

/// An agent file to write.
#[derive(Debug, Clone)]
pub struct OverrideFile {
    pub agent: String,
    pub content: String,
}

/// Why the agent files cannot be generated.
#[derive(Debug, Clone)]
pub enum GenerateError {
    /// A category has no loaded template.
    NoTemplate(String),
}

proof fn lemma_planned_err_stays(
    sot: Sot,
    gs: Seq<(Seq<char>, Seq<Seq<char>>)>,
    ts: Seq<(Seq<char>, Template)>,
    cls: Seq<(Seq<char>, Seq<Seq<char>>)>,
    a: int,
    b: int,
)
    requires
        0 <= a <= b,
        planned_files(sot, gs, ts, cls, a) is Err,
    ensures
        planned_files(sot, gs, ts, cls, b) == planned_files(sot, gs, ts, cls, a),
    decreases b - a,
{
    if a < b {
        lemma_planned_err_stays(sot, gs, ts, cls, a, b - 1);
    }
}

/// Plan the agent file of every agent, category by category, from its
/// delta against its template; the results come sorted by category, then
/// agent.
pub fn generate_all(
    sot: &Sot,
    categories: &CategoryMap,
    templates: &IndexMap<String, Template>,
    classifier: &CommandGroupClassifier,
) -> (r: Result<(Vec<OverrideFile>, Vec<GenerateResult>), GenerateError>)
    requires
        deltas_fit(*sot, group_entries(*categories), template_entries(*templates)),
    ensures
        ({
            let gs = group_entries(*categories);
            match planned_files(*sot, gs, template_entries(*templates), classifier@, gs.len() as int) {
                Ok(ps) => r is Ok && r->Ok_0.0@.len() == ps.len() && (forall|i: int|
                    0 <= i < ps.len() ==> (#[trigger] r->Ok_0.0@[i]).agent@ == ps[i].0
                        && r->Ok_0.0@[i].content@ == ps[i].2) && results_view(r->Ok_0.1@)
                    == sorted_results(ps.map_values(|p: Planned| planned_result(p)), ps.len() as int),
                Err(c) => r matches Err(GenerateError::NoTemplate(x)) && x@ == c,
            }
        }),
{
    let ghost gs = group_entries(*categories);
    let ghost ts = template_entries(*templates);
    let ghost cls = classifier@;
    let mut files: Vec<OverrideFile> = Vec::new();
    let mut results: Vec<GenerateResult> = Vec::new();
    let nc = gm_len(categories);
    let mut c: usize = 0;
    while c < nc
        invariant
            gs == group_entries(*categories),
            ts == template_entries(*templates),
            cls == classifier@,
            deltas_fit(*sot, gs, ts),
            nc == gs.len(),
            c <= nc,
            planned_files(*sot, gs, ts, cls, c as int) is Ok,
            ({
                let ps = planned_files(*sot, gs, ts, cls, c as int)->Ok_0;
                &&& files@.len() == ps.len()
                &&& forall|i: int|
                    0 <= i < ps.len() ==> (#[trigger] files@[i]).agent@ == ps[i].0 && files@[i].content@ == ps[i].2
                &&& results_view(results@) == ps.map_values(|p: Planned| planned_result(p))
            }),
        decreases nc - c,
    {
        let ghost prev = planned_files(*sot, gs, ts, cls, c as int)->Ok_0;
        let (cat_name, agents) = gm_get_index(categories, c).unwrap();
        let template = match tm_get(templates, cat_name.as_str()) {
            None => {
                proof {
                    lemma_planned_err_stays(*sot, gs, ts, cls, c + 1, nc as int);
                }
                return Err(GenerateError::NoTemplate(cat_name.clone()));
            },
            Some(t) => t,
        };
        let ghost more = names_view(*agents).map_values(|a: Seq<char>| planned_file(*sot, *template, cls, a, cat_name@));
        let mut k: usize = 0;
        while k < agents.len()
            invariant
                gs == group_entries(*categories),
                ts == template_entries(*templates),
                cls == classifier@,
                deltas_fit(*sot, gs, ts),
                c < nc,
                nc == gs.len(),
                cat_name@ == gs[c as int].0,
                names_view(*agents) == gs[c as int].1,
                has_key(ts, cat_name@),
                lookup(ts, cat_name@) == Some(*template),
                more == names_view(*agents).map_values(|a: Seq<char>| planned_file(*sot, *template, cls, a, cat_name@)),
                k <= agents@.len(),
                files@.len() == prev.len() + k,
                forall|i: int|
                    0 <= i < prev.len() + k ==> (#[trigger] files@[i]).agent@ == (prev + more)[i].0
                        && files@[i].content@ == (prev + more)[i].2,
                results_view(results@) == (prev + more.take(k as int)).map_values(|p: Planned| planned_result(p)),
            decreases agents.len() - k,
        {
            let agent = &agents[k];
            let delta = compute_delta(sot, template, agent.as_str(), cat_name.as_str());
            proof {
                assert(names_view(*agents)[k as int] == agent@);
                assert(delta_size(*sot, lookup(ts, gs[c as int].0)->0, gs[c as int].1[k as int], gs[c as int].0) <= usize::MAX);
            }
            let content = build_override_jsonc(agent.as_str(), cat_name.as_str(), &delta, classifier);
            let ghost fpre = files@;
            files.push(OverrideFile { agent: agent.clone(), content });
            let ghost rpre = results_view(results@);
            let res = GenerateResult {
                agent: agent.clone(),
                category: cat_name.clone(),
                adds: delta.adds.len(),
                removes: delta.removes.len(),
            };
            results.push(res);
            proof {
                assert(more[k as int] == planned_file(*sot, *template, cls, agent@, cat_name@));
                assert forall|i: int| 0 <= i < prev.len() + k + 1 implies (#[trigger] files@[i]).agent@ == (prev + more)[i].0
                    && files@[i].content@ == (prev + more)[i].2 by {
                    if i < prev.len() + k {
                        assert(files@[i] == fpre[i]);
                    }
                }
                assert(results_view(results@) =~= rpre.push(res.result_view()));
                assert(more.take(k + 1) =~= more.take(k as int).push(more[k as int]));
                assert((prev + more.take(k + 1)).map_values(|p: Planned| planned_result(p)) =~= (prev + more.take(
                    k as int,
                )).map_values(|p: Planned| planned_result(p)).push(planned_result(more[k as int])));
            }
            k = k + 1;
        }
        proof {
            assert(more.take(agents@.len() as int) =~= more);
            assert(planned_files(*sot, gs, ts, cls, c + 1) == Ok::<Seq<Planned>, Seq<char>>(prev + more));
        }
        c = c + 1;
    }
    let sorted = sort_results(results);
    Ok((files, sorted))
}

// ---------------------------------------------------------------------------
// The summary table
// ---------------------------------------------------------------------------

/// `s` left-aligned in a field of `w` characters.
pub open spec fn left_aligned(s: Seq<char>, w: nat) -> Seq<char> {
    s + crate::reporter::spaces(crate::reporter::sat_sub(w as int, s.len() as int))
}

/// A row of the summary table from its five cells: the first two
/// left-aligned in 35 and 18 characters, the others right-aligned in 4, 7
/// and 5.
pub open spec fn summary_row(a: Seq<char>, b: Seq<char>, c: Seq<char>, d: Seq<char>, e: Seq<char>) -> Seq<char> {
    "| "@ + left_aligned(a, 35) + " | "@ + left_aligned(b, 18) + " | "@ + crate::reporter::right_aligned(c, 4)
        + " | "@ + crate::reporter::right_aligned(d, 7) + " | "@ + crate::reporter::right_aligned(e, 5) + " |"@
}

/// The row of one result: agent, category, additions, removals, total.
pub open spec fn result_row(r: ResultView) -> Seq<char> {
    summary_row(r.0, r.1, decimal(r.2), decimal(r.3), decimal(r.2 + r.3))
}

/// The lines of the summary: an empty line, the table's head and rule,
/// a row per result, an empty line and the count of files.
pub open spec fn summary_text(rs: Seq<ResultView>) -> Seq<Seq<char>> {
    seq![
        Seq::<char>::empty(),
        summary_row("Agent"@, "Category"@, "Adds"@, "Removes"@, "Total"@),
        summary_row("---"@, "---"@, "---"@, "---"@, "---"@),
    ] + rs.map_values(|r: ResultView| result_row(r)) + seq![
        Seq::<char>::empty(),
        "Generated "@ + decimal(rs.len()) + " agent files"@,
    ]
}

fn append_left(md: &mut String, s: &str, w: usize)
    ensures
        final(md)@ == old(md)@ + left_aligned(s@, w as nat),
{
    let len = s.unicode_len();
    let pad = if len < w {
        w - len
    } else {
        0
    };
    md.append(s);
    crate::reporter::append_spaces(md, pad);
}

fn row_text(a: &str, b: &str, c: &str, d: &str, e: &str) -> (r: String)
    ensures
        r@ == summary_row(a@, b@, c@, d@, e@),
{
    proof {
        reveal_strlit("| ");
        reveal_strlit(" | ");
        reveal_strlit(" |");
    }
    let mut t = string_of("| ");
    append_left(&mut t, a, 35);
    t.append(" | ");
    append_left(&mut t, b, 18);
    t.append(" | ");
    crate::reporter::append_right(&mut t, c, 4);
    t.append(" | ");
    crate::reporter::append_right(&mut t, d, 7);
    t.append(" | ");
    crate::reporter::append_right(&mut t, e, 5);
    t.append(" |");
    t
}

/// The lines that the generation summary prints, one string per line.
pub fn summary_lines(results: &[GenerateResult]) -> (r: Vec<String>)
    requires
        forall|i: int| 0 <= i < results@.len() ==> #[trigger] results@[i].adds + results@[i].removes <= usize::MAX,
    ensures
        names_view(r) == summary_text(results_view(results@)),
{
    let ghost rs = results_view(results@);
    let mut lines: Vec<String> = Vec::new();
    lines.push(String::new());
    lines.push(row_text("Agent", "Category", "Adds", "Removes", "Total"));
    lines.push(row_text("---", "---", "---", "---", "---"));
    let ghost head = names_view(lines);
    let mut i: usize = 0;
    while i < results.len()
        invariant
            rs == results_view(results@),
            i <= results@.len(),
            forall|j: int| 0 <= j < results@.len() ==> #[trigger] results@[j].adds + results@[j].removes <= usize::MAX,
            names_view(lines) == head + rs.take(i as int).map_values(|r: ResultView| result_row(r)),
        decreases results.len() - i,
    {
        let r = &results[i];
        let total = r.adds + r.removes;
        let a = usize_text(r.adds);
        let d = usize_text(r.removes);
        let t = usize_text(total);
        let line = row_text(r.agent.as_str(), r.category.as_str(), a.as_str(), d.as_str(), t.as_str());
        let ghost pre = names_view(lines);
        lines.push(line);
        proof {
            assert(names_view(lines) =~= pre.push(line@));
            assert(rs.take(i + 1).map_values(|r: ResultView| result_row(r)) =~= rs.take(i as int).map_values(
                |r: ResultView| result_row(r),
            ).push(result_row(rs[i as int])));
        }
        i = i + 1;
    }
    let ghost body = names_view(lines);
    lines.push(String::new());
    let mut last = string_of("Generated ");
    let n = usize_text(results.len());
    last.append(n.as_str());
    last.append(" agent files");
    proof {
        reveal_strlit("Generated ");
        reveal_strlit(" agent files");
    }
    lines.push(last);
    proof {
        assert(rs.take(results@.len() as int) =~= rs);
        assert(names_view(lines) =~= body.push(Seq::<char>::empty()).push(last@));
        assert(names_view(lines) =~= summary_text(rs));
    }
    lines
}

} // verus!
