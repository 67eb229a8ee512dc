//! Resolution: template baselines (merged along the inheritance chain) plus
//! an agent's overrides give the agent's final permissions.

use indexmap::IndexMap;
use vstd::prelude::*;
use vstd::string::*;

use crate::maps::{
    lemma_key_pos, lemma_insert_all_lookup, lemma_remove_all_lookup, lemma_insert_all_distinct, value_entries, vm_get, vm_get_index, vm_len, has_key, key_pos, lemma_insert_all_keys, lemma_remove_all_keys, insert_all, insert_entry, keys_distinct, lemma_insert_distinct, lemma_remove_distinct,
    lookup, perm_entries, pm_clone, pm_contains_key, pm_get, pm_get_index, pm_insert, pm_len, pm_new,
    pm_shift_remove, remove_all,
};
use crate::models::{
    is_simple_category, simple_categories, BashPermission, BashView, BaselinePermission,
    BaselineValue, Override, ResolvedPermission, SotPermission, Template, ValueView,
};
use crate::text::{str_eq, string_of};

verus! {

/// Why resolution failed.
#[derive(Debug, Clone)]
pub enum ResolveError {
    /// Two parents give one key different values.  `hint` selects the
    /// message that suggests moving the entry to the child template.
    Conflict { template: String, key: String, existing: String, parent: String, value: String, hint: bool },
    /// A simple category's baseline is not a JSON object.
    SimpleBaselineNotMap,
    /// A complex category's baseline is not an object of strings.
    ComplexBaselineNotMap,
    /// A simple category's `bash` object has a value that is not a string.
    BashObjectNotStrings,
    /// A simple category's `bash` value is neither a string nor an object.
    BashUnexpectedType,
    /// A simple category's resolved block has no `bash` key.
    NoBash,
}

pub type Entries = Seq<(Seq<char>, Seq<char>)>;

/// The text of a resolution error.
pub open spec fn resolve_error_text(e: ResolveError) -> Seq<char> {
    match e {
        ResolveError::Conflict { template, key, existing, parent, value, hint } => "Conflict in template '"@
            + template@ + "': key '"@ + key@ + "' has value '"@ + existing@
            + "' from a previous parent, but parent '"@ + parent@ + "' defines it as '"@ + value@ + "'."@
            + if hint {
            " Resolve by moving the entry to the child template's own baseline."@
        } else {
            Seq::empty()
        },
        ResolveError::SimpleBaselineNotMap => "Failed to parse simple baseline as map"@,
        ResolveError::ComplexBaselineNotMap => "Failed to parse complex baseline as bash object"@,
        ResolveError::BashObjectNotStrings => "Failed to parse bash object in simple category"@,
        ResolveError::BashUnexpectedType => "Unexpected bash value type in simple category"@,
        ResolveError::NoBash => "No 'bash' key in resolved simple permission"@,
    }
}

impl ResolveError {
    /// The error's message.
    pub fn message(&self) -> (r: String)
        ensures
            r@ == resolve_error_text(*self),
    {
        match self {
            ResolveError::Conflict { template, key, existing, parent, value, hint } => {
                let mut s = string_of("Conflict in template '");
                s.append(template.as_str());
                s.append("': key '");
                s.append(key.as_str());
                s.append("' has value '");
                s.append(existing.as_str());
                s.append("' from a previous parent, but parent '");
                s.append(parent.as_str());
                s.append("' defines it as '");
                s.append(value.as_str());
                s.append("'.");
                if *hint {
                    s.append(" Resolve by moving the entry to the child template's own baseline.");
                }
                proof {
                    if !*hint {
                        assert(s@ =~= resolve_error_text(*self));
                    }
                }
                s
            },
            ResolveError::SimpleBaselineNotMap => string_of("Failed to parse simple baseline as map"),
            ResolveError::ComplexBaselineNotMap => string_of("Failed to parse complex baseline as bash object"),
            ResolveError::BashObjectNotStrings => string_of("Failed to parse bash object in simple category"),
            ResolveError::BashUnexpectedType => string_of("Unexpected bash value type in simple category"),
            ResolveError::NoBash => string_of("No 'bash' key in resolved simple permission"),
        }
    }
}



/// The parents of a template, each as its name and its baseline entries.
pub open spec fn parents_view(ps: Seq<(String, IndexMap<String, String>)>) -> Seq<(Seq<char>, Entries)> {
    ps.map_values(|p: (String, IndexMap<String, String>)| (p.0@, perm_entries(p.1)))
}

/// Merge the entries of one parent from position `j` into `acc`: a new key
/// is appended; a known key must carry the same value, else the merge fails
/// at that entry, reporting the value already merged.
pub open spec fn merge_from(acc: Entries, ents: Entries, j: int) -> Result<Entries, (int, Seq<char>)>
    decreases ents.len() - j,
{
    if j < 0 || j >= ents.len() {
        Ok(acc)
    } else {
        let k = ents[j].0;
        let v = ents[j].1;
        if has_key(acc, k) {
            if lookup(acc, k) == Some(v) {
                merge_from(acc, ents, j + 1)
            } else {
                Err((j, lookup(acc, k)->0))
            }
        } else {
            merge_from(acc.push((k, v)), ents, j + 1)
        }
    }
}

/// Merge the first `n` parents left to right.  A failure names the parent,
/// the entry, and the value already merged under that key.
pub open spec fn merge_parents(ps: Seq<(Seq<char>, Entries)>, n: int) -> Result<Entries, (int, int, Seq<char>)>
    decreases n,
{
    if n <= 0 {
        Ok(Seq::empty())
    } else {
        match merge_parents(ps, n - 1) {
            Err(e) => Err(e),
            Ok(acc) => match merge_from(acc, ps[n - 1].1, 0) {
                Ok(a) => Ok(a),
                Err((j, ex)) => Err((n - 1, j, ex)),
            },
        }
    }
}

/// The effective baseline: all parents merged, then the template's own
/// entries inserted on top (self wins).
pub open spec fn merged_baseline(ps: Seq<(Seq<char>, Entries)>, own: Entries) -> Result<Entries, (int, int, Seq<char>)> {
    match merge_parents(ps, ps.len() as int) {
        Ok(acc) => Ok(insert_all(acc, own)),
        Err(e) => Err(e),
    }
}

proof fn lemma_merge_from_distinct(acc: Entries, ents: Entries, j: int)
    requires
        keys_distinct(acc),
        merge_from(acc, ents, j) is Ok,
    ensures
        keys_distinct(merge_from(acc, ents, j)->Ok_0),
    decreases ents.len() - j,
{
    if 0 <= j < ents.len() {
        let k = ents[j].0;
        if has_key(acc, k) {
            lemma_merge_from_distinct(acc, ents, j + 1);
        } else {
            assert(keys_distinct(acc.push((k, ents[j].1)))) by {
                assert forall|a: int, b: int|
                    0 <= a < acc.len() + 1 && 0 <= b < acc.len() + 1 && a != b implies #[trigger] acc.push(
                    (k, ents[j].1),
                )[a].0 != #[trigger] acc.push((k, ents[j].1))[b].0 by {
                    if a == acc.len() {
                        assert(acc[b].0 != k);
                    } else if b == acc.len() {
                        assert(acc[a].0 != k);
                    }
                }
            }
            lemma_merge_from_distinct(acc.push((k, ents[j].1)), ents, j + 1);
        }
    }
}

proof fn lemma_merge_parents_distinct(ps: Seq<(Seq<char>, Entries)>, n: int)
    requires
        merge_parents(ps, n) is Ok,
    ensures
        keys_distinct(merge_parents(ps, n)->Ok_0),
    decreases n,
{
    if n > 0 {
        lemma_merge_parents_distinct(ps, n - 1);
        lemma_merge_from_distinct(merge_parents(ps, n - 1)->Ok_0, ps[n - 1].1, 0);
    }
}

proof fn lemma_merge_from_values(acc: Entries, ents: Entries, j: int)
    requires
        keys_distinct(acc),
        0 <= j,
        merge_from(acc, ents, j) is Ok,
    ensures
        forall|k: Seq<char>| #[trigger] has_key(acc, k) ==> lookup(merge_from(acc, ents, j)->Ok_0, k) == lookup(acc, k),
        forall|i: int|
            j <= i < ents.len() ==> lookup(merge_from(acc, ents, j)->Ok_0, #[trigger] ents[i].0) == Some(ents[i].1),
    decreases ents.len() - j,
{
    if j < ents.len() {
        let k = ents[j].0;
        let v = ents[j].1;
        let r = merge_from(acc, ents, j)->Ok_0;
        if has_key(acc, k) {
            lemma_merge_from_values(acc, ents, j + 1);
        } else {
            let acc2 = acc.push((k, v));
            lemma_insert_distinct(acc, k, v);
            assert(insert_entry(acc, k, v) == acc2);
            lemma_merge_from_values(acc2, ents, j + 1);
            assert forall|k2: Seq<char>| #[trigger] has_key(acc, k2) implies lookup(r, k2) == lookup(acc, k2) by {
                assert(has_key(acc2, k2));
            }
            assert(has_key(acc2, k));
        }
    }
}

proof fn lemma_merge_parents_values(ps: Seq<(Seq<char>, Entries)>, m: int, n: int)
    requires
        0 <= m <= n,
        merge_parents(ps, n) is Ok,
    ensures
        merge_parents(ps, m) is Ok,
        forall|k: Seq<char>|
            #[trigger] has_key(merge_parents(ps, m)->Ok_0, k) ==> lookup(merge_parents(ps, n)->Ok_0, k) == lookup(
                merge_parents(ps, m)->Ok_0,
                k,
            ),
    decreases n - m,
{
    if m < n {
        lemma_merge_parents_values(ps, m + 1, n);
        if merge_parents(ps, m) is Err {
            lemma_merge_parents_err_stays(ps, m, m + 1);
        }
        lemma_merge_parents_distinct(ps, m);
        let am = merge_parents(ps, m)->Ok_0;
        lemma_merge_from_values(am, ps[m].1, 0);
        assert forall|k: Seq<char>| #[trigger] has_key(am, k) implies lookup(merge_parents(ps, n)->Ok_0, k) == lookup(am, k) by {
            let am1 = merge_parents(ps, m + 1)->Ok_0;
            assert(lookup(am1, k) == lookup(am, k));
            assert(lookup(am, k) is Some);
            let pk = key_pos(am, k);
            assert(am[pk].0 == k);
            assert(lookup(am1, k) is Some);
            assert(has_key(am1, k));
        }
    }
}

/// Conflict detection: when two parents give one key different values,
/// merging the template's baseline fails.
pub proof fn lemma_parent_conflict_fails(ps: Seq<(Seq<char>, Entries)>, own: Entries, p: int, q: int, k: Seq<char>)
    requires
        0 <= p < q < ps.len(),
        keys_distinct(ps[p].1),
        keys_distinct(ps[q].1),
        has_key(ps[p].1, k),
        has_key(ps[q].1, k),
        lookup(ps[p].1, k) != lookup(ps[q].1, k),
    ensures
        merged_baseline(ps, own) is Err,
{
    let n = ps.len() as int;
    if merge_parents(ps, n) is Ok {
        lemma_merge_parents_values(ps, p + 1, n);
        lemma_merge_parents_values(ps, q + 1, n);
        lemma_merge_parents_values(ps, p, n);
        lemma_merge_parents_values(ps, q, n);
        lemma_merge_parents_distinct(ps, p);
        lemma_merge_parents_distinct(ps, q);
        let ip = key_pos(ps[p].1, k);
        let iq = key_pos(ps[q].1, k);
        assert(ps[p].1[ip].0 == k);
        assert(ps[q].1[iq].0 == k);
        lemma_key_pos(ps[p].1, k, ip);
        lemma_key_pos(ps[q].1, k, iq);
        lemma_merge_from_values(merge_parents(ps, p)->Ok_0, ps[p].1, 0);
        lemma_merge_from_values(merge_parents(ps, q)->Ok_0, ps[q].1, 0);
        let ap1 = merge_parents(ps, p + 1)->Ok_0;
        let aq1 = merge_parents(ps, q + 1)->Ok_0;
        let fin = merge_parents(ps, n)->Ok_0;
        assert(lookup(ap1, k) == Some(ps[p].1[ip].1));
        assert(lookup(aq1, k) == Some(ps[q].1[iq].1));
        assert(has_key(ap1, k)) by {
            let pk = key_pos(ap1, k);
            assert(ap1[pk].0 == k);
        }
        assert(has_key(aq1, k)) by {
            let pk = key_pos(aq1, k);
            assert(aq1[pk].0 == k);
        }
        assert(lookup(fin, k) == lookup(ap1, k));
        assert(lookup(fin, k) == lookup(aq1, k));
    }
}

/// The template's own baseline wins over its parents: in the effective
/// baseline, each of its own keys holds its own value.
pub proof fn lemma_own_baseline_wins(ps: Seq<(Seq<char>, Entries)>, own: Entries, k: Seq<char>)
    requires
        keys_distinct(own),
        merged_baseline(ps, own) is Ok,
        has_key(own, k),
    ensures
        lookup(merged_baseline(ps, own)->Ok_0, k) == lookup(own, k),
{
    lemma_merge_parents_distinct(ps, ps.len() as int);
    lemma_insert_all_lookup(merge_parents(ps, ps.len() as int)->Ok_0, own, k);
}

proof fn lemma_merge_parents_err_stays(ps: Seq<(Seq<char>, Entries)>, a: int, b: int)
    requires
        0 <= a <= b,
        merge_parents(ps, a) is Err,
    ensures
        merge_parents(ps, b) == merge_parents(ps, a),
    decreases b - a,
{
    if b > a {
        lemma_merge_parents_err_stays(ps, a, b - 1);
    }
}

/// Merge `parents` (left to right) into one baseline and apply the
/// template's own baseline on top.  Two parents that give one key
/// different values are a conflict.
pub(crate) fn merge_baselines_impl(
    parent_baselines: &[(String, IndexMap<String, String>)],
    self_baseline: &IndexMap<String, String>,
    template_name: &str,
    hint: bool,
) -> (r: Result<IndexMap<String, String>, ResolveError>)
    ensures
        match merged_baseline(parents_view(parent_baselines@), perm_entries(*self_baseline)) {
            Ok(m) => r is Ok && perm_entries(r->Ok_0) == m,
            Err((p, j, ex)) => r matches Err(
                ResolveError::Conflict { template, key, existing, parent, value, hint: h },
            ) && template@ == template_name@ && key@ == parents_view(parent_baselines@)[p].1[j].0
                && existing@ == ex && parent@ == parents_view(parent_baselines@)[p].0 && value@
                == parents_view(parent_baselines@)[p].1[j].1 && h == hint,
        },
{
    let ghost pv = parents_view(parent_baselines@);
    let mut merged = pm_new();
    let mut p: usize = 0;
    while p < parent_baselines.len()
        invariant
            pv == parents_view(parent_baselines@),
            p <= parent_baselines@.len(),
            merge_parents(pv, p as int) == Ok::<Entries, (int, int, Seq<char>)>(perm_entries(merged)),
            keys_distinct(perm_entries(merged)),
        decreases parent_baselines.len() - p,
    {
        let parent_name = &parent_baselines[p].0;
        let parent = &parent_baselines[p].1;
        let ghost ents = perm_entries(*parent);
        let ghost acc0 = perm_entries(merged);
        assert(pv[p as int].1 == ents);
        let n = pm_len(parent);
        let mut j: usize = 0;
        while j < n
            invariant
                pv == parents_view(parent_baselines@),
                p < parent_baselines@.len(),
                merge_parents(pv, p as int) == Ok::<Entries, (int, int, Seq<char>)>(acc0),
                pv[p as int].1 == ents,
                pv[p as int].0 == parent_name@,
                ents == perm_entries(*parent),
                n == ents.len(),
                j <= n,
                merge_from(acc0, ents, 0) == merge_from(perm_entries(merged), ents, j as int),
                keys_distinct(perm_entries(merged)),
            decreases n - j,
        {
            let (key, value) = pm_get_index(parent, j).unwrap();
            let ghost cur = perm_entries(merged);
            assert(ents[j as int] == (key@, value@));
            match pm_get(&merged, key.as_str()) {
                Some(existing) => {
                    assert(has_key(cur, key@));
                    if str_eq(existing.as_str(), value.as_str()) {
                        assert(merge_from(cur, ents, j as int) == merge_from(cur, ents, j + 1));
                    } else {
                        assert(merge_from(cur, ents, j as int) == Err::<Entries, (int, Seq<char>)>(
                            (j as int, existing@),
                        ));
                        assert(merge_from(acc0, pv[p as int].1, 0) == Err::<Entries, (int, Seq<char>)>(
                            (j as int, existing@),
                        ));
                        let err = ResolveError::Conflict {
                            template: string_of(template_name),
                            key: key.clone(),
                            existing: existing.clone(),
                            parent: parent_name.clone(),
                            value: value.clone(),
                            hint,
                        };
                        proof {
                            assert(merge_parents(pv, p + 1) == Err::<Entries, (int, int, Seq<char>)>(
                                (p as int, j as int, existing@),
                            ));
                            lemma_merge_parents_err_stays(pv, p + 1, pv.len() as int);
                        }
                        return Err(err);
                    }
                },
                None => {
                    let ghost before = perm_entries(merged);
                    assert(merge_from(cur, ents, j as int) == merge_from(cur.push((key@, value@)), ents, j + 1));
                    pm_insert(&mut merged, key.clone(), value.clone());
                    proof {
                        lemma_insert_distinct(before, key@, value@);
                        assert(insert_entry(before, key@, value@) == before.push((key@, value@)));
                    }
                },
            }
            j = j + 1;
        }
        proof {
            assert(merge_from(perm_entries(merged), ents, n as int) == Ok::<Entries, (int, Seq<char>)>(
                perm_entries(merged),
            ));
        }
        p = p + 1;
    }
    let ghost acc = perm_entries(merged);
    let ghost own = perm_entries(*self_baseline);
    let n = pm_len(self_baseline);
    let mut i: usize = 0;
    while i < n
        invariant
            own == perm_entries(*self_baseline),
            n == own.len(),
            i <= n,
            perm_entries(merged) == insert_all(acc, own.take(i as int)),
            keys_distinct(perm_entries(merged)),
        decreases n - i,
    {
        let (key, value) = pm_get_index(self_baseline, i).unwrap();
        let ghost before = perm_entries(merged);
        pm_insert(&mut merged, key.clone(), value.clone());
        proof {
            lemma_insert_distinct(before, key@, value@);
            assert(own.take(i + 1).drop_last() =~= own.take(i as int));
        }
        i = i + 1;
    }
    proof {
        assert(own.take(n as int) =~= own);
    }
    Ok(merged)
}

/// Merge multiple parent baselines into a single effective baseline.
///
/// Parents are merged left-to-right: entries from earlier parents appear
/// first; later parents can add new entries.  If two parents define the
/// same key with different values, a conflict is returned.  The template's
/// own baseline is then applied on top (self always wins over parents).
pub fn merge_baselines(
    parent_baselines: &[(String, IndexMap<String, String>)],
    self_baseline: &IndexMap<String, String>,
    template_name: &str,
) -> (r: Result<IndexMap<String, String>, ResolveError>)
    ensures
        match merged_baseline(parents_view(parent_baselines@), perm_entries(*self_baseline)) {
            Ok(m) => r is Ok && perm_entries(r->Ok_0) == m,
            Err((p, j, ex)) => r matches Err(
                ResolveError::Conflict { template, key, existing, parent, value, hint },
            ) && template@ == template_name@ && key@ == parents_view(parent_baselines@)[p].1[j].0
                && existing@ == ex && parent@ == parents_view(parent_baselines@)[p].0 && value@
                == parents_view(parent_baselines@)[p].1[j].1 && hint,
        },
{
    merge_baselines_impl(parent_baselines, self_baseline, template_name, true)
}

// ---------------------------------------------------------------------------
// Agent overrides
// ---------------------------------------------------------------------------

/// The entries an override adds, in order (none when absent).
pub open spec fn override_adds(o: Override) -> Entries {
    match o.overrides.permission {
        Some(p) => match p.add {
            Some(m) => perm_entries(m),
            None => Seq::empty(),
        },
        None => Seq::empty(),
    }
}

/// The keys an override removes, in order (none when absent).
pub open spec fn override_removes(o: Override) -> Seq<Seq<char>> {
    match o.overrides.permission {
        Some(p) => match p.remove {
            Some(v) => v@.map_values(|k: String| k@),
            None => Seq::empty(),
        },
        None => Seq::empty(),
    }
}

/// A baseline after an override: the added entries inserted in order, then
/// the removed keys taken out.
pub open spec fn apply_overrides(base: Entries, o: Override) -> Entries {
    remove_all(insert_all(base, override_adds(o)), override_removes(o))
}

/// An agent's overrides go on top of the baseline: a removed key is gone,
/// an added key holds the added value, and any other key keeps its
/// baseline value.
pub proof fn lemma_overrides_on_top(base: Entries, o: Override, k: Seq<char>)
    requires
        keys_distinct(base),
        keys_distinct(override_adds(o)),
    ensures
        lookup(apply_overrides(base, o), k) == if override_removes(o).contains(k) {
            None
        } else if has_key(override_adds(o), k) {
            lookup(override_adds(o), k)
        } else {
            lookup(base, k)
        },
{
    lemma_insert_all_distinct(base, override_adds(o));
    lemma_remove_all_lookup(insert_all(base, override_adds(o)), override_removes(o), k);
    lemma_insert_all_lookup(base, override_adds(o), k);
}

/// Insert the override's additions into `result`, then remove its removals.
fn apply_override(result: &mut IndexMap<String, String>, o: &Override)
    ensures
        perm_entries(*final(result)) == apply_overrides(perm_entries(*old(result)), *o),
{
    let ghost base = perm_entries(*result);
    let ghost adds = override_adds(*o);
    let ghost removes = override_removes(*o);
    match &o.overrides.permission {
        Some(p) => {
            match &p.add {
                Some(m) => {
                    let n = pm_len(m);
                    let mut i: usize = 0;
                    while i < n
                        invariant
                            adds == perm_entries(*m),
                            n == adds.len(),
                            i <= n,
                            perm_entries(*result) == insert_all(base, adds.take(i as int)),
                        decreases n - i,
                    {
                        let (k, v) = pm_get_index(m, i).unwrap();
                        pm_insert(result, k.clone(), v.clone());
                        proof {
                            assert(adds.take(i + 1).drop_last() =~= adds.take(i as int));
                        }
                        i = i + 1;
                    }
                    proof {
                        assert(adds.take(n as int) =~= adds);
                    }
                },
                None => {},
            }
        },
        None => {},
    }
    let ghost mid = perm_entries(*result);
    assert(mid == insert_all(base, adds));
    match &o.overrides.permission {
        Some(p) => {
            match &p.remove {
                Some(v) => {
                    let mut i: usize = 0;
                    while i < v.len()
                        invariant
                            removes == v@.map_values(|k: String| k@),
                            i <= v@.len(),
                            perm_entries(*result) == remove_all(mid, removes.take(i as int)),
                        decreases v.len() - i,
                    {
                        pm_shift_remove(result, v[i].as_str());
                        proof {
                            assert(removes.take(i + 1).drop_last() =~= removes.take(i as int));
                        }
                        i = i + 1;
                    }
                    proof {
                        assert(removes.take(v@.len() as int) =~= removes);
                    }
                },
                None => {},
            }
        },
        None => {},
    }
}

pub open spec fn opt_view(o: Option<String>) -> Option<Seq<char>> {
    match o {
        Some(s) => Some(s@),
        None => None,
    }
}

/// The content of a permission block: `write`, `edit` and the `bash`
/// permission.
pub type PermView = (Option<Seq<char>>, Option<Seq<char>>, BashView);

/// The content of a permission block.
pub open spec fn perm_view(p: SotPermission) -> PermView {
    (opt_view(p.write), opt_view(p.edit), p.bash.bash_view())
}

/// The outcome of a resolution, by content.
pub open spec fn outcome_view(r: Result<ResolvedPermission, ResolveError>) -> Result<PermView, ResolveError> {
    match r {
        Ok(p) => Ok(perm_view(p.permission)),
        Err(e) => Err(e),
    }
}

/// What resolving against a merged baseline gives: for a simple category
/// the block read from the final entries (an error without `bash`), for a
/// complex one the final entries as the `bash` table.
pub open spec fn baseline_resolution_view(base: Entries, category: Seq<char>, o: Override) -> Result<PermView, ResolveError> {
    let fin = apply_overrides(base, o);
    if simple_categories().contains(category) {
        if has_key(fin, "bash"@) {
            Ok((lookup(fin, "write"@), lookup(fin, "edit"@), BashView::Simple(lookup(fin, "bash"@)->0)))
        } else {
            Err(ResolveError::NoBash)
        }
    } else {
        Ok((None, None, BashView::Detailed(fin)))
    }
}

/// The block of a simple category, read from its final entries: `write`
/// and `edit` when present, `bash` as a single value.
pub open spec fn simple_block_ok(fin: Entries, perm: SotPermission) -> bool {
    &&& opt_view(perm.write) == lookup(fin, "write"@)
    &&& opt_view(perm.edit) == lookup(fin, "edit"@)
    &&& perm.bash.bash_view() == BashView::Simple(lookup(fin, "bash"@)->0)
}

/// Resolve an agent's final permissions from a pre-merged template
/// baseline and the agent's override.
///
/// For a simple category the baseline's keys are the block's own keys
/// (`write`, `edit`, `bash`); for a complex category the baseline is the
/// `bash` command table.
pub fn resolve_with_baseline(
    effective_baseline: &IndexMap<String, String>,
    category: &str,
    override_data: &Override,
) -> (r: Result<ResolvedPermission, ResolveError>)
    ensures
        ({
            let fin = apply_overrides(perm_entries(*effective_baseline), *override_data);
            if simple_categories().contains(category@) {
                if has_key(fin, "bash"@) {
                    r is Ok && simple_block_ok(fin, r->Ok_0.permission)
                } else {
                    r matches Err(ResolveError::NoBash)
                }
            } else {
                r is Ok && r->Ok_0.permission.write is None && r->Ok_0.permission.edit is None
                    && r->Ok_0.permission.bash.bash_view() == BashView::Detailed(fin)
            }
        }),
        outcome_view(r) == baseline_resolution_view(perm_entries(*effective_baseline), category@, *override_data),
{
    let mut result = pm_clone(effective_baseline);
    apply_override(&mut result, override_data);
    if is_simple_category(category) {
        let write = match pm_get(&result, "write") {
            Some(w) => Some(w.clone()),
            None => None,
        };
        let edit = match pm_get(&result, "edit") {
            Some(e) => Some(e.clone()),
            None => None,
        };
        let bash = match pm_get(&result, "bash") {
            Some(b) => BashPermission::Simple(b.clone()),
            None => {
                return Err(ResolveError::NoBash);
            },
        };
        Ok(ResolvedPermission { permission: SotPermission { write, edit, bash } })
    } else {
        Ok(
            ResolvedPermission {
                permission: SotPermission {
                    write: None,
                    edit: None,
                    bash: BashPermission::Detailed(result),
                },
            },
        )
    }
}

// ---------------------------------------------------------------------------
// Template baselines
// ---------------------------------------------------------------------------

/// The object entries of a baseline, as (key, text) pairs.
pub open spec fn object_text_entries(v: Seq<(Seq<char>, BaselineValue)>) -> Entries {
    v.map_values(|e: (Seq<char>, BaselineValue)| (e.0, e.1.value_view()->Text_0))
}

/// Every value of the object is a string.
pub open spec fn all_text(v: Seq<(Seq<char>, BaselineValue)>) -> bool {
    forall|i: int| 0 <= i < v.len() ==> (#[trigger] v[i]).1 is Text
}

/// A baseline read as a table of strings: defined when it is an object
/// whose values are all strings; the table holds its entries in order.
pub open spec fn baseline_table(bp: BaselinePermission) -> Option<Entries> {
    match bp {
        BaselinePermission::Object(m) => if all_text(value_entries(m)) {
            Some(object_text_entries(value_entries(m)))
        } else {
            None
        },
        BaselinePermission::NotObject => None,
    }
}

/// Read a baseline as a table of strings, when it is one.
pub fn baseline_table_of(bp: &BaselinePermission) -> (r: Option<IndexMap<String, String>>)
    ensures
        match baseline_table(*bp) {
            Some(e) => r is Some && perm_entries(r->0) == e,
            None => r is None,
        },
{
    match bp {
        BaselinePermission::Object(v) => {
            let ghost src = value_entries(*v);
            let ghost ents = object_text_entries(src);
            let n = vm_len(v);
            let mut m = pm_new();
            let mut i: usize = 0;
            while i < n
                invariant
                    *bp == BaselinePermission::Object(*v),
                    src == value_entries(*v),
                    ents == object_text_entries(src),
                    n == src.len(),
                    i <= n,
                    forall|a: int, b: int|
                        0 <= a < n && 0 <= b < n && a != b ==> #[trigger] src[a].0 != #[trigger] src[b].0,
                    all_text(src.take(i as int)),
                    perm_entries(m) == ents.take(i as int),
                decreases n - i,
            {
                let (k, val) = vm_get_index(v, i).unwrap();
                match val {
                    BaselineValue::Text(t) => {
                        let ghost before = perm_entries(m);
                        proof {
                            assert(!has_key(before, k@)) by {
                                if has_key(before, k@) {
                                    let q = key_pos(before, k@);
                                    assert(src[q].0 == before[q].0);
                                }
                            }
                        }
                        pm_insert(&mut m, k.clone(), t.clone());
                        proof {
                            assert(ents.take(i + 1) =~= ents.take(i as int).push((k@, t@)));
                            assert forall|j: int| 0 <= j < i + 1 implies (#[trigger] src.take(i + 1)[j]).1 is Text by {
                                if j < i {
                                    assert(src.take(i + 1)[j] == src.take(i as int)[j]);
                                }
                            }
                        }
                    },
                    _ => {
                        proof {
                            assert(!(src[i as int].1 is Text));
                            assert(!all_text(src));
                            assert(baseline_table(*bp) is None);
                        }
                        return None;
                    },
                }
                i = i + 1;
            }
            proof {
                assert(ents.take(n as int) =~= ents);
                assert(src.take(n as int) =~= src);
            }
            Some(m)
        },
        BaselinePermission::NotObject => None,
    }
}

/// What resolving a complex category gives: the baseline read as a table,
/// with the override applied, as the `bash` table of a block without
/// `write` or `edit`; an error when the baseline is not a table.
pub open spec fn complex_resolution(
    template: Template,
    o: Override,
    r: Result<ResolvedPermission, ResolveError>,
) -> bool {
    match baseline_table(template.baseline.permission) {
        None => r matches Err(ResolveError::ComplexBaselineNotMap),
        Some(b) => r is Ok && r->Ok_0.permission.write is None && r->Ok_0.permission.edit is None
            && r->Ok_0.permission.bash.bash_view() == BashView::Detailed(apply_overrides(b, o)),
    }
}

/// Resolve for complex categories: the baseline is the `bash` table.
pub fn resolve_complex(template: &Template, override_data: &Override) -> (r: Result<
    ResolvedPermission,
    ResolveError,
>)
    ensures
        complex_resolution(*template, *override_data, r),
{
    let mut result = match baseline_table_of(&template.baseline.permission) {
        Some(m) => m,
        None => {
            return Err(ResolveError::ComplexBaselineNotMap);
        },
    };
    apply_override(&mut result, override_data);
    Ok(
        ResolvedPermission {
            permission: SotPermission { write: None, edit: None, bash: BashPermission::Detailed(result) },
        },
    )
}

/// The value of key `k` of a simple category's block after the override:
/// removed keys are absent, added keys hold their string, other keys keep
/// the baseline's value.
pub open spec fn simple_value(v: Seq<(Seq<char>, BaselineValue)>, o: Override, k: Seq<char>) -> Option<ValueView> {
    if override_removes(o).contains(k) {
        None
    } else if has_key(override_adds(o), k) {
        Some(ValueView::Text(lookup(override_adds(o), k)->0))
    } else {
        match lookup(v, k) {
            Some(x) => Some(x.value_view()),
            None => None,
        }
    }
}

/// A key of a simple block read as an optional string (`as_str`).
pub open spec fn simple_text(v: Seq<(Seq<char>, BaselineValue)>, o: Override, k: Seq<char>) -> Option<Seq<char>> {
    match simple_value(v, o, k) {
        Some(ValueView::Text(s)) => Some(s),
        _ => None,
    }
}

fn override_removes_key(o: &Override, k: &str) -> (r: bool)
    ensures
        r == override_removes(*o).contains(k@),
{
    match &o.overrides.permission {
        Some(p) => match &p.remove {
            Some(v) => {
                let ghost ks = v@.map_values(|s: String| s@);
                assert(override_removes(*o) == ks);
                let mut i: usize = 0;
                while i < v.len()
                    invariant
                        ks == v@.map_values(|s: String| s@),
                        override_removes(*o) == ks,
                        i <= v@.len(),
                        forall|j: int| 0 <= j < i ==> ks[j] != k@,
                    decreases v.len() - i,
                {
                    if str_eq(v[i].as_str(), k) {
                        proof {
                            assert(ks[i as int] == k@);
                            assert(ks.contains(k@));
                        }
                        return true;
                    }
                    i = i + 1;
                }
                false
            },
            None => false,
        },
        None => false,
    }
}

fn simple_value_of(v: &IndexMap<String, BaselineValue>, o: &Override, k: &str) -> (r: Option<BaselineValue>)
    ensures
        match simple_value(value_entries(*v), *o, k@) {
            Some(x) => r is Some && r->0.value_view() == x,
            None => r is None,
        },
{
    if override_removes_key(o, k) {
        return None;
    }
    match &o.overrides.permission {
        Some(p) => match &p.add {
            Some(m) => {
                match pm_get(m, k) {
                    Some(a) => {
                        return Some(BaselineValue::Text(a.clone()));
                    },
                    None => {},
                }
            },
            None => {},
        },
        None => {},
    }
    match vm_get(v, k) {
        Some(x) => Some(x.copy()),
        None => None,
    }
}

/// What resolving a simple category gives: the block read from the
/// baseline object after the override, or the error for its `bash` value.
pub open spec fn simple_resolution(
    template: Template,
    o: Override,
    r: Result<ResolvedPermission, ResolveError>,
) -> bool {
        match template.baseline.permission {
            BaselinePermission::NotObject => r matches Err(ResolveError::SimpleBaselineNotMap),
            BaselinePermission::Object(v) => match simple_value(value_entries(v), o, "bash"@) {
                None => r matches Err(ResolveError::NoBash),
                Some(ValueView::MixedObject) => r matches Err(ResolveError::BashObjectNotStrings),
                Some(ValueView::Other) => r matches Err(ResolveError::BashUnexpectedType),
                Some(ValueView::Text(b)) => r is Ok && opt_view(r->Ok_0.permission.write)
                    == simple_text(value_entries(v), o, "write"@) && opt_view(r->Ok_0.permission.edit)
                    == simple_text(value_entries(v), o, "edit"@) && r->Ok_0.permission.bash.bash_view()
                    == BashView::Simple(b),
                Some(ValueView::TextMap(m)) => r is Ok && opt_view(r->Ok_0.permission.write)
                    == simple_text(value_entries(v), o, "write"@) && opt_view(r->Ok_0.permission.edit)
                    == simple_text(value_entries(v), o, "edit"@) && r->Ok_0.permission.bash.bash_view()
                    == BashView::Detailed(m),
            },
        }
}

/// Resolve for simple categories: the baseline is the whole block; the
/// override adds and removes its top-level keys.
pub fn resolve_simple(template: &Template, override_data: &Override) -> (r: Result<
    ResolvedPermission,
    ResolveError,
>)
    ensures
        simple_resolution(*template, *override_data, r),
{
    let v = match &template.baseline.permission {
        BaselinePermission::Object(v) => v,
        BaselinePermission::NotObject => {
            return Err(ResolveError::SimpleBaselineNotMap);
        },
    };
    let write = match simple_value_of(v, override_data, "write") {
        Some(BaselineValue::Text(w)) => Some(w),
        _ => None,
    };
    let edit = match simple_value_of(v, override_data, "edit") {
        Some(BaselineValue::Text(e)) => Some(e),
        _ => None,
    };
    let bash = match simple_value_of(v, override_data, "bash") {
        Some(BaselineValue::Text(b)) => BashPermission::Simple(b),
        Some(BaselineValue::TextMap(m)) => BashPermission::Detailed(m),
        Some(BaselineValue::MixedObject) => {
            return Err(ResolveError::BashObjectNotStrings);
        },
        Some(BaselineValue::Other) => {
            return Err(ResolveError::BashUnexpectedType);
        },
        None => {
            return Err(ResolveError::NoBash);
        },
    };
    Ok(ResolvedPermission { permission: SotPermission { write, edit, bash } })
}

/// What resolving against a template's own baseline gives, by content.
pub open spec fn resolution_view(t: Template, o: Override) -> Result<PermView, ResolveError> {
    if simple_categories().contains(t.category@) {
        match t.baseline.permission {
            BaselinePermission::NotObject => Err(ResolveError::SimpleBaselineNotMap),
            BaselinePermission::Object(v) => {
                let w = simple_text(value_entries(v), o, "write"@);
                let e = simple_text(value_entries(v), o, "edit"@);
                match simple_value(value_entries(v), o, "bash"@) {
                    None => Err(ResolveError::NoBash),
                    Some(ValueView::MixedObject) => Err(ResolveError::BashObjectNotStrings),
                    Some(ValueView::Other) => Err(ResolveError::BashUnexpectedType),
                    Some(ValueView::Text(b)) => Ok((w, e, BashView::Simple(b))),
                    Some(ValueView::TextMap(m)) => Ok((w, e, BashView::Detailed(m))),
                }
            },
        }
    } else {
        match baseline_table(t.baseline.permission) {
            None => Err(ResolveError::ComplexBaselineNotMap),
            Some(b) => Ok((None, None, BashView::Detailed(apply_overrides(b, o)))),
        }
    }
}

/// Resolve an agent's final permissions from its template's own baseline
/// and its override: simple categories treat the baseline as the whole
/// block, complex ones as the `bash` table.
pub fn resolve(template: &Template, override_data: &Override) -> (r: Result<ResolvedPermission, ResolveError>)
    ensures
        if simple_categories().contains(template.category@) {
            simple_resolution(*template, *override_data, r)
        } else {
            complex_resolution(*template, *override_data, r)
        },
        outcome_view(r) == resolution_view(*template, *override_data),
{
    if is_simple_category(template.category.as_str()) {
        resolve_simple(template, override_data)
    } else {
        resolve_complex(template, override_data)
    }
}

// ---------------------------------------------------------------------------
// Provenance
// ---------------------------------------------------------------------------

/// Source of a permission entry in trace output.
#[derive(Debug, Clone)]
pub enum PermissionSource {
    /// Entry inherited from a parent template.
    Inherited(String),
    /// Entry from the template's own baseline.
    SelfBaseline(String),
    /// Entry added by agent override.
    AgentAdd(String),
}

/// A traced permission entry with provenance.
#[derive(Debug, Clone)]
pub struct TracedPermission {
    pub key: String,
    pub value: String,
    pub source: PermissionSource,
}

proof fn lemma_merge_from_keys(acc: Entries, ents: Entries, j: int, k: Seq<char>)
    requires
        0 <= j,
        merge_from(acc, ents, j) is Ok,
        has_key(merge_from(acc, ents, j)->Ok_0, k),
    ensures
        has_key(acc, k) || exists|q: int| j <= q < ents.len() && #[trigger] ents[q].0 == k,
    decreases ents.len() - j,
{
    if j < ents.len() {
        let kk = ents[j].0;
        let vv = ents[j].1;
        if has_key(acc, kk) {
            lemma_merge_from_keys(acc, ents, j + 1, k);
            if !has_key(acc, k) {
                let q = choose|q: int| j + 1 <= q < ents.len() && #[trigger] ents[q].0 == k;
                assert(ents[q].0 == k);
            }
        } else {
            lemma_merge_from_keys(acc.push((kk, vv)), ents, j + 1, k);
            if has_key(acc.push((kk, vv)), k) {
                let p = key_pos(acc.push((kk, vv)), k);
                if p < acc.len() {
                    assert(acc[p].0 == k);
                } else {
                    assert(ents[j].0 == k);
                }
            } else {
                let q = choose|q: int| j + 1 <= q < ents.len() && #[trigger] ents[q].0 == k;
                assert(ents[q].0 == k);
            }
        }
    }
}

proof fn lemma_merge_parents_keys(ps: Seq<(Seq<char>, Entries)>, n: int, k: Seq<char>)
    requires
        0 <= n <= ps.len(),
        merge_parents(ps, n) is Ok,
        has_key(merge_parents(ps, n)->Ok_0, k),
    ensures
        exists|p: int| 0 <= p < n && has_key(#[trigger] ps[p].1, k),
    decreases n,
{
    if n > 0 {
        let acc = merge_parents(ps, n - 1)->Ok_0;
        lemma_merge_from_keys(acc, ps[n - 1].1, 0, k);
        if has_key(acc, k) {
            lemma_merge_parents_keys(ps, n - 1, k);
            let p = choose|p: int| 0 <= p < n - 1 && has_key(#[trigger] ps[p].1, k);
            assert(has_key(ps[p].1, k));
        } else {
            let q = choose|q: int| 0 <= q < ps[n - 1].1.len() && #[trigger] ps[n - 1].1[q].0 == k;
            assert(has_key(ps[n - 1].1, k));
        }
    }
}

/// Parent `p` is the first parent whose baseline holds `k`.
pub open spec fn first_parent_with(ps: Seq<(Seq<char>, Entries)>, k: Seq<char>, p: int) -> bool {
    &&& 0 <= p < ps.len()
    &&& has_key(ps[p].1, k)
    &&& forall|q: int| 0 <= q < p ==> !has_key(#[trigger] ps[q].1, k)
}

/// Where key `k` of a resolved table comes from: the agent's additions win,
/// then the template's own baseline, then the first parent that holds it.
pub open spec fn source_ok(
    src: PermissionSource,
    ps: Seq<(Seq<char>, Entries)>,
    own: Entries,
    o: Override,
    template_name: Seq<char>,
    k: Seq<char>,
) -> bool {
    if has_key(override_adds(o), k) {
        src matches PermissionSource::AgentAdd(a) && a@ == o.agent@
    } else if has_key(own, k) {
        src matches PermissionSource::SelfBaseline(t) && t@ == template_name
    } else {
        src matches PermissionSource::Inherited(n) && exists|p: int|
            first_parent_with(ps, k, p) && n@ == ps[p].0
    }
}

/// A traced entry shows the resolved entry `e` with its source.
pub open spec fn traced_ok(
    t: TracedPermission,
    ps: Seq<(Seq<char>, Entries)>,
    own: Entries,
    o: Override,
    template_name: Seq<char>,
    e: (Seq<char>, Seq<char>),
) -> bool {
    &&& t.key@ == e.0
    &&& t.value@ == e.1
    &&& source_ok(t.source, ps, own, o, template_name, e.0)
}

fn adds_contains(o: &Override, k: &str) -> (r: bool)
    ensures
        r == has_key(override_adds(*o), k@),
{
    match &o.overrides.permission {
        Some(p) => match &p.add {
            Some(m) => pm_contains_key(m, k),
            None => false,
        },
        None => false,
    }
}

/// Resolve with full provenance tracking: the entries of the resolved
/// table, each with the template or agent that contributed it.
pub fn resolve_with_trace(
    parent_baselines: &[(String, IndexMap<String, String>)],
    self_baseline: &IndexMap<String, String>,
    template_name: &str,
    override_data: &Override,
) -> (r: Result<Vec<TracedPermission>, ResolveError>)
    ensures
        match merged_baseline(parents_view(parent_baselines@), perm_entries(*self_baseline)) {
            Err((p, j, ex)) => r matches Err(
                ResolveError::Conflict { template, key, existing, parent, value, hint },
            ) && template@ == template_name@ && key@ == parents_view(parent_baselines@)[p].1[j].0
                && existing@ == ex && parent@ == parents_view(parent_baselines@)[p].0 && value@
                == parents_view(parent_baselines@)[p].1[j].1 && !hint,
            Ok(m) => r is Ok && {
                let fin = apply_overrides(m, *override_data);
                &&& r->Ok_0@.len() == fin.len()
                &&& forall|i: int|
                    0 <= i < fin.len() ==> traced_ok(
                        #[trigger] r->Ok_0@[i],
                        parents_view(parent_baselines@),
                        perm_entries(*self_baseline),
                        *override_data,
                        template_name@,
                        fin[i],
                    )
            },
        },
{
    let ghost pv = parents_view(parent_baselines@);
    let ghost own = perm_entries(*self_baseline);
    let mut merged = match merge_baselines_impl(parent_baselines, self_baseline, template_name, false) {
        Ok(m) => m,
        Err(e) => {
            return Err(e);
        },
    };
    let ghost m0 = perm_entries(merged);
    let ghost acc = merge_parents(pv, pv.len() as int)->Ok_0;
    apply_override(&mut merged, override_data);
    let ghost fin = perm_entries(merged);
    let n = pm_len(&merged);
    let mut out: Vec<TracedPermission> = Vec::new();
    let mut i: usize = 0;
    while i < n
        invariant
            pv == parents_view(parent_baselines@),
            own == perm_entries(*self_baseline),
            merge_parents(pv, pv.len() as int) == Ok::<Entries, (int, int, Seq<char>)>(acc),
            m0 == insert_all(acc, own),
            fin == apply_overrides(m0, *override_data),
            fin == perm_entries(merged),
            n == fin.len(),
            i <= n,
            out@.len() == i,
            forall|q: int|
                0 <= q < i ==> traced_ok(#[trigger] out@[q], pv, own, *override_data, template_name@, fin[q]),
        decreases n - i,
    {
        let (key, value) = pm_get_index(&merged, i).unwrap();
        let source = if adds_contains(override_data, key.as_str()) {
            PermissionSource::AgentAdd(override_data.agent.clone())
        } else if pm_contains_key(self_baseline, key.as_str()) {
            PermissionSource::SelfBaseline(string_of(template_name))
        } else {
            proof {
                let k = key@;
                assert(fin[i as int].0 == k);
                assert(has_key(fin, k));
                lemma_remove_all_keys(insert_all(m0, override_adds(*override_data)), override_removes(*override_data), k);
                lemma_insert_all_keys(m0, override_adds(*override_data), k);
                lemma_insert_all_keys(acc, own, k);
                lemma_merge_parents_keys(pv, pv.len() as int, k);
            }
            let mut p: usize = 0;
            let mut found: Option<usize> = None;
            while p < parent_baselines.len()
                invariant
                    pv == parents_view(parent_baselines@),
                    p <= parent_baselines@.len(),
                    exists|q: int| 0 <= q < pv.len() && has_key(#[trigger] pv[q].1, key@),
                    match found {
                        None => forall|q: int| 0 <= q < p ==> !has_key(#[trigger] pv[q].1, key@),
                        Some(f) => first_parent_with(pv, key@, f as int),
                    },
                decreases parent_baselines.len() - p,
            {
                if found.is_none() {
                    if pm_contains_key(&parent_baselines[p].1, key.as_str()) {
                        found = Some(p);
                    }
                }
                p = p + 1;
            }
            let f = found.unwrap();
            PermissionSource::Inherited(parent_baselines[f].0.clone())
        };
        let ghost old_out = out@;
        let ghost src_ok = source_ok(source, pv, own, *override_data, template_name@, key@);
        assert(src_ok);
        out.push(TracedPermission { key: key.clone(), value: value.clone(), source });
        proof {
            assert(out@[i as int].key@ == fin[i as int].0);
            assert forall|q: int| 0 <= q < i + 1 implies traced_ok(#[trigger] out@[q], pv, own, *override_data, template_name@, fin[q]) by {
                if q < i {
                    assert(out@[q] == old_out[q]);
                } else {
                    assert(out@[q].key@ == fin[q].0);
                    assert(out@[q].value@ == fin[q].1);
                    assert(source_ok(out@[q].source, pv, own, *override_data, template_name@, fin[q].0));
                }
            }
        }
        i = i + 1;
    }
    Ok(out)
}

} // verus!
