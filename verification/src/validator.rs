//! Round-trip validation: the permissions that templates and agent files
//! resolve to, held against the permissions file.

use indexmap::IndexMap;
use vstd::prelude::*;
use vstd::string::*;

use crate::maps::{
    baseline_map_entries, bm_get, bm_insert, bm_new, keys_distinct, lemma_key_pos, gm_get_index, gm_len, group_entries, has_key, keys_of, insert_entry, lookup, names_view, perm_entries,
    om_get, override_entries, pm_contains_key, pm_get, pm_get_index, pm_len, sot_entries, sot_get,
    template_entries, tm_get, tm_get_index, tm_len,
};
use crate::models::{
    CategoryMap, AgentValidationResult, BashPermission, BashView, Override, Sot, SotAgent, SotPermission, Template,
    ValidationReport,
};
use petgraph::graph::DiGraph;
use crate::resolver::{
    baseline_resolution_view, baseline_table, baseline_table_of, merge_baselines, merged_baseline, opt_view,
    parents_view, perm_view, resolution_view, resolve, resolve_with_baseline, Entries, PermView, ResolveError,
};
use crate::template_dag::{
    ancestor_nodes, ancestor_order, build_dag, has_cycle, reports_cycle, dag_edges, dag_nodes, detect_cycles, first_index,
    inheritance_edges, join_with, parents_total, path_names, topo_order, DagError, NodeMap,
};
use crate::text::{debug_quoted, debug_str, decimal, str_eq, string_of, usize_text};

verus! {

/// A value mismatch: the key, the resolved value and the value in the file.
pub type Mismatch = (Seq<char>, Seq<char>, Seq<char>);

/// The text `{:?}` prints for an optional string.
pub open spec fn opt_debug(o: Option<Seq<char>>) -> Seq<char> {
    match o {
        Some(s) => "Some("@ + debug_quoted(s) + ")"@,
        None => "None"@,
    }
}

/// A mismatch on an optional field, when the two values differ.
pub open spec fn field_mismatch(name: Seq<char>, a: Option<Seq<char>>, b: Option<Seq<char>>) -> Seq<Mismatch> {
    if a != b {
        seq![(name, opt_debug(a), opt_debug(b))]
    } else {
        Seq::empty()
    }
}

/// Among the first `n` entries of `a`, those whose key `b` maps to another
/// value: the key, `a`'s value and `b`'s value, in `a`'s order.
pub open spec fn value_diffs(a: Entries, b: Entries, n: int) -> Seq<Mismatch>
    decreases n,
{
    if n <= 0 {
        Seq::empty()
    } else {
        let k = a[n - 1].0;
        let v = a[n - 1].1;
        value_diffs(a, b, n - 1) + match lookup(b, k) {
            Some(w) => if w != v {
                seq![(k, v, w)]
            } else {
                Seq::empty()
            },
            None => Seq::empty(),
        }
    }
}

/// The keys among the first `n` entries of `a` that `b` lacks, in `a`'s
/// order.
pub open spec fn keys_not_in(a: Entries, b: Entries, n: int) -> Seq<Seq<char>>
    decreases n,
{
    if n <= 0 {
        Seq::empty()
    } else {
        keys_not_in(a, b, n - 1) + if has_key(b, a[n - 1].0) {
            Seq::empty()
        } else {
            seq![a[n - 1].0]
        }
    }
}

/// The mismatches between two `bash` permissions.
pub open spec fn bash_mismatches(a: BashView, b: BashView) -> Seq<Mismatch> {
    match (a, b) {
        (BashView::Simple(x), BashView::Simple(y)) => if x != y {
            seq![("bash"@, x, y)]
        } else {
            Seq::empty()
        },
        (BashView::Detailed(x), BashView::Detailed(y)) => value_diffs(x, y, x.len() as int),
        (BashView::Simple(x), BashView::Detailed(_)) => seq![
            ("bash"@, "Simple("@ + x + ")"@, "Detailed(...)"@),
        ],
        (BashView::Detailed(_), BashView::Simple(y)) => seq![
            ("bash"@, "Detailed(...)"@, "Simple("@ + y + ")"@),
        ],
    }
}

/// All value mismatches: `write`, `edit`, then `bash`.
pub open spec fn mismatches(r: PermView, s: PermView) -> Seq<Mismatch> {
    field_mismatch("write"@, r.0, s.0) + field_mismatch("edit"@, r.1, s.1) + bash_mismatches(r.2, s.2)
}

/// Command keys in the resolved table but not in the file's.
pub open spec fn extra_keys(r: PermView, s: PermView) -> Seq<Seq<char>> {
    match (r.2, s.2) {
        (BashView::Detailed(x), BashView::Detailed(y)) => keys_not_in(x, y, x.len() as int),
        _ => Seq::empty(),
    }
}

/// Command keys in the file's table but not in the resolved one.
pub open spec fn missing_keys(r: PermView, s: PermView) -> Seq<Seq<char>> {
    match (r.2, s.2) {
        (BashView::Detailed(x), BashView::Detailed(y)) => keys_not_in(y, x, y.len() as int),
        _ => Seq::empty(),
    }
}

/// The two blocks agree: no mismatch, no key on one side only.
pub open spec fn blocks_agree(r: PermView, s: PermView) -> bool {
    mismatches(r, s).len() == 0 && extra_keys(r, s).len() == 0 && missing_keys(r, s).len() == 0
}

/// `v` is the validation result of `agent` in `category` for the resolved
/// block `r` and the file's block `s`.
pub open spec fn result_for(v: AgentValidationResult, agent: Seq<char>, category: Seq<char>, r: PermView, s: PermView) -> bool {
    &&& v.agent@ == agent
    &&& v.category@ == category
    &&& triples_view(v.value_mismatches@) == mismatches(r, s)
    &&& names_view(v.extra_in_resolved) == extra_keys(r, s)
    &&& names_view(v.missing_from_resolved) == missing_keys(r, s)
    &&& v.passed == blocks_agree(r, s)
}

/// Two `bash` permissions hold the same content: the same single value, or
/// tables that give every command pattern the same value (in any order).
pub open spec fn same_bash(a: BashView, b: BashView) -> bool {
    match (a, b) {
        (BashView::Simple(x), BashView::Simple(y)) => x == y,
        (BashView::Detailed(x), BashView::Detailed(y)) => forall|k: Seq<char>| #[trigger] lookup(x, k) == lookup(y, k),
        _ => false,
    }
}

/// Two permission blocks hold the same content: equal `write`, equal
/// `edit`, the same `bash` permission.
pub open spec fn same_perm(a: PermView, b: PermView) -> bool {
    a.0 == b.0 && a.1 == b.1 && same_bash(a.2, b.2)
}

proof fn lemma_value_diffs_none(a: Entries, b: Entries, n: int)
    requires
        0 <= n <= a.len(),
    ensures
        value_diffs(a, b, n).len() == 0 <==> forall|i: int|
            0 <= i < n ==> (#[trigger] lookup(b, a[i].0) is Some ==> lookup(b, a[i].0)->0 == a[i].1),
    decreases n,
{
    if n > 0 {
        lemma_value_diffs_none(a, b, n - 1);
        if value_diffs(a, b, n - 1).len() == 0 {
            assert forall|i: int| 0 <= i < n - 1 implies (#[trigger] lookup(b, a[i].0) is Some ==> lookup(b, a[i].0)->0
                == a[i].1) by {}
        }
        assert(lookup(b, a[n - 1].0) == lookup(b, a[n - 1].0));
    }
}

proof fn lemma_keys_not_in_none(a: Entries, b: Entries, n: int)
    requires
        0 <= n <= a.len(),
    ensures
        keys_not_in(a, b, n).len() == 0 <==> forall|i: int| 0 <= i < n ==> #[trigger] has_key(b, a[i].0),
    decreases n,
{
    if n > 0 {
        lemma_keys_not_in_none(a, b, n - 1);
        assert(has_key(b, a[n - 1].0) == has_key(b, a[n - 1].0));
    }
}

/// Tables with distinct keys give every key the same value exactly when
/// each entry of one is an entry of the other and each key of the other is
/// a key of the one.
pub proof fn lemma_tables_same(x: Entries, y: Entries)
    requires
        keys_distinct(x),
        keys_distinct(y),
    ensures
        (forall|k: Seq<char>| #[trigger] lookup(x, k) == lookup(y, k)) <==> ((forall|i: int|
            0 <= i < x.len() ==> #[trigger] lookup(y, x[i].0) == Some(x[i].1)) && (forall|j: int|
            0 <= j < y.len() ==> #[trigger] has_key(x, y[j].0))),
{
    if forall|k: Seq<char>| #[trigger] lookup(x, k) == lookup(y, k) {
        assert forall|i: int| 0 <= i < x.len() implies #[trigger] lookup(y, x[i].0) == Some(x[i].1) by {
            lemma_key_pos(x, x[i].0, i);
            assert(lookup(x, x[i].0) == lookup(y, x[i].0));
        }
        assert forall|j: int| 0 <= j < y.len() implies #[trigger] has_key(x, y[j].0) by {
            lemma_key_pos(y, y[j].0, j);
            assert(lookup(x, y[j].0) == lookup(y, y[j].0));
        }
    }
    if (forall|i: int| 0 <= i < x.len() ==> #[trigger] lookup(y, x[i].0) == Some(x[i].1)) && (forall|j: int|
        0 <= j < y.len() ==> #[trigger] has_key(x, y[j].0)) {
        assert forall|k: Seq<char>| #[trigger] lookup(x, k) == lookup(y, k) by {
            if has_key(x, k) {
                let i = choose|i: int| 0 <= i < x.len() && #[trigger] x[i].0 == k;
                lemma_key_pos(x, k, i);
                assert(lookup(y, x[i].0) == Some(x[i].1));
            } else if has_key(y, k) {
                let j = choose|j: int| 0 <= j < y.len() && #[trigger] y[j].0 == k;
                assert(has_key(x, y[j].0));
            }
        }
    }
}

/// Validation passes exactly when the two blocks hold the same content:
/// equal `write`, equal `edit`, and the same `bash` permission (tables
/// compared as maps).
pub proof fn lemma_agree_iff_same(r: PermView, s: PermView)
    requires
        (r.2, s.2) matches (BashView::Detailed(x), BashView::Detailed(y)) ==> keys_distinct(x) && keys_distinct(y),
    ensures
        blocks_agree(r, s) <==> same_perm(r, s),
{
    match (r.2, s.2) {
        (BashView::Detailed(x), BashView::Detailed(y)) => {
            lemma_value_diffs_none(x, y, x.len() as int);
            lemma_keys_not_in_none(x, y, x.len() as int);
            lemma_keys_not_in_none(y, x, y.len() as int);
            lemma_tables_same(x, y);
            if blocks_agree(r, s) {
                assert forall|i: int| 0 <= i < x.len() implies #[trigger] lookup(y, x[i].0) == Some(x[i].1) by {
                    assert(has_key(y, x[i].0));
                    assert(lookup(y, x[i].0) is Some ==> lookup(y, x[i].0)->0 == x[i].1);
                }
            }
            if same_perm(r, s) {
                assert forall|i: int| 0 <= i < x.len() implies #[trigger] has_key(y, x[i].0) by {
                    assert(lookup(y, x[i].0) == Some(x[i].1));
                }
                assert forall|i: int| 0 <= i < x.len() implies (#[trigger] lookup(y, x[i].0) is Some ==> lookup(
                    y,
                    x[i].0,
                )->0 == x[i].1) by {
                    assert(lookup(y, x[i].0) == Some(x[i].1));
                }
            }
        },
        _ => {},
    }
}

proof fn lemma_self_diffs(x: Entries, n: int)
    requires
        keys_distinct(x),
        0 <= n <= x.len(),
    ensures
        value_diffs(x, x, n) == Seq::<Mismatch>::empty(),
        keys_not_in(x, x, n) == Seq::<Seq<char>>::empty(),
    decreases n,
{
    if n > 0 {
        lemma_self_diffs(x, n - 1);
        lemma_key_pos(x, x[n - 1].0, n - 1);
        assert(value_diffs(x, x, n) =~= Seq::<Mismatch>::empty());
        assert(keys_not_in(x, x, n) =~= Seq::<Seq<char>>::empty());
    }
}

/// A block agrees with itself: validating a permission block against
/// itself reports nothing.
pub proof fn lemma_blocks_agree_reflexive(p: PermView)
    requires
        p.2 matches BashView::Detailed(x) ==> keys_distinct(x),
    ensures
        blocks_agree(p, p),
{
    match p.2 {
        BashView::Detailed(x) => {
            lemma_self_diffs(x, x.len() as int);
        },
        _ => {},
    }
    assert(mismatches(p, p) =~= Seq::<Mismatch>::empty());
}

/// The views of a list of mismatches.
pub open spec fn triples_view(v: Seq<(String, String, String)>) -> Seq<Mismatch> {
    v.map_values(|t: (String, String, String)| (t.0@, t.1@, t.2@))
}

fn push_triple(v: &mut Vec<(String, String, String)>, a: String, b: String, c: String)
    ensures
        triples_view(final(v)@) == triples_view(old(v)@).push((a@, b@, c@)),
{
    let ghost pre = triples_view(v@);
    v.push((a, b, c));
    proof {
        assert(triples_view(v@) =~= pre.push((a@, b@, c@)));
    }
}

fn push_name(v: &mut Vec<String>, a: String)
    ensures
        names_view(*final(v)) == names_view(*old(v)).push(a@),
{
    let ghost pre = names_view(*v);
    v.push(a);
    proof {
        assert(names_view(*v) =~= pre.push(a@));
    }
}

/// Whether two optional strings are equal.
pub fn opt_str_eq(a: &Option<String>, b: &Option<String>) -> (r: bool)
    ensures
        r == (opt_view(*a) == opt_view(*b)),
{
    match (a, b) {
        (Some(x), Some(y)) => str_eq(x.as_str(), y.as_str()),
        (None, None) => true,
        _ => false,
    }
}

/// `format!("{:?}", o)` of an optional string.
pub fn opt_debug_text(o: &Option<String>) -> (r: String)
    ensures
        r@ == opt_debug(opt_view(*o)),
{
    match o {
        Some(s) => {
            let mut t = string_of("Some(");
            let d = debug_str(s.as_str());
            t.append(d.as_str());
            t.append(")");
            proof {
                reveal_strlit("Some(");
                reveal_strlit(")");
            }
            t
        },
        None => {
            proof {
                reveal_strlit("None");
            }
            string_of("None")
        },
    }
}

fn table_diffs(
    a: &IndexMap<String, String>,
    b: &IndexMap<String, String>,
    value_mismatches: &mut Vec<(String, String, String)>,
    extra: &mut Vec<String>,
    missing: &mut Vec<String>,
)
    ensures
        triples_view(final(value_mismatches)@) == triples_view(old(value_mismatches)@) + value_diffs(
            perm_entries(*a),
            perm_entries(*b),
            perm_entries(*a).len() as int,
        ),
        names_view(*final(extra)) == names_view(*old(extra)) + keys_not_in(
            perm_entries(*a),
            perm_entries(*b),
            perm_entries(*a).len() as int,
        ),
        names_view(*final(missing)) == names_view(*old(missing)) + keys_not_in(
            perm_entries(*b),
            perm_entries(*a),
            perm_entries(*b).len() as int,
        ),
{
    let ghost ea = perm_entries(*a);
    let ghost eb = perm_entries(*b);
    let ghost vm0 = triples_view(value_mismatches@);
    let ghost ex0 = names_view(*extra);
    let ghost mi0 = names_view(*missing);
    let na = pm_len(a);
    let mut i: usize = 0;
    while i < na
        invariant
            ea == perm_entries(*a),
            eb == perm_entries(*b),
            na == ea.len(),
            i <= na,
            triples_view(value_mismatches@) == vm0 + value_diffs(ea, eb, i as int),
            names_view(*extra) == ex0 + keys_not_in(ea, eb, i as int),
        decreases na - i,
    {
        let (k, v) = pm_get_index(a, i).unwrap();
        match pm_get(b, k.as_str()) {
            Some(sv) => {
                if !str_eq(sv.as_str(), v.as_str()) {
                    push_triple(value_mismatches, k.clone(), v.clone(), sv.clone());
                    assert(has_key(eb, k@));
                }
            },
            None => {
                push_name(extra, k.clone());
            },
        }
        i = i + 1;
    }
    let nb = pm_len(b);
    let mut j: usize = 0;
    while j < nb
        invariant
            ea == perm_entries(*a),
            eb == perm_entries(*b),
            nb == eb.len(),
            j <= nb,
            names_view(*missing) == mi0 + keys_not_in(eb, ea, j as int),
        decreases nb - j,
    {
        let (k, _) = pm_get_index(b, j).unwrap();
        if !pm_contains_key(a, k.as_str()) {
            push_name(missing, k.clone());
        }
        j = j + 1;
    }
}

/// Compare resolved permissions against the permissions file's for one
/// agent.
pub fn compare_permissions(
    agent: &str,
    category: &str,
    resolved: &SotPermission,
    sot: &SotPermission,
) -> (r: AgentValidationResult)
    ensures
        result_for(r, agent@, category@, perm_view(*resolved), perm_view(*sot)),
        r.passed <==> same_perm(perm_view(*resolved), perm_view(*sot)),
{
    let mut extra_in_resolved: Vec<String> = Vec::new();
    let mut missing_from_resolved: Vec<String> = Vec::new();
    let mut value_mismatches: Vec<(String, String, String)> = Vec::new();
    proof {
        reveal_strlit("write");
        reveal_strlit("edit");
        reveal_strlit("bash");
        reveal_strlit("Simple(");
        reveal_strlit(")");
        reveal_strlit("Detailed(...)");
        assert(triples_view(value_mismatches@) =~= Seq::<Mismatch>::empty());
        assert(names_view(extra_in_resolved) =~= Seq::<Seq<char>>::empty());
        assert(names_view(missing_from_resolved) =~= Seq::<Seq<char>>::empty());
    }
    if !opt_str_eq(&resolved.write, &sot.write) {
        push_triple(
            &mut value_mismatches,
            string_of("write"),
            opt_debug_text(&resolved.write),
            opt_debug_text(&sot.write),
        );
    }
    if !opt_str_eq(&resolved.edit, &sot.edit) {
        push_triple(
            &mut value_mismatches,
            string_of("edit"),
            opt_debug_text(&resolved.edit),
            opt_debug_text(&sot.edit),
        );
    }
    let ghost fields = triples_view(value_mismatches@);
    assert(fields =~= field_mismatch("write"@, opt_view(resolved.write), opt_view(sot.write))
        + field_mismatch("edit"@, opt_view(resolved.edit), opt_view(sot.edit)));
    match (&resolved.bash, &sot.bash) {
        (BashPermission::Simple(a), BashPermission::Simple(b)) => {
            if !str_eq(a.as_str(), b.as_str()) {
                push_triple(&mut value_mismatches, string_of("bash"), a.clone(), b.clone());
            }
        },
        (BashPermission::Detailed(a), BashPermission::Detailed(b)) => {
            let _ = pm_len(a);
            let _ = pm_len(b);
            table_diffs(a, b, &mut value_mismatches, &mut extra_in_resolved, &mut missing_from_resolved);
        },
        (BashPermission::Simple(a), BashPermission::Detailed(_)) => {
            let mut t = string_of("Simple(");
            t.append(a.as_str());
            t.append(")");
            push_triple(&mut value_mismatches, string_of("bash"), t, string_of("Detailed(...)"));
        },
        (BashPermission::Detailed(_), BashPermission::Simple(b)) => {
            let mut t = string_of("Simple(");
            t.append(b.as_str());
            t.append(")");
            push_triple(&mut value_mismatches, string_of("bash"), string_of("Detailed(...)"), t);
        },
    }
    proof {
        assert(triples_view(value_mismatches@) =~= mismatches(perm_view(*resolved), perm_view(*sot)));
        assert(names_view(extra_in_resolved) =~= extra_keys(perm_view(*resolved), perm_view(*sot)));
        assert(names_view(missing_from_resolved) =~= missing_keys(perm_view(*resolved), perm_view(*sot)));
        lemma_agree_iff_same(perm_view(*resolved), perm_view(*sot));
    }
    let passed = extra_in_resolved.len() == 0 && missing_from_resolved.len() == 0
        && value_mismatches.len() == 0;
    AgentValidationResult {
        agent: string_of(agent),
        category: string_of(category),
        passed,
        extra_in_resolved,
        missing_from_resolved,
        value_mismatches,
    }
}

// ---------------------------------------------------------------------------
// Effective baselines
// ---------------------------------------------------------------------------

/// Why an effective baseline cannot be computed.
#[derive(Debug, Clone)]
pub enum BaselineError {
    /// Ordering the template's ancestors failed.
    Dag(DagError),
    /// An ancestor has no loaded template.
    AncestorNotFound(String),
    /// An ancestor's baseline is not a table of strings.
    AncestorNotTable(String),
    /// The template's own baseline is not a table of strings.
    NotTable(String),
    /// Two parents give a key different values.
    Resolve(ResolveError),
}

/// The failures of baseline computation, by content.
pub enum BaselineFailure {
    NotInDag(Seq<char>),
    UnexpectedCycle,
    AncestorNotFound(Seq<char>),
    AncestorNotTable(Seq<char>),
    NotTable(Seq<char>),
    /// Template, key, value already merged, parent, the parent's value.
    Conflict(Seq<char>, Seq<char>, Seq<char>, Seq<char>, Seq<char>),
}

/// The error `e` reports the failure `f`.
pub open spec fn baseline_failure_is(e: BaselineError, f: BaselineFailure) -> bool {
    match f {
        BaselineFailure::NotInDag(n) => e matches BaselineError::Dag(DagError::NotInDag { template })
            && template@ == n,
        BaselineFailure::UnexpectedCycle => e matches BaselineError::Dag(DagError::UnexpectedCycle),
        BaselineFailure::AncestorNotFound(n) => e matches BaselineError::AncestorNotFound(x) && x@ == n,
        BaselineFailure::AncestorNotTable(n) => e matches BaselineError::AncestorNotTable(x) && x@ == n,
        BaselineFailure::NotTable(n) => e matches BaselineError::NotTable(x) && x@ == n,
        BaselineFailure::Conflict(t, k, ex, p, v) => e matches BaselineError::Resolve(
            ResolveError::Conflict { template, key, existing, parent, value, hint },
        ) && template@ == t && key@ == k && existing@ == ex && parent@ == p && value@ == v && hint,
    }
}

/// The baselines of the first `k` of `names`, each read as a table from its
/// template; fails at the first name without a template or whose baseline
/// is not a table.
pub open spec fn parent_tables(ts: Seq<(Seq<char>, Template)>, names: Seq<Seq<char>>, k: int) -> Result<Seq<(Seq<char>, Entries)>, BaselineFailure>
    decreases k,
{
    if k <= 0 {
        Ok(Seq::empty())
    } else {
        match parent_tables(ts, names, k - 1) {
            Err(f) => Err(f),
            Ok(ps) => match lookup(ts, names[k - 1]) {
                None => Err(BaselineFailure::AncestorNotFound(names[k - 1])),
                Some(t) => match baseline_table(t.baseline.permission) {
                    None => Err(BaselineFailure::AncestorNotTable(names[k - 1])),
                    Some(e) => Ok(ps.push((names[k - 1], e))),
                },
            },
        }
    }
}

/// The effective baseline of template `i`: none without `$extends`;
/// otherwise its ancestors' baselines in merge order with its own baseline
/// on top.
pub open spec fn effective_step(
    ts: Seq<(Seq<char>, Template)>,
    nodes: Seq<Seq<char>>,
    edges: Seq<(int, int)>,
    nm: Seq<Seq<char>>,
    i: int,
) -> Result<Option<Entries>, BaselineFailure> {
    let name = ts[i].0;
    let t = ts[i].1;
    if t.extends is None {
        Ok(None)
    } else if !nm.contains(name) {
        Err(BaselineFailure::NotInDag(name))
    } else {
        match ancestor_nodes(nodes.len(), edges, first_index(nm, name)) {
            None => Err(BaselineFailure::UnexpectedCycle),
            Some(vs) => {
                let anc = path_names(nodes, vs);
                match parent_tables(ts, anc, anc.len() as int) {
                    Err(f) => Err(f),
                    Ok(ps) => match baseline_table(t.baseline.permission) {
                        None => Err(BaselineFailure::NotTable(name)),
                        Some(own) => match merged_baseline(ps, own) {
                            Ok(m) => Ok(Some(m)),
                            Err((p, j, ex)) => Err(
                                BaselineFailure::Conflict(name, ps[p].1[j].0, ex, ps[p].0, ps[p].1[j].1),
                            ),
                        },
                    },
                }
            },
        }
    }
}

/// The effective baselines of the first `n` templates, by category name.
pub open spec fn effective_all(
    ts: Seq<(Seq<char>, Template)>,
    nodes: Seq<Seq<char>>,
    edges: Seq<(int, int)>,
    nm: Seq<Seq<char>>,
    n: int,
) -> Result<Seq<(Seq<char>, Entries)>, BaselineFailure>
    decreases n,
{
    if n <= 0 {
        Ok(Seq::empty())
    } else {
        match effective_all(ts, nodes, edges, nm, n - 1) {
            Err(f) => Err(f),
            Ok(acc) => match effective_step(ts, nodes, edges, nm, n - 1) {
                Err(f) => Err(f),
                Ok(None) => Ok(acc),
                Ok(Some(m)) => Ok(insert_entry(acc, ts[n - 1].0, m)),
            },
        }
    }
}

pub(crate) fn parent_baselines_of(templates: &IndexMap<String, Template>, names: &Vec<String>) -> (r: Result<
    Vec<(String, IndexMap<String, String>)>,
    BaselineError,
>)
    ensures
        match parent_tables(template_entries(*templates), names_view(*names), names@.len() as int) {
            Ok(ps) => r is Ok && parents_view(r->Ok_0@) == ps,
            Err(f) => r is Err && baseline_failure_is(r->Err_0, f),
        },
{
    let ghost ts = template_entries(*templates);
    let ghost nv = names_view(*names);
    let mut out: Vec<(String, IndexMap<String, String>)> = Vec::new();
    let mut k: usize = 0;
    while k < names.len()
        invariant
            ts == template_entries(*templates),
            nv == names_view(*names),
            k <= names@.len(),
            parent_tables(ts, nv, k as int) is Ok,
            parents_view(out@) == parent_tables(ts, nv, k as int)->Ok_0,
        decreases names.len() - k,
    {
        let name = &names[k];
        assert(nv[k as int] == name@);
        let t = match tm_get(templates, name.as_str()) {
            None => {
                proof {
                    lemma_parent_tables_err_stays(ts, nv, k + 1, names@.len() as int);
                }
                return Err(BaselineError::AncestorNotFound(name.clone()));
            },
            Some(t) => t,
        };
        let table = match baseline_table_of(&t.baseline.permission) {
            None => {
                proof {
                    lemma_parent_tables_err_stays(ts, nv, k + 1, names@.len() as int);
                }
                return Err(BaselineError::AncestorNotTable(name.clone()));
            },
            Some(m) => m,
        };
        let ghost pre = parents_view(out@);
        let entry = (name.clone(), table);
        out.push(entry);
        proof {
            assert(parents_view(out@) =~= pre.push((name@, perm_entries(entry.1))));
        }
        k = k + 1;
    }
    Ok(out)
}

proof fn lemma_parent_tables_err_stays(ts: Seq<(Seq<char>, Template)>, names: Seq<Seq<char>>, a: int, b: int)
    requires
        0 <= a <= b,
        parent_tables(ts, names, a) is Err,
    ensures
        parent_tables(ts, names, b) == parent_tables(ts, names, a),
    decreases b - a,
{
    if a < b {
        lemma_parent_tables_err_stays(ts, names, a, b - 1);
    }
}

proof fn lemma_effective_err_stays(
    ts: Seq<(Seq<char>, Template)>,
    nodes: Seq<Seq<char>>,
    edges: Seq<(int, int)>,
    nm: Seq<Seq<char>>,
    a: int,
    b: int,
)
    requires
        0 <= a <= b,
        effective_all(ts, nodes, edges, nm, a) is Err,
    ensures
        effective_all(ts, nodes, edges, nm, b) == effective_all(ts, nodes, edges, nm, a),
    decreases b - a,
{
    if a < b {
        lemma_effective_err_stays(ts, nodes, edges, nm, a, b - 1);
    }
}

/// The effective baseline of template `i`, computed.
fn effective_step_exec(
    templates: &IndexMap<String, Template>,
    graph: &DiGraph<String, ()>,
    node_map: &NodeMap,
    i: usize,
) -> (r: Result<Option<IndexMap<String, String>>, BaselineError>)
    requires
        node_map@.len() <= dag_nodes(*graph).len(),
        i < template_entries(*templates).len(),
    ensures
        match effective_step(template_entries(*templates), dag_nodes(*graph), dag_edges(*graph), node_map@, i as int) {
            Ok(None) => r matches Ok(None),
            Ok(Some(m)) => r matches Ok(Some(x)) && perm_entries(x) == m,
            Err(f) => r is Err && baseline_failure_is(r->Err_0, f),
        },
{
    let ghost ts = template_entries(*templates);
    let (cat_name, template) = tm_get_index(templates, i).unwrap();
    if template.extends.is_none() {
        return Ok(None);
    }
    let ancestors = match ancestor_order(graph, node_map, cat_name.as_str()) {
        Err(e) => {
            return Err(BaselineError::Dag(e));
        },
        Ok(a) => a,
    };
    let parents = match parent_baselines_of(templates, &ancestors) {
        Err(e) => {
            return Err(e);
        },
        Ok(p) => p,
    };
    let own = match baseline_table_of(&template.baseline.permission) {
        None => {
            return Err(BaselineError::NotTable(cat_name.clone()));
        },
        Some(m) => m,
    };
    match merge_baselines(parents.as_slice(), &own, cat_name.as_str()) {
        Ok(m) => Ok(Some(m)),
        Err(e) => Err(BaselineError::Resolve(e)),
    }
}

/// Pre-compute the effective baseline of every template with `$extends`:
/// its ancestors' baselines merged in order, its own baseline on top.
pub fn compute_effective_baselines(
    templates: &IndexMap<String, Template>,
    graph: &DiGraph<String, ()>,
    node_map: &NodeMap,
) -> (r: Result<IndexMap<String, IndexMap<String, String>>, BaselineError>)
    requires
        node_map@.len() <= dag_nodes(*graph).len(),
    ensures
        ({
            let ts = template_entries(*templates);
            match effective_all(ts, dag_nodes(*graph), dag_edges(*graph), node_map@, ts.len() as int) {
                Ok(es) => r is Ok && baseline_map_entries(r->Ok_0) == es,
                Err(f) => r is Err && baseline_failure_is(r->Err_0, f),
            }
        }),
{
    let ghost ts = template_entries(*templates);
    let ghost nodes = dag_nodes(*graph);
    let ghost es = dag_edges(*graph);
    let n = tm_len(templates);
    let mut effective = bm_new();
    let mut i: usize = 0;
    while i < n
        invariant
            ts == template_entries(*templates),
            nodes == dag_nodes(*graph),
            es == dag_edges(*graph),
            node_map@.len() <= nodes.len(),
            n == ts.len(),
            i <= n,
            effective_all(ts, nodes, es, node_map@, i as int) is Ok,
            baseline_map_entries(effective) == effective_all(ts, nodes, es, node_map@, i as int)->Ok_0,
        decreases n - i,
    {
        match effective_step_exec(templates, graph, node_map, i) {
            Err(e) => {
                proof {
                    lemma_effective_err_stays(ts, nodes, es, node_map@, i + 1, n as int);
                }
                return Err(e);
            },
            Ok(None) => {},
            Ok(Some(m)) => {
                let (cat_name, _) = tm_get_index(templates, i).unwrap();
                bm_insert(&mut effective, cat_name.clone(), m);
            },
        }
        i = i + 1;
    }
    Ok(effective)
}

// ---------------------------------------------------------------------------
// Validating every agent
// ---------------------------------------------------------------------------

/// Why validation stopped.
#[derive(Debug, Clone)]
pub enum ValidateError {
    /// The inheritance graph cannot be built or has a cycle.
    Dag(DagError),
    /// An effective baseline cannot be computed.
    Baseline(BaselineError),
    /// A category has no loaded template.
    NoTemplate(String),
    /// An agent has no loaded agent file.
    NoOverride(String),
    /// Resolving an agent failed.
    Resolve { agent: String, error: ResolveError },
    /// An agent is missing from the permissions file.
    NotInSot(String),
}

/// The failures of the per-agent phase, by content.
pub enum AgentFailure {
    NoTemplate(Seq<char>),
    NoOverride(Seq<char>),
    Resolve(Seq<char>, ResolveError),
    NotInSot(Seq<char>),
}

/// The error `e` reports the failure `f`.
pub open spec fn agent_failure_is(e: ValidateError, f: AgentFailure) -> bool {
    match f {
        AgentFailure::NoTemplate(c) => e matches ValidateError::NoTemplate(x) && x@ == c,
        AgentFailure::NoOverride(a) => e matches ValidateError::NoOverride(x) && x@ == a,
        AgentFailure::Resolve(a, err) => e matches ValidateError::Resolve { agent, error } && agent@ == a
            && error == err,
        AgentFailure::NotInSot(a) => e matches ValidateError::NotInSot(x) && x@ == a,
    }
}

/// A checked agent: category, agent, resolved block, the file's block.
pub type Checked = (Seq<char>, Seq<char>, PermView, PermView);

/// Check one agent: its agent file, its resolution (against the effective
/// baseline when its category has one, else its template), and its entry
/// in the permissions file.
pub open spec fn check_agent(
    sot: Seq<(Seq<char>, SotAgent)>,
    t: Template,
    ovs: Seq<(Seq<char>, Override)>,
    eff: Seq<(Seq<char>, Entries)>,
    cat: Seq<char>,
    agent: Seq<char>,
) -> Result<Checked, AgentFailure> {
    match lookup(ovs, agent) {
        None => Err(AgentFailure::NoOverride(agent)),
        Some(o) => {
            let res = if has_key(eff, cat) {
                baseline_resolution_view(lookup(eff, cat)->0, cat, o)
            } else {
                resolution_view(t, o)
            };
            match res {
                Err(e) => Err(AgentFailure::Resolve(agent, e)),
                Ok(rv) => match lookup(sot, agent) {
                    None => Err(AgentFailure::NotInSot(agent)),
                    Some(sa) => Ok((cat, agent, rv, perm_view(sa.permission))),
                },
            }
        },
    }
}

/// Check the first `k` agents of a category, in order.
pub open spec fn check_agents(
    sot: Seq<(Seq<char>, SotAgent)>,
    t: Template,
    ovs: Seq<(Seq<char>, Override)>,
    eff: Seq<(Seq<char>, Entries)>,
    cat: Seq<char>,
    agents: Seq<Seq<char>>,
    k: int,
) -> Result<Seq<Checked>, AgentFailure>
    decreases k,
{
    if k <= 0 {
        Ok(Seq::empty())
    } else {
        match check_agents(sot, t, ovs, eff, cat, agents, k - 1) {
            Err(f) => Err(f),
            Ok(cs) => match check_agent(sot, t, ovs, eff, cat, agents[k - 1]) {
                Err(f) => Err(f),
                Ok(c) => Ok(cs.push(c)),
            },
        }
    }
}

/// Check the agents of the first `k` categories, in order; a category
/// without a template fails.
pub open spec fn check_categories(
    sot: Seq<(Seq<char>, SotAgent)>,
    gs: Seq<(Seq<char>, Seq<Seq<char>>)>,
    ts: Seq<(Seq<char>, Template)>,
    ovs: Seq<(Seq<char>, Override)>,
    eff: Seq<(Seq<char>, Entries)>,
    k: int,
) -> Result<Seq<Checked>, AgentFailure>
    decreases k,
{
    if k <= 0 {
        Ok(Seq::empty())
    } else {
        match check_categories(sot, gs, ts, ovs, eff, k - 1) {
            Err(f) => Err(f),
            Ok(cs) => match lookup(ts, gs[k - 1].0) {
                None => Err(AgentFailure::NoTemplate(gs[k - 1].0)),
                Some(t) => match check_agents(sot, t, ovs, eff, gs[k - 1].0, gs[k - 1].1, gs[k - 1].1.len() as int) {
                    Err(f) => Err(f),
                    Ok(more) => Ok(cs + more),
                },
            },
        }
    }
}

/// How many of the first `k` checked agents agree with the file.
pub open spec fn agreeing(cs: Seq<Checked>, k: int) -> nat
    decreases k,
{
    if k <= 0 {
        0
    } else {
        agreeing(cs, k - 1) + if blocks_agree(cs[k - 1].2, cs[k - 1].3) {
            1nat
        } else {
            0nat
        }
    }
}

/// The count of passing agents is the number of checked agents whose
/// resolved and file blocks agree.
pub proof fn lemma_agreeing_counts(cs: Seq<Checked>, k: int)
    requires
        0 <= k <= cs.len(),
    ensures
        Set::new(|i: int| 0 <= i < k && blocks_agree(cs[i].2, cs[i].3)).finite(),
        agreeing(cs, k) == Set::new(|i: int| 0 <= i < k && blocks_agree(cs[i].2, cs[i].3)).len(),
    decreases k,
{
    let s = Set::new(|i: int| 0 <= i < k && blocks_agree(cs[i].2, cs[i].3));
    if k == 0 {
        assert(s =~= Set::<int>::empty());
    } else {
        lemma_agreeing_counts(cs, k - 1);
        let s0 = Set::new(|i: int| 0 <= i < k - 1 && blocks_agree(cs[i].2, cs[i].3));
        assert(!s0.contains(k - 1));
        if blocks_agree(cs[k - 1].2, cs[k - 1].3) {
            assert(s =~= s0.insert(k - 1));
        } else {
            assert(s =~= s0);
        }
    }
}

/// The report lists one result per checked agent, in order, and counts
/// those that agree.
pub open spec fn report_for(rep: ValidationReport, cs: Seq<Checked>) -> bool {
    &&& rep.results@.len() == cs.len()
    &&& forall|i: int|
        0 <= i < cs.len() ==> result_for(#[trigger] rep.results@[i], cs[i].1, cs[i].0, cs[i].2, cs[i].3)
    &&& rep.total == cs.len()
    &&& rep.passed == agreeing(cs, cs.len() as int)
    &&& rep.failed == rep.total - rep.passed
}

fn check_one(
    sot: &Sot,
    template: &Template,
    overrides: &IndexMap<String, Override>,
    effective: &IndexMap<String, IndexMap<String, String>>,
    cat: &str,
    agent: &str,
) -> (r: Result<AgentValidationResult, ValidateError>)
    ensures
        match check_agent(
            sot_entries(*sot),
            *template,
            override_entries(*overrides),
            baseline_map_entries(*effective),
            cat@,
            agent@,
        ) {
            Ok(c) => r is Ok && result_for(r->Ok_0, c.1, c.0, c.2, c.3),
            Err(f) => r is Err && agent_failure_is(r->Err_0, f),
        },
{
    let o = match om_get(overrides, agent) {
        None => {
            return Err(ValidateError::NoOverride(string_of(agent)));
        },
        Some(o) => o,
    };
    let resolved = match bm_get(effective, cat) {
        Some(eff) => resolve_with_baseline(eff, cat, o),
        None => resolve(template, o),
    };
    let resolved = match resolved {
        Err(e) => {
            return Err(ValidateError::Resolve { agent: string_of(agent), error: e });
        },
        Ok(r) => r,
    };
    let sa = match sot_get(sot, agent) {
        None => {
            return Err(ValidateError::NotInSot(string_of(agent)));
        },
        Some(s) => s,
    };
    Ok(compare_permissions(agent, cat, &resolved.permission, &sa.permission))
}

proof fn lemma_check_agents_err_stays(
    sot: Seq<(Seq<char>, SotAgent)>,
    t: Template,
    ovs: Seq<(Seq<char>, Override)>,
    eff: Seq<(Seq<char>, Entries)>,
    cat: Seq<char>,
    agents: Seq<Seq<char>>,
    a: int,
    b: int,
)
    requires
        0 <= a <= b,
        check_agents(sot, t, ovs, eff, cat, agents, a) is Err,
    ensures
        check_agents(sot, t, ovs, eff, cat, agents, b) == check_agents(sot, t, ovs, eff, cat, agents, a),
    decreases b - a,
{
    if a < b {
        lemma_check_agents_err_stays(sot, t, ovs, eff, cat, agents, a, b - 1);
    }
}

proof fn lemma_check_categories_err_stays(
    sot: Seq<(Seq<char>, SotAgent)>,
    gs: Seq<(Seq<char>, Seq<Seq<char>>)>,
    ts: Seq<(Seq<char>, Template)>,
    ovs: Seq<(Seq<char>, Override)>,
    eff: Seq<(Seq<char>, Entries)>,
    a: int,
    b: int,
)
    requires
        0 <= a <= b,
        check_categories(sot, gs, ts, ovs, eff, a) is Err,
    ensures
        check_categories(sot, gs, ts, ovs, eff, b) == check_categories(sot, gs, ts, ovs, eff, a),
    decreases b - a,
{
    if a < b {
        lemma_check_categories_err_stays(sot, gs, ts, ovs, eff, a, b - 1);
    }
}

pub(crate) proof fn lemma_agreeing_push(s: Seq<Checked>, x: Checked, k: int)
    requires
        0 <= k <= s.len(),
    ensures
        agreeing(s.push(x), k) == agreeing(s, k),
    decreases k,
{
    if k > 0 {
        lemma_agreeing_push(s, x, k - 1);
    }
}

/// Check one category's agents, appending their results.
fn check_category(
    sot: &Sot,
    template: &Template,
    overrides: &IndexMap<String, Override>,
    effective: &IndexMap<String, IndexMap<String, String>>,
    cat: &str,
    agents: &Vec<String>,
    results: &mut Vec<AgentValidationResult>,
    passed: &mut usize,
) -> (r: Result<(), ValidateError>)
    requires
        *old(passed) <= old(results)@.len(),
    ensures
        *final(passed) <= final(results)@.len(),
        ({
            let ck = check_agents(
                sot_entries(*sot),
                *template,
                override_entries(*overrides),
                baseline_map_entries(*effective),
                cat@,
                names_view(*agents),
                agents@.len() as int,
            );
            match ck {
                Ok(more) => r is Ok && final(results)@.len() == old(results)@.len() + more.len()
                    && final(results)@.subrange(0, old(results)@.len() as int) == old(results)@
                    && (forall|i: int|
                    0 <= i < more.len() ==> result_for(
                        #[trigger] final(results)@[old(results)@.len() + i],
                        more[i].1,
                        more[i].0,
                        more[i].2,
                        more[i].3,
                    )) && *final(passed) == *old(passed) + agreeing(more, more.len() as int),
                Err(f) => r is Err && agent_failure_is(r->Err_0, f),
            }
        }),
{
    let ghost sv = sot_entries(*sot);
    let ghost ovs = override_entries(*overrides);
    let ghost eff = baseline_map_entries(*effective);
    let ghost av = names_view(*agents);
    let ghost r0 = results@;
    let ghost p0 = *passed;
    let mut k: usize = 0;
    while k < agents.len()
        invariant
            sv == sot_entries(*sot),
            ovs == override_entries(*overrides),
            eff == baseline_map_entries(*effective),
            av == names_view(*agents),
            k <= agents@.len(),
            check_agents(sv, *template, ovs, eff, cat@, av, k as int) is Ok,
            ({
                let more = check_agents(sv, *template, ovs, eff, cat@, av, k as int)->Ok_0;
                &&& results@.len() == r0.len() + more.len()
                &&& results@.subrange(0, r0.len() as int) == r0
                &&& forall|i: int|
                    0 <= i < more.len() ==> result_for(
                        #[trigger] results@[r0.len() + i],
                        more[i].1,
                        more[i].0,
                        more[i].2,
                        more[i].3,
                    )
                &&& *passed == p0 + agreeing(more, more.len() as int)
            }),
            *passed <= results@.len(),
        decreases agents.len() - k,
    {
        let agent = &agents[k];
        assert(av[k as int] == agent@);
        let ghost prev = check_agents(sv, *template, ovs, eff, cat@, av, k as int)->Ok_0;
        match check_one(sot, template, overrides, effective, cat, agent.as_str()) {
            Err(e) => {
                proof {
                    lemma_check_agents_err_stays(sv, *template, ovs, eff, cat@, av, k + 1, agents@.len() as int);
                }
                return Err(e);
            },
            Ok(v) => {
                let ghost c = check_agent(sv, *template, ovs, eff, cat@, agent@)->Ok_0;
                let agree = v.passed;
                let ghost before = results@;
                results.push(v);
                let _len = results.len();
                if agree {
                    *passed = *passed + 1;
                }
                proof {
                    let more = prev.push(c);
                    lemma_agreeing_push(prev, c, prev.len() as int);
                    assert(agreeing(more, more.len() as int) == agreeing(prev, prev.len() as int) + if blocks_agree(c.2, c.3) { 1nat } else { 0nat });
                    assert(check_agents(sv, *template, ovs, eff, cat@, av, k + 1) == Ok::<Seq<Checked>, AgentFailure>(more));
                    assert(results@.subrange(0, r0.len() as int) =~= r0);
                    assert forall|i: int| 0 <= i < more.len() implies result_for(
                        #[trigger] results@[r0.len() + i],
                        more[i].1,
                        more[i].0,
                        more[i].2,
                        more[i].3,
                    ) by {
                        if i < prev.len() {
                            assert(results@[r0.len() + i] == before[r0.len() + i]);
                        }
                    }
                    assert(more.drop_last() =~= prev);
                }
            },
        }
        k = k + 1;
    }
    Ok(())
}

#[verifier::spinoff_prover]
#[verifier::rlimit(50)]
fn check_all(
    sot: &Sot,
    categories: &CategoryMap,
    templates: &IndexMap<String, Template>,
    overrides: &IndexMap<String, Override>,
    effective: &IndexMap<String, IndexMap<String, String>>,
) -> (r: Result<(Vec<AgentValidationResult>, usize), ValidateError>)
    ensures
        ({
            let gs = group_entries(*categories);
            match check_categories(
                sot_entries(*sot),
                gs,
                template_entries(*templates),
                override_entries(*overrides),
                baseline_map_entries(*effective),
                gs.len() as int,
            ) {
                Ok(cs) => r is Ok && r->Ok_0.0@.len() == cs.len() && (forall|i: int|
                    0 <= i < cs.len() ==> result_for(#[trigger] r->Ok_0.0@[i], cs[i].1, cs[i].0, cs[i].2, cs[i].3))
                    && r->Ok_0.1 == agreeing(cs, cs.len() as int) && r->Ok_0.1 <= r->Ok_0.0@.len(),
                Err(f) => r is Err && agent_failure_is(r->Err_0, f),
            }
        }),
{
    let ghost ts = template_entries(*templates);
    let ghost sv = sot_entries(*sot);
    let ghost gs = group_entries(*categories);
    let ghost ovs = override_entries(*overrides);
    let ghost eff = baseline_map_entries(*effective);
    let mut results: Vec<AgentValidationResult> = Vec::new();
    let mut passed: usize = 0;
    let nc = gm_len(categories);
    let mut c: usize = 0;
    while c < nc
        invariant
            sv == sot_entries(*sot),
            gs == group_entries(*categories),
            ts == template_entries(*templates),
            ovs == override_entries(*overrides),
            eff == baseline_map_entries(*effective),
            nc == gs.len(),
            c <= nc,
            check_categories(sv, gs, ts, ovs, eff, c as int) is Ok,
            ({
                let cs = check_categories(sv, gs, ts, ovs, eff, c as int)->Ok_0;
                &&& results@.len() == cs.len()
                &&& forall|i: int|
                    0 <= i < cs.len() ==> result_for(#[trigger] results@[i], cs[i].1, cs[i].0, cs[i].2, cs[i].3)
                &&& passed == agreeing(cs, cs.len() as int)
            }),
            passed <= results@.len(),
        decreases nc - c,
    {
        let ghost prev = check_categories(sv, gs, ts, ovs, eff, c as int)->Ok_0;
        let ghost before = results@;
        let ghost p_before = passed;
        let (cat_name, agents) = gm_get_index(categories, c).unwrap();
        let template = match tm_get(templates, cat_name.as_str()) {
            None => {
                proof {
                    lemma_check_categories_err_stays(sv, gs, ts, ovs, eff, c + 1, nc as int);
                }
                return Err(ValidateError::NoTemplate(cat_name.clone()));
            },
            Some(t) => t,
        };
        match check_category(sot, template, overrides, effective, cat_name.as_str(), agents, &mut results, &mut passed) {
            Err(e) => {
                proof {
                    lemma_check_categories_err_stays(sv, gs, ts, ovs, eff, c + 1, nc as int);
                }
                return Err(e);
            },
            Ok(()) => {
                proof {
                    let more = check_agents(sv, *template, ovs, eff, cat_name@, names_view(*agents), agents@.len() as int)->Ok_0;
                    let cs = prev + more;
                    assert(check_categories(sv, gs, ts, ovs, eff, c + 1) == Ok::<Seq<Checked>, AgentFailure>(cs));
                    assert forall|i: int| 0 <= i < cs.len() implies result_for(#[trigger] results@[i], cs[i].1, cs[i].0, cs[i].2, cs[i].3) by {
                        if i < prev.len() {
                            assert(results@.subrange(0, before.len() as int)[i] == before[i]);
                        } else {
                            assert(results@[before.len() + (i - prev.len())] == results@[i]);
                        }
                    }
                    lemma_agreeing_concat(prev, more);
                }
            },
        }
        c = c + 1;
    }
    Ok((results, passed))
}

/// Validate that for every agent, resolving its template (or its
/// category's effective baseline) with its agent file gives the block that
/// the permissions file holds.  `overrides` holds the agent files by agent
/// name.
pub fn validate_all(
    sot: &Sot,
    categories: &CategoryMap,
    templates: &IndexMap<String, Template>,
    overrides: &IndexMap<String, Override>,
) -> (r: Result<ValidationReport, ValidateError>)
    requires
        template_entries(*templates).len() < u32::MAX,
        parents_total(template_entries(*templates), template_entries(*templates).len() as int)
            < u32::MAX,
    ensures
        ({
            let ts = template_entries(*templates);
            let names = keys_of(ts);
            match inheritance_edges(ts, ts.len() as int) {
                Err((i, p)) => r matches Err(ValidateError::Dag(DagError::MissingParent { template, parent }))
                    && template@ == ts[i].0 && parent@ == p,
                Ok(es) => match topo_order(ts.len(), es) {
                    Err(c) => r matches Err(ValidateError::Dag(DagError::Cycle { path }))
                        && reports_cycle(names, es, c, path@),
                    Ok(_) => match effective_all(ts, names, es, names, ts.len() as int) {
                        Err(f) => r matches Err(ValidateError::Baseline(e)) && baseline_failure_is(e, f),
                        Ok(eff) => {
                            let gs = group_entries(*categories);
                            match check_categories(
                                sot_entries(*sot),
                                gs,
                                ts,
                                override_entries(*overrides),
                                eff,
                                gs.len() as int,
                            ) {
                                Ok(cs) => r is Ok && report_for(r->Ok_0, cs),
                                Err(f) => r is Err && agent_failure_is(r->Err_0, f),
                            }
                        },
                    },
                },
            }
        }),
        inheritance_edges(template_entries(*templates), template_entries(*templates).len() as int) matches Ok(es)
            ==> ((r matches Err(ValidateError::Dag(DagError::Cycle { .. }))) <==> has_cycle(
            es,
            template_entries(*templates).len(),
        )),
{
    let ghost ts = template_entries(*templates);
    let (graph, node_map) = match build_dag(templates) {
        Err(e) => {
            return Err(ValidateError::Dag(e));
        },
        Ok(g) => g,
    };
    match detect_cycles(&graph) {
        Err(e) => {
            return Err(ValidateError::Dag(e));
        },
        Ok(()) => {},
    }
    let effective = match compute_effective_baselines(templates, &graph, &node_map) {
        Err(e) => {
            return Err(ValidateError::Baseline(e));
        },
        Ok(m) => m,
    };
    let (results, passed) = match check_all(sot, categories, templates, overrides, &effective) {
        Err(e) => {
            return Err(e);
        },
        Ok(x) => x,
    };
    let total = results.len();
    Ok(ValidationReport { total, passed, failed: total - passed, results })
}

pub(crate) proof fn lemma_agreeing_concat(a: Seq<Checked>, b: Seq<Checked>)
    ensures
        agreeing(a + b, (a + b).len() as int) == agreeing(a, a.len() as int) + agreeing(b, b.len() as int),
    decreases b.len(),
{
    if b.len() == 0 {
        assert(a + b =~= a);
    } else {
        lemma_agreeing_concat(a, b.drop_last());
        assert((a + b).drop_last() =~= a + b.drop_last());
        lemma_agreeing_push(a + b.drop_last(), b.last(), (a + b.drop_last()).len() as int);
        lemma_agreeing_push(b.drop_last(), b.last(), b.drop_last().len() as int);
        assert(a + b =~= (a + b.drop_last()).push(b.last()));
        assert(b =~= b.drop_last().push(b.last()));
    }
}

// ---------------------------------------------------------------------------
// The printed report
// ---------------------------------------------------------------------------

/// The `{:?}` text of a list of names: `["a", "b"]`.
pub open spec fn debug_list(ks: Seq<Seq<char>>) -> Seq<char> {
    "["@ + join_with(ks.map_values(|k: Seq<char>| debug_quoted(k)), ", "@) + "]"@
}

/// The line listing keys under `label`: the first five of them, then
/// `...` when there are more; no line without keys.
pub open spec fn keys_line(label: Seq<char>, ks: Seq<Seq<char>>) -> Seq<Seq<char>> {
    if ks.len() == 0 {
        Seq::empty()
    } else {
        seq![
            "         "@ + label + ": "@ + debug_list(ks.take(if ks.len() < 5 { ks.len() as int } else { 5 }))
                + if ks.len() > 5 {
                "..."@
            } else {
                Seq::<char>::empty()
            },
        ]
    }
}

/// The line of one value mismatch.
pub open spec fn mismatch_line(m: Mismatch) -> Seq<char> {
    "         Mismatch on '"@ + m.0 + "': resolved='"@ + m.1 + "' vs sot='"@ + m.2 + "'"@
}

/// The lines of one agent's result: none when it passed; else the agent
/// and its category, the extra and missing keys, and each mismatch.
pub open spec fn failure_lines(v: AgentValidationResult) -> Seq<Seq<char>> {
    if v.passed {
        Seq::empty()
    } else {
        seq!["  FAIL  "@ + v.agent@ + " ("@ + v.category@ + ")"@] + keys_line(
            "Extra in resolved"@,
            names_view(v.extra_in_resolved),
        ) + keys_line("Missing from resolved"@, names_view(v.missing_from_resolved)) + triples_view(
            v.value_mismatches@,
        ).map_values(|m: Mismatch| mismatch_line(m))
    }
}

/// The lines of the first `k` results.
pub open spec fn failures_text(rs: Seq<AgentValidationResult>, k: int) -> Seq<Seq<char>>
    decreases k,
{
    if k <= 0 {
        Seq::empty()
    } else {
        failures_text(rs, k - 1) + failure_lines(rs[k - 1])
    }
}

/// The printed report: the pass count; then, when some agent failed, each
/// failure and the failing count, else the passing verdict.
pub open spec fn report_text_lines(rep: ValidationReport) -> Seq<Seq<char>> {
    seq![
        "\nRound-trip validation: "@ + decimal(rep.passed as nat) + "/"@ + decimal(rep.total as nat)
            + " agents passed\n"@,
    ] + if rep.failed > 0 {
        seq!["Errors:"@] + failures_text(rep.results@, rep.results@.len() as int) + seq![
            Seq::<char>::empty(),
            "RESULT: FAIL ("@ + decimal(rep.failed as nat) + " agent(s) have mismatches)"@,
        ]
    } else {
        seq!["RESULT: PASS \u{2014} permissions.jsonc matches templates + agents"@]
    }
}

fn debug_list_text(v: &Vec<String>, n: usize) -> (r: String)
    requires
        n <= v@.len(),
    ensures
        r@ == debug_list(names_view(*v).take(n as int)),
{
    let ghost parts = names_view(*v).take(n as int).map_values(|k: Seq<char>| debug_quoted(k));
    proof {
        reveal_strlit("[");
        reveal_strlit("]");
        reveal_strlit(", ");
    }
    let mut out = string_of("[");
    let ghost head = out@;
    let mut i: usize = 0;
    while i < n
        invariant
            n <= v@.len(),
            parts == names_view(*v).take(n as int).map_values(|k: Seq<char>| debug_quoted(k)),
            i <= n,
            out@ == head + join_with(parts.take(i as int), ", "@),
        decreases n - i,
    {
        if i > 0 {
            out.append(", ");
        }
        let d = debug_str(v[i].as_str());
        out.append(d.as_str());
        proof {
            assert(parts[i as int] == d@);
            assert(parts.take(i + 1).drop_last() =~= parts.take(i as int));
            if i == 0 {
                assert(out@ =~= head + join_with(parts.take(1), ", "@));
            } else {
                assert(out@ =~= head + join_with(parts.take(i + 1), ", "@));
            }
        }
        i = i + 1;
    }
    out.append("]");
    proof {
        assert(parts.take(n as int) =~= parts);
    }
    out
}

fn keys_line_lines(label: &str, ks: &Vec<String>, lines: &mut Vec<String>)
    ensures
        names_view(*final(lines)) == names_view(*old(lines)) + keys_line(label@, names_view(*ks)),
{
    if ks.len() == 0 {
        proof {
            assert(names_view(*lines) =~= names_view(*lines) + keys_line(label@, names_view(*ks)));
        }
        return;
    }
    let n = if ks.len() < 5 {
        ks.len()
    } else {
        5
    };
    proof {
        reveal_strlit("         ");
        reveal_strlit(": ");
        reveal_strlit("...");
    }
    let mut t = string_of("         ");
    t.append(label);
    t.append(": ");
    let d = debug_list_text(ks, n);
    t.append(d.as_str());
    if ks.len() > 5 {
        t.append("...");
    }
    let ghost pre = names_view(*lines);
    lines.push(t);
    proof {
        assert(names_view(*lines) =~= pre + keys_line(label@, names_view(*ks)));
    }
}

fn failure_lines_exec(v: &AgentValidationResult, lines: &mut Vec<String>)
    ensures
        names_view(*final(lines)) == names_view(*old(lines)) + failure_lines(*v),
{
    if v.passed {
        proof {
            assert(names_view(*lines) =~= names_view(*lines) + failure_lines(*v));
        }
        return;
    }
    let ghost start = names_view(*lines);
    proof {
        reveal_strlit("  FAIL  ");
        reveal_strlit(" (");
        reveal_strlit(")");
        reveal_strlit("Extra in resolved");
        reveal_strlit("Missing from resolved");
        reveal_strlit("         Mismatch on '");
        reveal_strlit("': resolved='");
        reveal_strlit("' vs sot='");
        reveal_strlit("'");
    }
    let mut head = string_of("  FAIL  ");
    head.append(v.agent.as_str());
    head.append(" (");
    head.append(v.category.as_str());
    head.append(")");
    lines.push(head);
    proof {
        assert(names_view(*lines) =~= start.push(head@));
    }
    keys_line_lines("Extra in resolved", &v.extra_in_resolved, lines);
    keys_line_lines("Missing from resolved", &v.missing_from_resolved, lines);
    let ghost mid = names_view(*lines);
    let ghost ms = triples_view(v.value_mismatches@).map_values(|m: Mismatch| mismatch_line(m));
    let mut i: usize = 0;
    while i < v.value_mismatches.len()
        invariant
            i <= v.value_mismatches@.len(),
            ms == triples_view(v.value_mismatches@).map_values(|m: Mismatch| mismatch_line(m)),
            names_view(*lines) == mid + ms.take(i as int),
        decreases v.value_mismatches.len() - i,
    {
        let (k, rv, sv) = &v.value_mismatches[i];
        let mut t = string_of("         Mismatch on '");
        t.append(k.as_str());
        t.append("': resolved='");
        t.append(rv.as_str());
        t.append("' vs sot='");
        t.append(sv.as_str());
        t.append("'");
        let ghost pre = names_view(*lines);
        lines.push(t);
        proof {
            assert(names_view(*lines) =~= pre.push(t@));
            assert(ms.take(i + 1) =~= ms.take(i as int).push(t@));
        }
        i = i + 1;
    }
    proof {
        assert(ms.take(v.value_mismatches@.len() as int) =~= ms);
        assert(names_view(*lines) =~= start + failure_lines(*v));
    }
}

/// The lines that the validation report prints, one string per line.
pub fn report_lines(report: &ValidationReport) -> (r: Vec<String>)
    ensures
        names_view(r) == report_text_lines(*report),
{
    proof {
        reveal_strlit("\nRound-trip validation: ");
        reveal_strlit("/");
        reveal_strlit(" agents passed\n");
        reveal_strlit("Errors:");
        reveal_strlit("RESULT: FAIL (");
        reveal_strlit(" agent(s) have mismatches)");
        reveal_strlit("RESULT: PASS \u{2014} permissions.jsonc matches templates + agents");
    }
    let mut lines: Vec<String> = Vec::new();
    let mut first = string_of("\nRound-trip validation: ");
    let p = usize_text(report.passed);
    first.append(p.as_str());
    first.append("/");
    let t = usize_text(report.total);
    first.append(t.as_str());
    first.append(" agents passed\n");
    lines.push(first);
    let ghost head = names_view(lines);
    assert(head =~= seq![first@]);
    if report.failed > 0 {
        lines.push(string_of("Errors:"));
        let ghost errs = names_view(lines);
        assert(errs =~= head.push("Errors:"@));
        let ghost rs = report.results@;
        let mut i: usize = 0;
        while i < report.results.len()
            invariant
                rs == report.results@,
                i <= rs.len(),
                names_view(lines) == errs + failures_text(rs, i as int),
            decreases report.results.len() - i,
        {
            failure_lines_exec(&report.results[i], &mut lines);
            proof {
                assert(names_view(lines) =~= errs + failures_text(rs, i + 1));
            }
            i = i + 1;
        }
        let ghost body = names_view(lines);
        lines.push(String::new());
        let mut last = string_of("RESULT: FAIL (");
        let f = usize_text(report.failed);
        last.append(f.as_str());
        last.append(" agent(s) have mismatches)");
        lines.push(last);
        proof {
            assert(names_view(lines) =~= body.push(Seq::<char>::empty()).push(last@));
            assert(names_view(lines) =~= report_text_lines(*report));
        }
    } else {
        let last = string_of("RESULT: PASS \u{2014} permissions.jsonc matches templates + agents");
        lines.push(last);
        proof {
            assert(names_view(lines) =~= head.push(last@));
            assert(names_view(lines) =~= report_text_lines(*report));
        }
    }
    lines
}

} // verus!
