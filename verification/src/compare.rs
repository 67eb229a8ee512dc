//! Comparison of two permissions files, agent by agent.

use indexmap::IndexMap;
use vstd::prelude::*;
use vstd::string::*;

use crate::maps::{
    has_key, keys_distinct, keys_of, lemma_key_pos, lookup, names_view, perm_entries, pm_contains_key, pm_get, pm_get_index, pm_len,
    sot_entries, sot_get, sot_get_index, sot_len,
};
use crate::models::{BashPermission, BashView, Sot, SotPermission};
use crate::order::{insert_sorted_unique, strictly_sorted};
use crate::resolver::{perm_view, Entries, PermView};
use crate::template_dag::join_with;
use crate::text::{decimal, str_eq, string_of, usize_text};
use crate::validator::{lemma_tables_same, opt_debug, opt_debug_text, opt_str_eq, same_perm};

verus! {

/// The line for an optional field whose values differ.
pub open spec fn field_line(name: Seq<char>, a: Option<Seq<char>>, b: Option<Seq<char>>) -> Seq<Seq<char>> {
    if a != b {
        seq![name + ": source="@ + opt_debug(a) + " vs target="@ + opt_debug(b)]
    } else {
        Seq::empty()
    }
}

/// For the first `n` entries of the source table: a line for each value
/// that differs in the target and for each key only in the source.
pub open spec fn source_lines(x: Entries, y: Entries, n: int) -> Seq<Seq<char>>
    decreases n,
{
    if n <= 0 {
        Seq::empty()
    } else {
        let k = x[n - 1].0;
        let v = x[n - 1].1;
        source_lines(x, y, n - 1) + match lookup(y, k) {
            Some(w) => if w != v {
                seq!["bash."@ + k + ": source='"@ + v + "' vs target='"@ + w + "'"@]
            } else {
                Seq::empty()
            },
            None => seq!["bash."@ + k + ": only in source ('"@ + v + "')"@],
        }
    }
}

/// For the first `n` entries of the target table: a line for each key only
/// in the target.
pub open spec fn target_lines(x: Entries, y: Entries, n: int) -> Seq<Seq<char>>
    decreases n,
{
    if n <= 0 {
        Seq::empty()
    } else {
        target_lines(x, y, n - 1) + if has_key(x, y[n - 1].0) {
            Seq::empty()
        } else {
            seq!["bash."@ + y[n - 1].0 + ": only in target ('"@ + y[n - 1].1 + "')"@]
        }
    }
}

/// The name of a `bash` permission's kind.
pub open spec fn kind_name(b: BashView) -> Seq<char> {
    match b {
        BashView::Simple(_) => "Simple"@,
        BashView::Detailed(_) => "Detailed"@,
    }
}

/// The lines describing how two `bash` permissions differ.
pub open spec fn bash_lines(a: BashView, b: BashView) -> Seq<Seq<char>> {
    match (a, b) {
        (BashView::Simple(x), BashView::Simple(y)) => if x != y {
            seq!["bash: source='"@ + x + "' vs target='"@ + y + "'"@]
        } else {
            Seq::empty()
        },
        (BashView::Detailed(x), BashView::Detailed(y)) => source_lines(x, y, x.len() as int) + target_lines(
            x,
            y,
            y.len() as int,
        ),
        _ => seq![
            "bash: type mismatch (source="@ + kind_name(a) + ", target="@ + kind_name(b) + ")"@,
        ],
    }
}

/// The lines describing how two permission blocks differ, in order:
/// `write`, `edit`, then `bash`.
pub open spec fn difference_lines(a: PermView, b: PermView) -> Seq<Seq<char>> {
    field_line("write"@, a.0, b.0) + field_line("edit"@, a.1, b.1) + bash_lines(a.2, b.2)
}

proof fn lemma_self_lines(x: Entries, n: int)
    requires
        keys_distinct(x),
        0 <= n <= x.len(),
    ensures
        source_lines(x, x, n) == Seq::<Seq<char>>::empty(),
        target_lines(x, x, n) == Seq::<Seq<char>>::empty(),
    decreases n,
{
    if n > 0 {
        lemma_self_lines(x, n - 1);
        lemma_key_pos(x, x[n - 1].0, n - 1);
        assert(source_lines(x, x, n) =~= Seq::<Seq<char>>::empty());
        assert(target_lines(x, x, n) =~= Seq::<Seq<char>>::empty());
    }
}

/// A block compared with itself shows no difference.
pub proof fn lemma_no_difference_with_itself(p: PermView)
    requires
        p.2 matches BashView::Detailed(x) ==> keys_distinct(x),
    ensures
        difference_lines(p, p).len() == 0,
{
    match p.2 {
        BashView::Detailed(x) => {
            lemma_self_lines(x, x.len() as int);
        },
        _ => {},
    }
    assert(difference_lines(p, p) =~= Seq::<Seq<char>>::empty());
}

proof fn lemma_source_lines_none(x: Entries, y: Entries, n: int)
    requires
        0 <= n <= x.len(),
    ensures
        source_lines(x, y, n).len() == 0 <==> forall|i: int| 0 <= i < n ==> #[trigger] lookup(y, x[i].0) == Some(x[i].1),
    decreases n,
{
    if n > 0 {
        lemma_source_lines_none(x, y, n - 1);
        assert(lookup(y, x[n - 1].0) == lookup(y, x[n - 1].0));
    }
}

proof fn lemma_target_lines_none(x: Entries, y: Entries, n: int)
    requires
        0 <= n <= y.len(),
    ensures
        target_lines(x, y, n).len() == 0 <==> forall|j: int| 0 <= j < n ==> #[trigger] has_key(x, y[j].0),
    decreases n,
{
    if n > 0 {
        lemma_target_lines_none(x, y, n - 1);
        assert(has_key(x, y[n - 1].0) == has_key(x, y[n - 1].0));
    }
}

/// Two blocks show no difference exactly when they hold the same content:
/// equal `write`, equal `edit`, and the same `bash` permission (tables
/// compared as maps).
pub proof fn lemma_no_difference_iff_same(a: PermView, b: PermView)
    requires
        (a.2, b.2) matches (BashView::Detailed(x), BashView::Detailed(y)) ==> keys_distinct(x) && keys_distinct(y),
    ensures
        difference_lines(a, b).len() == 0 <==> same_perm(a, b),
{
    match (a.2, b.2) {
        (BashView::Detailed(x), BashView::Detailed(y)) => {
            lemma_source_lines_none(x, y, x.len() as int);
            lemma_target_lines_none(x, y, y.len() as int);
            lemma_tables_same(x, y);
        },
        _ => {},
    }
}

fn push_line(v: &mut Vec<String>, s: String)
    ensures
        names_view(*final(v)) == names_view(*old(v)).push(s@),
{
    let ghost pre = names_view(*v);
    v.push(s);
    proof {
        assert(names_view(*v) =~= pre.push(s@));
    }
}

fn cat5(a: &str, b: &str, c: &str, d: &str, e: &str) -> (r: String)
    ensures
        r@ == a@ + b@ + c@ + d@ + e@,
{
    let mut s = string_of(a);
    s.append(b);
    s.append(c);
    s.append(d);
    s.append(e);
    s
}

fn field_diff(name: &str, a: &Option<String>, b: &Option<String>, out: &mut Vec<String>)
    ensures
        names_view(*final(out)) == names_view(*old(out)) + field_line(name@, crate::resolver::opt_view(*a), crate::resolver::opt_view(*b)),
{
    if !opt_str_eq(a, b) {
        let da = opt_debug_text(a);
        let db = opt_debug_text(b);
        let line = cat5(name, ": source=", da.as_str(), " vs target=", db.as_str());
        push_line(out, line);
    } else {
        assert(names_view(*out) + Seq::<Seq<char>>::empty() =~= names_view(*out));
    }
    proof {
        reveal_strlit(": source=");
        reveal_strlit(" vs target=");
    }
}

fn table_lines(a: &IndexMap<String, String>, b: &IndexMap<String, String>, out: &mut Vec<String>)
    ensures
        names_view(*final(out)) == names_view(*old(out)) + source_lines(
            perm_entries(*a),
            perm_entries(*b),
            perm_entries(*a).len() as int,
        ) + target_lines(perm_entries(*a), perm_entries(*b), perm_entries(*b).len() as int),
{
    let ghost x = perm_entries(*a);
    let ghost y = perm_entries(*b);
    let ghost o0 = names_view(*out);
    proof {
        reveal_strlit("bash.");
        reveal_strlit(": source='");
        reveal_strlit("' vs target='");
        reveal_strlit("'");
        reveal_strlit(": only in source ('");
        reveal_strlit(": only in target ('");
        reveal_strlit("')");
    }
    let na = pm_len(a);
    let mut i: usize = 0;
    while i < na
        invariant
            x == perm_entries(*a),
            y == perm_entries(*b),
            na == x.len(),
            i <= na,
            names_view(*out) == o0 + source_lines(x, y, i as int),
        decreases na - i,
    {
        let (k, v) = pm_get_index(a, i).unwrap();
        let ghost pre = names_view(*out);
        match pm_get(b, k.as_str()) {
            Some(w) => {
                if !str_eq(w.as_str(), v.as_str()) {
                    let mut line = cat5("bash.", k.as_str(), ": source='", v.as_str(), "' vs target='");
                    line.append(w.as_str());
                    line.append("'");
                    push_line(out, line);
                } else {
                    assert(pre + Seq::<Seq<char>>::empty() =~= pre);
                }
            },
            None => {
                let line = cat5("bash.", k.as_str(), ": only in source ('", v.as_str(), "')");
                push_line(out, line);
            },
        }
        proof {
            assert(names_view(*out) =~= o0 + source_lines(x, y, i + 1));
        }
        i = i + 1;
    }
    let ghost o1 = names_view(*out);
    let nb = pm_len(b);
    let mut j: usize = 0;
    while j < nb
        invariant
            x == perm_entries(*a),
            y == perm_entries(*b),
            nb == y.len(),
            j <= nb,
            names_view(*out) == o1 + target_lines(x, y, j as int),
        decreases nb - j,
    {
        let (k, v) = pm_get_index(b, j).unwrap();
        if !pm_contains_key(a, k.as_str()) {
            let line = cat5("bash.", k.as_str(), ": only in target ('", v.as_str(), "')");
            push_line(out, line);
        }
        proof {
            assert(names_view(*out) =~= o1 + target_lines(x, y, j + 1));
        }
        j = j + 1;
    }
    proof {
        assert(names_view(*out) =~= o0 + source_lines(x, y, x.len() as int) + target_lines(x, y, y.len() as int));
    }
}

fn bash_type_name(b: &BashPermission) -> (r: &'static str)
    ensures
        r@ == kind_name(b.bash_view()),
{
    proof {
        reveal_strlit("Simple");
        reveal_strlit("Detailed");
    }
    match b {
        BashPermission::Simple(_) => "Simple",
        BashPermission::Detailed(_) => "Detailed",
    }
}

/// Compare two permission blocks; return one line per difference.
pub fn compare_agent_permissions(a: &SotPermission, b: &SotPermission) -> (r: Vec<String>)
    ensures
        names_view(r) == difference_lines(perm_view(*a), perm_view(*b)),
        r@.len() == 0 <==> same_perm(perm_view(*a), perm_view(*b)),
{
    let mut diffs: Vec<String> = Vec::new();
    field_diff("write", &a.write, &b.write, &mut diffs);
    field_diff("edit", &a.edit, &b.edit, &mut diffs);
    let ghost pre = names_view(diffs);
    proof {
        reveal_strlit("write");
        reveal_strlit("edit");
        reveal_strlit("bash: source='");
        reveal_strlit("' vs target='");
        reveal_strlit("'");
        reveal_strlit("bash: type mismatch (source=");
        reveal_strlit(", target=");
        reveal_strlit(")");
    }
    match (&a.bash, &b.bash) {
        (BashPermission::Simple(x), BashPermission::Simple(y)) => {
            if !str_eq(x.as_str(), y.as_str()) {
                let line = cat5("bash: source='", x.as_str(), "' vs target='", y.as_str(), "'");
                push_line(&mut diffs, line);
            } else {
                assert(pre + Seq::<Seq<char>>::empty() =~= pre);
            }
        },
        (BashPermission::Detailed(x), BashPermission::Detailed(y)) => {
            let _ = pm_len(x);
            let _ = pm_len(y);
            table_lines(x, y, &mut diffs);
        },
        _ => {
            let line = cat5(
                "bash: type mismatch (source=",
                bash_type_name(&a.bash),
                ", target=",
                bash_type_name(&b.bash),
                ")",
            );
            push_line(&mut diffs, line);
        },
    }
    proof {
        assert(names_view(diffs) =~= difference_lines(perm_view(*a), perm_view(*b)));
        lemma_no_difference_iff_same(perm_view(*a), perm_view(*b));
    }
    diffs
}

// ---------------------------------------------------------------------------
// Whole files
// ---------------------------------------------------------------------------

/// How one agent compares.
#[derive(Debug, Clone)]
pub enum AgentComparison {
    /// In both files, with equal blocks.
    Pass,
    /// In both files; the lines say how the blocks differ.
    Fail(Vec<String>),
    /// Only in the source file.
    OnlyInSource,
    /// Only in the target file.
    OnlyInTarget,
}

/// How one agent compares, by content.
pub enum ComparisonView {
    Pass,
    Fail(Seq<Seq<char>>),
    OnlyInSource,
    OnlyInTarget,
}

/// The comparison of agent `name` across the two files (meaningful for a
/// name in at least one of them).
pub open spec fn agent_comparison(
    src: Seq<(Seq<char>, crate::models::SotAgent)>,
    tgt: Seq<(Seq<char>, crate::models::SotAgent)>,
    name: Seq<char>,
) -> ComparisonView {
    match (lookup(src, name), lookup(tgt, name)) {
        (Some(a), Some(b)) => {
            let d = difference_lines(perm_view(a.permission), perm_view(b.permission));
            if d.len() == 0 {
                ComparisonView::Pass
            } else {
                ComparisonView::Fail(d)
            }
        },
        (Some(_), None) => ComparisonView::OnlyInSource,
        _ => ComparisonView::OnlyInTarget,
    }
}

impl AgentComparison {
    pub open spec fn comparison_view(&self) -> ComparisonView {
        match self {
            AgentComparison::Pass => ComparisonView::Pass,
            AgentComparison::Fail(d) => ComparisonView::Fail(names_view(*d)),
            AgentComparison::OnlyInSource => ComparisonView::OnlyInSource,
            AgentComparison::OnlyInTarget => ComparisonView::OnlyInTarget,
        }
    }
}

/// An agent passes the comparison exactly when both files hold it and its
/// two blocks hold the same content.
pub proof fn lemma_agent_passes_iff_same(
    src: Seq<(Seq<char>, crate::models::SotAgent)>,
    tgt: Seq<(Seq<char>, crate::models::SotAgent)>,
    name: Seq<char>,
)
    requires
        lookup(src, name) matches Some(a) ==> (a.permission.bash.bash_view() matches BashView::Detailed(x)
            ==> keys_distinct(x)),
        lookup(tgt, name) matches Some(b) ==> (b.permission.bash.bash_view() matches BashView::Detailed(y)
            ==> keys_distinct(y)),
    ensures
        agent_comparison(src, tgt, name) is Pass <==> (lookup(src, name) is Some && lookup(tgt, name) is Some
            && same_perm(perm_view(lookup(src, name)->0.permission), perm_view(lookup(tgt, name)->0.permission))),
{
    if lookup(src, name) is Some && lookup(tgt, name) is Some {
        lemma_no_difference_iff_same(
            perm_view(lookup(src, name)->0.permission),
            perm_view(lookup(tgt, name)->0.permission),
        );
    }
}

/// The count of passing agents is the number of comparisons that pass.
pub proof fn lemma_passing_counts(cs: Seq<(String, AgentComparison)>, k: int)
    requires
        0 <= k <= cs.len(),
    ensures
        Set::new(|i: int| 0 <= i < k && cs[i].1 is Pass).finite(),
        passing(cs, k) == Set::new(|i: int| 0 <= i < k && cs[i].1 is Pass).len(),
    decreases k,
{
    let s = Set::new(|i: int| 0 <= i < k && cs[i].1 is Pass);
    if k == 0 {
        assert(s =~= Set::<int>::empty());
    } else {
        lemma_passing_counts(cs, k - 1);
        let s0 = Set::new(|i: int| 0 <= i < k - 1 && cs[i].1 is Pass);
        assert(!s0.contains(k - 1));
        if cs[k - 1].1 is Pass {
            assert(s =~= s0.insert(k - 1));
        } else {
            assert(s =~= s0);
        }
    }
}

/// The comparison of two permissions files.
#[derive(Debug, Clone)]
pub struct Comparison {
    /// Every agent of either file, sorted by name, with how it compares.
    pub agents: Vec<(String, AgentComparison)>,
    /// How many agents pass.
    pub matches: usize,
    /// How many agents do not.
    pub differences: usize,
}

/// How many of the first `k` comparisons pass.
pub open spec fn passing(cs: Seq<(String, AgentComparison)>, k: int) -> nat
    decreases k,
{
    if k <= 0 {
        0
    } else {
        passing(cs, k - 1) + if cs[k - 1].1 is Pass {
            1nat
        } else {
            0nat
        }
    }
}

/// The agent names of a permissions file, as a set.
pub open spec fn agent_names(s: Seq<(Seq<char>, crate::models::SotAgent)>) -> Set<Seq<char>> {
    keys_of(s).to_set()
}

fn add_names(s: &Sot, out: &mut Vec<String>)
    requires
        strictly_sorted(names_view(*old(out))),
    ensures
        strictly_sorted(names_view(*final(out))),
        names_view(*final(out)).to_set() == names_view(*old(out)).to_set() + agent_names(sot_entries(*s)),
{
    let ghost es = sot_entries(*s);
    let ghost start = names_view(*out).to_set();
    let n = sot_len(s);
    let mut i: usize = 0;
    while i < n
        invariant
            es == sot_entries(*s),
            n == es.len(),
            i <= n,
            strictly_sorted(names_view(*out)),
            names_view(*out).to_set() == start + keys_of(es).take(i as int).to_set(),
        decreases n - i,
    {
        let (k, _) = sot_get_index(s, i).unwrap();
        insert_sorted_unique(out, k.as_str());
        proof {
            let ks = keys_of(es);
            let a = ks.take(i as int);
            let b = ks.take(i + 1);
            assert(b =~= a.push(k@));
            assert(b.to_set() =~= a.to_set().insert(k@)) by {
                assert forall|y: Seq<char>| b.to_set().contains(y) implies a.to_set().insert(k@).contains(y) by {
                    let j = choose|j: int| 0 <= j < b.len() && #[trigger] b[j] == y;
                    if j < i {
                        assert(a[j] == y);
                    }
                }
                assert forall|y: Seq<char>| a.to_set().insert(k@).contains(y) implies b.to_set().contains(y) by {
                    if y == k@ {
                        assert(b[i as int] == y);
                    } else {
                        let j = choose|j: int| 0 <= j < a.len() && #[trigger] a[j] == y;
                        assert(b[j] == y);
                    }
                }
            }
            assert(names_view(*out).to_set() =~= start + b.to_set());
        }
        i = i + 1;
    }
    proof {
        assert(keys_of(es).take(n as int) =~= keys_of(es));
    }
}

/// Compare two permissions files: every agent of either file, in name
/// order, passes, fails with its difference lines, or is in one file only.
pub fn compare_sots(source: &Sot, target: &Sot) -> (r: Comparison)
    ensures
        strictly_sorted(r.agents@.map_values(|e: (String, AgentComparison)| e.0@)),
        r.agents@.map_values(|e: (String, AgentComparison)| e.0@).to_set() == agent_names(
            sot_entries(*source),
        ) + agent_names(sot_entries(*target)),
        forall|i: int|
            0 <= i < r.agents@.len() ==> (#[trigger] r.agents@[i]).1.comparison_view() == agent_comparison(
                sot_entries(*source),
                sot_entries(*target),
                r.agents@[i].0@,
            ),
        r.matches == passing(r.agents@, r.agents@.len() as int),
        r.matches + r.differences == r.agents@.len(),
{
    let mut names: Vec<String> = Vec::new();
    proof {
        assert(names_view(names).to_set() =~= Set::<Seq<char>>::empty());
    }
    add_names(source, &mut names);
    add_names(target, &mut names);
    let ghost nv = names_view(names);
    let ghost src = sot_entries(*source);
    let ghost tgt = sot_entries(*target);
    let mut agents: Vec<(String, AgentComparison)> = Vec::new();
    let mut matches: usize = 0;
    let mut differences: usize = 0;
    let mut i: usize = 0;
    while i < names.len()
        invariant
            nv == names_view(names),
            src == sot_entries(*source),
            tgt == sot_entries(*target),
            i <= names@.len(),
            agents@.len() == i,
            forall|j: int| 0 <= j < i ==> (#[trigger] agents@[j]).0@ == nv[j],
            forall|j: int|
                0 <= j < i ==> (#[trigger] agents@[j]).1.comparison_view() == agent_comparison(src, tgt, nv[j]),
            matches == passing(agents@, i as int),
            matches + differences == i,
        decreases names.len() - i,
    {
        let name = &names[i];
        assert(nv[i as int] == name@);
        let c = match (sot_get(source, name.as_str()), sot_get(target, name.as_str())) {
            (Some(a), Some(b)) => {
                let d = compare_agent_permissions(&a.permission, &b.permission);
                if d.len() == 0 {
                    AgentComparison::Pass
                } else {
                    AgentComparison::Fail(d)
                }
            },
            (Some(_), None) => AgentComparison::OnlyInSource,
            _ => AgentComparison::OnlyInTarget,
        };
        let pass = match &c {
            AgentComparison::Pass => true,
            _ => false,
        };
        let ghost before = agents@;
        agents.push((name.clone(), c));
        if pass {
            matches = matches + 1;
        } else {
            differences = differences + 1;
        }
        proof {
            assert(agents@.drop_last() =~= before);
            assert forall|j: int| 0 <= j < i + 1 implies (#[trigger] agents@[j]).0@ == nv[j] by {
                if j < i {
                    assert(agents@[j] == before[j]);
                }
            }
            assert(passing(agents@, i as int) == passing(before, i as int)) by {
                lemma_passing_prefix(before, agents@, i as int);
            }
        }
        i = i + 1;
    }
    proof {
        assert(agents@.map_values(|e: (String, AgentComparison)| e.0@) =~= nv);
    }
    Comparison { agents, matches, differences }
}

proof fn lemma_passing_prefix(a: Seq<(String, AgentComparison)>, b: Seq<(String, AgentComparison)>, k: int)
    requires
        0 <= k <= a.len(),
        k <= b.len(),
        forall|j: int| 0 <= j < k ==> a[j] == b[j],
    ensures
        passing(a, k) == passing(b, k),
    decreases k,
{
    if k > 0 {
        lemma_passing_prefix(a, b, k - 1);
    }
}

// ---------------------------------------------------------------------------
// The printed comparison
// ---------------------------------------------------------------------------

/// The lines of one agent: its verdict and name, then for a failing agent
/// each difference, indented.
pub open spec fn agent_lines(name: Seq<char>, c: ComparisonView) -> Seq<Seq<char>> {
    match c {
        ComparisonView::Pass => seq!["  PASS  "@ + name],
        ComparisonView::Fail(d) => seq!["  FAIL  "@ + name] + d.map_values(|l: Seq<char>| "         "@ + l),
        ComparisonView::OnlyInSource => seq!["  NEW   "@ + name],
        ComparisonView::OnlyInTarget => seq!["  MISS  "@ + name],
    }
}

/// The lines of the first `k` agents.
pub open spec fn agents_text(cs: Seq<(String, AgentComparison)>, k: int) -> Seq<Seq<char>>
    decreases k,
{
    if k <= 0 {
        Seq::empty()
    } else {
        agents_text(cs, k - 1) + agent_lines(cs[k - 1].0@, cs[k - 1].1.comparison_view())
    }
}

/// The names among the first `k` agents that are only in the source file
/// (`in_source`) or only in the target file, in order.
pub open spec fn one_sided(cs: Seq<(String, AgentComparison)>, k: int, in_source: bool) -> Seq<Seq<char>>
    decreases k,
{
    if k <= 0 {
        Seq::empty()
    } else {
        one_sided(cs, k - 1, in_source) + if (in_source && cs[k - 1].1 is OnlyInSource) || (!in_source
            && cs[k - 1].1 is OnlyInTarget) {
            seq![cs[k - 1].0@]
        } else {
            Seq::<Seq<char>>::empty()
        }
    }
}

/// A line naming agents under `label`, when there are any.
pub open spec fn names_line(label: Seq<char>, names: Seq<Seq<char>>) -> Seq<Seq<char>> {
    if names.len() == 0 {
        Seq::empty()
    } else {
        seq![label + join_with(names, ", "@)]
    }
}

/// The printed comparison: the agents' lines, an empty line, the agents
/// found in one file only, and the counts.
pub open spec fn comparison_text(c: Comparison) -> Seq<Seq<char>> {
    let cs = c.agents@;
    agents_text(cs, cs.len() as int) + seq![Seq::<char>::empty()] + names_line(
        "Extra agents (only in source): "@,
        one_sided(cs, cs.len() as int, true),
    ) + names_line("Missing agents (only in target): "@, one_sided(cs, cs.len() as int, false)) + seq![
        "\nCompare: "@ + decimal(c.matches as nat) + "/"@ + decimal((c.matches + c.differences) as nat)
            + " agents match, "@ + decimal(c.differences as nat) + " difference(s) found"@,
    ]
}

fn names_line_exec(label: &str, names: &Vec<String>, lines: &mut Vec<String>)
    ensures
        names_view(*final(lines)) == names_view(*old(lines)) + names_line(label@, names_view(*names)),
{
    if names.len() == 0 {
        proof {
            assert(names_view(*lines) =~= names_view(*lines) + names_line(label@, names_view(*names)));
        }
        return;
    }
    proof {
        reveal_strlit(", ");
    }
    let ghost nv = names_view(*names);
    let mut t = string_of(label);
    let ghost head = t@;
    let mut i: usize = 0;
    while i < names.len()
        invariant
            nv == names_view(*names),
            i <= nv.len(),
            t@ == head + join_with(nv.take(i as int), ", "@),
        decreases names.len() - i,
    {
        if i > 0 {
            t.append(", ");
        }
        t.append(names[i].as_str());
        proof {
            assert(nv.take(i + 1).drop_last() =~= nv.take(i as int));
            if i == 0 {
                assert(t@ =~= head + join_with(nv.take(1), ", "@));
            } else {
                assert(t@ =~= head + join_with(nv.take(i + 1), ", "@));
            }
        }
        i = i + 1;
    }
    proof {
        assert(nv.take(nv.len() as int) =~= nv);
    }
    let ghost pre = names_view(*lines);
    push_line(lines, t);
    proof {
        assert(names_view(*lines) =~= pre + names_line(label@, nv));
    }
}

/// The lines that the comparison of two permissions files prints, after
/// its opening line.
pub fn comparison_lines(c: &Comparison) -> (r: Vec<String>)
    requires
        c.matches + c.differences <= usize::MAX,
    ensures
        names_view(r) == comparison_text(*c),
{
    proof {
        reveal_strlit("  PASS  ");
        reveal_strlit("  FAIL  ");
        reveal_strlit("         ");
        reveal_strlit("  NEW   ");
        reveal_strlit("  MISS  ");
        reveal_strlit("\nCompare: ");
        reveal_strlit("/");
        reveal_strlit(" agents match, ");
        reveal_strlit(" difference(s) found");
    }
    let ghost cs = c.agents@;
    let mut lines: Vec<String> = Vec::new();
    let mut only_source: Vec<String> = Vec::new();
    let mut only_target: Vec<String> = Vec::new();
    let mut i: usize = 0;
    while i < c.agents.len()
        invariant
            cs == c.agents@,
            i <= cs.len(),
            names_view(lines) == agents_text(cs, i as int),
            names_view(only_source) == one_sided(cs, i as int, true),
            names_view(only_target) == one_sided(cs, i as int, false),
        decreases c.agents.len() - i,
    {
        let (name, comp) = &c.agents[i];
        let ghost start = names_view(lines);
        match comp {
            AgentComparison::Pass => {
                let mut t = string_of("  PASS  ");
                t.append(name.as_str());
                push_line(&mut lines, t);
            },
            AgentComparison::Fail(d) => {
                let mut t = string_of("  FAIL  ");
                t.append(name.as_str());
                push_line(&mut lines, t);
                let ghost mid = names_view(lines);
                let ghost dl = names_view(*d).map_values(|l: Seq<char>| "         "@ + l);
                let mut j: usize = 0;
                while j < d.len()
                    invariant
                        j <= d@.len(),
                        dl == names_view(*d).map_values(|l: Seq<char>| "         "@ + l),
                        names_view(lines) == mid + dl.take(j as int),
                    decreases d.len() - j,
                {
                    let mut l = string_of("         ");
                    l.append(d[j].as_str());
                    push_line(&mut lines, l);
                    proof {
                        assert(dl.take(j + 1) =~= dl.take(j as int).push(l@));
                    }
                    j = j + 1;
                }
                proof {
                    assert(dl.take(d@.len() as int) =~= dl);
                }
            },
            AgentComparison::OnlyInSource => {
                let mut t = string_of("  NEW   ");
                t.append(name.as_str());
                push_line(&mut lines, t);
                push_line(&mut only_source, name.clone());
            },
            AgentComparison::OnlyInTarget => {
                let mut t = string_of("  MISS  ");
                t.append(name.as_str());
                push_line(&mut lines, t);
                push_line(&mut only_target, name.clone());
            },
        }
        proof {
            assert(names_view(lines) =~= start + agent_lines(cs[i as int].0@, cs[i as int].1.comparison_view()));
            assert(names_view(only_source) =~= one_sided(cs, i + 1, true));
            assert(names_view(only_target) =~= one_sided(cs, i + 1, false));
        }
        i = i + 1;
    }
    push_line(&mut lines, String::new());
    names_line_exec("Extra agents (only in source): ", &only_source, &mut lines);
    names_line_exec("Missing agents (only in target): ", &only_target, &mut lines);
    let ghost body = names_view(lines);
    let mut last = string_of("\nCompare: ");
    let m = usize_text(c.matches);
    last.append(m.as_str());
    last.append("/");
    let total = usize_text(c.matches + c.differences);
    last.append(total.as_str());
    last.append(" agents match, ");
    let d = usize_text(c.differences);
    last.append(d.as_str());
    last.append(" difference(s) found");
    push_line(&mut lines, last);
    proof {
        reveal_strlit("Extra agents (only in source): ");
        reveal_strlit("Missing agents (only in target): ");
        assert(names_view(lines) =~= comparison_text(*c));
    }
    lines
}

} // verus!
