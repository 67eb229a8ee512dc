//! The audit report: a Markdown summary of every agent's delta against
//! its template, the template inheritance, and the validation outcome.

use indexmap::IndexMap;
use vstd::prelude::*;
use vstd::string::*;

use crate::generator::{
    compute_delta, deltas_fit, delta_view, lemma_sorted_results_from, lemma_sorted_results_len, sort_results,
    sorted_results, template_delta, GenerateResult, ResultView,
};
use crate::maps::{
    push_size, sg_get_index, sg_len, sg_new, sg_push, size_groups,
    gm_get, gm_get_index, gm_len, group_entries, has_key, lookup, names_view, template_entries, tm_get,
    tm_get_index, tm_len,
};
use crate::models::{
    extends_parents, is_simple_category, simple_categories, CategoryMap, Sot, Template, ValidationReport,
};
use crate::template_dag::join_with;
use crate::text::{decimal, str_eq, string_of, usize_text};

verus! {

// ---------------------------------------------------------------------------
// Dates
// ---------------------------------------------------------------------------

/// The civil date `(year, month, day)` of the day `days` days after
/// 1970-01-01, by the era-based conversion of the proleptic Gregorian
/// calendar (eras of 400 years, years starting in March).
pub open spec fn civil_from_days(days: nat) -> (nat, nat, nat) {
    let z = days + 719468;
    let era = z / 146097;
    let doe = z - era * 146097;
    let yoe = (doe - doe / 1460 + doe / 36524 - doe / 146096) / 365;
    let y = yoe + era * 400;
    let doy = doe - (365 * yoe + yoe / 4 - yoe / 100);
    let mp = (5 * doy + 2) / 153;
    let d = doy - (153 * mp + 2) / 5 + 1;
    let m = if mp < 10 {
        mp + 3
    } else {
        mp - 9
    };
    let y2 = if m <= 2 {
        y + 1
    } else {
        y
    };
    (y2 as nat, m as nat, d as nat)
}

/// Convert days since the epoch to `(year, month, day)`.
pub fn days_to_date(days: u64) -> (r: (u64, u64, u64))
    requires
        days <= u64::MAX - 719468,
    ensures
        r.0 == civil_from_days(days as nat).0,
        r.1 == civil_from_days(days as nat).1,
        r.2 == civil_from_days(days as nat).2,
        1 <= r.1 <= 12,
        1 <= r.2 <= 31,
{
    let z = days + 719468;
    let era = z / 146097;
    assert(era * 146097 <= z) by (nonlinear_arith)
        requires
            era == z / 146097,
    ;
    let doe = z - era * 146097;
    assert(doe < 146097) by (nonlinear_arith)
        requires
            era == z / 146097,
            doe == z - era * 146097,
    ;
    let yoe = (doe - doe / 1460 + doe / 36524 - doe / 146096) / 365;
    assert(yoe <= 399) by (nonlinear_arith)
        requires
            doe < 146097,
            yoe == (doe - doe / 1460 + doe / 36524 - doe / 146096) / 365,
    ;
    assert(era <= u64::MAX / 146097) by (nonlinear_arith)
        requires
            era == z / 146097,
    ;
    let y = yoe + era * 400;
    assert(365 * yoe + yoe / 4 - yoe / 100 <= doe) by (nonlinear_arith)
        requires
            doe < 146097,
            yoe == (doe - doe / 1460 + doe / 36524 - doe / 146096) / 365,
    ;
    let doy = doe - (365 * yoe + yoe / 4 - yoe / 100);
    assert(doy <= 365) by (nonlinear_arith)
        requires
            doe < 146097,
            yoe == (doe - doe / 1460 + doe / 36524 - doe / 146096) / 365,
            doy == doe - (365 * yoe + yoe / 4 - yoe / 100),
    ;
    let mp = (5 * doy + 2) / 153;
    assert(mp <= 11) by (nonlinear_arith)
        requires
            doy <= 365,
            mp == (5 * doy + 2) / 153,
    ;
    assert((153 * mp + 2) / 5 <= doy) by (nonlinear_arith)
        requires
            mp == (5 * doy + 2) / 153,
    ;
    let d = doy - (153 * mp + 2) / 5 + 1;
    assert(d <= 31) by (nonlinear_arith)
        requires
            mp == (5 * doy + 2) / 153,
            d == doy - (153 * mp + 2) / 5 + 1,
            doy <= 365,
    ;
    let m = if mp < 10 {
        mp + 3
    } else {
        mp - 9
    };
    let y = if m <= 2 {
        y + 1
    } else {
        y
    };
    (y, m, d)
}

/// The number `n` written with at least `w` digits, zeros in front.
pub open spec fn zero_padded(n: nat, w: nat) -> Seq<char> {
    let s = decimal(n);
    if s.len() >= w {
        s
    } else {
        Seq::new((w - s.len()) as nat, |i: int| '0') + s
    }
}

/// `format!("{:0w$}", n)`.
fn zero_padded_text(n: u64, w: usize) -> (r: String)
    ensures
        r@ == zero_padded(n as nat, w as nat),
{
    let s = usize_text_u64(n);
    let len = s.unicode_len();
    if len >= w {
        return s;
    }
    let mut r = String::new();
    let mut i: usize = 0;
    while i < w - len
        invariant
            i <= w - len,
            r@ == Seq::new(i as nat, |k: int| '0'),
        decreases w - len - i,
    {
        r.append("0");
        proof {
            reveal_strlit("0");
            assert(r@ =~= Seq::new((i + 1) as nat, |k: int| '0'));
        }
        i = i + 1;
    }
    r.append(s.as_str());
    r
}

/// `n` written in decimal.
fn usize_text_u64(n: u64) -> (r: String)
    ensures
        r@ == decimal(n as nat),
    decreases n,
{
    if n < 10 {
        usize_text(n as usize)
    } else {
        let mut s = usize_text_u64(n / 10);
        let t = usize_text((n % 10) as usize);
        s.append(t.as_str());
        s
    }
}

/// The text `YYYY-MM-DD` of the date `days` days after 1970-01-01.
pub open spec fn date_text(days: nat) -> Seq<char> {
    let (y, m, d) = civil_from_days(days);
    zero_padded(y, 4) + "-"@ + zero_padded(m, 2) + "-"@ + zero_padded(d, 2)
}

/// The date text of a count of seconds since the epoch.
pub open spec fn secs_date(secs: u64) -> Seq<char> {
    date_text((secs / 86400) as nat)
}

/// `YYYY-MM-DD` for a count of seconds since the epoch.
pub fn date_from_secs(secs: u64) -> (r: String)
    ensures
        r@ == secs_date(secs),
{
    let days = secs / 86400;
    let (y, m, d) = days_to_date(days);
    let mut s = zero_padded_text(y, 4);
    s.append("-");
    let ms = zero_padded_text(m, 2);
    s.append(ms.as_str());
    s.append("-");
    let ds = zero_padded_text(d, 2);
    s.append(ds.as_str());
    proof {
        reveal_strlit("-");
    }
    s
}

/// The whole seconds since the Unix epoch on the system clock (zero for a
/// clock set before it).  Nothing is promised of the value: it is the time.
#[verifier::external_body]
fn now_unix_secs() -> (r: u64) {
    std::time::SystemTime::now().duration_since(std::time::UNIX_EPOCH).unwrap_or_default().as_secs()
}

/// Today's date (`YYYY-MM-DD`) by the system clock.
pub fn chrono_date() -> (r: String)
    ensures
        exists|secs: u64| r@ == #[trigger] secs_date(secs),
{
    let secs = now_unix_secs();
    date_from_secs(secs)
}

// ---------------------------------------------------------------------------
// Text helpers
// ---------------------------------------------------------------------------

/// `n` spaces.
pub open spec fn spaces(n: nat) -> Seq<char> {
    Seq::new(n, |i: int| ' ')
}

/// The number of bytes that UTF-8 takes for a character.
pub open spec fn utf8_width(c: char) -> nat {
    if (c as int) < 0x80 {
        1
    } else if (c as int) < 0x800 {
        2
    } else if (c as int) < 0x10000 {
        3
    } else {
        4
    }
}

/// The number of bytes of a text in UTF-8.
pub open spec fn utf8_len(s: Seq<char>) -> nat
    decreases s.len(),
{
    if s.len() == 0 {
        0
    } else {
        utf8_len(s.drop_last()) + utf8_width(s.last())
    }
}

/// `str::len`: the length of a string in bytes (its UTF-8 encoding).
#[verifier::external_body]
fn byte_len(s: &str) -> (r: usize)
    ensures
        r == utf8_len(s@),
{
    s.len()
}

/// `a - b`, or zero when `b` is larger.
pub open spec fn sat_sub(a: int, b: int) -> nat {
    if a > b {
        (a - b) as nat
    } else {
        0
    }
}

pub(crate) fn append_spaces(md: &mut String, n: usize)
    ensures
        final(md)@ == old(md)@ + spaces(n as nat),
{
    let ghost start = md@;
    let mut i: usize = 0;
    while i < n
        invariant
            i <= n,
            md@ == start + spaces(i as nat),
        decreases n - i,
    {
        md.append(" ");
        proof {
            reveal_strlit(" ");
            assert(md@ =~= start + spaces((i + 1) as nat));
        }
        i = i + 1;
    }
}

/// `s` right-aligned in a field of `w` characters.
pub open spec fn right_aligned(s: Seq<char>, w: nat) -> Seq<char> {
    spaces(sat_sub(w as int, s.len() as int)) + s
}

pub(crate) fn append_right(md: &mut String, s: &str, w: usize)
    ensures
        final(md)@ == old(md)@ + right_aligned(s@, w as nat),
{
    let len = s.unicode_len();
    let pad = if len < w {
        w - len
    } else {
        0
    };
    append_spaces(md, pad);
    md.append(s);
    proof {
        assert(pad == sat_sub(w as int, s@.len() as int));
    }
}

pub(crate) fn append_num(md: &mut String, n: usize)
    ensures
        final(md)@ == old(md)@ + decimal(n as nat),
{
    let t = usize_text(n);
    md.append(t.as_str());
}

/// The pieces joined end to end.
pub open spec fn flatten(ss: Seq<Seq<char>>) -> Seq<char>
    decreases ss.len(),
{
    if ss.len() == 0 {
        Seq::empty()
    } else {
        flatten(ss.drop_last()) + ss.last()
    }
}

fn append_all(md: &mut String, pieces: &Vec<String>)
    ensures
        final(md)@ == old(md)@ + flatten(names_view(*pieces)),
{
    let ghost start = md@;
    let ghost ps = names_view(*pieces);
    let mut i: usize = 0;
    while i < pieces.len()
        invariant
            ps == names_view(*pieces),
            i <= pieces@.len(),
            md@ == start + flatten(ps.take(i as int)),
        decreases pieces.len() - i,
    {
        md.append(pieces[i].as_str());
        proof {
            assert(ps.take(i + 1).drop_last() =~= ps.take(i as int));
            assert(ps[i as int] == pieces@[i as int]@);
            vstd::seq_lib::lemma_concat_associative(start, flatten(ps.take(i as int)), ps[i as int]);
        }
        i = i + 1;
    }
    proof {
        assert(ps.take(pieces@.len() as int) =~= ps);
    }
}

fn push_piece(v: &mut Vec<String>, s: String)
    ensures
        names_view(*final(v)) == names_view(*old(v)).push(s@),
{
    let ghost pre = names_view(*v);
    v.push(s);
    proof {
        assert(names_view(*v) =~= pre.push(s@));
    }
}

/// A row's total: additions plus removals.
pub open spec fn row_total(d: ResultView) -> nat {
    d.2 + d.3
}

// ---------------------------------------------------------------------------
// Header and summary
// ---------------------------------------------------------------------------

/// The validation status of the header.
pub open spec fn pass_status(passed: nat, total: nat, failed: nat) -> Seq<char> {
    (if failed == 0 {
        "\u{2705} PASS ("@
    } else {
        "\u{274c} FAIL ("@
    }) + decimal(passed) + "/"@ + decimal(total) + ")"@
}

/// The title, generation date and headline counts.
pub open spec fn header_text(date: Seq<char>, agents: nat, categories: nat, status: Seq<char>) -> Seq<char> {
    flatten(
        seq![
            "# Agency Audit Report\n\n"@,
            "**Generated:** "@,
            date,
            "\n"@,
            "**Agents:** "@,
            decimal(agents),
            " | **Categories:** "@,
            decimal(categories),
            " | **Round-trip validation:** "@,
            status,
            "\n\n"@,
            "---\n\n"@,
        ],
    )
}

/// How many of the first `k` rows have no delta.
pub open spec fn zero_rows(ds: Seq<ResultView>, k: int) -> nat
    decreases k,
{
    if k <= 0 {
        0
    } else {
        zero_rows(ds, k - 1) + if row_total(ds[k - 1]) == 0 {
            1nat
        } else {
            0nat
        }
    }
}

/// The smallest nonzero total among the first `k` rows, if any.
pub open spec fn min_nonzero(ds: Seq<ResultView>, k: int) -> Option<nat>
    decreases k,
{
    if k <= 0 {
        None
    } else {
        let t = row_total(ds[k - 1]);
        match min_nonzero(ds, k - 1) {
            None => if t > 0 {
                Some(t)
            } else {
                None
            },
            Some(m) => if t > 0 && t < m {
                Some(t)
            } else {
                Some(m)
            },
        }
    }
}

/// The largest total among the first `k` rows (zero for none).
pub open spec fn max_total(ds: Seq<ResultView>, k: int) -> nat
    decreases k,
{
    if k <= 0 {
        0
    } else {
        let t = row_total(ds[k - 1]);
        let m = max_total(ds, k - 1);
        if t > m {
            t
        } else {
            m
        }
    }
}

/// The low end of the override range is the smallest nonzero total: it is
/// absent exactly when every row has a zero total, and otherwise it is the
/// total of some row and no larger than any nonzero total.
pub proof fn lemma_min_nonzero_is_least(ds: Seq<ResultView>, k: int)
    requires
        0 <= k <= ds.len(),
    ensures
        min_nonzero(ds, k) is None <==> forall|i: int| 0 <= i < k ==> #[trigger] row_total(ds[i]) == 0,
        min_nonzero(ds, k) matches Some(m) ==> {
            &&& m > 0
            &&& exists|i: int| 0 <= i < k && #[trigger] row_total(ds[i]) == m
            &&& forall|i: int| 0 <= i < k && #[trigger] row_total(ds[i]) > 0 ==> m <= row_total(ds[i])
        },
    decreases k,
{
    if k > 0 {
        lemma_min_nonzero_is_least(ds, k - 1);
        let t = row_total(ds[k - 1]);
        match min_nonzero(ds, k - 1) {
            None => {
                if t == 0 {
                    assert forall|i: int| 0 <= i < k implies #[trigger] row_total(ds[i]) == 0 by {
                        if i < k - 1 {
                            assert(row_total(ds[i]) == 0);
                        }
                    }
                }
            },
            Some(m) => {
                let i0 = choose|i: int| 0 <= i < k - 1 && #[trigger] row_total(ds[i]) == m;
                assert(row_total(ds[i0]) == m);
                assert(row_total(ds[k - 1]) == t);
            },
        }
    }
}

/// The high end of the override range is the largest total: no row has a
/// larger one, and when there is a row, some row has it.
pub proof fn lemma_max_total_is_greatest(ds: Seq<ResultView>, k: int)
    requires
        0 <= k <= ds.len(),
    ensures
        forall|i: int| 0 <= i < k ==> #[trigger] row_total(ds[i]) <= max_total(ds, k),
        k > 0 ==> exists|i: int| 0 <= i < k && #[trigger] row_total(ds[i]) == max_total(ds, k),
    decreases k,
{
    if k > 0 {
        lemma_max_total_is_greatest(ds, k - 1);
        let t = row_total(ds[k - 1]);
        if t > max_total(ds, k - 1) || k == 1 {
            assert(row_total(ds[k - 1]) == max_total(ds, k));
        } else {
            let i0 = choose|i: int| 0 <= i < k - 1 && #[trigger] row_total(ds[i]) == max_total(ds, k - 1);
            assert(row_total(ds[i0]) == max_total(ds, k));
        }
    }
}

/// The count of rows without a delta is the number of rows whose total is
/// zero.
pub proof fn lemma_zero_rows_counts(ds: Seq<ResultView>, k: int)
    requires
        0 <= k <= ds.len(),
    ensures
        Set::new(|i: int| 0 <= i < k && row_total(ds[i]) == 0).finite(),
        zero_rows(ds, k) == Set::new(|i: int| 0 <= i < k && row_total(ds[i]) == 0).len(),
    decreases k,
{
    let s = Set::new(|i: int| 0 <= i < k && row_total(ds[i]) == 0);
    if k == 0 {
        assert(s =~= Set::<int>::empty());
    } else {
        lemma_zero_rows_counts(ds, k - 1);
        let s0 = Set::new(|i: int| 0 <= i < k - 1 && row_total(ds[i]) == 0);
        assert(!s0.contains(k - 1));
        if row_total(ds[k - 1]) == 0 {
            assert(s =~= s0.insert(k - 1));
        } else {
            assert(s =~= s0);
        }
    }
}

/// `a` as a whole percentage of `total`.
pub open spec fn percent(a: nat, total: nat) -> nat {
    a * 100 / total
}

/// The opening paragraph of the executive summary.
pub open spec fn opening_text(total: nat, categories: nat, display: Seq<char>) -> Seq<char> {
    flatten(
        seq![
            "## Executive Summary\n\n"@,
            "All "@,
            decimal(total),
            " agents' permissions are generated from **category template baselines** ("@,
            decimal(categories),
            " templates in `_templates/`) and **per-agent agent files** ("@,
            decimal(total),
            " files in `"@,
            display,
            "/`). The generated `permissions.jsonc` is produced by `generate-permissions` and validated against templates + agents.\n\n"@,
        ],
    )
}

/// The key findings on deltas: zero-delta agents, and agents with
/// overrides with the range of their totals.
pub open spec fn findings_text(zero: nat, total: nat, low: nat, high: nat) -> Seq<char> {
    let with = (total - zero) as nat;
    flatten(
        seq![
            "**Key findings:**\n\n"@,
            "- **"@,
            decimal(zero),
            " of "@,
            decimal(total),
            " agents ("@,
            decimal(percent(zero, total)),
            "%)** are zero-delta \u{2014} their SOT matches their category template exactly\n"@,
            "- **"@,
            decimal(with),
            " agents ("@,
            decimal(percent(with, total)),
            "%)** have overrides, ranging from "@,
            decimal(low),
            " to "@,
            decimal(high),
            " entries\n"@,
        ],
    )
}

/// The executive summary's opening and key findings on deltas.
pub open spec fn summary_text(ds: Seq<ResultView>, categories: nat, display: Seq<char>) -> Seq<char> {
    let total = ds.len();
    let low = match min_nonzero(ds, total as int) {
        Some(m) => m,
        None => 0,
    };
    opening_text(total, categories, display) + findings_text(
        zero_rows(ds, total as int),
        total,
        low,
        max_total(ds, total as int),
    )
}

fn append_header(md: &mut String, date: &str, agents: usize, categories: usize, passed: usize, total: usize, failed: usize)
    ensures
        final(md)@ == old(md)@ + header_text(
            date@,
            agents as nat,
            categories as nat,
            pass_status(passed as nat, total as nat, failed as nat),
        ),
{
    let mut status = string_of(if failed == 0 {
        "\u{2705} PASS ("
    } else {
        "\u{274c} FAIL ("
    });
    append_num(&mut status, passed);
    status.append("/");
    append_num(&mut status, total);
    status.append(")");
    let mut p: Vec<String> = Vec::new();
    push_piece(&mut p, string_of("# Agency Audit Report\n\n"));
    push_piece(&mut p, string_of("**Generated:** "));
    push_piece(&mut p, string_of(date));
    push_piece(&mut p, string_of("\n"));
    push_piece(&mut p, string_of("**Agents:** "));
    push_piece(&mut p, usize_text(agents));
    push_piece(&mut p, string_of(" | **Categories:** "));
    push_piece(&mut p, usize_text(categories));
    push_piece(&mut p, string_of(" | **Round-trip validation:** "));
    push_piece(&mut p, status);
    push_piece(&mut p, string_of("\n\n"));
    push_piece(&mut p, string_of("---\n\n"));
    proof {
        assert(names_view(p) =~= seq![
            "# Agency Audit Report\n\n"@,
            "**Generated:** "@,
            date@,
            "\n"@,
            "**Agents:** "@,
            decimal(agents as nat),
            " | **Categories:** "@,
            decimal(categories as nat),
            " | **Round-trip validation:** "@,
            pass_status(passed as nat, total as nat, failed as nat),
            "\n\n"@,
            "---\n\n"@,
        ]);
    }
    append_all(md, &p);
}

fn row_counts(ds: &Vec<GenerateResult>) -> (r: (usize, usize, usize))
    requires
        forall|i: int| 0 <= i < ds@.len() ==> #[trigger] ds@[i].adds + ds@[i].removes <= usize::MAX,
    ensures
        r.0 == zero_rows(crate::generator::results_view(ds@), ds@.len() as int),
        r.1 == match min_nonzero(crate::generator::results_view(ds@), ds@.len() as int) {
            Some(m) => m,
            None => 0,
        },
        r.2 == max_total(crate::generator::results_view(ds@), ds@.len() as int),
        r.0 <= ds@.len(),
{
    let ghost v = crate::generator::results_view(ds@);
    let mut zero: usize = 0;
    let mut low: Option<usize> = None;
    let mut high: usize = 0;
    let mut i: usize = 0;
    while i < ds.len()
        invariant
            v == crate::generator::results_view(ds@),
            forall|j: int| 0 <= j < ds@.len() ==> #[trigger] ds@[j].adds + ds@[j].removes <= usize::MAX,
            i <= ds@.len(),
            zero == zero_rows(v, i as int),
            zero <= i,
            match low {
                Some(m) => min_nonzero(v, i as int) == Some(m as nat),
                None => min_nonzero(v, i as int) is None,
            },
            high == max_total(v, i as int),
        decreases ds.len() - i,
    {
        let t = ds[i].adds + ds[i].removes;
        assert(row_total(v[i as int]) == t);
        if t == 0 {
            zero = zero + 1;
        }
        low = match low {
            None => if t > 0 {
                Some(t)
            } else {
                None
            },
            Some(m) => if t > 0 && t < m {
                Some(t)
            } else {
                Some(m)
            },
        };
        if t > high {
            high = t;
        }
        i = i + 1;
    }
    let l = match low {
        Some(m) => m,
        None => 0,
    };
    (zero, l, high)
}

fn append_opening(md: &mut String, total: usize, categories: usize, display: &str)
    ensures
        final(md)@ == old(md)@ + opening_text(total as nat, categories as nat, display@),
{
    let mut p: Vec<String> = Vec::new();
    push_piece(&mut p, string_of("## Executive Summary\n\n"));
    push_piece(&mut p, string_of("All "));
    push_piece(&mut p, usize_text(total));
    push_piece(&mut p, string_of(" agents' permissions are generated from **category template baselines** ("));
    push_piece(&mut p, usize_text(categories));
    push_piece(&mut p, string_of(" templates in `_templates/`) and **per-agent agent files** ("));
    push_piece(&mut p, usize_text(total));
    push_piece(&mut p, string_of(" files in `"));
    push_piece(&mut p, string_of(display));
    push_piece(&mut p, string_of("/`). The generated `permissions.jsonc` is produced by `generate-permissions` and validated against templates + agents.\n\n"));
    proof {
        assert(names_view(p) =~= seq![
            "## Executive Summary\n\n"@,
            "All "@,
            decimal(total as nat),
            " agents' permissions are generated from **category template baselines** ("@,
            decimal(categories as nat),
            " templates in `_templates/`) and **per-agent agent files** ("@,
            decimal(total as nat),
            " files in `"@,
            display@,
            "/`). The generated `permissions.jsonc` is produced by `generate-permissions` and validated against templates + agents.\n\n"@,
        ]);
    }
    append_all(md, &p);
}

fn append_findings(md: &mut String, zero: usize, total: usize, low: usize, high: usize)
    requires
        0 < total,
        zero <= total,
        total * 100 <= usize::MAX,
    ensures
        final(md)@ == old(md)@ + findings_text(zero as nat, total as nat, low as nat, high as nat),
{
    let with = total - zero;
    assert(zero * 100 <= total * 100 && with * 100 <= total * 100) by (nonlinear_arith)
        requires
            zero <= total,
            with <= total,
    ;
    let zp = zero * 100 / total;
    let wp = with * 100 / total;
    let mut p: Vec<String> = Vec::new();
    push_piece(&mut p, string_of("**Key findings:**\n\n"));
    push_piece(&mut p, string_of("- **"));
    push_piece(&mut p, usize_text(zero));
    push_piece(&mut p, string_of(" of "));
    push_piece(&mut p, usize_text(total));
    push_piece(&mut p, string_of(" agents ("));
    push_piece(&mut p, usize_text(zp));
    push_piece(&mut p, string_of("%)** are zero-delta \u{2014} their SOT matches their category template exactly\n"));
    push_piece(&mut p, string_of("- **"));
    push_piece(&mut p, usize_text(with));
    push_piece(&mut p, string_of(" agents ("));
    push_piece(&mut p, usize_text(wp));
    push_piece(&mut p, string_of("%)** have overrides, ranging from "));
    push_piece(&mut p, usize_text(low));
    push_piece(&mut p, string_of(" to "));
    push_piece(&mut p, usize_text(high));
    push_piece(&mut p, string_of(" entries\n"));
    proof {
        assert(names_view(p) =~= seq![
            "**Key findings:**\n\n"@,
            "- **"@,
            decimal(zero as nat),
            " of "@,
            decimal(total as nat),
            " agents ("@,
            decimal(percent(zero as nat, total as nat)),
            "%)** are zero-delta \u{2014} their SOT matches their category template exactly\n"@,
            "- **"@,
            decimal(with as nat),
            " agents ("@,
            decimal(percent(with as nat, total as nat)),
            "%)** have overrides, ranging from "@,
            decimal(low as nat),
            " to "@,
            decimal(high as nat),
            " entries\n"@,
        ]);
    }
    append_all(md, &p);
}

fn append_summary(md: &mut String, ds: &Vec<GenerateResult>, categories: usize, display: &str)
    requires
        ds@.len() > 0,
        ds@.len() * 100 <= usize::MAX,
        forall|i: int| 0 <= i < ds@.len() ==> #[trigger] ds@[i].adds + ds@[i].removes <= usize::MAX,
    ensures
        final(md)@ == old(md)@ + summary_text(crate::generator::results_view(ds@), categories as nat, display@),
{
    let ghost start = md@;
    let total = ds.len();
    let (zero, low, high) = row_counts(ds);
    append_opening(md, total, categories, display);
    append_findings(md, zero, total, low, high);
    proof {
        assert(md@ =~= start + summary_text(crate::generator::results_view(ds@), categories as nat, display@));
    }
}

fn join_strs(v: &Vec<&str>, sep: &str) -> (r: String)
    ensures
        r@ == join_with(v@.map_values(|s: &str| s@), sep@),
{
    let ghost parts = v@.map_values(|s: &str| s@);
    let mut out = String::new();
    let mut i: usize = 0;
    while i < v.len()
        invariant
            parts == v@.map_values(|s: &str| s@),
            i <= v@.len(),
            out@ == join_with(parts.take(i as int), sep@),
        decreases v.len() - i,
    {
        if i > 0 {
            out.append(sep);
        }
        out.append(v[i]);
        proof {
            assert(parts.take(i + 1).drop_last() =~= parts.take(i as int));
            assert(parts[i as int] == v@[i as int]@);
            if i == 0 {
                assert(out@ =~= join_with(parts.take(1), sep@));
            } else {
                assert(out@ =~= join_with(parts.take(i + 1), sep@));
            }
        }
        i = i + 1;
    }
    proof {
        assert(parts.take(v@.len() as int) =~= parts);
    }
    out
}

fn join_names(v: &Vec<String>, n: usize, sep: &str) -> (r: String)
    requires
        n <= v@.len(),
    ensures
        r@ == join_with(names_view(*v).take(n as int), sep@),
{
    let ghost parts = names_view(*v);
    let mut out = String::new();
    let mut i: usize = 0;
    while i < n
        invariant
            parts == names_view(*v),
            n <= v@.len(),
            i <= n,
            out@ == join_with(parts.take(i as int), sep@),
        decreases n - i,
    {
        if i > 0 {
            out.append(sep);
        }
        out.append(v[i].as_str());
        proof {
            assert(parts.take(i + 1).drop_last() =~= parts.take(i as int));
            assert(parts[i as int] == v@[i as int]@);
            if i == 0 {
                assert(out@ =~= join_with(parts.take(1), sep@));
            } else {
                assert(out@ =~= join_with(parts.take(i + 1), sep@));
            }
        }
        i = i + 1;
    }
    out
}

// ---------------------------------------------------------------------------
// Anomalies and template counts
// ---------------------------------------------------------------------------

/// A row is an anomaly when it removes ten entries or more.
pub open spec fn is_anomaly(d: ResultView) -> bool {
    d.3 >= 10
}

/// The finding line of an anomalous row.
pub open spec fn anomaly_flag(d: ResultView) -> Seq<char> {
    flatten(
        seq![
            "- **1 anomaly flagged**: `"@,
            d.0,
            "` has "@,
            decimal(d.3),
            " removes from `"@,
            d.1,
            "`, suggesting possible miscategorization\n"@,
        ],
    )
}

/// The finding lines of the anomalies among the first `k` rows.
pub open spec fn anomaly_flags(ds: Seq<ResultView>, k: int) -> Seq<char>
    decreases k,
{
    if k <= 0 {
        Seq::empty()
    } else {
        anomaly_flags(ds, k - 1) + if is_anomaly(ds[k - 1]) {
            anomaly_flag(ds[k - 1])
        } else {
            Seq::empty()
        }
    }
}

fn append_anomaly_flags(md: &mut String, ds: &Vec<GenerateResult>)
    ensures
        final(md)@ == old(md)@ + anomaly_flags(crate::generator::results_view(ds@), ds@.len() as int),
{
    let ghost v = crate::generator::results_view(ds@);
    let ghost start = md@;
    let mut i: usize = 0;
    while i < ds.len()
        invariant
            v == crate::generator::results_view(ds@),
            i <= ds@.len(),
            md@ == start + anomaly_flags(v, i as int),
        decreases ds.len() - i,
    {
        let d = &ds[i];
        assert(v[i as int] == d.result_view());
        if d.removes >= 10 {
            let mut p: Vec<String> = Vec::new();
            push_piece(&mut p, string_of("- **1 anomaly flagged**: `"));
            push_piece(&mut p, d.agent.clone());
            push_piece(&mut p, string_of("` has "));
            push_piece(&mut p, usize_text(d.removes));
            push_piece(&mut p, string_of(" removes from `"));
            push_piece(&mut p, d.category.clone());
            push_piece(&mut p, string_of("`, suggesting possible miscategorization\n"));
            proof {
                assert(names_view(p) =~= seq![
                    "- **1 anomaly flagged**: `"@,
                    d.agent@,
                    "` has "@,
                    decimal(d.removes as nat),
                    " removes from `"@,
                    d.category@,
                    "`, suggesting possible miscategorization\n"@,
                ]);
            }
            let ghost before = md@;
            append_all(md, &p);
            proof {
                vstd::seq_lib::lemma_concat_associative(start, anomaly_flags(v, i as int), anomaly_flag(v[i as int]));
            }
        } else {
            assert(anomaly_flags(v, i + 1) =~= anomaly_flags(v, i as int));
        }
        i = i + 1;
    }
}

/// How many of the first `k` templates are of each kind: leaves (with
/// `$extends`), mixins (without, and no agents' category), roots (without,
/// and some agents' category).
pub open spec fn template_kinds(ts: Seq<(Seq<char>, Template)>, gs: Seq<(Seq<char>, Seq<Seq<char>>)>, k: int) -> (nat, nat, nat)
    decreases k,
{
    if k <= 0 {
        (0, 0, 0)
    } else {
        let (leaf, mixin, root) = template_kinds(ts, gs, k - 1);
        if ts[k - 1].1.extends is Some {
            ((leaf + 1) as nat, mixin, root)
        } else if has_key(gs, ts[k - 1].0) {
            (leaf, mixin, (root + 1) as nat)
        } else {
            (leaf, (mixin + 1) as nat, root)
        }
    }
}

proof fn lemma_template_kinds_bound(ts: Seq<(Seq<char>, Template)>, gs: Seq<(Seq<char>, Seq<Seq<char>>)>, k: int)
    requires
        k >= 0,
    ensures
        template_kinds(ts, gs, k).0 + template_kinds(ts, gs, k).1 + template_kinds(ts, gs, k).2 == k,
    decreases k,
{
    if k > 0 {
        lemma_template_kinds_bound(ts, gs, k - 1);
    }
}

fn count_template_kinds(templates: &IndexMap<String, Template>, categories: &CategoryMap) -> (r: (usize, usize, usize))
    ensures
        r.0 == template_kinds(template_entries(*templates), group_entries(*categories), template_entries(*templates).len() as int).0,
        r.1 == template_kinds(template_entries(*templates), group_entries(*categories), template_entries(*templates).len() as int).1,
        r.2 == template_kinds(template_entries(*templates), group_entries(*categories), template_entries(*templates).len() as int).2,
{
    let ghost ts = template_entries(*templates);
    let ghost gs = group_entries(*categories);
    let n = tm_len(templates);
    let mut leaf: usize = 0;
    let mut mixin: usize = 0;
    let mut root: usize = 0;
    let mut i: usize = 0;
    while i < n
        invariant
            ts == template_entries(*templates),
            gs == group_entries(*categories),
            n == ts.len(),
            i <= n,
            (leaf as nat, mixin as nat, root as nat) == template_kinds(ts, gs, i as int),
        decreases n - i,
    {
        proof {
            lemma_template_kinds_bound(ts, gs, i as int);
        }
        let (name, t) = tm_get_index(templates, i).unwrap();
        if t.extends.is_some() {
            leaf = leaf + 1;
        } else if gm_get(categories, name.as_str()).is_some() {
            root = root + 1;
        } else {
            mixin = mixin + 1;
        }
        i = i + 1;
    }
    (leaf, mixin, root)
}

/// The note on template inheritance, when there are mixins or leaves,
/// then the section rule.
pub open spec fn inheritance_note(leaf: nat, mixin: nat) -> Seq<char> {
    (if mixin > 0 || leaf > 0 {
        flatten(
            seq![
                "- **Template inheritance**: "@,
                decimal(mixin),
                " mixin template(s), "@,
                decimal(leaf),
                " leaf template(s) using `$extends`\n"@,
            ],
        )
    } else {
        Seq::empty()
    }) + "\n---\n\n"@
}

fn append_inheritance_note(md: &mut String, leaf: usize, mixin: usize)
    ensures
        final(md)@ == old(md)@ + inheritance_note(leaf as nat, mixin as nat),
{
    let ghost start = md@;
    let mut p: Vec<String> = Vec::new();
    if mixin > 0 || leaf > 0 {
        push_piece(&mut p, string_of("- **Template inheritance**: "));
        push_piece(&mut p, usize_text(mixin));
        push_piece(&mut p, string_of(" mixin template(s), "));
        push_piece(&mut p, usize_text(leaf));
        push_piece(&mut p, string_of(" leaf template(s) using `$extends`\n"));
        proof {
            assert(names_view(p) =~= seq![
                "- **Template inheritance**: "@,
                decimal(mixin as nat),
                " mixin template(s), "@,
                decimal(leaf as nat),
                " leaf template(s) using `$extends`\n"@,
            ]);
        }
    } else {
        proof {
            assert(names_view(p) =~= Seq::<Seq<char>>::empty());
        }
    }
    append_all(md, &p);
    md.append("\n---\n\n");
    proof {
        assert(md@ =~= start + inheritance_note(leaf as nat, mixin as nat));
    }
}

// ---------------------------------------------------------------------------
// Template inheritance table
// ---------------------------------------------------------------------------

/// The row of a template: its kind, its parents, and its category's agent
/// count.
pub open spec fn template_row(name: Seq<char>, t: Template, gs: Seq<(Seq<char>, Seq<Seq<char>>)>) -> Seq<char> {
    let kind = match t.extends {
        Some(_) => "Leaf"@,
        None => if has_key(gs, name) {
            "Root"@
        } else {
            "Mixin"@
        },
    };
    let inherits = match t.extends {
        Some(e) => join_with(extends_parents(e), ", "@),
        None => "\u{2014}"@,
    };
    let count = match lookup(gs, name) {
        Some(a) => decimal(a.len()),
        None => "\u{2014}"@,
    };
    flatten(seq!["| `"@, name, "` | "@, kind, " | "@, inherits, " | "@, count, " |\n"@])
}

/// The rows of the first `k` templates.
pub open spec fn template_rows(ts: Seq<(Seq<char>, Template)>, gs: Seq<(Seq<char>, Seq<Seq<char>>)>, k: int) -> Seq<char>
    decreases k,
{
    if k <= 0 {
        Seq::empty()
    } else {
        template_rows(ts, gs, k - 1) + template_row(ts[k - 1].0, ts[k - 1].1, gs)
    }
}

/// The template inheritance section.
pub open spec fn inheritance_table(ts: Seq<(Seq<char>, Template)>, gs: Seq<(Seq<char>, Seq<Seq<char>>)>) -> Seq<char> {
    "## Template Inheritance\n\n"@ + "| Template | Type | Inherits From | Agents |\n"@ + "| --- | --- | --- | :---: |\n"@
        + template_rows(ts, gs, ts.len() as int) + "\n---\n\n"@
}

fn template_row_exec(name: &String, t: &Template, categories: &CategoryMap) -> (r: String)
    ensures
        r@ == template_row(name@, *t, group_entries(*categories)),
{
    let ghost gs = group_entries(*categories);
    let found = gm_get(categories, name.as_str());
    let kind = match &t.extends {
        Some(_) => "Leaf",
        None => if found.is_some() {
            "Root"
        } else {
            "Mixin"
        },
    };
    let inherits = match &t.extends {
        Some(e) => {
            let ps = e.parents();
            join_strs(&ps, ", ")
        },
        None => string_of("\u{2014}"),
    };
    let count = match found {
        Some(a) => usize_text(a.len()),
        None => string_of("\u{2014}"),
    };
    let mut p: Vec<String> = Vec::new();
    push_piece(&mut p, string_of("| `"));
    push_piece(&mut p, name.clone());
    push_piece(&mut p, string_of("` | "));
    push_piece(&mut p, string_of(kind));
    push_piece(&mut p, string_of(" | "));
    push_piece(&mut p, inherits);
    push_piece(&mut p, string_of(" | "));
    push_piece(&mut p, count);
    push_piece(&mut p, string_of(" |\n"));
    let mut r = String::new();
    proof {
        let kind_s = match t.extends {
            Some(_) => "Leaf"@,
            None => if has_key(gs, name@) {
                "Root"@
            } else {
                "Mixin"@
            },
        };
        assert(kind@ == kind_s);
        assert(names_view(p) =~= seq![
            "| `"@,
            name@,
            "` | "@,
            kind_s,
            " | "@,
            inherits@,
            " | "@,
            count@,
            " |\n"@,
        ]);
    }
    append_all(&mut r, &p);
    proof {
        assert(r@ =~= flatten(names_view(p)));
    }
    r
}

fn append_inheritance_table(md: &mut String, templates: &IndexMap<String, Template>, categories: &CategoryMap)
    ensures
        final(md)@ == old(md)@ + inheritance_table(template_entries(*templates), group_entries(*categories)),
{
    let ghost ts = template_entries(*templates);
    let ghost gs = group_entries(*categories);
    let ghost start = md@;
    md.append("## Template Inheritance\n\n");
    md.append("| Template | Type | Inherits From | Agents |\n");
    md.append("| --- | --- | --- | :---: |\n");
    let ghost head = md@;
    let n = tm_len(templates);
    let mut i: usize = 0;
    while i < n
        invariant
            ts == template_entries(*templates),
            gs == group_entries(*categories),
            n == ts.len(),
            i <= n,
            md@ == head + template_rows(ts, gs, i as int),
        decreases n - i,
    {
        let (name, t) = tm_get_index(templates, i).unwrap();
        let row = template_row_exec(name, t, categories);
        md.append(row.as_str());
        proof {
            vstd::seq_lib::lemma_concat_associative(head, template_rows(ts, gs, i as int), row@);
        }
        i = i + 1;
    }
    md.append("\n---\n\n");
    proof {
        assert(md@ =~= start + inheritance_table(ts, gs));
    }
}

// ---------------------------------------------------------------------------
// Delta summary table
// ---------------------------------------------------------------------------

/// The smaller of two numbers.
pub open spec fn min_nat(a: nat, b: nat) -> nat {
    if a < b {
        a
    } else {
        b
    }
}

/// The note parts: up to four added keys, and up to three removed keys
/// when there are no more than three.
pub open spec fn note_parts(adds: Seq<(Seq<char>, Seq<char>)>, removes: Seq<Seq<char>>) -> Seq<Seq<char>> {
    (if adds.len() > 0 {
        seq![
            join_with(
                adds.take(min_nat(4, adds.len()) as int).map_values(|e: (Seq<char>, Seq<char>)| "+`"@ + e.0 + "`"@),
                ", "@,
            ),
        ]
    } else {
        Seq::empty()
    }) + (if removes.len() > 0 && removes.len() <= 3 {
        seq![join_with(removes.map_values(|k: Seq<char>| "\u{2212}`"@ + k + "`"@), ", "@)]
    } else {
        Seq::empty()
    })
}

/// The notes of a row: the keys of its delta against its template.
pub open spec fn notes_text(sot: Sot, ts: Seq<(Seq<char>, Template)>, d: ResultView) -> Seq<char> {
    if row_total(d) == 0 {
        Seq::empty()
    } else {
        match lookup(ts, d.1) {
            None => Seq::empty(),
            Some(t) => {
                let dl = template_delta(sot, t, d.0, d.1);
                join_with(note_parts(dl.0, dl.1), ", "@)
            },
        }
    }
}

/// Build a short notes string for the delta summary table.
pub fn build_notes(d: &GenerateResult, sot: &Sot, templates: &IndexMap<String, Template>) -> (r: String)
    requires
        d.adds + d.removes <= usize::MAX,
    ensures
        r@ == notes_text(*sot, template_entries(*templates), d.result_view()),
{
    if d.adds + d.removes == 0 {
        return String::new();
    }
    let template = match tm_get(templates, d.category.as_str()) {
        Some(t) => t,
        None => {
            return String::new();
        },
    };
    let delta = compute_delta(sot, template, d.agent.as_str(), d.category.as_str());
    let ghost dv = delta_view(delta);
    let mut parts: Vec<String> = Vec::new();
    if delta.adds.len() > 0 {
        let n = if delta.adds.len() < 4 {
            delta.adds.len()
        } else {
            4
        };
        let mut keys: Vec<String> = Vec::new();
        let mut i: usize = 0;
        while i < n
            invariant
                n <= delta.adds@.len(),
                dv == delta_view(delta),
                i <= n,
                names_view(keys) == dv.0.take(i as int).map_values(|e: (Seq<char>, Seq<char>)| "+`"@ + e.0 + "`"@),
            decreases n - i,
        {
            let mut k = string_of("+`");
            k.append(delta.adds[i].0.as_str());
            k.append("`");
            let ghost pre = names_view(keys);
            keys.push(k);
            proof {
                assert(dv.0[i as int].0 == delta.adds@[i as int].0@);
                assert(names_view(keys) =~= pre.push(k@));
                assert(dv.0.take(i + 1).map_values(|e: (Seq<char>, Seq<char>)| "+`"@ + e.0 + "`"@) =~= dv.0.take(
                    i as int,
                ).map_values(|e: (Seq<char>, Seq<char>)| "+`"@ + e.0 + "`"@).push(k@));
            }
            i = i + 1;
        }
        let joined_keys = join_names(&keys, keys.len(), ", ");
        proof {
            assert(names_view(keys).take(keys@.len() as int) =~= names_view(keys));
        }
        push_piece(&mut parts, joined_keys);
    }
    if delta.removes.len() > 0 && delta.removes.len() <= 3 {
        let mut keys: Vec<String> = Vec::new();
        let mut i: usize = 0;
        while i < delta.removes.len()
            invariant
                dv == delta_view(delta),
                i <= delta.removes@.len(),
                names_view(keys) == dv.1.take(i as int).map_values(|k: Seq<char>| "\u{2212}`"@ + k + "`"@),
            decreases delta.removes.len() - i,
        {
            let mut k = string_of("\u{2212}`");
            k.append(delta.removes[i].as_str());
            k.append("`");
            let ghost pre = names_view(keys);
            keys.push(k);
            proof {
                assert(dv.1[i as int] == delta.removes@[i as int]@);
                assert(names_view(keys) =~= pre.push(k@));
                assert(dv.1.take(i + 1).map_values(|k: Seq<char>| "\u{2212}`"@ + k + "`"@) =~= dv.1.take(
                    i as int,
                ).map_values(|k: Seq<char>| "\u{2212}`"@ + k + "`"@).push(k@));
            }
            i = i + 1;
        }
        let joined_keys = join_names(&keys, keys.len(), ", ");
        proof {
            assert(names_view(keys).take(keys@.len() as int) =~= names_view(keys));
            assert(dv.1.take(dv.1.len() as int) =~= dv.1);
        }
        push_piece(&mut parts, joined_keys);
    }
    let r = join_names(&parts, parts.len(), ", ");
    proof {
        assert(names_view(parts).take(parts@.len() as int) =~= names_view(parts));
        assert(names_view(parts) =~= note_parts(dv.0, dv.1));
    }
    r
}

/// A row of the delta summary table.
pub open spec fn delta_row(d: ResultView, notes: Seq<char>) -> Seq<char> {
    let total = row_total(d);
    flatten(
        seq![
            "| **"@,
            d.0,
            "**"@,
            spaces(sat_sub(33, (utf8_len(d.0) + 4) as int)),
            " | "@,
            d.1,
            spaces(sat_sub(18, utf8_len(d.1) as int)),
            " | "@,
            right_aligned(decimal(min_nat(total, 9999)), 4),
            " | "@,
            right_aligned(decimal(d.3), 7),
            " | "@,
            right_aligned(decimal(total), 5),
            " | "@,
            notes,
            " |\n"@,
        ],
    )
}

/// The rows of the first `k` deltas.
pub open spec fn delta_rows(sot: Sot, ts: Seq<(Seq<char>, Template)>, ds: Seq<ResultView>, k: int) -> Seq<char>
    decreases k,
{
    if k <= 0 {
        Seq::empty()
    } else {
        delta_rows(sot, ts, ds, k - 1) + delta_row(ds[k - 1], notes_text(sot, ts, ds[k - 1]))
    }
}

/// The header of the delta summary table.
pub open spec fn delta_table_head() -> Seq<char> {
    "## Delta Summary Table\n\n"@
        + "| Agent                             | Category           | Adds | Removes | Total | Notes                                              |\n"@
        + "| --------------------------------- | ------------------ | :--: | :-----: | :---: | -------------------------------------------------- |\n"@
}

fn right_text(s: String, w: usize) -> (r: String)
    ensures
        r@ == right_aligned(s@, w as nat),
{
    let mut r = String::new();
    append_right(&mut r, s.as_str(), w);
    r
}

fn spaces_text(n: usize) -> (r: String)
    ensures
        r@ == spaces(n as nat),
{
    let mut r = String::new();
    append_spaces(&mut r, n);
    assert(r@ =~= spaces(n as nat));
    r
}

fn delta_row_exec(d: &GenerateResult, notes: String) -> (r: String)
    requires
        d.adds + d.removes <= usize::MAX,
    ensures
        r@ == delta_row(d.result_view(), notes@),
{
    let total = d.adds + d.removes;
    let alen = byte_len(d.agent.as_str());
    let clen = byte_len(d.category.as_str());
    let pad1 = if alen < 29 {
        29 - alen
    } else {
        0
    };
    let pad2 = if clen < 18 {
        18 - clen
    } else {
        0
    };
    let capped = if total < 9999 {
        total
    } else {
        9999
    };
    let mut p: Vec<String> = Vec::new();
    push_piece(&mut p, string_of("| **"));
    push_piece(&mut p, d.agent.clone());
    push_piece(&mut p, string_of("**"));
    push_piece(&mut p, spaces_text(pad1));
    push_piece(&mut p, string_of(" | "));
    push_piece(&mut p, d.category.clone());
    push_piece(&mut p, spaces_text(pad2));
    push_piece(&mut p, string_of(" | "));
    push_piece(&mut p, right_text(usize_text(capped), 4));
    push_piece(&mut p, string_of(" | "));
    push_piece(&mut p, right_text(usize_text(d.removes), 7));
    push_piece(&mut p, string_of(" | "));
    push_piece(&mut p, right_text(usize_text(total), 5));
    push_piece(&mut p, string_of(" | "));
    push_piece(&mut p, notes);
    push_piece(&mut p, string_of(" |\n"));
    let ghost dv = d.result_view();
    proof {
        assert(pad1 == sat_sub(33, (utf8_len(dv.0) + 4) as int));
        assert(pad2 == sat_sub(18, utf8_len(dv.1) as int));
        assert(capped == min_nat(row_total(dv), 9999));
        assert(names_view(p) =~= seq![
            "| **"@,
            dv.0,
            "**"@,
            spaces(sat_sub(33, (utf8_len(dv.0) + 4) as int)),
            " | "@,
            dv.1,
            spaces(sat_sub(18, utf8_len(dv.1) as int)),
            " | "@,
            right_aligned(decimal(min_nat(row_total(dv), 9999)), 4),
            " | "@,
            right_aligned(decimal(dv.3), 7),
            " | "@,
            right_aligned(decimal(row_total(dv)), 5),
            " | "@,
            notes@,
            " |\n"@,
        ]);
    }
    let mut r = String::new();
    append_all(&mut r, &p);
    proof {
        assert(r@ =~= flatten(names_view(p)));
    }
    r
}

fn append_delta_table(md: &mut String, ds: &Vec<GenerateResult>, sot: &Sot, templates: &IndexMap<String, Template>)
    requires
        forall|i: int| 0 <= i < ds@.len() ==> #[trigger] ds@[i].adds + ds@[i].removes <= usize::MAX,
    ensures
        final(md)@ == old(md)@ + delta_table_head() + delta_rows(
            *sot,
            template_entries(*templates),
            crate::generator::results_view(ds@),
            ds@.len() as int,
        ) + "\n---\n\n"@,
{
    let ghost v = crate::generator::results_view(ds@);
    let ghost ts = template_entries(*templates);
    let ghost start = md@;
    md.append("## Delta Summary Table\n\n");
    md.append("| Agent                             | Category           | Adds | Removes | Total | Notes                                              |\n");
    md.append("| --------------------------------- | ------------------ | :--: | :-----: | :---: | -------------------------------------------------- |\n");
    let ghost head = md@;
    assert(head =~= start + delta_table_head());
    let mut i: usize = 0;
    while i < ds.len()
        invariant
            v == crate::generator::results_view(ds@),
            ts == template_entries(*templates),
            forall|j: int| 0 <= j < ds@.len() ==> #[trigger] ds@[j].adds + ds@[j].removes <= usize::MAX,
            i <= ds@.len(),
            md@ == head + delta_rows(*sot, ts, v, i as int),
        decreases ds.len() - i,
    {
        let d = &ds[i];
        assert(v[i as int] == d.result_view());
        let notes = build_notes(d, sot, templates);
        let row = delta_row_exec(d, notes);
        md.append(row.as_str());
        proof {
            vstd::seq_lib::lemma_concat_associative(head, delta_rows(*sot, ts, v, i as int), row@);
        }
        i = i + 1;
    }
    md.append("\n---\n\n");
}

// ---------------------------------------------------------------------------
// Distribution by delta size
// ---------------------------------------------------------------------------

/// The agents of the first `k` rows grouped by total, groups in order of
/// first appearance.
pub open spec fn size_groups_of(ds: Seq<ResultView>, k: int) -> Seq<(nat, Seq<Seq<char>>)>
    decreases k,
{
    if k <= 0 {
        Seq::empty()
    } else {
        push_size(size_groups_of(ds, k - 1), row_total(ds[k - 1]), ds[k - 1].0)
    }
}

/// Where group `x` goes in `s`, scanning from `i`: before the first group
/// with a larger size, else last.
pub open spec fn size_insert_pos(s: Seq<(nat, Seq<Seq<char>>)>, x: (nat, Seq<Seq<char>>), i: int) -> int
    decreases s.len() - i,
{
    if i < 0 || i >= s.len() {
        s.len() as int
    } else if x.0 < s[i].0 {
        i
    } else {
        size_insert_pos(s, x, i + 1)
    }
}

/// The first `n` groups sorted stably by size.
pub open spec fn sorted_by_size(v: Seq<(nat, Seq<Seq<char>>)>, n: int) -> Seq<(nat, Seq<Seq<char>>)>
    decreases n,
{
    if n <= 0 {
        Seq::empty()
    } else {
        let s = sorted_by_size(v, n - 1);
        s.insert(size_insert_pos(s, v[n - 1], 0), v[n - 1])
    }
}

proof fn lemma_size_insert_pos_bounds(s: Seq<(nat, Seq<Seq<char>>)>, x: (nat, Seq<Seq<char>>), i: int)
    requires
        0 <= i <= s.len(),
    ensures
        i <= size_insert_pos(s, x, i) <= s.len(),
    decreases s.len() - i,
{
    if i < s.len() && !(x.0 < s[i].0) {
        lemma_size_insert_pos_bounds(s, x, i + 1);
    }
}

/// The agent list of a distribution row: at most eight names, then an
/// ellipsis.
pub open spec fn agent_list(names: Seq<Seq<char>>) -> Seq<char> {
    if names.len() > 8 {
        join_with(names.take(8), ", "@) + ", ..."@
    } else {
        join_with(names, ", "@)
    }
}

/// A row of the distribution table.
pub open spec fn dist_row(g: (nat, Seq<Seq<char>>)) -> Seq<char> {
    flatten(seq!["| "@, decimal(g.0), " | "@, decimal(g.1.len()), " | "@, agent_list(g.1), " |\n"@])
}

/// The rows of the first `k` groups.
pub open spec fn dist_rows(gs: Seq<(nat, Seq<Seq<char>>)>, k: int) -> Seq<char>
    decreases k,
{
    if k <= 0 {
        Seq::empty()
    } else {
        dist_rows(gs, k - 1) + dist_row(gs[k - 1])
    }
}

/// The distribution section: agents grouped by delta total, smallest first.
pub open spec fn distribution_text(ds: Seq<ResultView>) -> Seq<char> {
    let groups = size_groups_of(ds, ds.len() as int);
    let sorted = sorted_by_size(groups, groups.len() as int);
    "## Distribution by Delta Size\n\n"@ + "| Delta | Count | Agents |\n"@ + "| ----: | :---: | --- |\n"@ + dist_rows(
        sorted,
        sorted.len() as int,
    ) + "\n---\n\n"@
}

fn copy_names(v: &Vec<String>) -> (r: Vec<String>)
    ensures
        names_view(r) == names_view(*v),
{
    let mut r: Vec<String> = Vec::new();
    let mut i: usize = 0;
    while i < v.len()
        invariant
            i <= v@.len(),
            names_view(r) == names_view(*v).take(i as int),
        decreases v.len() - i,
    {
        let ghost pre = names_view(r);
        r.push(v[i].clone());
        proof {
            assert(names_view(r) =~= pre.push(v@[i as int]@));
            assert(names_view(*v).take(i + 1) =~= names_view(*v).take(i as int).push(v@[i as int]@));
        }
        i = i + 1;
    }
    proof {
        assert(names_view(*v).take(v@.len() as int) =~= names_view(*v));
    }
    r
}

/// The views of size groups.
pub open spec fn size_groups_view(v: Seq<(usize, Vec<String>)>) -> Seq<(nat, Seq<Seq<char>>)> {
    v.map_values(|g: (usize, Vec<String>)| (g.0 as nat, names_view(g.1)))
}

fn sorted_size_groups(ds: &Vec<GenerateResult>) -> (r: Vec<(usize, Vec<String>)>)
    requires
        forall|i: int| 0 <= i < ds@.len() ==> #[trigger] ds@[i].adds + ds@[i].removes <= usize::MAX,
    ensures
        ({
            let groups = size_groups_of(crate::generator::results_view(ds@), ds@.len() as int);
            size_groups_view(r@) == sorted_by_size(groups, groups.len() as int)
        }),
{
    let ghost v = crate::generator::results_view(ds@);
    let mut dist = sg_new();
    let mut i: usize = 0;
    while i < ds.len()
        invariant
            v == crate::generator::results_view(ds@),
            forall|j: int| 0 <= j < ds@.len() ==> #[trigger] ds@[j].adds + ds@[j].removes <= usize::MAX,
            i <= ds@.len(),
            size_groups(dist) == size_groups_of(v, i as int),
        decreases ds.len() - i,
    {
        let d = &ds[i];
        assert(v[i as int] == d.result_view());
        sg_push(&mut dist, d.adds + d.removes, d.agent.clone());
        i = i + 1;
    }
    let ghost groups = size_groups(dist);
    let n = sg_len(&dist);
    let mut out: Vec<(usize, Vec<String>)> = Vec::new();
    let mut k: usize = 0;
    while k < n
        invariant
            groups == size_groups(dist),
            n == groups.len(),
            k <= n,
            size_groups_view(out@) == sorted_by_size(groups, k as int),
        decreases n - k,
    {
        let (size, names) = sg_get_index(&dist, k).unwrap();
        let ghost s = size_groups_view(out@);
        let ghost x = groups[k as int];
        let mut p: usize = 0;
        while p < out.len() && !(*size < out[p].0)
            invariant
                s == size_groups_view(out@),
                p <= out@.len(),
                x.0 == *size as nat,
                size_insert_pos(s, x, 0) == size_insert_pos(s, x, p as int),
            decreases out.len() - p,
        {
            p = p + 1;
        }
        proof {
            lemma_size_insert_pos_bounds(s, x, 0);
        }
        let c = copy_names(names);
        out.insert(p, (*size, c));
        proof {
            assert(size_groups_view(out@) =~= s.insert(p as int, x));
        }
        k = k + 1;
    }
    out
}

fn agent_list_exec(names: &Vec<String>) -> (r: String)
    ensures
        r@ == agent_list(names_view(*names)),
{
    if names.len() > 8 {
        let mut r = join_names(names, 8, ", ");
        r.append(", ...");
        r
    } else {
        let r = join_names(names, names.len(), ", ");
        proof {
            assert(names_view(*names).take(names@.len() as int) =~= names_view(*names));
        }
        r
    }
}

fn append_distribution(md: &mut String, ds: &Vec<GenerateResult>)
    requires
        forall|i: int| 0 <= i < ds@.len() ==> #[trigger] ds@[i].adds + ds@[i].removes <= usize::MAX,
    ensures
        final(md)@ == old(md)@ + distribution_text(crate::generator::results_view(ds@)),
{
    let ghost start = md@;
    let sorted = sorted_size_groups(ds);
    let ghost sv = size_groups_view(sorted@);
    md.append("## Distribution by Delta Size\n\n");
    md.append("| Delta | Count | Agents |\n");
    md.append("| ----: | :---: | --- |\n");
    let ghost head = md@;
    let mut i: usize = 0;
    while i < sorted.len()
        invariant
            sv == size_groups_view(sorted@),
            i <= sorted@.len(),
            md@ == head + dist_rows(sv, i as int),
        decreases sorted.len() - i,
    {
        let (size, names) = &sorted[i];
        assert(sv[i as int] == (*size as nat, names_view(*names)));
        let mut p: Vec<String> = Vec::new();
        push_piece(&mut p, string_of("| "));
        push_piece(&mut p, usize_text(*size));
        push_piece(&mut p, string_of(" | "));
        push_piece(&mut p, usize_text(names.len()));
        push_piece(&mut p, string_of(" | "));
        push_piece(&mut p, agent_list_exec(names));
        push_piece(&mut p, string_of(" |\n"));
        proof {
            assert(names_view(p) =~= seq![
                "| "@,
                decimal(*size as nat),
                " | "@,
                decimal(names@.len()),
                " | "@,
                agent_list(names_view(*names)),
                " |\n"@,
            ]);
        }
        let ghost before = md@;
        append_all(md, &p);
        proof {
            vstd::seq_lib::lemma_concat_associative(head, dist_rows(sv, i as int), dist_row(sv[i as int]));
        }
        i = i + 1;
    }
    md.append("\n---\n\n");
    proof {
        assert(md@ =~= start + distribution_text(crate::generator::results_view(ds@)));
    }
}

// ---------------------------------------------------------------------------
// Category profiles
// ---------------------------------------------------------------------------

/// Agent `a` has a row with no delta.
pub open spec fn has_zero_row(ds: Seq<ResultView>, a: Seq<char>) -> bool {
    exists|i: int| 0 <= i < ds.len() && (#[trigger] ds[i]).0 == a && row_total(ds[i]) == 0
}

/// Every agent of the category has a row with no delta.
pub open spec fn all_zero(ds: Seq<ResultView>, agents: Seq<Seq<char>>) -> bool {
    forall|j: int| 0 <= j < agents.len() ==> has_zero_row(ds, #[trigger] agents[j])
}

/// How a zero-delta category's template is described.
pub open spec fn template_type_text(cat: Seq<char>) -> Seq<char> {
    if cat == "general-purpose"@ {
        "`\"write/edit/bash\": \"deny\"`"@
    } else if cat == "unrestricted"@ {
        "`\"*\": \"allow\"`"@
    } else if simple_categories().contains(cat) {
        "`\"bash\": \"deny\"`"@
    } else {
        "Complex bash object"@
    }
}

/// The rows of the zero-delta categories among the first `k` categories.
pub open spec fn zero_category_rows(gs: Seq<(Seq<char>, Seq<Seq<char>>)>, ds: Seq<ResultView>, k: int) -> Seq<char>
    decreases k,
{
    if k <= 0 {
        Seq::empty()
    } else {
        zero_category_rows(gs, ds, k - 1) + if all_zero(ds, gs[k - 1].1) {
            flatten(
                seq![
                    "| "@,
                    gs[k - 1].0,
                    " | "@,
                    decimal(gs[k - 1].1.len()),
                    " | "@,
                    template_type_text(gs[k - 1].0),
                    " |\n"@,
                ],
            )
        } else {
            Seq::empty()
        }
    }
}

/// Among the first `k` rows, those of category `cat`, in order.
pub open spec fn category_rows(ds: Seq<ResultView>, cat: Seq<char>, k: int) -> Seq<ResultView>
    decreases k,
{
    if k <= 0 {
        Seq::empty()
    } else {
        category_rows(ds, cat, k - 1) + if ds[k - 1].1 == cat {
            seq![ds[k - 1]]
        } else {
            Seq::empty()
        }
    }
}

/// How many of the first `k` rows have a delta.
pub open spec fn nonzero_rows(ds: Seq<ResultView>, k: int) -> nat
    decreases k,
{
    if k <= 0 {
        0
    } else {
        nonzero_rows(ds, k - 1) + if row_total(ds[k - 1]) > 0 {
            1nat
        } else {
            0nat
        }
    }
}

/// The line of one agent of a category with overrides.
pub open spec fn override_agent_line(d: ResultView) -> Seq<char> {
    if row_total(d) > 0 {
        flatten(seq!["- `"@, d.0, "`: "@, decimal(d.2), " adds, "@, decimal(d.3), " removes\n"@])
    } else {
        flatten(seq!["- `"@, d.0, "`: matches baseline exactly\n"@])
    }
}

/// The lines of the first `k` rows of a category.
pub open spec fn override_agent_lines(cds: Seq<ResultView>, k: int) -> Seq<char>
    decreases k,
{
    if k <= 0 {
        Seq::empty()
    } else {
        override_agent_lines(cds, k - 1) + override_agent_line(cds[k - 1])
    }
}

/// The paragraph of a category, when some of its agents have overrides.
pub open spec fn override_section(cat: Seq<char>, agents: nat, ds: Seq<ResultView>) -> Seq<char> {
    let cds = category_rows(ds, cat, ds.len() as int);
    let count = nonzero_rows(cds, cds.len() as int);
    if count == 0 {
        Seq::empty()
    } else {
        flatten(
            seq![
                "**"@,
                cat,
                "** ("@,
                decimal(agents),
                " agents, "@,
                decimal(count),
                " with overrides)\n\n"@,
            ],
        ) + override_agent_lines(cds, cds.len() as int) + "\n"@
    }
}

/// The paragraphs of the first `k` categories.
pub open spec fn override_sections(gs: Seq<(Seq<char>, Seq<Seq<char>>)>, ds: Seq<ResultView>, k: int) -> Seq<char>
    decreases k,
{
    if k <= 0 {
        Seq::empty()
    } else {
        override_sections(gs, ds, k - 1) + override_section(gs[k - 1].0, gs[k - 1].1.len(), ds)
    }
}

/// The category profiles section.
pub open spec fn profiles_text(gs: Seq<(Seq<char>, Seq<Seq<char>>)>, ds: Seq<ResultView>) -> Seq<char> {
    "## Category Profiles\n\n"@ + "### Zero-Delta Categories (all agents match template exactly)\n\n"@
        + "| Category | Agents | Template Type |\n"@ + "| --- | :---: | --- |\n"@ + zero_category_rows(
        gs,
        ds,
        gs.len() as int,
    ) + "\n### Categories With Overrides\n\n"@ + override_sections(gs, ds, gs.len() as int) + "---\n\n"@
}

fn zero_for_all(ds: &Vec<GenerateResult>, agents: &Vec<String>) -> (r: bool)
    requires
        forall|i: int| 0 <= i < ds@.len() ==> #[trigger] ds@[i].adds + ds@[i].removes <= usize::MAX,
    ensures
        r == all_zero(crate::generator::results_view(ds@), names_view(*agents)),
{
    let ghost v = crate::generator::results_view(ds@);
    let ghost av = names_view(*agents);
    let mut j: usize = 0;
    while j < agents.len()
        invariant
            v == crate::generator::results_view(ds@),
            av == names_view(*agents),
            forall|i: int| 0 <= i < ds@.len() ==> #[trigger] ds@[i].adds + ds@[i].removes <= usize::MAX,
            j <= agents@.len(),
            forall|q: int| 0 <= q < j ==> has_zero_row(v, #[trigger] av[q]),
        decreases agents.len() - j,
    {
        let a = &agents[j];
        assert(av[j as int] == a@);
        let mut found = false;
        let mut i: usize = 0;
        while i < ds.len()
            invariant
                v == crate::generator::results_view(ds@),
                forall|q: int| 0 <= q < ds@.len() ==> #[trigger] ds@[q].adds + ds@[q].removes <= usize::MAX,
                i <= ds@.len(),
                found == exists|q: int| 0 <= q < i && (#[trigger] v[q]).0 == a@ && row_total(v[q]) == 0,
            decreases ds.len() - i,
        {
            assert(v[i as int] == ds@[i as int].result_view());
            if str_eq(ds[i].agent.as_str(), a.as_str()) && ds[i].adds + ds[i].removes == 0 {
                found = true;
            }
            i = i + 1;
        }
        if !found {
            assert(!has_zero_row(v, av[j as int]));
            return false;
        }
        j = j + 1;
    }
    true
}

fn type_text_exec(cat: &str) -> (r: &'static str)
    ensures
        r@ == template_type_text(cat@),
{
    if str_eq(cat, "general-purpose") {
        "`\"write/edit/bash\": \"deny\"`"
    } else if str_eq(cat, "unrestricted") {
        "`\"*\": \"allow\"`"
    } else if is_simple_category(cat) {
        "`\"bash\": \"deny\"`"
    } else {
        "Complex bash object"
    }
}

fn append_zero_categories(md: &mut String, categories: &CategoryMap, ds: &Vec<GenerateResult>)
    requires
        forall|i: int| 0 <= i < ds@.len() ==> #[trigger] ds@[i].adds + ds@[i].removes <= usize::MAX,
    ensures
        final(md)@ == old(md)@ + zero_category_rows(
            group_entries(*categories),
            crate::generator::results_view(ds@),
            group_entries(*categories).len() as int,
        ),
{
    let ghost gs = group_entries(*categories);
    let ghost v = crate::generator::results_view(ds@);
    let ghost start = md@;
    let n = gm_len(categories);
    let mut c: usize = 0;
    while c < n
        invariant
            gs == group_entries(*categories),
            v == crate::generator::results_view(ds@),
            forall|i: int| 0 <= i < ds@.len() ==> #[trigger] ds@[i].adds + ds@[i].removes <= usize::MAX,
            n == gs.len(),
            c <= n,
            md@ == start + zero_category_rows(gs, v, c as int),
        decreases n - c,
    {
        let (cat, agents) = gm_get_index(categories, c).unwrap();
        if zero_for_all(ds, agents) {
            let mut p: Vec<String> = Vec::new();
            push_piece(&mut p, string_of("| "));
            push_piece(&mut p, cat.clone());
            push_piece(&mut p, string_of(" | "));
            push_piece(&mut p, usize_text(agents.len()));
            push_piece(&mut p, string_of(" | "));
            push_piece(&mut p, string_of(type_text_exec(cat.as_str())));
            push_piece(&mut p, string_of(" |\n"));
            proof {
                assert(names_view(p) =~= seq![
                    "| "@,
                    gs[c as int].0,
                    " | "@,
                    decimal(gs[c as int].1.len()),
                    " | "@,
                    template_type_text(gs[c as int].0),
                    " |\n"@,
                ]);
            }
            append_all(md, &p);
            proof {
                vstd::seq_lib::lemma_concat_associative(start, zero_category_rows(gs, v, c as int), flatten(names_view(p)));
            }
        } else {
            assert(zero_category_rows(gs, v, c + 1) =~= zero_category_rows(gs, v, c as int));
        }
        c = c + 1;
    }
}

fn append_override_section(md: &mut String, cat: &str, agents: usize, ds: &Vec<GenerateResult>)
    requires
        forall|i: int| 0 <= i < ds@.len() ==> #[trigger] ds@[i].adds + ds@[i].removes <= usize::MAX,
    ensures
        final(md)@ == old(md)@ + override_section(cat@, agents as nat, crate::generator::results_view(ds@)),
{
    let ghost v = crate::generator::results_view(ds@);
    let ghost start = md@;
    // the category's rows, and how many of them have a delta
    let mut rows: Vec<usize> = Vec::new();
    let mut count: usize = 0;
    let mut i: usize = 0;
    while i < ds.len()
        invariant
            v == crate::generator::results_view(ds@),
            forall|q: int| 0 <= q < ds@.len() ==> #[trigger] ds@[q].adds + ds@[q].removes <= usize::MAX,
            i <= ds@.len(),
            rows@.map_values(|q: usize| v[q as int]) == category_rows(v, cat@, i as int),
            forall|q: int| 0 <= q < rows@.len() ==> #[trigger] rows@[q] < i,
            count == nonzero_rows(category_rows(v, cat@, i as int), category_rows(v, cat@, i as int).len() as int),
            count <= rows@.len(),
            rows@.len() <= i,
        decreases ds.len() - i,
    {
        assert(v[i as int] == ds@[i as int].result_view());
        let ghost before = category_rows(v, cat@, i as int);
        if str_eq(ds[i].category.as_str(), cat) {
            let ghost pre = rows@;
            rows.push(i);
            proof {
                assert(rows@.map_values(|q: usize| v[q as int]) =~= pre.map_values(|q: usize| v[q as int]).push(v[i as int]));
                assert(category_rows(v, cat@, i + 1) =~= before.push(v[i as int]));
                lemma_nonzero_push(before, v[i as int]);
            }
            if ds[i].adds + ds[i].removes > 0 {
                count = count + 1;
            }
        } else {
            assert(category_rows(v, cat@, i + 1) =~= before);
        }
        i = i + 1;
    }
    let ghost cds = category_rows(v, cat@, ds@.len() as int);
    if count == 0 {
        return;
    }
    let mut p: Vec<String> = Vec::new();
    push_piece(&mut p, string_of("**"));
    push_piece(&mut p, string_of(cat));
    push_piece(&mut p, string_of("** ("));
    push_piece(&mut p, usize_text(agents));
    push_piece(&mut p, string_of(" agents, "));
    push_piece(&mut p, usize_text(count));
    push_piece(&mut p, string_of(" with overrides)\n\n"));
    proof {
        assert(names_view(p) =~= seq![
            "**"@,
            cat@,
            "** ("@,
            decimal(agents as nat),
            " agents, "@,
            decimal(count as nat),
            " with overrides)\n\n"@,
        ]);
    }
    append_all(md, &p);
    let ghost head = md@;
    let mut k: usize = 0;
    while k < rows.len()
        invariant
            v == crate::generator::results_view(ds@),
            forall|q: int| 0 <= q < ds@.len() ==> #[trigger] ds@[q].adds + ds@[q].removes <= usize::MAX,
            rows@.map_values(|q: usize| v[q as int]) == cds,
            forall|q: int| 0 <= q < rows@.len() ==> #[trigger] rows@[q] < ds@.len(),
            k <= rows@.len(),
            md@ == head + override_agent_lines(cds, k as int),
        decreases rows.len() - k,
    {
        let d = &ds[rows[k]];
        assert(cds[k as int] == d.result_view());
        let mut q: Vec<String> = Vec::new();
        if d.adds + d.removes > 0 {
            push_piece(&mut q, string_of("- `"));
            push_piece(&mut q, d.agent.clone());
            push_piece(&mut q, string_of("`: "));
            push_piece(&mut q, usize_text(d.adds));
            push_piece(&mut q, string_of(" adds, "));
            push_piece(&mut q, usize_text(d.removes));
            push_piece(&mut q, string_of(" removes\n"));
            proof {
                assert(names_view(q) =~= seq!["- `"@, d.agent@, "`: "@, decimal(d.adds as nat), " adds, "@, decimal(d.removes as nat), " removes\n"@]);
            }
        } else {
            push_piece(&mut q, string_of("- `"));
            push_piece(&mut q, d.agent.clone());
            push_piece(&mut q, string_of("`: matches baseline exactly\n"));
            proof {
                assert(names_view(q) =~= seq!["- `"@, d.agent@, "`: matches baseline exactly\n"@]);
            }
        }
        append_all(md, &q);
        proof {
            vstd::seq_lib::lemma_concat_associative(head, override_agent_lines(cds, k as int), override_agent_line(cds[k as int]));
        }
        k = k + 1;
    }
    md.append("\n");
    proof {
        assert(md@ =~= start + override_section(cat@, agents as nat, v));
    }
}

proof fn lemma_nonzero_push(s: Seq<ResultView>, x: ResultView)
    ensures
        nonzero_rows(s.push(x), (s.len() + 1) as int) == nonzero_rows(s, s.len() as int) + if row_total(x) > 0 {
            1nat
        } else {
            0nat
        },
{
    lemma_nonzero_prefix(s, s.push(x), s.len() as int);
}

proof fn lemma_nonzero_prefix(a: Seq<ResultView>, b: Seq<ResultView>, k: int)
    requires
        0 <= k <= a.len(),
        k <= b.len(),
        forall|j: int| 0 <= j < k ==> a[j] == b[j],
    ensures
        nonzero_rows(a, k) == nonzero_rows(b, k),
    decreases k,
{
    if k > 0 {
        lemma_nonzero_prefix(a, b, k - 1);
    }
}

fn append_profiles(md: &mut String, categories: &CategoryMap, ds: &Vec<GenerateResult>)
    requires
        forall|i: int| 0 <= i < ds@.len() ==> #[trigger] ds@[i].adds + ds@[i].removes <= usize::MAX,
    ensures
        final(md)@ == old(md)@ + profiles_text(group_entries(*categories), crate::generator::results_view(ds@)),
{
    let ghost gs = group_entries(*categories);
    let ghost v = crate::generator::results_view(ds@);
    let ghost start = md@;
    md.append("## Category Profiles\n\n");
    md.append("### Zero-Delta Categories (all agents match template exactly)\n\n");
    md.append("| Category | Agents | Template Type |\n");
    md.append("| --- | :---: | --- |\n");
    append_zero_categories(md, categories, ds);
    md.append("\n### Categories With Overrides\n\n");
    let ghost head = md@;
    let n = gm_len(categories);
    let mut c: usize = 0;
    while c < n
        invariant
            gs == group_entries(*categories),
            v == crate::generator::results_view(ds@),
            forall|i: int| 0 <= i < ds@.len() ==> #[trigger] ds@[i].adds + ds@[i].removes <= usize::MAX,
            n == gs.len(),
            c <= n,
            md@ == head + override_sections(gs, v, c as int),
        decreases n - c,
    {
        let (cat, agents) = gm_get_index(categories, c).unwrap();
        append_override_section(md, cat.as_str(), agents.len(), ds);
        proof {
            vstd::seq_lib::lemma_concat_associative(head, override_sections(gs, v, c as int), override_section(gs[c as int].0, gs[c as int].1.len(), v));
        }
        c = c + 1;
    }
    md.append("---\n\n");
    proof {
        assert(md@ =~= start + profiles_text(gs, v));
    }
}

// ---------------------------------------------------------------------------
// Anomalies, file inventory, validation
// ---------------------------------------------------------------------------

/// Some of the first `k` rows is an anomaly.
pub open spec fn any_anomaly(ds: Seq<ResultView>, k: int) -> bool {
    exists|i: int| 0 <= i < k && i < ds.len() && is_anomaly(#[trigger] ds[i])
}

/// The block of an anomalous row.
pub open spec fn anomaly_block(d: ResultView) -> Seq<char> {
    flatten(
        seq![
            "### \u{26a0}\u{fe0f} `"@,
            d.0,
            "` \u{2014} Possible Miscategorization\n\n"@,
            "**Current category:** `"@,
            d.1,
            "`\n"@,
            "**Delta:** "@,
            decimal(d.2),
            " adds, "@,
            decimal(d.3),
            " removes (total: "@,
            decimal(row_total(d)),
            ")\n\n"@,
        ],
    )
}

/// The blocks of the anomalies among the first `k` rows.
pub open spec fn anomaly_blocks(ds: Seq<ResultView>, k: int) -> Seq<char>
    decreases k,
{
    if k <= 0 {
        Seq::empty()
    } else {
        anomaly_blocks(ds, k - 1) + if is_anomaly(ds[k - 1]) {
            anomaly_block(ds[k - 1])
        } else {
            Seq::empty()
        }
    }
}

/// The anomalies section, when there are anomalies.
pub open spec fn anomalies_text(ds: Seq<ResultView>) -> Seq<char> {
    if any_anomaly(ds, ds.len() as int) {
        "## Anomalies\n\n"@ + anomaly_blocks(ds, ds.len() as int) + "---\n\n"@
    } else {
        Seq::empty()
    }
}

fn append_anomalies(md: &mut String, ds: &Vec<GenerateResult>)
    requires
        forall|i: int| 0 <= i < ds@.len() ==> #[trigger] ds@[i].adds + ds@[i].removes <= usize::MAX,
    ensures
        final(md)@ == old(md)@ + anomalies_text(crate::generator::results_view(ds@)),
{
    let ghost v = crate::generator::results_view(ds@);
    let ghost start = md@;
    let mut any = false;
    let mut i: usize = 0;
    while i < ds.len()
        invariant
            v == crate::generator::results_view(ds@),
            i <= ds@.len(),
            any == any_anomaly(v, i as int),
        decreases ds.len() - i,
    {
        assert(v[i as int] == ds@[i as int].result_view());
        if ds[i].removes >= 10 {
            any = true;
        }
        proof {
            if !any {
                assert(!any_anomaly(v, i + 1)) by {
                    if any_anomaly(v, i + 1) {
                        let q = choose|q: int| 0 <= q < i + 1 && q < v.len() && is_anomaly(#[trigger] v[q]);
                        assert(q != i);
                    }
                }
            }
        }
        i = i + 1;
    }
    if !any {
        assert(md@ =~= start + anomalies_text(v));
        return;
    }
    md.append("## Anomalies\n\n");
    let ghost head = md@;
    let mut k: usize = 0;
    while k < ds.len()
        invariant
            v == crate::generator::results_view(ds@),
            forall|q: int| 0 <= q < ds@.len() ==> #[trigger] ds@[q].adds + ds@[q].removes <= usize::MAX,
            k <= ds@.len(),
            md@ == head + anomaly_blocks(v, k as int),
        decreases ds.len() - k,
    {
        let d = &ds[k];
        assert(v[k as int] == d.result_view());
        if d.removes >= 10 {
            let mut p: Vec<String> = Vec::new();
            push_piece(&mut p, string_of("### \u{26a0}\u{fe0f} `"));
            push_piece(&mut p, d.agent.clone());
            push_piece(&mut p, string_of("` \u{2014} Possible Miscategorization\n\n"));
            push_piece(&mut p, string_of("**Current category:** `"));
            push_piece(&mut p, d.category.clone());
            push_piece(&mut p, string_of("`\n"));
            push_piece(&mut p, string_of("**Delta:** "));
            push_piece(&mut p, usize_text(d.adds));
            push_piece(&mut p, string_of(" adds, "));
            push_piece(&mut p, usize_text(d.removes));
            push_piece(&mut p, string_of(" removes (total: "));
            push_piece(&mut p, usize_text(d.adds + d.removes));
            push_piece(&mut p, string_of(")\n\n"));
            proof {
                assert(names_view(p) =~= seq![
                    "### \u{26a0}\u{fe0f} `"@,
                    d.agent@,
                    "` \u{2014} Possible Miscategorization\n\n"@,
                    "**Current category:** `"@,
                    d.category@,
                    "`\n"@,
                    "**Delta:** "@,
                    decimal(d.adds as nat),
                    " adds, "@,
                    decimal(d.removes as nat),
                    " removes (total: "@,
                    decimal(row_total(v[k as int])),
                    ")\n\n"@,
                ]);
            }
            append_all(md, &p);
            proof {
                vstd::seq_lib::lemma_concat_associative(head, anomaly_blocks(v, k as int), anomaly_block(v[k as int]));
            }
        } else {
            assert(anomaly_blocks(v, k + 1) =~= anomaly_blocks(v, k as int));
        }
        k = k + 1;
    }
    md.append("---\n\n");
    proof {
        assert(md@ =~= start + anomalies_text(v));
    }
}

/// The file inventory section; `agents` is the number of agent files
/// reported on.
pub open spec fn inventory_text(templates: nat, leaf: nat, mixin: nat, root: nat, agents: nat, display: Seq<char>) -> Seq<char> {
    flatten(
        seq![
            "## File Inventory\n\n"@,
            "| Path | Description |\n"@,
            "| --- | --- |\n"@,
            "| `permissions.jsonc` | Generated from templates + "@,
            display,
            " |\n"@,
            "| `_templates/*.jsonc` | "@,
            decimal(templates),
            " templates ("@,
            decimal(leaf),
            " leaf + "@,
            decimal(mixin),
            " mixin + "@,
            decimal(root),
            " root) |\n"@,
            "| `"@,
            display,
            "/*.jsonc` | "@,
            decimal(agents),
            " per-agent files |\n"@,
            "| `audit-report.md` | This report |\n\n"@,
            "---\n\n"@,
        ],
    )
}

fn append_inventory(
    md: &mut String,
    templates: usize,
    leaf: usize,
    mixin: usize,
    root: usize,
    agents: usize,
    display: &str,
)
    ensures
        final(md)@ == old(md)@ + inventory_text(
            templates as nat,
            leaf as nat,
            mixin as nat,
            root as nat,
            agents as nat,
            display@,
        ),
{
    let mut p: Vec<String> = Vec::new();
    push_piece(&mut p, string_of("## File Inventory\n\n"));
    push_piece(&mut p, string_of("| Path | Description |\n"));
    push_piece(&mut p, string_of("| --- | --- |\n"));
    push_piece(&mut p, string_of("| `permissions.jsonc` | Generated from templates + "));
    push_piece(&mut p, string_of(display));
    push_piece(&mut p, string_of(" |\n"));
    push_piece(&mut p, string_of("| `_templates/*.jsonc` | "));
    push_piece(&mut p, usize_text(templates));
    push_piece(&mut p, string_of(" templates ("));
    push_piece(&mut p, usize_text(leaf));
    push_piece(&mut p, string_of(" leaf + "));
    push_piece(&mut p, usize_text(mixin));
    push_piece(&mut p, string_of(" mixin + "));
    push_piece(&mut p, usize_text(root));
    push_piece(&mut p, string_of(" root) |\n"));
    push_piece(&mut p, string_of("| `"));
    push_piece(&mut p, string_of(display));
    push_piece(&mut p, string_of("/*.jsonc` | "));
    push_piece(&mut p, usize_text(agents));
    push_piece(&mut p, string_of(" per-agent files |\n"));
    push_piece(&mut p, string_of("| `audit-report.md` | This report |\n\n"));
    push_piece(&mut p, string_of("---\n\n"));
    proof {
        assert(names_view(p) =~= seq![
            "## File Inventory\n\n"@,
            "| Path | Description |\n"@,
            "| --- | --- |\n"@,
            "| `permissions.jsonc` | Generated from templates + "@,
            display@,
            " |\n"@,
            "| `_templates/*.jsonc` | "@,
            decimal(templates as nat),
            " templates ("@,
            decimal(leaf as nat),
            " leaf + "@,
            decimal(mixin as nat),
            " mixin + "@,
            decimal(root as nat),
            " root) |\n"@,
            "| `"@,
            display@,
            "/*.jsonc` | "@,
            decimal(agents as nat),
            " per-agent files |\n"@,
            "| `audit-report.md` | This report |\n\n"@,
            "---\n\n"@,
        ]);
    }
    append_all(md, &p);
}

/// The validation section.
pub open spec fn validation_text(passed: nat, total: nat, failed: nat, display: Seq<char>) -> Seq<char> {
    flatten(
        seq![
            "## Validation\n\n"@,
            "```\n"@,
            "$ agency validate\n\n"@,
            "Round-trip validation: "@,
            decimal(passed),
            "/"@,
            decimal(total),
            " agents passed\n\n"@,
        ],
    ) + (if failed == 0 {
        "RESULT: PASS \u{2014} permissions.jsonc matches templates + "@ + display + "\n"@
    } else {
        "RESULT: FAIL ("@ + decimal(failed) + " agent(s) have mismatches)\n"@
    }) + "```\n"@
}

fn append_validation(md: &mut String, passed: usize, total: usize, failed: usize, display: &str)
    ensures
        final(md)@ == old(md)@ + validation_text(passed as nat, total as nat, failed as nat, display@),
{
    let ghost start = md@;
    let mut p: Vec<String> = Vec::new();
    push_piece(&mut p, string_of("## Validation\n\n"));
    push_piece(&mut p, string_of("```\n"));
    push_piece(&mut p, string_of("$ agency validate\n\n"));
    push_piece(&mut p, string_of("Round-trip validation: "));
    push_piece(&mut p, usize_text(passed));
    push_piece(&mut p, string_of("/"));
    push_piece(&mut p, usize_text(total));
    push_piece(&mut p, string_of(" agents passed\n\n"));
    proof {
        assert(names_view(p) =~= seq![
            "## Validation\n\n"@,
            "```\n"@,
            "$ agency validate\n\n"@,
            "Round-trip validation: "@,
            decimal(passed as nat),
            "/"@,
            decimal(total as nat),
            " agents passed\n\n"@,
        ]);
    }
    append_all(md, &p);
    if failed == 0 {
        md.append("RESULT: PASS \u{2014} permissions.jsonc matches templates + ");
        md.append(display);
        md.append("\n");
    } else {
        md.append("RESULT: FAIL (");
        append_num(md, failed);
        md.append(" agent(s) have mismatches)\n");
    }
    md.append("```\n");
    proof {
        assert(md@ =~= start + validation_text(passed as nat, total as nat, failed as nat, display@));
    }
}

// ---------------------------------------------------------------------------
// The report
// ---------------------------------------------------------------------------

/// Why the report cannot be built.
#[derive(Debug, Clone)]
pub enum ReportError {
    /// A category has no loaded template.
    NoTemplate(String),
}

/// The row of agent `a` in category `c` with template `t`: its counts of
/// additions and removals against the template.
pub open spec fn report_row(sot: Sot, t: Template, a: Seq<char>, c: Seq<char>) -> ResultView {
    (a, c, template_delta(sot, t, a, c).0.len(), template_delta(sot, t, a, c).1.len())
}

/// The rows of the first `k` categories, in order; a category without a
/// template fails.
pub open spec fn report_rows(sot: Sot, gs: Seq<(Seq<char>, Seq<Seq<char>>)>, ts: Seq<(Seq<char>, Template)>, k: int) -> Result<Seq<ResultView>, Seq<char>>
    decreases k,
{
    if k <= 0 {
        Ok(Seq::empty())
    } else {
        match report_rows(sot, gs, ts, k - 1) {
            Err(c) => Err(c),
            Ok(rs) => match lookup(ts, gs[k - 1].0) {
                None => Err(gs[k - 1].0),
                Some(t) => Ok(rs + gs[k - 1].1.map_values(|a: Seq<char>| report_row(sot, t, a, gs[k - 1].0))),
            },
        }
    }
}

/// The report for these rows (sorted by category, then agent).
pub open spec fn report_text(
    sot: Sot,
    gs: Seq<(Seq<char>, Seq<Seq<char>>)>,
    ts: Seq<(Seq<char>, Template)>,
    passed: nat,
    total: nat,
    failed: nat,
    display: Seq<char>,
    date: Seq<char>,
    ds: Seq<ResultView>,
) -> Seq<char> {
    let (leaf, mixin, root) = template_kinds(ts, gs, ts.len() as int);
    header_text(date, ds.len(), gs.len(), pass_status(passed, total, failed)) + summary_text(ds, gs.len(), display)
        + anomaly_flags(ds, ds.len() as int) + inheritance_note(leaf, mixin) + inheritance_table(ts, gs)
        + delta_table_head() + delta_rows(sot, ts, ds, ds.len() as int) + "\n---\n\n"@ + distribution_text(ds)
        + profiles_text(gs, ds) + anomalies_text(ds) + inventory_text(ts.len(), leaf, mixin, root, ds.len(), display)
        + validation_text(passed, total, failed, display)
}

proof fn lemma_report_rows_err_stays(sot: Sot, gs: Seq<(Seq<char>, Seq<Seq<char>>)>, ts: Seq<(Seq<char>, Template)>, a: int, b: int)
    requires
        0 <= a <= b,
        report_rows(sot, gs, ts, a) is Err,
    ensures
        report_rows(sot, gs, ts, b) == report_rows(sot, gs, ts, a),
    decreases b - a,
{
    if a < b {
        lemma_report_rows_err_stays(sot, gs, ts, a, b - 1);
    }
}

fn collect_rows(sot: &Sot, categories: &CategoryMap, templates: &IndexMap<String, Template>) -> (r: Result<Vec<GenerateResult>, ReportError>)
    requires
        deltas_fit(*sot, group_entries(*categories), template_entries(*templates)),
    ensures
        ({
            let gs = group_entries(*categories);
            match report_rows(*sot, gs, template_entries(*templates), gs.len() as int) {
                Ok(rows) => r is Ok && crate::generator::results_view(r->Ok_0@) == rows
                    && forall|i: int| 0 <= i < rows.len() ==> #[trigger] row_total(rows[i]) <= usize::MAX,
                Err(c) => r matches Err(ReportError::NoTemplate(x)) && x@ == c,
            }
        }),
{
    let ghost gs = group_entries(*categories);
    let ghost ts = template_entries(*templates);
    let mut rows: Vec<GenerateResult> = Vec::new();
    let nc = gm_len(categories);
    let mut c: usize = 0;
    while c < nc
        invariant
            gs == group_entries(*categories),
            ts == template_entries(*templates),
            deltas_fit(*sot, gs, ts),
            nc == gs.len(),
            c <= nc,
            report_rows(*sot, gs, ts, c as int) is Ok,
            crate::generator::results_view(rows@) == report_rows(*sot, gs, ts, c as int)->Ok_0,
            forall|i: int| 0 <= i < rows@.len() ==> #[trigger] row_total(crate::generator::results_view(rows@)[i]) <= usize::MAX,
        decreases nc - c,
    {
        let ghost prev = report_rows(*sot, gs, ts, c as int)->Ok_0;
        let (cat_name, agents) = gm_get_index(categories, c).unwrap();
        let template = match tm_get(templates, cat_name.as_str()) {
            None => {
                proof {
                    lemma_report_rows_err_stays(*sot, gs, ts, c + 1, nc as int);
                }
                return Err(ReportError::NoTemplate(cat_name.clone()));
            },
            Some(t) => t,
        };
        let ghost more = names_view(*agents).map_values(|a: Seq<char>| report_row(*sot, *template, a, cat_name@));
        let mut k: usize = 0;
        while k < agents.len()
            invariant
                gs == group_entries(*categories),
                ts == template_entries(*templates),
                deltas_fit(*sot, gs, ts),
                c < nc,
                nc == gs.len(),
                cat_name@ == gs[c as int].0,
                names_view(*agents) == gs[c as int].1,
                has_key(ts, cat_name@),
                lookup(ts, cat_name@) == Some(*template),
                more == names_view(*agents).map_values(|a: Seq<char>| report_row(*sot, *template, a, cat_name@)),
                k <= agents@.len(),
                crate::generator::results_view(rows@) == prev + more.take(k as int),
                forall|i: int| 0 <= i < rows@.len() ==> #[trigger] row_total(crate::generator::results_view(rows@)[i]) <= usize::MAX,
            decreases agents.len() - k,
        {
            let agent = &agents[k];
            let delta = compute_delta(sot, template, agent.as_str(), cat_name.as_str());
            proof {
                assert(names_view(*agents)[k as int] == agent@);
                assert(crate::generator::delta_size(*sot, lookup(ts, gs[c as int].0)->0, gs[c as int].1[k as int], gs[c as int].0) <= usize::MAX);
            }
            let res = GenerateResult {
                agent: agent.clone(),
                category: cat_name.clone(),
                adds: delta.adds.len(),
                removes: delta.removes.len(),
            };
            let ghost pre = crate::generator::results_view(rows@);
            rows.push(res);
            proof {
                assert(crate::generator::results_view(rows@) =~= pre.push(res.result_view()));
                assert(more[k as int] == res.result_view());
                assert(more.take(k + 1) =~= more.take(k as int).push(more[k as int]));
            }
            k = k + 1;
        }
        proof {
            assert(more.take(agents@.len() as int) =~= more);
        }
        c = c + 1;
    }
    Ok(rows)
}

/// The audit report (Markdown) for a permissions file, its categories and
/// templates, and the outcome of validation; `agents_display` names the
/// agents directory and `date` is the generation date.
pub fn generate_report(
    sot: &Sot,
    categories: &CategoryMap,
    templates: &IndexMap<String, Template>,
    validation: &ValidationReport,
    agents_display: &str,
    date: &str,
) -> (r: Result<String, ReportError>)
    requires
        deltas_fit(*sot, group_entries(*categories), template_entries(*templates)),
        report_rows(*sot, group_entries(*categories), template_entries(*templates), group_entries(*categories).len() as int) is Ok
            ==> ({
            let n = report_rows(*sot, group_entries(*categories), template_entries(*templates), group_entries(*categories).len() as int)->Ok_0.len();
            0 < n && n * 100 <= usize::MAX
        }),
    ensures
        ({
            let gs = group_entries(*categories);
            let ts = template_entries(*templates);
            match report_rows(*sot, gs, ts, gs.len() as int) {
                Err(c) => r matches Err(ReportError::NoTemplate(x)) && x@ == c,
                Ok(rows) => r is Ok && r->Ok_0@ == report_text(
                    *sot,
                    gs,
                    ts,
                    validation.passed as nat,
                    validation.total as nat,
                    validation.failed as nat,
                    agents_display@,
                    date@,
                    sorted_results(rows, rows.len() as int),
                ),
            }
        }),
{
    let ghost gs = group_entries(*categories);
    let ghost ts = template_entries(*templates);
    let raw = match collect_rows(sot, categories, templates) {
        Err(e) => {
            return Err(e);
        },
        Ok(v) => v,
    };
    let ghost rows = crate::generator::results_view(raw@);
    let ds = sort_results(raw);
    let ghost v = crate::generator::results_view(ds@);
    proof {
        lemma_sorted_results_len(rows, rows.len() as int);
        lemma_sorted_results_from(rows, rows.len() as int);
        assert forall|i: int| 0 <= i < ds@.len() implies #[trigger] ds@[i].adds + ds@[i].removes <= usize::MAX by {
            assert(v[i] == ds@[i].result_view());
            let j = choose|j: int| 0 <= j < rows.len() && #[trigger] sorted_results(rows, rows.len() as int)[i] == rows[j];
            assert(row_total(rows[j]) <= usize::MAX);
        }
    }
    let (leaf, mixin, root) = count_template_kinds(templates, categories);
    let ntemplates = tm_len(templates);
    let ncats = gm_len(categories);
    let mut md = String::new();
    append_header(&mut md, date, ds.len(), ncats, validation.passed, validation.total, validation.failed);
    append_summary(&mut md, &ds, ncats, agents_display);
    append_anomaly_flags(&mut md, &ds);
    append_inheritance_note(&mut md, leaf, mixin);
    append_inheritance_table(&mut md, templates, categories);
    append_delta_table(&mut md, &ds, sot, templates);
    append_distribution(&mut md, &ds);
    append_profiles(&mut md, categories, &ds);
    append_anomalies(&mut md, &ds);
    append_inventory(&mut md, ntemplates, leaf, mixin, root, ds.len(), agents_display);
    append_validation(&mut md, validation.passed, validation.total, validation.failed, agents_display);
    proof {
        assert(md@ =~= report_text(
            *sot,
            gs,
            ts,
            validation.passed as nat,
            validation.total as nat,
            validation.failed as nat,
            agents_display@,
            date@,
            v,
        ));
    }
    Ok(md)
}

} // verus!
