//! The order of strings (`str`'s `Ord`: lexicographic by code point) and
//! sorted sets of strings built from it.

use vstd::prelude::*;

use crate::maps::names_view;
use crate::text::str_eq;

verus! {

/// Lexicographic order on character sequences: the first differing
/// character decides, and a proper prefix comes first.
pub open spec fn text_lt(a: Seq<char>, b: Seq<char>) -> bool
    decreases a.len(),
{
    if a.len() == 0 {
        b.len() > 0
    } else if b.len() == 0 {
        false
    } else if a[0] != b[0] {
        (a[0] as int) < (b[0] as int)
    } else {
        text_lt(a.drop_first(), b.drop_first())
    }
}

/// `<str as PartialOrd>::lt`.  Strings compare lexicographically by their
/// UTF-8 bytes, which orders them as their characters' code points do.
#[verifier::external_body]
pub(crate) fn str_lt(a: &str, b: &str) -> (r: bool)
    ensures
        r == text_lt(a@, b@),
{
    a < b
}

/// `slice::sort` on a list of names: a stable sort by `String`'s `Ord`.
/// The list keeps its names, in non-decreasing order.
#[verifier::external_body]
pub(crate) fn sort_names(v: &mut Vec<String>)
    ensures
        names_view(*final(v)).to_multiset() == names_view(*old(v)).to_multiset(),
        forall|i: int, j: int|
            0 <= i < j < final(v)@.len() ==> !text_lt(
                #[trigger] names_view(*final(v))[j],
                #[trigger] names_view(*final(v))[i],
            ),
{
    v.sort();
}

/// Nothing is below itself.
pub proof fn lemma_text_lt_irreflexive(a: Seq<char>)
    ensures
        !text_lt(a, a),
    decreases a.len(),
{
    if a.len() > 0 {
        lemma_text_lt_irreflexive(a.drop_first());
    }
}

/// The order is transitive.
pub proof fn lemma_text_lt_transitive(a: Seq<char>, b: Seq<char>, c: Seq<char>)
    requires
        text_lt(a, b),
        text_lt(b, c),
    ensures
        text_lt(a, c),
    decreases a.len(),
{
    if a.len() > 0 && b.len() > 0 && c.len() > 0 {
        if a[0] == b[0] && b[0] == c[0] {
            lemma_text_lt_transitive(a.drop_first(), b.drop_first(), c.drop_first());
        }
    }
}

/// Of two different sequences, one is below the other.
pub proof fn lemma_text_lt_total(a: Seq<char>, b: Seq<char>)
    requires
        a != b,
    ensures
        text_lt(a, b) || text_lt(b, a),
    decreases a.len(),
{
    if a.len() == 0 {
        assert(b.len() > 0) by {
            if b.len() == 0 {
                assert(a =~= b);
            }
        }
    } else if b.len() == 0 {
    } else if a[0] != b[0] {
        assert((a[0] as int) != (b[0] as int));
    } else {
        if a.drop_first() == b.drop_first() {
            assert(a =~= seq![a[0]] + a.drop_first());
            assert(b =~= seq![b[0]] + b.drop_first());
        }
        lemma_text_lt_total(a.drop_first(), b.drop_first());
    }
}

/// The order is asymmetric.
pub proof fn lemma_text_lt_asymmetric(a: Seq<char>, b: Seq<char>)
    requires
        text_lt(a, b),
    ensures
        !text_lt(b, a),
{
    if text_lt(b, a) {
        lemma_text_lt_transitive(a, b, a);
        lemma_text_lt_irreflexive(a);
    }
}

/// Each element is below the next: sorted, without repeats.
pub open spec fn strictly_sorted(s: Seq<Seq<char>>) -> bool {
    forall|i: int, j: int| 0 <= i < j < s.len() ==> text_lt(#[trigger] s[i], #[trigger] s[j])
}

/// Add `x` to a strictly sorted list of names, at its place, unless it is
/// there already.
pub fn insert_sorted_unique(v: &mut Vec<String>, x: &str)
    requires
        strictly_sorted(names_view(*old(v))),
    ensures
        strictly_sorted(names_view(*final(v))),
        names_view(*final(v)).to_set() == names_view(*old(v)).to_set().insert(x@),
{
    let ghost s0 = names_view(*v);
    let mut p: usize = 0;
    while p < v.len() && str_lt(v[p].as_str(), x)
        invariant
            s0 == names_view(*v),
            p <= v@.len(),
            forall|i: int| 0 <= i < p ==> text_lt(#[trigger] s0[i], x@),
        decreases v.len() - p,
    {
        p = p + 1;
    }
    if p < v.len() && str_eq(v[p].as_str(), x) {
        proof {
            assert(s0[p as int] == x@);
            assert(s0.to_set().insert(x@) =~= s0.to_set());
        }
        return;
    }
    let ghost e = if p < v@.len() {
        s0[p as int]
    } else {
        x@
    };
    proof {
        if p < v@.len() {
            assert(!text_lt(e, x@));
            assert(e != x@);
            lemma_text_lt_total(e, x@);
            assert(text_lt(x@, e));
        }
    }
    v.insert(p, x.to_string());
    proof {
        let s1 = names_view(*v);
        assert(s1 =~= s0.insert(p as int, x@));
        assert forall|i: int, j: int| 0 <= i < j < s1.len() implies text_lt(#[trigger] s1[i], #[trigger] s1[j]) by {
            if j < p {
                assert(s1[i] == s0[i] && s1[j] == s0[j]);
            } else if j == p {
                assert(s1[i] == s0[i]);
            } else if i < p {
                assert(s1[i] == s0[i] && s1[j] == s0[j - 1]);
                if p < s0.len() {
                    if j - 1 > p {
                        lemma_text_lt_transitive(x@, s0[p as int], s0[j - 1]);
                    }
                    lemma_text_lt_transitive(s0[i], x@, s0[j - 1]);
                }
            } else if i == p {
                assert(s1[j] == s0[j - 1]);
                if j - 1 > p {
                    lemma_text_lt_transitive(x@, s0[p as int], s0[j - 1]);
                }
            } else {
                assert(s1[i] == s0[i - 1] && s1[j] == s0[j - 1]);
            }
        }
        assert(s1.to_set() =~= s0.to_set().insert(x@)) by {
            assert forall|y: Seq<char>| s1.to_set().contains(y) implies s0.to_set().insert(x@).contains(y) by {
                let k = choose|k: int| 0 <= k < s1.len() && s1[k] == y;
                if k < p {
                    assert(s0[k] == y);
                } else if k > p {
                    assert(s0[k - 1] == y);
                }
            }
            assert forall|y: Seq<char>| s0.to_set().insert(x@).contains(y) implies s1.to_set().contains(y) by {
                if y == x@ {
                    assert(s1[p as int] == y);
                } else {
                    let k = choose|k: int| 0 <= k < s0.len() && s0[k] == y;
                    if k < p {
                        assert(s1[k] == y);
                    } else {
                        assert(s1[k + 1] == y);
                    }
                }
            }
        }
    }
}

} // verus!
