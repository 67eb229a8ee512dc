//! Fast permission checks: which rule of an agent's table decides a command,
//! and whether the command is allowed.

use indexmap::IndexMap;
use vstd::prelude::*;
use vstd::string::*;

use crate::maps::{has_key, lookup, sot_entries, sot_get, key_pos, keys_distinct, lemma_key_pos, perm_entries, pm_get_index, pm_len};
use crate::models::{BashPermission, Sot, SotAgent};
use crate::text::{debug_quoted, debug_str, starts_with, str_eq, string_of, strip_prefix, strip_suffix};

verus! {

// ---------------------------------------------------------------------------
// Public types
// ---------------------------------------------------------------------------

/// Result of a `can()` permission check.
#[derive(Debug, Clone)]
pub struct CanResult {
    pub allowed: bool,
    pub permission_value: String,
    pub agent: String,
    pub command: String,
    pub explanation: Option<CanExplanation>,
}

/// Detailed explanation of how the permission decision was made.
#[derive(Debug, Clone)]
pub struct CanExplanation {
    pub rule: String,
    pub match_kind: String,
}

/// How a command pattern matched.
#[derive(Debug, Clone, PartialEq)]
pub enum MatchKind {
    Exact,
    Wildcard { prefix: String },
    CatchAll,
    Blanket,
    Default,
}

/// The rule of a permission table that decides a command.
#[derive(Debug, Clone)]
pub struct MatchResult {
    pub pattern: String,
    pub permission: String,
    pub kind: MatchKind,
}

/// Why a permission check could not be answered.
#[derive(Debug, Clone)]
pub enum CanError {
    /// The permissions file has no block for this agent.
    AgentNotFound(String),
}

impl CanError {
    /// The error message.
    pub fn message(&self) -> (r: String)
        ensures
            match self {
                CanError::AgentNotFound(a) => r@ == "agent '"@ + a@ + "' not found in permissions"@,
            },
    {
        match self {
            CanError::AgentNotFound(a) => {
                let mut s = string_of("agent '");
                s.append(a.as_str());
                s.append("' not found in permissions");
                s
            },
        }
    }
}

// ---------------------------------------------------------------------------
// Matching rules
// ---------------------------------------------------------------------------

/// The value that allows a command.
pub open spec fn allow_word() -> Seq<char> {
    seq!['a', 'l', 'l', 'o', 'w']
}

/// The value that denies a command.
pub open spec fn deny_word() -> Seq<char> {
    seq!['d', 'e', 'n', 'y']
}

pub open spec fn star() -> Seq<char> {
    seq!['*']
}

/// A pattern of the form `"<prefix> *"`.
pub open spec fn is_wildcard(p: Seq<char>) -> bool {
    p.len() >= 2 && p[p.len() - 2] == ' ' && p[p.len() - 1] == '*'
}

/// The prefix of a wildcard pattern (the pattern without its trailing `" *"`).
pub open spec fn wildcard_prefix(p: Seq<char>) -> Seq<char> {
    p.subrange(0, p.len() - 2)
}

/// `prefix` covers command `c`: `c` is `prefix` itself, or `prefix`
/// followed by a space and anything.
pub open spec fn prefix_covers(prefix: Seq<char>, c: Seq<char>) -> bool {
    c == prefix || (prefix.is_prefix_of(c) && c.len() > prefix.len() && c[prefix.len() as int] == ' ')
}

/// The rule at position `i` is a wildcard with a non-empty prefix covering `c`.
pub open spec fn wild_match(s: Seq<(Seq<char>, Seq<char>)>, c: Seq<char>, i: int) -> bool {
    0 <= i < s.len() && is_wildcard(s[i].0) && wildcard_prefix(s[i].0).len() > 0 && prefix_covers(
        wildcard_prefix(s[i].0),
        c,
    )
}

/// Among the rules before position `n`, the one at `i` is the first of the
/// covering wildcards with the longest prefix.
pub open spec fn best_wild_upto(s: Seq<(Seq<char>, Seq<char>)>, c: Seq<char>, i: int, n: int) -> bool {
    &&& 0 <= i < n
    &&& wild_match(s, c, i)
    &&& forall|k: int|
        0 <= k < n && #[trigger] wild_match(s, c, k) ==> s[k].0.len() < s[i].0.len() || (s[k].0.len()
            == s[i].0.len() && i <= k)
}

pub open spec fn any_wild(s: Seq<(Seq<char>, Seq<char>)>, c: Seq<char>) -> bool {
    exists|i: int| #[trigger] wild_match(s, c, i)
}

/// The rule that decides `c`: the rule whose pattern is `c`; failing that,
/// the first covering wildcard with the longest prefix; failing that, the
/// catch-all `"*"`; failing that, none.  The result is the rule's position
/// and how it matched.
pub open spec fn decide(s: Seq<(Seq<char>, Seq<char>)>, c: Seq<char>) -> Option<(int, MatchKind)> {
    if has_key(s, c) {
        Some((key_pos(s, c), MatchKind::Exact))
    } else if any_wild(s, c) {
        let i = choose|i: int| best_wild_upto(s, c, i, s.len() as int);
        Some((i, MatchKind::Wildcard { prefix: arbitrary() }))
    } else if has_key(s, star()) {
        Some((key_pos(s, star()), MatchKind::CatchAll))
    } else {
        None
    }
}

/// `m` is the match of `c` that `decide` names.
pub open spec fn is_decided_match(s: Seq<(Seq<char>, Seq<char>)>, c: Seq<char>, m: MatchResult) -> bool {
    match decide(s, c) {
        Some((i, k)) => {
            &&& m.pattern@ == s[i].0
            &&& m.permission@ == s[i].1
            &&& match k {
                MatchKind::Exact => m.kind is Exact,
                MatchKind::CatchAll => m.kind is CatchAll,
                _ => m.kind matches MatchKind::Wildcard { prefix } && prefix@ == wildcard_prefix(s[i].0),
            }
        },
        None => false,
    }
}

proof fn lemma_best_wild_exists(s: Seq<(Seq<char>, Seq<char>)>, c: Seq<char>, i: int)
    requires
        best_wild_upto(s, c, i, s.len() as int),
        keys_distinct(s),
    ensures
        any_wild(s, c),
        (choose|j: int| best_wild_upto(s, c, j, s.len() as int)) == i,
{
    assert(wild_match(s, c, i));
    let j = choose|j: int| best_wild_upto(s, c, j, s.len() as int);
    assert(best_wild_upto(s, c, j, s.len() as int));
    assert(wild_match(s, c, j));
}

/// Find the rule of `rules` that decides `command`.
pub fn match_command(rules: &IndexMap<String, String>, command: &str) -> (r: Option<MatchResult>)
    ensures
        match r {
            Some(m) => is_decided_match(perm_entries(*rules), command@, m),
            None => decide(perm_entries(*rules), command@) is None,
        },
{
    let ghost s = perm_entries(*rules);
    let ghost c = command@;
    let n = pm_len(rules);
    proof {
        assert(keys_distinct(s));
        reveal_strlit(" *");
        reveal_strlit(" ");
        reveal_strlit("*");
    }
    let mut best: Option<MatchResult> = None;
    let mut best_specificity: usize = 0;
    let ghost mut bi: int = 0;
    let mut i: usize = 0;
    while i < n
        invariant
            s == perm_entries(*rules),
            c == command@,
            n == s.len(),
            keys_distinct(s),
            0 <= i <= n,
            forall|k: int| 0 <= k < i ==> #[trigger] s[k].0 != c,
            " *"@ == seq![' ', '*'],
            " "@ == seq![' '],
            "*"@ == star(),
            match best {
                None => {
                    &&& best_specificity == 0
                    &&& forall|k: int| 0 <= k < i ==> !#[trigger] wild_match(s, c, k)
                    &&& forall|k: int| 0 <= k < i ==> #[trigger] s[k].0 != star()
                },
                Some(m) => {
                    &&& 0 <= bi < i
                    &&& m.pattern@ == s[bi].0
                    &&& m.permission@ == s[bi].1
                    &&& match m.kind {
                        MatchKind::Wildcard { prefix } => {
                            &&& best_wild_upto(s, c, bi, i as int)
                            &&& prefix@ == wildcard_prefix(s[bi].0)
                            &&& best_specificity == prefix@.len()
                        },
                        MatchKind::CatchAll => {
                            &&& s[bi].0 == star()
                            &&& best_specificity == 0
                            &&& forall|k: int| 0 <= k < i ==> !#[trigger] wild_match(s, c, k)
                        },
                        _ => false,
                    }
                },
            },
        decreases n - i,
    {
        let entry = pm_get_index(rules, i);
        let (pattern, permission) = entry.unwrap();
        if str_eq(pattern.as_str(), command) {
            let m = MatchResult {
                pattern: pattern.clone(),
                permission: permission.clone(),
                kind: MatchKind::Exact,
            };
            proof {
                lemma_key_pos(s, c, i as int);
            }
            return Some(m);
        }
        let ghost old_best = best;
        if let Some(prefix) = strip_suffix(pattern.as_str(), " *") {
            let covers = match strip_prefix(command, prefix) {
                Some(rest) => {
                    let r = rest.unicode_len() == 0 || starts_with(rest, " ");
                    proof {
                        if r {
                            if rest@.len() != 0 {
                                assert(seq![' '].is_prefix_of(rest@));
                                assert(rest@.subrange(0, 1)[0] == rest@[0]);
                                assert(rest@[0] == ' ');
                                assert(rest@[0] == c[prefix@.len() as int]);
                            } else {
                                assert(c =~= prefix@);
                            }
                        } else if prefix_covers(prefix@, c) {
                            if c == prefix@ {
                                assert(rest@.len() == 0);
                            } else {
                                assert(rest@[0] == ' ');
                                assert(seq![' '] =~= rest@.subrange(0, 1));
                            }
                        }
                        assert(prefix@.is_prefix_of(c));
                        assert(rest@ == c.subrange(prefix@.len() as int, c.len() as int));
                        assert(r ==> prefix_covers(prefix@, c));
                        assert(prefix_covers(prefix@, c) ==> r);
                    }
                    r
                },
                None => {
                    proof {
                        if c == prefix@ {
                            assert(prefix@.is_prefix_of(c)) by {
                                assert(c.subrange(0, c.len() as int) =~= c);
                            }
                        }
                        assert(!prefix_covers(prefix@, c));
                    }
                    false
                },
            };
            proof {
                let p = s[i as int].0;
                assert(prefix@ == wildcard_prefix(p));
                assert(is_wildcard(p)) by {
                    assert(p.subrange(p.len() - 2, p.len() as int) == seq![' ', '*']);
                    assert(p[p.len() - 2] == p.subrange(p.len() - 2, p.len() as int)[0]);
                    assert(p[p.len() - 1] == p.subrange(p.len() - 2, p.len() as int)[1]);
                }
                if !covers && prefix_covers(prefix@, c) {
                    assert(prefix@.is_prefix_of(c));
                }
                assert(covers == prefix_covers(prefix@, c));
            }
            if covers {
                let specificity = prefix.unicode_len();
                if specificity > best_specificity {
                    best_specificity = specificity;
                    best = Some(
                        MatchResult {
                            pattern: pattern.clone(),
                            permission: permission.clone(),
                            kind: MatchKind::Wildcard { prefix: string_of(prefix) },
                        },
                    );
                    proof {
                        bi = i as int;
                    }
                }
            }
        } else {
            proof {
                let p = s[i as int].0;
                if is_wildcard(p) {
                    assert(p.subrange(p.len() - 2, p.len() as int) =~= seq![' ', '*']);
                }
                assert(!wild_match(s, c, i as int));
            }
        }
        if str_eq(pattern.as_str(), "*") && best.is_none() {
            best = Some(
                MatchResult {
                    pattern: pattern.clone(),
                    permission: permission.clone(),
                    kind: MatchKind::CatchAll,
                },
            );
            proof {
                bi = i as int;
            }
        }
        proof {
            let ii = i as int;
            assert(s[ii].0 != c);
            if s[ii].0 == star() {
                assert(!wild_match(s, c, ii));
            }
            if best is Some && best->0.kind is Wildcard {
                assert forall|k: int|
                    0 <= k < ii + 1 && #[trigger] wild_match(s, c, k) implies s[k].0.len()
                    < s[bi].0.len() || (s[k].0.len() == s[bi].0.len() && bi <= k) by {
                    if k < ii && old_best is Some {
                        assert(old_best->0.kind is Wildcard || old_best->0.kind is CatchAll);
                    }
                }
            }
        }
        i = i + 1;
    }
    proof {
        if has_key(s, c) {
            let p = key_pos(s, c);
            assert(s[p].0 == c);
        }
        if best is Some && best->0.kind is Wildcard {
            lemma_best_wild_exists(s, c, bi);
        } else {
            if any_wild(s, c) {
                let w = choose|w: int| #[trigger] wild_match(s, c, w);
                assert(wild_match(s, c, w));
            }
            if best is Some {
                lemma_key_pos(s, star(), bi);
            } else if has_key(s, star()) {
                let p = key_pos(s, star());
                assert(s[p].0 == star());
            }
        }
    }
    best
}

// ---------------------------------------------------------------------------
// Permission check
// ---------------------------------------------------------------------------

/// The text `{:?}` prints for a match kind.
pub open spec fn kind_debug(k: MatchKind) -> Seq<char> {
    match k {
        MatchKind::Exact => "Exact"@,
        MatchKind::Wildcard { prefix } => "Wildcard { prefix: "@ + debug_quoted(prefix@) + " }"@,
        MatchKind::CatchAll => "CatchAll"@,
        MatchKind::Blanket => "Blanket"@,
        MatchKind::Default => "Default"@,
    }
}

/// `{:?}` of a match kind.
pub fn match_kind_text(k: &MatchKind) -> (r: String)
    ensures
        r@ == kind_debug(*k),
{
    match k {
        MatchKind::Exact => string_of("Exact"),
        MatchKind::Wildcard { prefix } => {
            let mut s = string_of("Wildcard { prefix: ");
            let q = debug_str(prefix.as_str());
            s.append(q.as_str());
            s.append(" }");
            s
        },
        MatchKind::CatchAll => string_of("CatchAll"),
        MatchKind::Blanket => string_of("Blanket"),
        MatchKind::Default => string_of("Default"),
    }
}

/// The text of the match kind of the rule at `i` when `decide` reports `k`.
pub open spec fn decided_kind_text(s: Seq<(Seq<char>, Seq<char>)>, i: int, k: MatchKind) -> Seq<char> {
    match k {
        MatchKind::Exact => "Exact"@,
        MatchKind::CatchAll => "CatchAll"@,
        _ => "Wildcard { prefix: "@ + debug_quoted(wildcard_prefix(s[i].0)) + " }"@,
    }
}

/// The answer `res` of a check of `command` against agent block `a`:
/// a blanket `bash` value decides every command; a table decides through
/// the rule that `decide` picks, and denies when no rule applies.  Only the
/// value `"allow"` allows: `"deny"` and `"ask"` do not.  With `explain`, the answer names the rule
/// and how it matched.
pub open spec fn can_outcome(
    a: SotAgent,
    agent: Seq<char>,
    command: Seq<char>,
    explain: bool,
    res: CanResult,
) -> bool {
    &&& res.agent@ == agent
    &&& res.command@ == command
    &&& (explain <==> res.explanation is Some)
    &&& match a.permission.bash {
        BashPermission::Simple(v) => {
            &&& res.allowed == (v@ == allow_word())
            &&& res.permission_value@ == v@
            &&& explain ==> res.explanation->0.rule@ == "bash = \""@ + v@ + "\""@
                && res.explanation->0.match_kind@ == "Blanket"@
        },
        BashPermission::Detailed(rules) => {
            let s = perm_entries(rules);
            match decide(s, command) {
                Some((i, k)) => {
                    &&& res.allowed == (s[i].1 == allow_word())
                    &&& res.permission_value@ == s[i].1
                    &&& explain ==> res.explanation->0.rule@ == "\""@ + s[i].0 + "\" \u{2192} \""@
                        + s[i].1 + "\""@ && res.explanation->0.match_kind@ == decided_kind_text(
                        s,
                        i,
                        k,
                    )
                },
                None => {
                    &&& !res.allowed
                    &&& res.permission_value@ == deny_word()
                    &&& explain ==> res.explanation->0.rule@ == "(no matching rule \u{2014} default deny)"@
                        && res.explanation->0.match_kind@ == "Default"@
                },
            }
        },
    }
}

/// Check whether `agent` may run `command` under the permissions file
/// `sot`.  When `explain` is true the result names the deciding rule.
pub fn can(sot: &Sot, agent: &str, command: &str, explain: bool) -> (r: Result<
    CanResult,
    CanError,
>)
    ensures
        match lookup(sot_entries(*sot), agent@) {
            None => r matches Err(CanError::AgentNotFound(name)) && name@ == agent@,
            Some(a) => r matches Ok(res) && can_outcome(a, agent@, command@, explain, res),
        },
{
    proof {
        reveal_strlit("deny");
        reveal_strlit("allow");
        assert("deny"@ =~= deny_word());
        assert("allow"@ =~= allow_word());
    }
    let agent_data = match sot_get(sot, agent) {
        Some(a) => a,
        None => {
            return Err(CanError::AgentNotFound(string_of(agent)));
        },
    };
    match &agent_data.permission.bash {
        BashPermission::Simple(value) => {
            let allowed = str_eq(value.as_str(), "allow");
            let explanation = if explain {
                let mut rule = string_of("bash = \"");
                rule.append(value.as_str());
                rule.append("\"");
                Some(CanExplanation { rule, match_kind: match_kind_text(&MatchKind::Blanket) })
            } else {
                None
            };
            Ok(
                CanResult {
                    allowed,
                    permission_value: value.clone(),
                    agent: string_of(agent),
                    command: string_of(command),
                    explanation,
                },
            )
        },
        BashPermission::Detailed(rules) => {
            match match_command(rules, command) {
                Some(m) => {
                    let allowed = str_eq(m.permission.as_str(), "allow");
                    let explanation = if explain {
                        let mut rule = string_of("\"");
                        rule.append(m.pattern.as_str());
                        rule.append("\" \u{2192} \"");
                        rule.append(m.permission.as_str());
                        rule.append("\"");
                        Some(CanExplanation { rule, match_kind: match_kind_text(&m.kind) })
                    } else {
                        None
                    };
                    Ok(
                        CanResult {
                            allowed,
                            permission_value: m.permission,
                            agent: string_of(agent),
                            command: string_of(command),
                            explanation,
                        },
                    )
                },
                None => {
                    let explanation = if explain {
                        Some(
                            CanExplanation {
                                rule: string_of("(no matching rule \u{2014} default deny)"),
                                match_kind: match_kind_text(&MatchKind::Default),
                            },
                        )
                    } else {
                        None
                    };
                    Ok(
                        CanResult {
                            allowed: false,
                            permission_value: string_of("deny"),
                            agent: string_of(agent),
                            command: string_of(command),
                            explanation,
                        },
                    )
                },
            }
        },
    }
}

// ---------------------------------------------------------------------------
// JSONC comment stripping
// ---------------------------------------------------------------------------

/// Where the comment stripper stands: in plain JSON text, inside a string
/// literal, inside a `//` comment, or inside a `/* */` comment.
#[derive(Clone, Copy, PartialEq, Eq, Debug)]
pub enum StripMode {
    Code,
    Text,
    LineComment,
    BlockComment,
}

pub open spec fn mode_rank(m: StripMode) -> int {
    match m {
        StripMode::Code => 0,
        _ => 1,
    }
}

/// The output of the stripper on `s` from position `i` in mode `m`: comment
/// bytes become spaces (newlines inside block comments stay), everything
/// else is copied; a `/*` left open until the last byte leaves that byte to
/// plain text.
pub open spec fn strip_from(s: Seq<u8>, i: int, m: StripMode) -> Seq<u8>
    decreases s.len() - i, mode_rank(m),
{
    if i < 0 || i >= s.len() {
        Seq::empty()
    } else {
        match m {
            StripMode::Code => {
                if s[i] == 34u8 {
                    seq![34u8] + strip_from(s, i + 1, StripMode::Text)
                } else if s[i] == 47u8 && i + 1 < s.len() && s[i + 1] == 47u8 {
                    seq![32u8] + strip_from(s, i + 1, StripMode::LineComment)
                } else if s[i] == 47u8 && i + 1 < s.len() && s[i + 1] == 42u8 {
                    seq![32u8, 32u8] + strip_from(s, i + 2, StripMode::BlockComment)
                } else {
                    seq![s[i]] + strip_from(s, i + 1, StripMode::Code)
                }
            },
            StripMode::Text => {
                if s[i] == 92u8 {
                    if i + 1 < s.len() {
                        seq![92u8, s[i + 1]] + strip_from(s, i + 2, StripMode::Text)
                    } else {
                        seq![92u8]
                    }
                } else if s[i] == 34u8 {
                    seq![34u8] + strip_from(s, i + 1, StripMode::Code)
                } else {
                    seq![s[i]] + strip_from(s, i + 1, StripMode::Text)
                }
            },
            StripMode::LineComment => {
                if s[i] == 10u8 {
                    strip_from(s, i, StripMode::Code)
                } else {
                    seq![32u8] + strip_from(s, i + 1, StripMode::LineComment)
                }
            },
            StripMode::BlockComment => {
                if i + 1 < s.len() {
                    if s[i] == 42u8 && s[i + 1] == 47u8 {
                        seq![32u8, 32u8] + strip_from(s, i + 2, StripMode::Code)
                    } else if s[i] == 10u8 {
                        seq![10u8] + strip_from(s, i + 1, StripMode::BlockComment)
                    } else {
                        seq![32u8] + strip_from(s, i + 1, StripMode::BlockComment)
                    }
                } else {
                    strip_from(s, i, StripMode::Code)
                }
            },
        }
    }
}

/// The stripped form of a whole JSONC text.
pub open spec fn stripped(s: Seq<u8>) -> Seq<u8> {
    strip_from(s, 0, StripMode::Code)
}

/// Replace `//` and `/* */` comments of a JSONC text by spaces, leaving
/// string literals (with their escapes) and newlines in place, so that a
/// JSON parser can read the result.
pub fn strip_jsonc_comments(input: &[u8]) -> (out: Vec<u8>)
    ensures
        out@ == stripped(input@),
{
    let len = input.len();
    let mut out: Vec<u8> = Vec::new();
    let mut i: usize = 0;
    let mut mode = StripMode::Code;
    while i < len
        invariant
            len == input@.len(),
            i <= len,
            out@ + strip_from(input@, i as int, mode) == stripped(input@),
        decreases len - i, mode_rank(mode),
    {
        let ghost s = input@;
        let ghost before = out@;
        let b = input[i];
        match mode {
            StripMode::Code => {
                if b == 34u8 {
                    out.push(34u8);
                    i = i + 1;
                    mode = StripMode::Text;
                } else if b == 47u8 && i + 1 < len && input[i + 1] == 47u8 {
                    out.push(32u8);
                    i = i + 1;
                    mode = StripMode::LineComment;
                } else if b == 47u8 && i + 1 < len && input[i + 1] == 42u8 {
                    out.push(32u8);
                    out.push(32u8);
                    i = i + 2;
                    mode = StripMode::BlockComment;
                } else {
                    out.push(b);
                    i = i + 1;
                }
            },
            StripMode::Text => {
                if b == 92u8 {
                    out.push(92u8);
                    if i + 1 < len {
                        out.push(input[i + 1]);
                        i = i + 2;
                    } else {
                        i = i + 1;
                    }
                } else if b == 34u8 {
                    out.push(34u8);
                    i = i + 1;
                    mode = StripMode::Code;
                } else {
                    out.push(b);
                    i = i + 1;
                }
            },
            StripMode::LineComment => {
                if b == 10u8 {
                    mode = StripMode::Code;
                } else {
                    out.push(32u8);
                    i = i + 1;
                }
            },
            StripMode::BlockComment => {
                if i + 1 < len {
                    if b == 42u8 && input[i + 1] == 47u8 {
                        out.push(32u8);
                        out.push(32u8);
                        i = i + 2;
                        mode = StripMode::Code;
                    } else if b == 10u8 {
                        out.push(10u8);
                        i = i + 1;
                    } else {
                        out.push(32u8);
                        i = i + 1;
                    }
                } else {
                    mode = StripMode::Code;
                }
            },
        }
        proof {
            assert(out@ + strip_from(s, i as int, mode) =~= stripped(s)) by {
                assert(strip_from(s, i as int, mode).len() >= 0);
            }
        }
    }
    proof {
        assert(out@ =~= out@ + strip_from(input@, i as int, mode));
    }
    out
}

/// Stripping comments keeps every byte position: the output from position
/// `i` is exactly as long as the input from `i`, and each output byte is
/// either the input byte at the same position or a space standing for a
/// byte that is not a newline.
pub proof fn lemma_strip_keeps_positions(s: Seq<u8>, i: int, m: StripMode)
    requires
        0 <= i <= s.len(),
    ensures
        strip_from(s, i, m).len() == s.len() - i,
        forall|j: int|
            i <= j < s.len() ==> (#[trigger] strip_from(s, i, m)[j - i] == s[j] || (strip_from(
                s,
                i,
                m,
            )[j - i] == 32u8 && s[j] != 10u8)),
    decreases s.len() - i, mode_rank(m),
{
    let o = strip_from(s, i, m);
    if i >= s.len() {
        return ;
    }
    let (adv, m2): (int, StripMode) = match m {
        StripMode::Code => {
            if s[i] == 34u8 {
                (1, StripMode::Text)
            } else if s[i] == 47u8 && i + 1 < s.len() && s[i + 1] == 47u8 {
                (1, StripMode::LineComment)
            } else if s[i] == 47u8 && i + 1 < s.len() && s[i + 1] == 42u8 {
                (2, StripMode::BlockComment)
            } else {
                (1, StripMode::Code)
            }
        },
        StripMode::Text => {
            if s[i] == 92u8 {
                if i + 1 < s.len() {
                    (2, StripMode::Text)
                } else {
                    (1, StripMode::Text)
                }
            } else if s[i] == 34u8 {
                (1, StripMode::Code)
            } else {
                (1, StripMode::Text)
            }
        },
        StripMode::LineComment => {
            if s[i] == 10u8 {
                (0, StripMode::Code)
            } else {
                (1, StripMode::LineComment)
            }
        },
        StripMode::BlockComment => {
            if i + 1 < s.len() {
                if s[i] == 42u8 && s[i + 1] == 47u8 {
                    (2, StripMode::Code)
                } else {
                    (1, StripMode::BlockComment)
                }
            } else {
                (0, StripMode::Code)
            }
        },
    };
    lemma_strip_keeps_positions(s, i + adv, m2);
    let r = strip_from(s, i + adv, m2);
    assert(o =~= o.subrange(0, adv) + r);
    assert forall|j: int| i <= j < s.len() implies (#[trigger] o[j - i] == s[j] || (o[j - i] == 32u8
        && s[j] != 10u8)) by {
        if j >= i + adv {
            assert(o[j - i] == r[j - (i + adv)]);
        }
    }
}

/// A JSONC text with no `/` has no comment: stripping returns it unchanged.
pub proof fn lemma_strip_without_slash(s: Seq<u8>, i: int, m: StripMode)
    requires
        0 <= i <= s.len(),
        m == StripMode::Code || m == StripMode::Text,
        forall|j: int| i <= j < s.len() ==> #[trigger] s[j] != 47u8,
    ensures
        strip_from(s, i, m) == s.subrange(i, s.len() as int),
    decreases s.len() - i,
{
    if i >= s.len() {
        assert(s.subrange(i, s.len() as int) =~= Seq::<u8>::empty());
        return ;
    }
    assert(s[i] != 47u8);
    match m {
        StripMode::Code => {
            if s[i] == 34u8 {
                lemma_strip_without_slash(s, i + 1, StripMode::Text);
            } else {
                lemma_strip_without_slash(s, i + 1, StripMode::Code);
            }
        },
        _ => {
            if s[i] == 92u8 {
                if i + 1 < s.len() {
                    assert(s[i + 1] != 47u8);
                    lemma_strip_without_slash(s, i + 2, StripMode::Text);
                }
            } else if s[i] == 34u8 {
                lemma_strip_without_slash(s, i + 1, StripMode::Code);
            } else {
                lemma_strip_without_slash(s, i + 1, StripMode::Text);
            }
        },
    }
    assert(strip_from(s, i, m) =~= s.subrange(i, s.len() as int));
}

// ---------------------------------------------------------------------------
// The parsed-file cache
// ---------------------------------------------------------------------------

/// Time `a` is no earlier than time `b`, each given as (seconds,
/// nanoseconds) since the Unix epoch.
pub open spec fn not_earlier(a: (u64, u32), b: (u64, u32)) -> bool {
    a.0 > b.0 || (a.0 == b.0 && a.1 >= b.1)
}

/// Whether the cache of the parsed permissions file can be trusted, given
/// the modification times of the file and of the cache (`None` where one
/// could not be read): both are known and the cache was written no earlier
/// than the file was last changed.
pub fn cache_is_fresh(source: Option<(u64, u32)>, cache: Option<(u64, u32)>) -> (r: bool)
    ensures
        r == (source is Some && cache is Some && not_earlier(cache->0, source->0)),
{
    match (source, cache) {
        (Some(s), Some(c)) => c.0 > s.0 || (c.0 == s.0 && c.1 >= s.1),
        _ => false,
    }
}

} // verus!
