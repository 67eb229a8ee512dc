//! Small string operations of the standard library, with their documented
//! behaviour stated over character sequences.

use vstd::prelude::*;
use vstd::string::*;

verus! {

/// `<str as PartialEq>::eq`: two string slices are equal iff their
/// characters are.
#[verifier::external_body]
pub(crate) fn str_eq(a: &str, b: &str) -> (r: bool)
    ensures
        r == (a@ == b@),
{
    a == b
}

/// `str::starts_with` with a string pattern.
#[verifier::external_body]
pub(crate) fn starts_with(s: &str, prefix: &str) -> (r: bool)
    ensures
        r == prefix@.is_prefix_of(s@),
{
    s.starts_with(prefix)
}

/// `str::strip_prefix` with a string pattern: the rest of `s` after
/// `prefix`, or `None` when `s` does not start with `prefix`.
#[verifier::external_body]
pub(crate) fn strip_prefix<'a>(s: &'a str, prefix: &str) -> (r: Option<&'a str>)
    ensures
        match r {
            Some(rest) => prefix@.is_prefix_of(s@) && rest@ == s@.subrange(
                prefix@.len() as int,
                s@.len() as int,
            ),
            None => !prefix@.is_prefix_of(s@),
        },
{
    s.strip_prefix(prefix)
}

/// `str::strip_suffix` with a string pattern: `s` without `suffix`, or
/// `None` when `s` does not end with `suffix`.
#[verifier::external_body]
pub(crate) fn strip_suffix<'a>(s: &'a str, suffix: &str) -> (r: Option<&'a str>)
    ensures
        match r {
            Some(rest) => suffix@.is_suffix_of(s@) && rest@ == s@.subrange(
                0,
                s@.len() - suffix@.len(),
            ),
            None => !suffix@.is_suffix_of(s@),
        },
{
    s.strip_suffix(suffix)
}

/// The text that `{:?}` prints for a string slice: the string in double
/// quotes with special characters escaped.
pub uninterp spec fn debug_quoted(s: Seq<char>) -> Seq<char>;

/// `<str as Debug>::fmt`, rendered through `format!("{:?}", s)`.
#[verifier::external_body]
pub(crate) fn debug_str(s: &str) -> (r: String)
    ensures
        r@ == debug_quoted(s@),
{
    format!("{:?}", s)
}

/// A new string holding the characters of `s`.
pub fn string_of(s: &str) -> (r: String)
    ensures
        r@ == s@,
{
    s.to_owned()
}

} // verus!

verus! {

/// The lowercase form of a string, as `str::to_lowercase` computes it.
pub uninterp spec fn lowercase(s: Seq<char>) -> Seq<char>;

/// `str::to_lowercase`.
#[verifier::external_body]
pub(crate) fn to_lowercase(s: &str) -> (r: String)
    ensures
        r@ == lowercase(s@),
{
    s.to_lowercase()
}

/// A lowercase hexadecimal digit.
pub open spec fn hex_digit(d: int) -> char {
    if d < 10 {
        digit_char(d as nat)
    } else if d == 10 {
        'a'
    } else if d == 11 {
        'b'
    } else if d == 12 {
        'c'
    } else if d == 13 {
        'd'
    } else if d == 14 {
        'e'
    } else {
        'f'
    }
}

/// How `serde_json` writes character `c` inside a string literal: `"` and
/// `\` behind a backslash, the control characters below U+0020 as `\b`,
/// `\t`, `\n`, `\f`, `\r` or `\u00` and two hex digits, every other
/// character as it is.
pub open spec fn json_escape(c: char) -> Seq<char> {
    let code = c as int;
    if c == '"' {
        seq!['\\', '"']
    } else if c == '\\' {
        seq!['\\', '\\']
    } else if code == 8 {
        seq!['\\', 'b']
    } else if code == 9 {
        seq!['\\', 't']
    } else if code == 10 {
        seq!['\\', 'n']
    } else if code == 12 {
        seq!['\\', 'f']
    } else if code == 13 {
        seq!['\\', 'r']
    } else if code < 32 {
        seq!['\\', 'u', '0', '0', hex_digit(code / 16), hex_digit(code % 16)]
    } else {
        seq![c]
    }
}

/// The first `k` characters of `s`, each written as `json_escape` does.
pub open spec fn json_escaped(s: Seq<char>, k: int) -> Seq<char>
    decreases k,
{
    if k <= 0 {
        Seq::empty()
    } else {
        json_escaped(s, k - 1) + json_escape(s[k - 1])
    }
}

/// The JSON string literal that `serde_json::to_string` writes for `s`:
/// the escaped characters in double quotes.
pub open spec fn json_quoted(s: Seq<char>) -> Seq<char> {
    seq!['"'] + json_escaped(s, s.len() as int) + seq!['"']
}

/// `serde_json::to_string` of a string: `s` as a quoted JSON string
/// literal (`format_escaped_str` with its escape table).  Serialising a
/// string cannot fail.
#[verifier::external_body]
pub(crate) fn json_str(s: &str) -> (r: String)
    ensures
        r@ == json_quoted(s@),
{
    serde_json::to_string(s).unwrap()
}

/// A decimal numeral (`usize` as `Display` writes it).
pub open spec fn decimal(n: nat) -> Seq<char>
    decreases n,
{
    if n < 10 {
        seq![digit_char(n)]
    } else {
        decimal(n / 10).push(digit_char(n % 10))
    }
}

pub open spec fn digit_char(d: nat) -> char {
    if d == 0 { '0' } else if d == 1 { '1' } else if d == 2 { '2' } else if d == 3 { '3' }
    else if d == 4 { '4' } else if d == 5 { '5' } else if d == 6 { '6' } else if d == 7 { '7' }
    else if d == 8 { '8' } else { '9' }
}

fn digit_text(d: usize) -> (r: &'static str)
    requires
        d < 10,
    ensures
        r@ == seq![digit_char(d as nat)],
{
    proof {
        reveal_strlit("0");
        reveal_strlit("1");
        reveal_strlit("2");
        reveal_strlit("3");
        reveal_strlit("4");
        reveal_strlit("5");
        reveal_strlit("6");
        reveal_strlit("7");
        reveal_strlit("8");
        reveal_strlit("9");
    }
    if d == 0 { "0" } else if d == 1 { "1" } else if d == 2 { "2" } else if d == 3 { "3" }
    else if d == 4 { "4" } else if d == 5 { "5" } else if d == 6 { "6" } else if d == 7 { "7" }
    else if d == 8 { "8" } else { "9" }
}

/// `n` written in decimal.
pub fn usize_text(n: usize) -> (r: String)
    ensures
        r@ == decimal(n as nat),
    decreases n,
{
    if n < 10 {
        let mut s = String::new();
        s.append(digit_text(n));
        proof {
            assert(s@ =~= seq![digit_char(n as nat)]);
        }
        s
    } else {
        let mut s = usize_text(n / 10);
        s.append(digit_text(n % 10));
        s
    }
}

} // verus!

verus! {

/// One member of a JSON object: the quoted key, `:`, the quoted value.
pub open spec fn json_member(e: (Seq<char>, Seq<char>)) -> Seq<char> {
    json_quoted(e.0) + seq![':'] + json_quoted(e.1)
}

/// The members for the first `k` entries, separated by commas.
pub open spec fn json_members(entries: Seq<(Seq<char>, Seq<char>)>, k: int) -> Seq<char>
    decreases k,
{
    if k <= 0 {
        Seq::empty()
    } else if k == 1 {
        json_member(entries[0])
    } else {
        json_members(entries, k - 1) + seq![','] + json_member(entries[k - 1])
    }
}

/// The compact JSON text that `serde_json` writes for an object whose
/// values are the strings of `entries`: the members in entry order, in
/// braces.
pub open spec fn json_object_text(entries: Seq<(Seq<char>, Seq<char>)>) -> Seq<char> {
    seq!['{'] + json_members(entries, entries.len() as int) + seq!['}']
}

/// `serde_json::Value::to_string` of the JSON object built from a table of
/// strings (`serde_json::Map` collected from the table's entries, which
/// keeps their order): the compact formatter writes `{`, each key and value
/// as `serde_json` quotes a string with `:` between them and `,` between
/// members, then `}`.
#[verifier::external_body]
pub(crate) fn json_object(m: &indexmap::IndexMap<String, String>) -> (r: String)
    ensures
        r@ == json_object_text(crate::maps::perm_entries(*m)),
{
    let obj: serde_json::Map<String, serde_json::Value> = m.iter().map(
        |(k, v)| (k.clone(), serde_json::Value::String(v.clone())),
    ).collect();
    serde_json::Value::Object(obj).to_string()
}

/// A member value of a JSON object: a string, or an object of strings.
pub enum JsonField {
    Text(String),
    Table(indexmap::IndexMap<String, String>),
}

/// The mathematical content of a `JsonField`.
pub enum JsonFieldView {
    Text(Seq<char>),
    Table(Seq<(Seq<char>, Seq<char>)>),
}

impl JsonField {
    pub open spec fn field_view(&self) -> JsonFieldView {
        match self {
            JsonField::Text(s) => JsonFieldView::Text(s@),
            JsonField::Table(m) => JsonFieldView::Table(crate::maps::perm_entries(*m)),
        }
    }
}

/// Named fields by their views.
pub open spec fn fields_view(fs: Seq<(String, JsonField)>) -> Seq<(Seq<char>, JsonFieldView)> {
    fs.map_values(|f: (String, JsonField)| (f.0@, f.1.field_view()))
}

/// `k` steps of the two-space indentation of `serde_json`'s pretty printer.
pub open spec fn pretty_indent(k: nat) -> Seq<char> {
    Seq::new(2 * k, |i: int| ' ')
}

/// A pretty-printed object whose members, each already led by a newline
/// and its indentation, are `members` (`count` of them), closing at
/// indentation `depth`: `{}` when it has none.
pub open spec fn pretty_object(members: Seq<char>, count: nat, depth: nat) -> Seq<char> {
    if count == 0 {
        seq!['{', '}']
    } else {
        seq!['{'] + members + seq!['\n'] + pretty_indent(depth) + seq!['}']
    }
}

/// The first `k` entries of a table of strings as pretty-printed members at
/// indentation `depth`: each on a new line after a comma (none before the
/// first), the quoted key, `: `, the quoted value.
pub open spec fn pretty_strings(t: Seq<(Seq<char>, Seq<char>)>, k: int, depth: nat) -> Seq<char>
    decreases k,
{
    if k <= 0 {
        Seq::empty()
    } else {
        pretty_strings(t, k - 1, depth) + (if k == 1 {
            seq!['\n']
        } else {
            seq![',', '\n']
        }) + pretty_indent(depth) + json_quoted(t[k - 1].0) + seq![':', ' '] + json_quoted(t[k - 1].1)
    }
}

/// A member value pretty-printed for a member at indentation `depth`.
pub open spec fn pretty_field(f: JsonFieldView, depth: nat) -> Seq<char> {
    match f {
        JsonFieldView::Text(s) => json_quoted(s),
        JsonFieldView::Table(t) => pretty_object(pretty_strings(t, t.len() as int, depth + 1), t.len(), depth),
    }
}

/// The first `k` named fields as pretty-printed members at indentation
/// `depth`, as `pretty_strings` lays them out.
pub open spec fn pretty_fields(fs: Seq<(Seq<char>, JsonFieldView)>, k: int, depth: nat) -> Seq<char>
    decreases k,
{
    if k <= 0 {
        Seq::empty()
    } else {
        pretty_fields(fs, k - 1, depth) + (if k == 1 {
            seq!['\n']
        } else {
            seq![',', '\n']
        }) + pretty_indent(depth) + json_quoted(fs[k - 1].0) + seq![':', ' '] + pretty_field(fs[k - 1].1, depth)
    }
}

/// The pretty-printed JSON of the object `{outer: {fields}}`.
pub open spec fn pretty_block(outer: Seq<char>, fs: Seq<(Seq<char>, JsonFieldView)>) -> Seq<char> {
    let inner = pretty_object(pretty_fields(fs, fs.len() as int, 2), fs.len(), 1);
    pretty_object(seq!['\n'] + pretty_indent(1) + json_quoted(outer) + seq![':', ' '] + inner, 1, 0)
}

/// `serde_json::to_string_pretty` of the object `{outer: {fields}}`, built
/// as a `serde_json::Value` (a `serde_json::Map` keeps the fields' order).
/// The pretty formatter indents by two spaces per level, puts each member
/// on its own line after `,` (none before the first), writes `: ` between
/// key and value, closes a non-empty object on its own line at the outer
/// level and writes an empty one as `{}`.  Serialising a `Value` with
/// string keys cannot fail.
#[verifier::external_body]
pub(crate) fn json_pretty_block(outer: &str, fields: &Vec<(String, JsonField)>) -> (r: String)
    requires
        forall|i: int, j: int| 0 <= i < j < fields@.len() ==> fields@[i].0@ != fields@[j].0@,
    ensures
        r@ == pretty_block(outer@, fields_view(fields@)),
{
    let text = |s: &String| serde_json::Value::String(s.clone());
    let inner: serde_json::Map<String, serde_json::Value> = fields.iter().map(|(k, f)| (k.clone(), match f {
        JsonField::Text(s) => text(s),
        JsonField::Table(m) => serde_json::Value::Object(m.iter().map(|(a, b)| (a.clone(), text(b))).collect()),
    })).collect();
    let mut top = serde_json::Map::new();
    top.insert(outer.to_string(), serde_json::Value::Object(inner));
    serde_json::to_string_pretty(&serde_json::Value::Object(top)).unwrap()
}

} // verus!
