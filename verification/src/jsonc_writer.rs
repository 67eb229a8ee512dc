//! Formatting of permission blocks and assembly of the generated JSONC
//! document.

use vstd::prelude::*;
use vstd::string::*;

use crate::maps::{names_view, perm_entries, pm_get_index, pm_len};
use crate::models::{BashPermission, SotPermission};
use crate::text::{json_quoted, json_str, string_of};

verus! {

// ---------------------------------------------------------------------------
// Text helpers
// ---------------------------------------------------------------------------

/// `level` indentation steps of two spaces.
pub open spec fn indent_text(level: nat) -> Seq<char>
    decreases level,
{
    if level == 0 {
        Seq::empty()
    } else {
        indent_text((level - 1) as nat) + seq![' ', ' ']
    }
}

/// Two spaces per indentation level.
pub fn indent(level: usize) -> (r: String)
    ensures
        r@ == indent_text(level as nat),
{
    let mut s = String::new();
    let mut i: usize = 0;
    while i < level
        invariant
            i <= level,
            s@ == indent_text(i as nat),
        decreases level - i,
    {
        s.append("  ");
        proof {
            reveal_strlit("  ");
            assert(s@ =~= indent_text((i + 1) as nat));
        }
        i = i + 1;
    }
    s
}

/// The lines joined by newlines (no newline after the last).
pub open spec fn joined(ls: Seq<Seq<char>>) -> Seq<char>
    decreases ls.len(),
{
    if ls.len() == 0 {
        Seq::empty()
    } else if ls.len() == 1 {
        ls[0]
    } else {
        joined(ls.drop_last()) + seq!['\n'] + ls.last()
    }
}

/// Join lines with `"\n"`.
pub fn join_lines(lines: &Vec<String>) -> (r: String)
    ensures
        r@ == joined(names_view(*lines)),
{
    let ghost ls = names_view(*lines);
    let mut s = String::new();
    let mut i: usize = 0;
    while i < lines.len()
        invariant
            ls == names_view(*lines),
            i <= lines@.len(),
            s@ == joined(ls.take(i as int)),
        decreases lines.len() - i,
    {
        if i > 0 {
            s.append("\n");
        }
        s.append(lines[i].as_str());
        proof {
            reveal_strlit("\n");
            assert(ls.take(i + 1).drop_last() =~= ls.take(i as int));
            assert(ls[i as int] == lines@[i as int]@);
            if i == 0 {
                assert(s@ =~= joined(ls.take(1)));
            } else {
                assert(s@ =~= joined(ls.take(i + 1)));
            }
        }
        i = i + 1;
    }
    proof {
        assert(ls.take(lines@.len() as int) =~= ls);
    }
    s
}

// ---------------------------------------------------------------------------
// Permission formatters
// ---------------------------------------------------------------------------

/// `"<key>": "<value>"` at `level`.
pub open spec fn kv_line(level: nat, k: Seq<char>, v: Seq<char>) -> Seq<char> {
    indent_text(level) + json_quoted(k) + ": "@ + json_quoted(v)
}

/// The lines of a command table at `level`, each entry but the last with a
/// trailing comma.
pub open spec fn table_lines(level: nat, s: Seq<(Seq<char>, Seq<char>)>) -> Seq<Seq<char>> {
    Seq::new(
        s.len(),
        |i: int| kv_line(level, s[i].0, s[i].1) + if i < s.len() - 1 { ","@ } else { Seq::empty() },
    )
}

/// The lines of a `"bash": { ... }` object at `level`.
pub open spec fn bash_object_lines(level: nat, s: Seq<(Seq<char>, Seq<char>)>) -> Seq<Seq<char>> {
    seq![indent_text(level) + json_quoted("bash"@) + ": {"@] + table_lines(level + 1, s) + seq![
        indent_text(level) + "}"@,
    ]
}

/// The lines of the `bash` entry at `level`.
pub open spec fn bash_lines(level: nat, b: BashPermission) -> Seq<Seq<char>> {
    match b {
        BashPermission::Simple(s) => seq![kv_line(level, "bash"@, s@)],
        BashPermission::Detailed(m) => bash_object_lines(level, perm_entries(m)),
    }
}

/// Entries of a block, each a run of lines: `write`, `edit` (when present),
/// then `bash`.
pub open spec fn simple_entries(perm: SotPermission, level: nat) -> Seq<Seq<Seq<char>>> {
    let w = match perm.write {
        Some(s) => seq![seq![kv_line(level, "write"@, s@)]],
        None => Seq::empty(),
    };
    let e = match perm.edit {
        Some(s) => seq![seq![kv_line(level, "edit"@, s@)]],
        None => Seq::empty(),
    };
    w + e + seq![bash_lines(level, perm.bash)]
}

/// The entries' lines in order, with a comma closing every entry but the
/// last.
pub open spec fn entries_lines(es: Seq<Seq<Seq<char>>>) -> Seq<Seq<char>>
    decreases es.len(),
{
    if es.len() == 0 {
        Seq::empty()
    } else if es.len() == 1 {
        es[0]
    } else {
        entries_lines(es.drop_last()).update(
            entries_lines(es.drop_last()).len() - 1,
            entries_lines(es.drop_last()).last() + ","@,
        ) + es.last()
    }
}

fn table_lines_exec(level: usize, m: &indexmap::IndexMap<String, String>, out: &mut Vec<String>)
    ensures
        names_view(*final(out)) == names_view(*old(out)) + table_lines(level as nat, perm_entries(*m)),
{
    let ghost s = perm_entries(*m);
    let ghost start = names_view(*out);
    let count = pm_len(m);
    let mut i: usize = 0;
    while i < count
        invariant
            s == perm_entries(*m),
            count == s.len(),
            i <= count,
            names_view(*out) == start + table_lines(level as nat, s).take(i as int),
        decreases count - i,
    {
        let (k, v) = pm_get_index(m, i).unwrap();
        let mut line = indent(level);
        let qk = json_str(k.as_str());
        let qv = json_str(v.as_str());
        line.append(qk.as_str());
        line.append(": ");
        line.append(qv.as_str());
        if i + 1 < count {
            line.append(",");
        }
        let ghost before = names_view(*out);
        out.push(line);
        proof {
            assert(line@ == table_lines(level as nat, s)[i as int]);
            assert(table_lines(level as nat, s).take(i + 1) =~= table_lines(level as nat, s).take(i as int).push(line@));
            assert(names_view(*out) =~= before.push(line@));
        }
        i = i + 1;
    }
    proof {
        assert(table_lines(level as nat, s).take(count as int) =~= table_lines(level as nat, s));
    }
}

fn kv_line_exec(level: usize, k: &str, v: &str) -> (r: String)
    ensures
        r@ == kv_line(level as nat, k@, v@),
{
    let mut line = indent(level);
    let qk = json_str(k);
    let qv = json_str(v);
    line.append(qk.as_str());
    line.append(": ");
    line.append(qv.as_str());
    line
}

fn bash_lines_exec(level: usize, b: &BashPermission) -> (r: Vec<String>)
    requires
        level < usize::MAX,
    ensures
        names_view(r) == bash_lines(level as nat, *b),
{
    let mut lines: Vec<String> = Vec::new();
    match b {
        BashPermission::Simple(s) => {
            lines.push(kv_line_exec(level, "bash", s.as_str()));
            proof {
                assert(names_view(lines) =~= bash_lines(level as nat, *b));
            }
        },
        BashPermission::Detailed(m) => {
            let mut open = indent(level);
            let qb = json_str("bash");
            open.append(qb.as_str());
            open.append(": {");
            lines.push(open);
            table_lines_exec(level + 1, m, &mut lines);
            let mut close = indent(level);
            close.append("}");
            let ghost before = names_view(lines);
            lines.push(close);
            proof {
                assert(names_view(lines) =~= before.push(close@));
                assert(names_view(lines) =~= bash_lines(level as nat, *b));
            }
        },
    }
    lines
}

/// Format permission block content for a complex category: the `bash`
/// object with one line per command entry.
pub fn format_complex_permission(perm: &SotPermission, base: usize) -> (r: Vec<String>)
    requires
        base < usize::MAX,
    ensures
        names_view(r) == bash_lines(base as nat, perm.bash),
{
    bash_lines_exec(base, &perm.bash)
}

/// Format permission block content for a simple category: `write`, `edit`
/// (when present) and `bash`, each entry but the last closed by a comma.
pub fn format_simple_permission(perm: &SotPermission, base: usize) -> (r: Vec<String>)
    requires
        base < usize::MAX,
    ensures
        names_view(r) == entries_lines(simple_entries(*perm, base as nat)),
{
    let ghost es = simple_entries(*perm, base as nat);
    let mut lines: Vec<String> = Vec::new();
    let ghost mut done: int = 0;
    match &perm.write {
        Some(w) => {
            lines.push(kv_line_exec(base, "write", w.as_str()));
            proof {
                done = 1;
                assert(names_view(lines) =~= entries_lines(es.take(1)));
            }
        },
        None => {},
    }
    match &perm.edit {
        Some(e) => {
            if lines.len() > 0 {
                let last = lines.len() - 1;
                let mut l = lines[last].clone();
                l.append(",");
                lines.set(last, l);
            }
            lines.push(kv_line_exec(base, "edit", e.as_str()));
            proof {
                assert(es.take(done + 1).drop_last() =~= es.take(done));
                done = done + 1;
                assert(names_view(lines) =~= entries_lines(es.take(done)));
            }
        },
        None => {},
    }
    let bl = bash_lines_exec(base, &perm.bash);
    if lines.len() > 0 {
        let last = lines.len() - 1;
        let mut l = lines[last].clone();
        l.append(",");
        lines.set(last, l);
    }
    let ghost before = names_view(lines);
    let mut j: usize = 0;
    while j < bl.len()
        invariant
            j <= bl@.len(),
            names_view(lines) == before + names_view(bl).take(j as int),
        decreases bl.len() - j,
    {
        let ghost pre = names_view(lines);
        let c = bl[j].clone();
        lines.push(c);
        proof {
            assert(names_view(lines) =~= pre.push(c@));
            assert(names_view(bl).take(j + 1) =~= names_view(bl).take(j as int).push(bl@[j as int]@));
        }
        j = j + 1;
    }
    proof {
        assert(names_view(bl).take(bl@.len() as int) =~= names_view(bl));
        assert(es.take(done + 1) =~= es);
        assert(es.take(done + 1).drop_last() =~= es.take(done));
    }
    lines
}

// ---------------------------------------------------------------------------
// Agent block and document
// ---------------------------------------------------------------------------

/// The texts of a slice of strings.
pub open spec fn texts(v: Seq<String>) -> Seq<Seq<char>> {
    v.map_values(|s: String| s@)
}

/// The permission lines of an agent at level 3.
pub open spec fn permission_lines(perm: SotPermission, is_simple: bool) -> Seq<Seq<char>> {
    if is_simple {
        entries_lines(simple_entries(perm, 3))
    } else {
        bash_lines(3, perm.bash)
    }
}

/// The lines of an agent block: its comment lines at level 1, the agent key,
/// the `"permission"` object with the permission lines, and the closing
/// braces, the last followed by a comma unless the agent comes last.
pub open spec fn agent_block_lines(
    name: Seq<char>,
    perm: SotPermission,
    comments: Seq<Seq<char>>,
    is_simple: bool,
    is_last: bool,
) -> Seq<Seq<char>> {
    comments.map_values(|c: Seq<char>| indent_text(1) + c) + seq![
        indent_text(1) + json_quoted(name) + ": {"@,
        indent_text(2) + json_quoted("permission"@) + ": {"@,
    ] + permission_lines(perm, is_simple) + seq![
        indent_text(2) + "}"@,
        indent_text(1) + if is_last { "}"@ } else { "},"@ },
    ]
}

pub(crate) fn push_all(out: &mut Vec<String>, more: &Vec<String>)
    ensures
        names_view(*final(out)) == names_view(*old(out)) + names_view(*more),
{
    let ghost start = names_view(*out);
    let mut j: usize = 0;
    while j < more.len()
        invariant
            j <= more@.len(),
            names_view(*out) == start + names_view(*more).take(j as int),
        decreases more.len() - j,
    {
        let ghost pre = names_view(*out);
        let c = more[j].clone();
        out.push(c);
        proof {
            assert(names_view(*out) =~= pre.push(c@));
            assert(names_view(*more).take(j + 1) =~= names_view(*more).take(j as int).push(more@[j as int]@));
        }
        j = j + 1;
    }
    proof {
        assert(names_view(*more).take(more@.len() as int) =~= names_view(*more));
    }
}

/// Format a complete agent block: comment lines, then
/// `"<name>": { "permission": { ... } }`, with a comma after the closing
/// brace unless `is_last`.
pub fn format_agent_block(
    name: &str,
    perm: &SotPermission,
    comments: &[String],
    is_simple: bool,
    is_last: bool,
) -> (r: Vec<String>)
    ensures
        names_view(r) == agent_block_lines(name@, *perm, texts(comments@), is_simple, is_last),
{
    let ghost cs = texts(comments@).map_values(|c: Seq<char>| indent_text(1) + c);
    let mut lines: Vec<String> = Vec::new();
    let mut i: usize = 0;
    while i < comments.len()
        invariant
            i <= comments@.len(),
            cs == texts(comments@).map_values(|c: Seq<char>| indent_text(1) + c),
            names_view(lines) == cs.take(i as int),
        decreases comments.len() - i,
    {
        let mut l = indent(1);
        l.append(comments[i].as_str());
        let ghost pre = names_view(lines);
        lines.push(l);
        proof {
            assert(names_view(lines) =~= pre.push(l@));
            assert(cs.take(i + 1) =~= cs.take(i as int).push(l@));
        }
        i = i + 1;
    }
    proof {
        assert(cs.take(comments@.len() as int) =~= cs);
    }
    let mut key = indent(1);
    let qn = json_str(name);
    key.append(qn.as_str());
    key.append(": {");
    let mut popen = indent(2);
    let qp = json_str("permission");
    popen.append(qp.as_str());
    popen.append(": {");
    let ghost pre = names_view(lines);
    lines.push(key);
    lines.push(popen);
    proof {
        assert(names_view(lines) =~= pre.push(key@).push(popen@));
    }
    let body = if is_simple {
        format_simple_permission(perm, 3)
    } else {
        format_complex_permission(perm, 3)
    };
    push_all(&mut lines, &body);
    let mut pclose = indent(2);
    pclose.append("}");
    let mut aclose = indent(1);
    if is_last {
        aclose.append("}");
    } else {
        aclose.append("},");
    }
    let ghost pre2 = names_view(lines);
    lines.push(pclose);
    lines.push(aclose);
    proof {
        assert(names_view(lines) =~= pre2.push(pclose@).push(aclose@));
        assert(names_view(lines) =~= agent_block_lines(name@, *perm, texts(comments@), is_simple, is_last));
    }
    lines
}

/// The category blocks' lines in order, an empty line between two blocks.
pub open spec fn blocks_lines(blocks: Seq<Seq<Seq<char>>>) -> Seq<Seq<char>>
    decreases blocks.len(),
{
    if blocks.len() == 0 {
        Seq::empty()
    } else if blocks.len() == 1 {
        blocks[0]
    } else {
        blocks_lines(blocks.drop_last()) + seq![Seq::<char>::empty()] + blocks.last()
    }
}

/// The lines of the document: the header lines, `{`, the category blocks
/// separated by empty lines, and `}`.
pub open spec fn document_lines(header: Seq<Seq<char>>, blocks: Seq<Seq<Seq<char>>>) -> Seq<Seq<char>> {
    header + seq!["{"@] + blocks_lines(blocks) + seq!["}"@]
}

/// Assemble the full JSONC document from header lines and category blocks.
pub fn assemble_document(header_lines: &[String], category_blocks: &[Vec<String>]) -> (r: String)
    ensures
        r@ == joined(
            document_lines(
                texts(header_lines@),
                category_blocks@.map_values(|b: Vec<String>| names_view(b)),
            ),
        ),
{
    let ghost bs = category_blocks@.map_values(|b: Vec<String>| names_view(b));
    let mut parts: Vec<String> = Vec::new();
    let mut i: usize = 0;
    while i < header_lines.len()
        invariant
            i <= header_lines@.len(),
            names_view(parts) == texts(header_lines@).take(i as int),
        decreases header_lines.len() - i,
    {
        let c = header_lines[i].clone();
        let ghost pre = names_view(parts);
        parts.push(c);
        proof {
            assert(names_view(parts) =~= pre.push(c@));
            assert(texts(header_lines@).take(i + 1) =~= texts(header_lines@).take(i as int).push(c@));
        }
        i = i + 1;
    }
    proof {
        assert(texts(header_lines@).take(header_lines@.len() as int) =~= texts(header_lines@));
    }
    let ghost head = names_view(parts);
    parts.push("{".to_string());
    proof {
        reveal_strlit("{");
    }
    let ghost opened = names_view(parts);
    assert(opened =~= head.push("{"@));
    let mut b: usize = 0;
    while b < category_blocks.len()
        invariant
            b <= category_blocks@.len(),
            bs == category_blocks@.map_values(|x: Vec<String>| names_view(x)),
            names_view(parts) == opened + blocks_lines(bs.take(b as int)),
        decreases category_blocks.len() - b,
    {
        let ghost pre = names_view(parts);
        if b > 0 {
            parts.push(String::new());
            assert(names_view(parts) =~= pre.push(Seq::<char>::empty()));
        }
        let ghost mid = names_view(parts);
        push_all(&mut parts, &category_blocks[b]);
        proof {
            assert(bs.take(b + 1).drop_last() =~= bs.take(b as int));
            assert(bs[b as int] == names_view(category_blocks@[b as int]));
            if b == 0 {
                assert(names_view(parts) =~= opened + blocks_lines(bs.take(1)));
            } else {
                assert(names_view(parts) =~= opened + blocks_lines(bs.take(b + 1)));
            }
        }
        b = b + 1;
    }
    proof {
        assert(bs.take(category_blocks@.len() as int) =~= bs);
    }
    let ghost body = names_view(parts);
    let close = "}".to_string();
    parts.push(close);
    proof {
        reveal_strlit("}");
        assert(names_view(parts) =~= body.push(close@));
        assert(names_view(parts) =~= document_lines(texts(header_lines@), bs));
    }
    join_lines(&parts)
}

} // verus!
