use indexmap::IndexMap;
use opencode_agency::jsonc_writer::{
    assemble_document, format_agent_block, format_complex_permission, format_simple_permission, indent,
};
use opencode_agency::models::{BashPermission, SotPermission};

fn simple_bash_deny() -> SotPermission {
    SotPermission { write: None, edit: None, bash: BashPermission::Simple("deny".to_string()) }
}

fn simple_write_edit_bash() -> SotPermission {
    SotPermission {
        write: Some("deny".to_string()),
        edit: Some("deny".to_string()),
        bash: BashPermission::Simple("deny".to_string()),
    }
}

fn simple_bash_object() -> SotPermission {
    let mut map = IndexMap::new();
    map.insert("*".to_string(), "allow".to_string());
    SotPermission { write: None, edit: None, bash: BashPermission::Detailed(map) }
}

fn complex_three_entries() -> SotPermission {
    let mut map = IndexMap::new();
    map.insert("npm *".to_string(), "allow".to_string());
    map.insert("npx *".to_string(), "allow".to_string());
    map.insert("node *".to_string(), "allow".to_string());
    SotPermission { write: None, edit: None, bash: BashPermission::Detailed(map) }
}

fn complex_single_entry() -> SotPermission {
    let mut map = IndexMap::new();
    map.insert("npm *".to_string(), "allow".to_string());
    SotPermission { write: None, edit: None, bash: BashPermission::Detailed(map) }
}

#[test]
fn test_format_simple_bash_deny() {
    let lines = format_simple_permission(&simple_bash_deny(), 3);
    assert_eq!(lines.len(), 1);
    assert_eq!(lines[0], r#"      "bash": "deny""#);
}

#[test]
fn test_format_simple_write_edit_bash() {
    let lines = format_simple_permission(&simple_write_edit_bash(), 3);
    assert_eq!(lines.len(), 3);
    assert_eq!(lines[0], r#"      "write": "deny","#);
    assert_eq!(lines[1], r#"      "edit": "deny","#);
    assert_eq!(lines[2], r#"      "bash": "deny""#);
}

#[test]
fn test_format_simple_bash_object() {
    let lines = format_simple_permission(&simple_bash_object(), 3);
    assert_eq!(lines.len(), 3);
    assert_eq!(lines[0], r#"      "bash": {"#);
    assert_eq!(lines[1], r#"        "*": "allow""#);
    assert_eq!(lines[2], r#"      }"#);
}

#[test]
fn test_format_complex_permission() {
    let lines = format_complex_permission(&complex_three_entries(), 3);
    assert_eq!(lines.len(), 5);
    assert_eq!(lines[0], r#"      "bash": {"#);
    assert_eq!(lines[1], r#"        "npm *": "allow","#);
    assert_eq!(lines[2], r#"        "npx *": "allow","#);
    assert_eq!(lines[3], r#"        "node *": "allow""#);
    assert_eq!(lines[4], r#"      }"#);
    assert!(!lines[3].ends_with(','));
    assert!(lines[1].ends_with(','));
    assert!(lines[2].ends_with(','));
}

#[test]
fn test_format_complex_single_entry() {
    let lines = format_complex_permission(&complex_single_entry(), 3);
    assert_eq!(lines.len(), 3);
    assert_eq!(lines[0], r#"      "bash": {"#);
    assert_eq!(lines[1], r#"        "npm *": "allow""#);
    assert_eq!(lines[2], r#"      }"#);
    assert!(!lines[1].ends_with(','));
}

#[test]
fn test_format_agent_block_with_comments() {
    let perm = complex_three_entries();
    let comments = vec![
        "// --- x-backend-engineer ---".to_string(),
        "// Backend APIs, Prisma, PostgreSQL".to_string(),
        "// Overrides: +1 add (docker *)".to_string(),
    ];
    let lines = format_agent_block("x-backend-engineer", &perm, &comments, false, false);
    assert_eq!(lines[0], "  // --- x-backend-engineer ---");
    assert_eq!(lines[1], "  // Backend APIs, Prisma, PostgreSQL");
    assert_eq!(lines[2], "  // Overrides: +1 add (docker *)");
    assert_eq!(lines[3], r#"  "x-backend-engineer": {"#);
    assert_eq!(lines[4], r#"    "permission": {"#);
    assert_eq!(lines[5], r#"      "bash": {"#);
    assert_eq!(lines[6], r#"        "npm *": "allow","#);
    assert_eq!(lines[7], r#"        "npx *": "allow","#);
    assert_eq!(lines[8], r#"        "node *": "allow""#);
    assert_eq!(lines[9], r#"      }"#);
    assert_eq!(lines[10], r#"    }"#);
    assert_eq!(lines[11], r#"  },"#);
}

#[test]
fn test_format_agent_block_last_no_comma() {
    let comments = vec!["// --- plan ---".to_string()];
    let lines = format_agent_block("plan", &simple_bash_deny(), &comments, true, true);
    let last = lines.last().unwrap();
    assert_eq!(last, "  }");
    assert!(!last.ends_with(','));
}

#[test]
fn test_format_agent_block_not_last_has_comma() {
    let comments = vec!["// --- plan ---".to_string()];
    let lines = format_agent_block("plan", &simple_bash_deny(), &comments, true, false);
    let last = lines.last().unwrap();
    assert_eq!(last, "  },");
    assert!(last.ends_with(','));
}

#[test]
fn test_assemble_document() {
    let header = vec![
        "// =============================================================================".to_string(),
        "// OpenCode Agent Permissions — Source of Truth".to_string(),
        "// Generated by agency from _templates/ + _agents/".to_string(),
        "// =============================================================================".to_string(),
    ];
    let cat1 = format_agent_block(
        "x-backend-engineer",
        &complex_three_entries(),
        &["// --- x-backend-engineer ---".to_string()],
        false,
        false,
    );
    let cat2 = format_agent_block("plan", &simple_bash_deny(), &["// --- plan ---".to_string()], true, true);
    let doc = assemble_document(&header, &[cat1, cat2]);
    assert!(doc.starts_with("// ="));
    assert!(doc.contains("{"));
    assert!(doc.ends_with("}"));
    let doc_lines: Vec<&str> = doc.lines().collect();
    let comma_close_idx = doc_lines
        .iter()
        .position(|l| *l == "  },")
        .expect("should have agent closing with comma");
    assert_eq!(doc_lines[comma_close_idx + 1], "", "blank line between categories");
    let opening_brace_idx = doc_lines.iter().position(|l| *l == "{").expect("should have opening brace");
    assert_ne!(doc_lines[opening_brace_idx + 1], "", "no blank line after opening brace");
    let closing_brace_idx = doc_lines.iter().rposition(|l| *l == "}").expect("should have closing brace");
    assert_ne!(doc_lines[closing_brace_idx - 1], "", "no blank line before closing brace");
}

#[test]
fn test_trailing_comma_correctness() {
    let header = vec!["// header".to_string()];
    let mut cat1 = Vec::new();
    cat1.extend(format_agent_block(
        "agent-a",
        &simple_write_edit_bash(),
        &["// --- agent-a ---".to_string()],
        true,
        false,
    ));
    cat1.extend(format_agent_block(
        "agent-b",
        &simple_bash_object(),
        &["// --- agent-b ---".to_string()],
        true,
        false,
    ));
    let cat2 = format_agent_block("agent-z", &simple_bash_deny(), &["// --- agent-z ---".to_string()], true, true);
    let doc = assemble_document(&header, &[cat1, cat2]);
    let doc_lines: Vec<&str> = doc.lines().collect();
    for (i, line) in doc_lines.iter().enumerate() {
        let trimmed = line.trim();
        if trimmed == "}" || trimmed == "}," {
            if i > 0 {
                let prev = doc_lines[i - 1].trim();
                if !prev.is_empty() {
                    assert!(
                        !prev.ends_with(','),
                        "line {} ({:?}) precedes a closing brace but has trailing comma",
                        i - 1,
                        prev
                    );
                }
            }
        }
    }
    assert!(doc.contains("  }"));
    let agent_closes: Vec<(usize, &&str)> = doc_lines
        .iter()
        .enumerate()
        .filter(|(_, l)| l.trim() == "}" || l.trim() == "},")
        .collect();
    let last_doc_close = agent_closes.last().unwrap();
    assert_eq!(last_doc_close.1.trim(), "}");
}

#[test]
fn indent_is_two_spaces_per_level() {
    assert_eq!(indent(0), "");
    assert_eq!(indent(3), "      ");
}

#[test]
fn assemble_empty_document() {
    let doc = assemble_document(&[], &[]);
    assert_eq!(doc, "{\n}");
}

#[test]
fn format_simple_bash_object_escapes_keys_and_values() {
    let mut map = IndexMap::new();
    map.insert("echo \"hi\"\\".to_string(), "al\tlow\u{1}".to_string());
    let perm = SotPermission { write: None, edit: None, bash: BashPermission::Detailed(map) };
    let lines = format_simple_permission(&perm, 3);
    assert_eq!(lines[1], "        \"echo \\\"hi\\\"\\\\\": \"al\\tlow\\u0001\"");
}
