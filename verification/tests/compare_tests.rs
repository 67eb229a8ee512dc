use indexmap::IndexMap;
use opencode_agency::compare::{compare_agent_permissions, compare_sots, comparison_lines, AgentComparison};
use opencode_agency::models::{BashPermission, Sot, SotAgent, SotPermission};

fn table(pairs: &[(&str, &str)]) -> IndexMap<String, String> {
    pairs.iter().map(|(k, v)| (k.to_string(), v.to_string())).collect()
}

fn block(bash: BashPermission) -> SotPermission {
    SotPermission { write: None, edit: None, bash }
}

#[test]
fn identical_blocks_have_no_differences() {
    let a = block(BashPermission::Detailed(table(&[("npm *", "allow")])));
    let b = block(BashPermission::Detailed(table(&[("npm *", "allow")])));
    assert!(compare_agent_permissions(&a, &b).is_empty());
}

#[test]
fn differences_are_described() {
    let a = SotPermission {
        write: Some("deny".to_string()),
        edit: None,
        bash: BashPermission::Detailed(table(&[("npm *", "allow"), ("a", "deny")])),
    };
    let b = SotPermission {
        write: None,
        edit: None,
        bash: BashPermission::Detailed(table(&[("npm *", "ask"), ("b", "allow")])),
    };
    assert_eq!(
        compare_agent_permissions(&a, &b),
        vec![
            "write: source=Some(\"deny\") vs target=None".to_string(),
            "bash.npm *: source='allow' vs target='ask'".to_string(),
            "bash.a: only in source ('deny')".to_string(),
            "bash.b: only in target ('allow')".to_string(),
        ]
    );
}

#[test]
fn kind_mismatch_is_described() {
    let a = block(BashPermission::Simple("deny".to_string()));
    let b = block(BashPermission::Detailed(table(&[])));
    assert_eq!(
        compare_agent_permissions(&a, &b),
        vec!["bash: type mismatch (source=Simple, target=Detailed)".to_string()]
    );
}

#[test]
fn files_compare_agent_by_agent_in_name_order() {
    let mut source: Sot = IndexMap::new();
    source.insert("b".to_string(), SotAgent { permission: block(BashPermission::Simple("deny".to_string())) });
    source.insert("a".to_string(), SotAgent { permission: block(BashPermission::Simple("deny".to_string())) });
    source.insert("new".to_string(), SotAgent { permission: block(BashPermission::Simple("deny".to_string())) });
    let mut target: Sot = IndexMap::new();
    target.insert("a".to_string(), SotAgent { permission: block(BashPermission::Simple("allow".to_string())) });
    target.insert("b".to_string(), SotAgent { permission: block(BashPermission::Simple("deny".to_string())) });
    target.insert("gone".to_string(), SotAgent { permission: block(BashPermission::Simple("deny".to_string())) });
    let c = compare_sots(&source, &target);
    let names: Vec<&str> = c.agents.iter().map(|(n, _)| n.as_str()).collect();
    assert_eq!(names, vec!["a", "b", "gone", "new"]);
    assert!(matches!(&c.agents[0].1, AgentComparison::Fail(d) if d == &vec!["bash: source='deny' vs target='allow'".to_string()]));
    assert!(matches!(c.agents[1].1, AgentComparison::Pass));
    assert!(matches!(c.agents[2].1, AgentComparison::OnlyInTarget));
    assert!(matches!(c.agents[3].1, AgentComparison::OnlyInSource));
    assert_eq!(c.matches, 1);
    assert_eq!(c.differences, 3);
}

#[test]
fn comparison_lines_list_each_agent_and_counts() {
    let mut source: Sot = IndexMap::new();
    source.insert("b".to_string(), SotAgent { permission: block(BashPermission::Simple("deny".to_string())) });
    source.insert("a".to_string(), SotAgent { permission: block(BashPermission::Simple("allow".to_string())) });
    source.insert("new".to_string(), SotAgent { permission: block(BashPermission::Simple("deny".to_string())) });
    let mut target: Sot = IndexMap::new();
    target.insert("a".to_string(), SotAgent { permission: block(BashPermission::Simple("allow".to_string())) });
    target.insert("b".to_string(), SotAgent { permission: block(BashPermission::Simple("ask".to_string())) });
    target.insert("gone".to_string(), SotAgent { permission: block(BashPermission::Simple("deny".to_string())) });
    let c = compare_sots(&source, &target);
    assert_eq!(
        comparison_lines(&c),
        vec![
            "  PASS  a".to_string(),
            "  FAIL  b".to_string(),
            "         bash: source='deny' vs target='ask'".to_string(),
            "  MISS  gone".to_string(),
            "  NEW   new".to_string(),
            String::new(),
            "Extra agents (only in source): new".to_string(),
            "Missing agents (only in target): gone".to_string(),
            "\nCompare: 1/4 agents match, 3 difference(s) found".to_string(),
        ]
    );
}
