use indexmap::IndexMap;
use opencode_agency::models::{
    BaselinePermission, BaselineValue, BashPermission, Extends, Override, OverrideBlock, PermissionOverride, Sot,
    SotAgent, SotPermission, Template, TemplateBaseline,
};
use opencode_agency::validator::validate_all;
use opencode_agency::sot_generator::{
    assemble_permissions, check_generated, permission_debug, resolve_all_agents, PermissionsError, SelfCheckError,
};

fn table(pairs: &[(&str, &str)]) -> IndexMap<String, String> {
    pairs.iter().map(|(k, v)| (k.to_string(), v.to_string())).collect()
}

fn simple(bash: &str) -> SotPermission {
    SotPermission { write: None, edit: None, bash: BashPermission::Simple(bash.to_string()) }
}

fn sot_of(entries: Vec<(&str, SotPermission)>) -> Sot {
    let mut sot: Sot = IndexMap::new();
    for (name, permission) in entries {
        sot.insert(name.to_string(), SotAgent { permission });
    }
    sot
}

fn template(category: &str, extends: Option<Extends>, pairs: &[(&str, &str)]) -> Template {
    Template {
        schema: "s".to_string(),
        version: "1".to_string(),
        category: category.to_string(),
        description: "d".to_string(),
        purpose: "p".to_string(),
        doc: None,
        extends,
        baseline: TemplateBaseline {
            permission: BaselinePermission::Object(
                pairs.iter().map(|(k, v)| (k.to_string(), BaselineValue::Text(v.to_string()))).collect(),
            ),
        },
    }
}

fn agent_file(agent: &str, extends: &str, add: &[(&str, &str)], remove: &[&str]) -> Override {
    Override {
        schema: "s".to_string(),
        version: "1".to_string(),
        agent: agent.to_string(),
        extends: extends.to_string(),
        doc: None,
        overrides: OverrideBlock {
            permission: Some(PermissionOverride {
                add: if add.is_empty() { None } else { Some(table(add)) },
                remove: if remove.is_empty() { None } else { Some(remove.iter().map(|s| s.to_string()).collect()) },
            }),
        },
    }
}

fn lines(v: &[&str]) -> Vec<String> {
    v.iter().map(|s| s.to_string()).collect()
}

#[test]
fn test_self_validate_catches_count_mismatch() {
    let parsed = sot_of(vec![("agent-a", simple("deny"))]);
    let expected = sot_of(vec![("agent-a", simple("deny")), ("agent-b", simple("deny"))]);
    let err = check_generated(&parsed, &expected).unwrap_err();
    assert!(matches!(err, SelfCheckError::CountMismatch { generated: 1, expected: 2 }));
    assert!(err.message().contains("agent count mismatch"), "got: {}", err.message());
    assert_eq!(err.message(), "Self-validation: agent count mismatch: generated 1 vs expected 2");
}

#[test]
fn test_self_validate_catches_missing_agent() {
    let parsed = sot_of(vec![("agent-a", simple("deny")), ("wrong-name", simple("deny"))]);
    let expected = sot_of(vec![("agent-a", simple("deny")), ("agent-b", simple("deny"))]);
    let err = check_generated(&parsed, &expected).unwrap_err();
    assert!(err.message().contains("agent-b"), "got: {}", err.message());
    assert_eq!(err.message(), "Self-validation: agent 'agent-b' missing from generated output");
}

#[test]
fn test_self_validate_catches_permission_mismatch() {
    let parsed = sot_of(vec![("agent-a", simple("allow"))]);
    let expected = sot_of(vec![("agent-a", simple("deny"))]);
    let err = check_generated(&parsed, &expected).unwrap_err();
    assert!(err.message().contains("permission mismatch"), "got: {}", err.message());
    assert_eq!(
        err.message(),
        "Self-validation: permission mismatch for agent 'agent-a'\n  Expected: SotPermission { write: None, edit: None, bash: Simple(\"deny\") }\n  Got: SotPermission { write: None, edit: None, bash: Simple(\"allow\") }"
    );
}

#[test]
fn test_self_validate_passes_on_match() {
    let parsed = sot_of(vec![("agent-a", simple("deny"))]);
    let expected = sot_of(vec![("agent-a", simple("deny"))]);
    assert!(check_generated(&parsed, &expected).is_ok());
}

#[test]
fn check_generated_compares_tables_as_maps() {
    let a = SotPermission { write: None, edit: None, bash: BashPermission::Detailed(table(&[("x", "allow"), ("y", "deny")])) };
    let b = SotPermission { write: None, edit: None, bash: BashPermission::Detailed(table(&[("y", "deny"), ("x", "allow")])) };
    let parsed = sot_of(vec![("agent-a", a)]);
    let expected = sot_of(vec![("agent-a", b)]);
    assert!(check_generated(&parsed, &expected).is_ok());
}

#[test]
fn check_generated_accepts_identical_files() {
    let s = sot_of(vec![
        ("a", simple("deny")),
        ("b", SotPermission { write: Some("allow".to_string()), edit: None, bash: BashPermission::Detailed(table(&[("npm *", "allow")])) }),
    ]);
    assert!(check_generated(&s, &s).is_ok());
}

#[test]
fn permission_debug_matches_derived_debug() {
    let ps = vec![
        simple("deny"),
        SotPermission { write: Some("al\"low".to_string()), edit: Some("deny".to_string()), bash: BashPermission::Detailed(IndexMap::new()) },
        SotPermission { write: None, edit: None, bash: BashPermission::Detailed(table(&[("git *", "ask"), ("npm", "allow")])) },
    ];
    for p in &ps {
        assert_eq!(permission_debug(p), format!("{:?}", p));
    }
}

#[test]
fn assemble_permissions_lays_out_blocks() {
    let mut categories: IndexMap<String, Vec<String>> = IndexMap::new();
    categories.insert("planning".to_string(), vec!["p1".to_string()]);
    categories.insert("backend-api".to_string(), vec!["b1".to_string()]);
    let sot = sot_of(vec![
        ("p1", simple("deny")),
        ("b1", SotPermission { write: None, edit: None, bash: BashPermission::Detailed(table(&[("npm *", "allow")])) }),
    ]);
    let header = lines(&["// header"]);
    let cat_headers = vec![lines(&["// planning"]), lines(&[])];
    let comments = vec![lines(&["// p1 note"]), lines(&[])];
    let out = assemble_permissions(&header, &categories, &sot, &cat_headers, &comments);
    let expected = [
        "// header",
        "{",
        "  // planning",
        "  // p1 note",
        "  \"p1\": {",
        "    \"permission\": {",
        "      \"bash\": \"deny\"",
        "    }",
        "  },",
        "",
        "  \"b1\": {",
        "    \"permission\": {",
        "      \"bash\": {",
        "        \"npm *\": \"allow\"",
        "      }",
        "    }",
        "  }",
        "}",
    ]
    .join("\n");
    assert_eq!(out, expected);
}

#[test]
fn resolve_all_agents_resolves_in_category_order() {
    let mut templates: IndexMap<String, Template> = IndexMap::new();
    templates.insert("vcs".to_string(), template("vcs", None, &[("git status", "allow")]));
    templates.insert(
        "backend-api".to_string(),
        template("backend-api", Some(Extends::Single("vcs".to_string())), &[("npm *", "allow")]),
    );
    let mut categories: IndexMap<String, Vec<String>> = IndexMap::new();
    categories.insert("backend-api".to_string(), vec!["api".to_string()]);
    let mut overrides: IndexMap<String, Override> = IndexMap::new();
    overrides.insert("api".to_string(), agent_file("api", "backend-api", &[("tsc", "allow")], &["npm *"]));
    let (sot, effective) = resolve_all_agents(&categories, &templates, &overrides).unwrap();
    assert_eq!(sot.len(), 1);
    match &sot["api"].permission.bash {
        BashPermission::Detailed(m) => {
            assert_eq!(m, &table(&[("git status", "allow"), ("tsc", "allow")]));
        },
        BashPermission::Simple(_) => panic!("expected a table"),
    }
    assert_eq!(effective["backend-api"], table(&[("git status", "allow"), ("npm *", "allow")]));
}

#[test]
fn resolve_all_agents_reports_missing_agent_file() {
    let mut templates: IndexMap<String, Template> = IndexMap::new();
    templates.insert("backend-api".to_string(), template("backend-api", None, &[("npm *", "allow")]));
    let mut categories: IndexMap<String, Vec<String>> = IndexMap::new();
    categories.insert("backend-api".to_string(), vec!["ghost".to_string()]);
    let overrides: IndexMap<String, Override> = IndexMap::new();
    let err = resolve_all_agents(&categories, &templates, &overrides).unwrap_err();
    assert!(matches!(err, PermissionsError::NoOverride(ref a) if a == "ghost"));
}

#[test]
fn resolve_all_agents_reports_missing_template() {
    let templates: IndexMap<String, Template> = IndexMap::new();
    let mut categories: IndexMap<String, Vec<String>> = IndexMap::new();
    categories.insert("frontend".to_string(), vec!["ui".to_string()]);
    let overrides: IndexMap<String, Override> = IndexMap::new();
    let err = resolve_all_agents(&categories, &templates, &overrides).unwrap_err();
    assert!(matches!(err, PermissionsError::NoTemplate(ref c) if c == "frontend"));
}

#[test]
fn resolved_permissions_validate_round_trip() {
    let mut templates: IndexMap<String, Template> = IndexMap::new();
    templates.insert("vcs".to_string(), template("vcs", None, &[("git status", "allow"), ("git push", "deny")]));
    templates.insert(
        "backend-api".to_string(),
        template("backend-api", Some(Extends::Single("vcs".to_string())), &[("npm *", "allow")]),
    );
    templates.insert(
        "planning".to_string(),
        template("planning", None, &[("write", "deny"), ("edit", "deny"), ("bash", "deny")]),
    );
    let mut categories: IndexMap<String, Vec<String>> = IndexMap::new();
    categories.insert("backend-api".to_string(), vec!["api".to_string(), "worker".to_string()]);
    categories.insert("planning".to_string(), vec!["planner".to_string()]);
    let mut overrides: IndexMap<String, Override> = IndexMap::new();
    overrides.insert("api".to_string(), agent_file("api", "backend-api", &[("docker *", "ask")], &["git push"]));
    overrides.insert("worker".to_string(), agent_file("worker", "backend-api", &[], &[]));
    overrides.insert("planner".to_string(), agent_file("planner", "planning", &[("edit", "allow")], &[]));
    let (sot, _) = resolve_all_agents(&categories, &templates, &overrides).unwrap();
    let report = validate_all(&sot, &categories, &templates, &overrides).unwrap();
    assert_eq!(report.total, 3);
    assert_eq!(report.passed, 3);
    assert_eq!(report.failed, 0);
}
