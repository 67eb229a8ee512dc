use indexmap::IndexMap;
use opencode_agency::models::{
    AgentValidationResult, ValidationReport, BaselinePermission, BaselineValue, BashPermission, Extends, Override, OverrideBlock, PermissionOverride, Sot,
    SotAgent, SotPermission, Template, TemplateBaseline,
};
use opencode_agency::template_dag::build_dag;
use opencode_agency::validator::{
    report_lines, compare_permissions, compute_effective_baselines, validate_all, BaselineError, ValidateError,
};

fn table(pairs: &[(&str, &str)]) -> IndexMap<String, String> {
    pairs.iter().map(|(k, v)| (k.to_string(), v.to_string())).collect()
}

fn detailed(pairs: &[(&str, &str)]) -> SotPermission {
    SotPermission { write: None, edit: None, bash: BashPermission::Detailed(table(pairs)) }
}

fn template(category: &str, extends: Option<Extends>, pairs: &[(&str, &str)]) -> Template {
    Template {
        schema: "s".to_string(),
        version: "1".to_string(),
        category: category.to_string(),
        description: "d".to_string(),
        purpose: "p".to_string(),
        doc: None,
        extends,
        baseline: TemplateBaseline {
            permission: BaselinePermission::Object(
                pairs.iter().map(|(k, v)| (k.to_string(), BaselineValue::Text(v.to_string()))).collect(),
            ),
        },
    }
}

fn agent_file(agent: &str, extends: &str, add: &[(&str, &str)], remove: &[&str]) -> Override {
    Override {
        schema: "s".to_string(),
        version: "1".to_string(),
        agent: agent.to_string(),
        extends: extends.to_string(),
        doc: None,
        overrides: OverrideBlock {
            permission: Some(PermissionOverride {
                add: if add.is_empty() { None } else { Some(table(add)) },
                remove: if remove.is_empty() { None } else { Some(remove.iter().map(|s| s.to_string()).collect()) },
            }),
        },
    }
}

#[test]
fn compare_equal_blocks_passes() {
    let a = detailed(&[("npm *", "allow"), ("git status", "deny")]);
    let b = detailed(&[("git status", "deny"), ("npm *", "allow")]);
    let r = compare_permissions("x", "backend-api", &a, &b);
    assert!(r.passed);
    assert_eq!(r.agent, "x");
    assert_eq!(r.category, "backend-api");
}

#[test]
fn compare_reports_each_kind_of_difference() {
    let a = detailed(&[("npm *", "allow"), ("tsc", "deny"), ("extra", "ask")]);
    let b = detailed(&[("npm *", "allow"), ("tsc", "allow"), ("missing", "deny")]);
    let r = compare_permissions("x", "c", &a, &b);
    assert!(!r.passed);
    assert_eq!(r.value_mismatches, vec![("tsc".to_string(), "deny".to_string(), "allow".to_string())]);
    assert_eq!(r.extra_in_resolved, vec!["extra".to_string()]);
    assert_eq!(r.missing_from_resolved, vec!["missing".to_string()]);
}

#[test]
fn compare_optional_fields_use_debug_text() {
    let a = SotPermission { write: Some("deny".to_string()), edit: None, bash: BashPermission::Simple("deny".to_string()) };
    let b = SotPermission { write: None, edit: None, bash: BashPermission::Simple("allow".to_string()) };
    let r = compare_permissions("p", "planning", &a, &b);
    assert_eq!(
        r.value_mismatches,
        vec![
            ("write".to_string(), "Some(\"deny\")".to_string(), "None".to_string()),
            ("bash".to_string(), "deny".to_string(), "allow".to_string()),
        ]
    );
}

#[test]
fn compare_kind_mismatch() {
    let a = SotPermission { write: None, edit: None, bash: BashPermission::Simple("deny".to_string()) };
    let b = detailed(&[("*", "allow")]);
    let r = compare_permissions("p", "c", &a, &b);
    assert_eq!(
        r.value_mismatches,
        vec![("bash".to_string(), "Simple(deny)".to_string(), "Detailed(...)".to_string())]
    );
}

fn fixture() -> (IndexMap<String, Template>, IndexMap<String, Vec<String>>) {
    let mut templates = IndexMap::new();
    templates.insert("vcs".to_string(), template("vcs", None, &[("git status", "deny")]));
    templates.insert(
        "backend-api".to_string(),
        template("backend-api", Some(Extends::Single("vcs".to_string())), &[("npm *", "allow")]),
    );
    templates.insert("planning".to_string(), template("planning", None, &[("bash", "deny")]));
    let mut categories = IndexMap::new();
    categories.insert("backend-api".to_string(), vec!["x".to_string()]);
    categories.insert("planning".to_string(), vec!["plan".to_string()]);
    (templates, categories)
}

#[test]
fn effective_baselines_merge_parents_first() {
    let (templates, _) = fixture();
    let (graph, node_map) = build_dag(&templates).unwrap();
    let eff = compute_effective_baselines(&templates, &graph, &node_map).unwrap();
    assert_eq!(eff.len(), 1);
    let keys: Vec<&String> = eff["backend-api"].keys().collect();
    assert_eq!(keys, vec!["git status", "npm *"]);
}

#[test]
fn effective_baseline_rejects_non_table_parent() {
    let mut templates = IndexMap::new();
    let mut bad = template("vcs", None, &[]);
    bad.baseline.permission = BaselinePermission::NotObject;
    templates.insert("vcs".to_string(), bad);
    templates.insert("b".to_string(), template("b", Some(Extends::Single("vcs".to_string())), &[]));
    let (graph, node_map) = build_dag(&templates).unwrap();
    match compute_effective_baselines(&templates, &graph, &node_map) {
        Err(BaselineError::AncestorNotTable(n)) => assert_eq!(n, "vcs"),
        other => panic!("unexpected {:?}", other.map(|_| ())),
    }
}

#[test]
fn validate_all_counts_passes_and_failures() {
    let (templates, categories) = fixture();
    let mut overrides = IndexMap::new();
    overrides.insert("x".to_string(), agent_file("x", "backend-api", &[("docker *", "ask")], &[]));
    overrides.insert("plan".to_string(), agent_file("plan", "planning", &[], &[]));
    let mut sot: Sot = IndexMap::new();
    sot.insert(
        "x".to_string(),
        SotAgent { permission: detailed(&[("git status", "deny"), ("npm *", "allow"), ("docker *", "ask")]) },
    );
    sot.insert(
        "plan".to_string(),
        SotAgent { permission: SotPermission { write: None, edit: None, bash: BashPermission::Simple("allow".to_string()) } },
    );
    let report = validate_all(&sot, &categories, &templates, &overrides).unwrap();
    assert_eq!(report.total, 2);
    assert_eq!(report.passed, 1);
    assert_eq!(report.failed, 1);
    assert!(report.results[0].passed);
    assert!(!report.results[1].passed);
    assert_eq!(report.results[1].agent, "plan");
}

#[test]
fn validate_all_reports_missing_agent_in_permissions() {
    let (templates, categories) = fixture();
    let mut overrides = IndexMap::new();
    overrides.insert("x".to_string(), agent_file("x", "backend-api", &[], &[]));
    overrides.insert("plan".to_string(), agent_file("plan", "planning", &[], &[]));
    let sot: Sot = IndexMap::new();
    match validate_all(&sot, &categories, &templates, &overrides) {
        Err(ValidateError::NotInSot(a)) => assert_eq!(a, "x"),
        other => panic!("unexpected {:?}", other.map(|_| ())),
    }
}

#[test]
fn validate_all_reports_missing_agent_file() {
    let (templates, categories) = fixture();
    let overrides: IndexMap<String, Override> = IndexMap::new();
    let sot: Sot = IndexMap::new();
    match validate_all(&sot, &categories, &templates, &overrides) {
        Err(ValidateError::NoOverride(a)) => assert_eq!(a, "x"),
        other => panic!("unexpected {:?}", other.map(|_| ())),
    }
}

#[test]
fn report_lines_for_passing_report() {
    let rep = ValidationReport { total: 2, passed: 2, failed: 0, results: vec![] };
    assert_eq!(
        report_lines(&rep),
        vec![
            "\nRound-trip validation: 2/2 agents passed\n".to_string(),
            "RESULT: PASS \u{2014} permissions.jsonc matches templates + agents".to_string(),
        ]
    );
}

#[test]
fn report_lines_for_failing_report() {
    let failing = AgentValidationResult {
        agent: "api".to_string(),
        category: "backend-api".to_string(),
        passed: false,
        extra_in_resolved: (1..=6).map(|i| format!("k{}", i)).collect(),
        missing_from_resolved: vec!["m".to_string()],
        value_mismatches: vec![("tsc".to_string(), "deny".to_string(), "allow".to_string())],
    };
    let passing = AgentValidationResult {
        agent: "ok".to_string(),
        category: "planning".to_string(),
        passed: true,
        extra_in_resolved: vec![],
        missing_from_resolved: vec![],
        value_mismatches: vec![],
    };
    let rep = ValidationReport { total: 2, passed: 1, failed: 1, results: vec![passing, failing] };
    let extra: Vec<&str> = vec!["k1", "k2", "k3", "k4", "k5"];
    let missing: Vec<&str> = vec!["m"];
    assert_eq!(
        report_lines(&rep),
        vec![
            "\nRound-trip validation: 1/2 agents passed\n".to_string(),
            "Errors:".to_string(),
            "  FAIL  api (backend-api)".to_string(),
            format!("         Extra in resolved: {:?}{}", extra, "..."),
            format!("         Missing from resolved: {:?}{}", missing, ""),
            "         Mismatch on 'tsc': resolved='deny' vs sot='allow'".to_string(),
            String::new(),
            "RESULT: FAIL (1 agent(s) have mismatches)".to_string(),
        ]
    );
}
