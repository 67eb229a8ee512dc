use indexmap::IndexMap;
use opencode_agency::config::default_groups;
use opencode_agency::generator::{
    compute_delta_from_baseline,
    summary_lines, build_override_jsonc, compute_delta, generate_all, sort_results, CommandGroupClassifier, GenerateError,
    GenerateResult,
};
use opencode_agency::models::{
    BaselinePermission, BaselineValue, BashPermission, Delta, Sot, SotAgent, SotPermission, Template,
    TemplateBaseline,
};

fn make_classifier() -> CommandGroupClassifier {
    CommandGroupClassifier::new(default_groups())
}

#[test]
fn test_classifier_known_prefix() {
    let c = make_classifier();
    assert_eq!(c.get_group("npm install"), "Package Managers & Runtimes");
}

#[test]
fn test_classifier_exact_match() {
    let c = make_classifier();
    assert_eq!(c.get_group("docker"), "Docker");
}

#[test]
fn test_classifier_unknown_command() {
    let c = make_classifier();
    assert_eq!(c.get_group("pulumi up"), "Other");
}

#[test]
fn test_classifier_case_insensitive() {
    let c = make_classifier();
    assert_eq!(c.get_group("NPM install"), "Package Managers & Runtimes");
}

#[test]
fn test_classifier_custom_groups() {
    let mut custom = IndexMap::new();
    custom.insert("My Tools".to_string(), vec!["foo".to_string(), "bar".to_string()]);
    let c = CommandGroupClassifier::new(custom);
    assert_eq!(c.get_group("foo run"), "My Tools");
    assert_eq!(c.get_group("bar"), "My Tools");
    assert_eq!(c.get_group("baz"), "Other");
}

#[test]
fn test_group_order_matches_insertion_plus_other() {
    let c = make_classifier();
    let order = c.group_order();
    assert_eq!(order[0], "Package Managers & Runtimes");
    assert_eq!(order[order.len() - 1], "Other");
    assert_eq!(order.len(), default_groups().len() + 1);
}

fn table(pairs: &[(&str, &str)]) -> IndexMap<String, String> {
    pairs.iter().map(|(k, v)| (k.to_string(), v.to_string())).collect()
}

fn complex_template(category: &str, pairs: &[(&str, &str)]) -> Template {
    Template {
        schema: "s".to_string(),
        version: "1".to_string(),
        category: category.to_string(),
        description: "d".to_string(),
        purpose: "p".to_string(),
        doc: None,
        extends: None,
        baseline: TemplateBaseline {
            permission: BaselinePermission::Object(
                pairs.iter().map(|(k, v)| (k.to_string(), BaselineValue::Text(v.to_string()))).collect(),
            ),
        },
    }
}

fn sot_of(agents: &[(&str, BashPermission)]) -> Sot {
    let mut sot: Sot = IndexMap::new();
    for (name, bash) in agents {
        let bash = match bash {
            BashPermission::Simple(s) => BashPermission::Simple(s.clone()),
            BashPermission::Detailed(m) => BashPermission::Detailed(m.clone()),
        };
        sot.insert(name.to_string(), SotAgent { permission: SotPermission { write: None, edit: None, bash } });
    }
    sot
}

#[test]
fn delta_lists_differences_then_removals() {
    let t = complex_template("backend-api", &[("npm *", "allow"), ("git status", "deny"), ("tsc", "allow")]);
    let sot = sot_of(&[(
        "x",
        BashPermission::Detailed(table(&[("npm *", "allow"), ("docker *", "ask"), ("tsc", "deny")])),
    )]);
    let d = compute_delta(&sot, &t, "x", "backend-api");
    assert_eq!(
        d.adds,
        vec![("docker *".to_string(), "ask".to_string()), ("tsc".to_string(), "deny".to_string())]
    );
    assert_eq!(d.removes, vec!["git status".to_string()]);
}

#[test]
fn delta_of_unknown_agent_is_empty() {
    let t = complex_template("backend-api", &[("npm *", "allow")]);
    let sot = sot_of(&[]);
    let d = compute_delta(&sot, &t, "nobody", "backend-api");
    assert!(d.adds.is_empty() && d.removes.is_empty());
}

#[test]
fn override_file_without_delta() {
    let d = Delta { adds: vec![], removes: vec![] };
    let text = build_override_jsonc("plan", "planning", &d, &make_classifier());
    assert_eq!(
        text,
        "// Override: plan\n// Extends: planning\n// Delta: none\n{\n  \"$schema\": \"https://raw.githubusercontent.com/nmindz/agency/master/schemas/agent.json\",\n  \"$version\": \"1.0.0\",\n  \"agent\": \"plan\",\n  \"$extends\": \"planning\",\n  \"overrides\": {}\n}\n"
    );
}

#[test]
fn override_file_with_few_adds_and_a_removal() {
    let d = Delta {
        adds: vec![("docker *".to_string(), "ask".to_string())],
        removes: vec!["git push".to_string(), "tsc".to_string()],
    };
    let text = build_override_jsonc("x", "backend-api", &d, &make_classifier());
    let lines: Vec<&str> = text.lines().collect();
    assert_eq!(lines[2], "// Delta: adds 1 entry, removes 2 entries");
    assert_eq!(lines[8], "  \"overrides\": {");
    assert_eq!(lines[9], "    \"permission\": {");
    assert_eq!(lines[10], "      \"add\": {");
    assert_eq!(lines[11], "        \"docker *\": \"ask\"");
    assert_eq!(lines[12], "      },");
    assert_eq!(lines[13], "      \"remove\": [");
    assert_eq!(lines[14], "        \"git push\",");
    assert_eq!(lines[15], "        \"tsc\"");
    assert_eq!(lines[16], "      ]");
    assert_eq!(lines[17], "    }");
    assert_eq!(lines[18], "  }");
    assert_eq!(lines[19], "}");
    assert!(text.ends_with("}\n"));
}

#[test]
fn override_file_groups_three_adds() {
    let d = Delta {
        adds: vec![
            ("docker *".to_string(), "ask".to_string()),
            ("npm *".to_string(), "allow".to_string()),
            ("pulumi *".to_string(), "allow".to_string()),
        ],
        removes: vec![],
    };
    let text = build_override_jsonc("x", "backend-api", &d, &make_classifier());
    let lines: Vec<&str> = text.lines().collect();
    assert_eq!(lines[2], "// Delta: adds 3 entries");
    assert_eq!(lines[11], "        // --- Package Managers & Runtimes ---");
    assert_eq!(lines[12], "        \"npm *\": \"allow\",");
    assert_eq!(lines[13], "        // --- Docker ---");
    assert_eq!(lines[14], "        \"docker *\": \"ask\",");
    assert_eq!(lines[15], "        // --- Other ---");
    assert_eq!(lines[16], "        \"pulumi *\": \"allow\"");
    assert_eq!(lines[17], "      }");
}

#[test]
fn generate_all_plans_files_and_sorts_results() {
    let mut templates = IndexMap::new();
    templates.insert("zeta".to_string(), complex_template("zeta", &[("a", "allow")]));
    templates.insert("alpha".to_string(), complex_template("alpha", &[("a", "allow")]));
    let mut categories: IndexMap<String, Vec<String>> = IndexMap::new();
    categories.insert("zeta".to_string(), vec!["z2".to_string(), "z1".to_string()]);
    categories.insert("alpha".to_string(), vec!["a1".to_string()]);
    let sot = sot_of(&[
        ("z1", BashPermission::Detailed(table(&[("a", "allow")]))),
        ("z2", BashPermission::Detailed(table(&[("a", "allow"), ("b", "deny")]))),
        ("a1", BashPermission::Detailed(table(&[]))),
    ]);
    let (files, results) = generate_all(&sot, &categories, &templates, &make_classifier()).unwrap();
    let names: Vec<&str> = files.iter().map(|f| f.agent.as_str()).collect();
    assert_eq!(names, vec!["z2", "z1", "a1"]);
    assert!(files[0].content.contains("\"b\": \"deny\""));
    let order: Vec<(&str, &str, usize, usize)> =
        results.iter().map(|r| (r.category.as_str(), r.agent.as_str(), r.adds, r.removes)).collect();
    assert_eq!(order, vec![("alpha", "a1", 0, 1), ("zeta", "z1", 0, 0), ("zeta", "z2", 1, 0)]);
}

#[test]
fn generate_all_reports_missing_template() {
    let templates: IndexMap<String, Template> = IndexMap::new();
    let mut categories: IndexMap<String, Vec<String>> = IndexMap::new();
    categories.insert("ghost".to_string(), vec![]);
    let sot = sot_of(&[]);
    match generate_all(&sot, &categories, &templates, &make_classifier()) {
        Err(GenerateError::NoTemplate(c)) => assert_eq!(c, "ghost"),
        _ => panic!("expected a missing template"),
    }
}

#[test]
fn sort_results_is_stable_by_category_then_agent() {
    let r = |a: &str, c: &str, n: usize| GenerateResult {
        agent: a.to_string(),
        category: c.to_string(),
        adds: n,
        removes: 0,
    };
    let sorted = sort_results(vec![r("b", "y", 1), r("a", "y", 2), r("c", "x", 3), r("a", "y", 4)]);
    let got: Vec<(String, usize)> = sorted.iter().map(|x| (x.agent.clone(), x.adds)).collect();
    assert_eq!(
        got,
        vec![("c".to_string(), 3), ("a".to_string(), 2), ("a".to_string(), 4), ("b".to_string(), 1)]
    );
}

#[test]
fn summary_lines_match_table_format() {
    let results = vec![
        GenerateResult { agent: "api".to_string(), category: "backend-api".to_string(), adds: 3, removes: 12 },
        GenerateResult { agent: "планировщик".to_string(), category: "planning".to_string(), adds: 0, removes: 0 },
    ];
    let lines = summary_lines(&results);
    let mut expected = vec![String::new()];
    expected.push(format!("| {:<35} | {:<18} | {:>4} | {:>7} | {:>5} |", "Agent", "Category", "Adds", "Removes", "Total"));
    expected.push(format!("| {:<35} | {:<18} | {:>4} | {:>7} | {:>5} |", "---", "---", "---", "---", "---"));
    for r in &results {
        expected.push(format!(
            "| {:<35} | {:<18} | {:>4} | {:>7} | {:>5} |",
            r.agent,
            r.category,
            r.adds,
            r.removes,
            r.adds + r.removes
        ));
    }
    expected.push(String::new());
    expected.push("Generated 2 agent files".to_string());
    assert_eq!(lines, expected);
}

#[test]
fn delta_recovers_the_override() {
    let mut eb: IndexMap<String, String> = IndexMap::new();
    for (k, v) in [("git status", "allow"), ("git push", "deny"), ("npm *", "allow")] {
        eb.insert(k.to_string(), v.to_string());
    }
    // Override: add docker (new) and change git push; remove npm *.
    let mut table = eb.clone();
    table.insert("docker *".to_string(), "ask".to_string());
    table.insert("git push".to_string(), "ask".to_string());
    table.shift_remove("npm *");
    let mut sot: Sot = IndexMap::new();
    sot.insert(
        "api".to_string(),
        SotAgent { permission: SotPermission { write: None, edit: None, bash: BashPermission::Detailed(table) } },
    );
    let d = compute_delta_from_baseline(&sot, &eb, "api", "backend-api");
    let mut adds = d.adds.clone();
    adds.sort();
    assert_eq!(
        adds,
        vec![("docker *".to_string(), "ask".to_string()), ("git push".to_string(), "ask".to_string())]
    );
    assert_eq!(d.removes, vec!["npm *".to_string()]);
}
