use indexmap::IndexMap;
use opencode_agency::inspect::{
    find_category, inspect_agent, intro_lines, locate_agent, resolved_json, trace_lines, InspectError, InspectOutcome,
};
use opencode_agency::models::{
    BaselinePermission, BaselineValue, BashPermission, Extends, Override, OverrideBlock, PermissionOverride, Template,
    TemplateBaseline,
};
use opencode_agency::resolver::{PermissionSource, TracedPermission};
use opencode_agency::template_dag::DagError;

fn table(pairs: &[(&str, &str)]) -> IndexMap<String, String> {
    pairs.iter().map(|(k, v)| (k.to_string(), v.to_string())).collect()
}

fn template(category: &str, extends: Option<Extends>, pairs: &[(&str, &str)]) -> Template {
    Template {
        schema: "s".to_string(),
        version: "1".to_string(),
        category: category.to_string(),
        description: "d".to_string(),
        purpose: "p".to_string(),
        doc: None,
        extends,
        baseline: TemplateBaseline {
            permission: BaselinePermission::Object(
                pairs.iter().map(|(k, v)| (k.to_string(), BaselineValue::Text(v.to_string()))).collect(),
            ),
        },
    }
}

fn agent_file(agent: &str, extends: &str, add: &[(&str, &str)], remove: &[&str]) -> Override {
    Override {
        schema: "s".to_string(),
        version: "1".to_string(),
        agent: agent.to_string(),
        extends: extends.to_string(),
        doc: None,
        overrides: OverrideBlock {
            permission: Some(PermissionOverride {
                add: if add.is_empty() { None } else { Some(table(add)) },
                remove: if remove.is_empty() { None } else { Some(remove.iter().map(|s| s.to_string()).collect()) },
            }),
        },
    }
}

fn setup() -> (IndexMap<String, Vec<String>>, IndexMap<String, Template>) {
    let mut templates: IndexMap<String, Template> = IndexMap::new();
    templates.insert("vcs".to_string(), template("vcs", None, &[("git status", "allow")]));
    templates.insert(
        "backend-api".to_string(),
        template("backend-api", Some(Extends::Single("vcs".to_string())), &[("npm *", "allow")]),
    );
    templates.insert(
        "planning".to_string(),
        template("planning", None, &[("write", "deny"), ("edit", "deny"), ("bash", "deny")]),
    );
    let mut categories: IndexMap<String, Vec<String>> = IndexMap::new();
    categories.insert("backend-api".to_string(), vec!["api".to_string()]);
    categories.insert("planning".to_string(), vec!["planner".to_string()]);
    (categories, templates)
}

#[test]
fn find_category_picks_first_listing() {
    let mut categories: IndexMap<String, Vec<String>> = IndexMap::new();
    categories.insert("a".to_string(), vec!["x".to_string()]);
    categories.insert("b".to_string(), vec!["y".to_string(), "x".to_string()]);
    assert_eq!(find_category(&categories, "x"), Some("a".to_string()));
    assert_eq!(find_category(&categories, "y"), Some("b".to_string()));
    assert_eq!(find_category(&categories, "z"), None);
}

#[test]
fn locate_agent_reports_unknown_agent() {
    let (categories, templates) = setup();
    let err = locate_agent(&categories, &templates, "ghost").err().unwrap();
    assert!(matches!(err, InspectError::AgentNotFound(ref a) if a == "ghost"));
}

#[test]
fn locate_agent_reports_missing_parent() {
    let (categories, mut templates) = setup();
    templates.insert(
        "frontend".to_string(),
        template("frontend", Some(Extends::Single("nowhere".to_string())), &[]),
    );
    let err = locate_agent(&categories, &templates, "api").err().unwrap();
    assert!(matches!(err, InspectError::Dag(DagError::MissingParent { ref template, ref parent })
        if template == "frontend" && parent == "nowhere"));
}

#[test]
fn intro_lines_name_agent_category_and_parents() {
    let (_, templates) = setup();
    let lines = intro_lines("api", "backend-api", &templates["backend-api"]);
    assert_eq!(
        lines,
        vec!["Agent: api", "Category: backend-api", "Template: backend-api.jsonc", "Inherits: vcs", ""]
    );
    let lines = intro_lines("planner", "planning", &templates["planning"]);
    assert_eq!(lines, vec!["Agent: planner", "Category: planning", "Template: planning.jsonc", ""]);
}

#[test]
fn inspect_agent_resolves_against_merged_baselines() {
    let (categories, templates) = setup();
    let loc = locate_agent(&categories, &templates, "api").unwrap();
    assert_eq!(loc.category, "backend-api");
    let o = agent_file("api", "backend-api", &[("tsc", "allow")], &["git status"]);
    match inspect_agent(&templates, &loc, &o, false).unwrap() {
        InspectOutcome::Resolved(p) => {
            assert_eq!(p.write, None);
            assert_eq!(p.bash, BashPermission::Detailed(table(&[("npm *", "allow"), ("tsc", "allow")])));
        },
        InspectOutcome::Traced(_) => panic!("expected a resolution"),
    }
}

#[test]
fn inspect_agent_resolves_simple_template() {
    let (categories, templates) = setup();
    let loc = locate_agent(&categories, &templates, "planner").unwrap();
    let o = agent_file("planner", "planning", &[("edit", "allow")], &[]);
    match inspect_agent(&templates, &loc, &o, false).unwrap() {
        InspectOutcome::Resolved(p) => {
            assert_eq!(p.write, Some("deny".to_string()));
            assert_eq!(p.edit, Some("allow".to_string()));
            assert_eq!(p.bash, BashPermission::Simple("deny".to_string()));
        },
        InspectOutcome::Traced(_) => panic!("expected a resolution"),
    }
}

#[test]
fn inspect_agent_traces_sources() {
    let (categories, templates) = setup();
    let loc = locate_agent(&categories, &templates, "api").unwrap();
    let o = agent_file("api", "backend-api", &[("tsc", "allow")], &[]);
    let traced = match inspect_agent(&templates, &loc, &o, true).unwrap() {
        InspectOutcome::Traced(v) => v,
        InspectOutcome::Resolved(_) => panic!("expected a trace"),
    };
    assert_eq!(traced.len(), 3);
    let lines = trace_lines(&traced);
    assert_eq!(
        lines,
        vec![
            "  \"git status\": \"allow\"  \u{2190} inherited from vcs".to_string(),
            "  \"npm *\": \"allow\"  \u{2190} self baseline (backend-api)".to_string(),
            "  \"tsc\": \"allow\"  \u{2190} agent override: add (api)".to_string(),
            String::new(),
            "Summary: 3 total entries".to_string(),
            "  1 inherited from parent template(s)".to_string(),
            "  1 from self baseline".to_string(),
            "  1 from agent override (add)".to_string(),
        ]
    );
}

#[test]
fn trace_lines_quote_keys_like_debug() {
    let traced = vec![TracedPermission {
        key: "say \"hi\"".to_string(),
        value: "allow".to_string(),
        source: PermissionSource::SelfBaseline("t".to_string()),
    }];
    let lines = trace_lines(&traced);
    assert_eq!(lines[0], format!("  {:?}: {:?}  \u{2190} self baseline (t)", "say \"hi\"", "allow"));
}

#[test]
fn resolved_json_prints_a_simple_block() {
    let perm = opencode_agency::models::SotPermission {
        write: None,
        edit: None,
        bash: BashPermission::Simple("deny".to_string()),
    };
    assert_eq!(resolved_json(&perm), "{\n  \"permission\": {\n    \"bash\": \"deny\"\n  }\n}");
}

#[test]
fn resolved_json_prints_fields_and_tables() {
    let perm = opencode_agency::models::SotPermission {
        write: Some("allow".to_string()),
        edit: Some("de\"ny".to_string()),
        bash: BashPermission::Detailed(table(&[("npm *", "allow"), ("git push", "ask")])),
    };
    assert_eq!(
        resolved_json(&perm),
        "{\n  \"permission\": {\n    \"write\": \"allow\",\n    \"edit\": \"de\\\"ny\",\n    \"bash\": {\n      \"npm *\": \"allow\",\n      \"git push\": \"ask\"\n    }\n  }\n}"
    );
    let empty = opencode_agency::models::SotPermission {
        write: None,
        edit: Some("deny".to_string()),
        bash: BashPermission::Detailed(IndexMap::new()),
    };
    assert_eq!(
        resolved_json(&empty),
        "{\n  \"permission\": {\n    \"edit\": \"deny\",\n    \"bash\": {}\n  }\n}"
    );
}
