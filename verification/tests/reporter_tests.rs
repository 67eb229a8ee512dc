use indexmap::IndexMap;
use opencode_agency::generator::GenerateResult;
use opencode_agency::models::{
    AgentValidationResult, BaselinePermission, BaselineValue, BashPermission, Sot, SotAgent, SotPermission, Template,
    TemplateBaseline, ValidationReport,
};
use opencode_agency::reporter::{build_notes, chrono_date, date_from_secs, days_to_date, generate_report, ReportError};

fn table(pairs: &[(&str, &str)]) -> IndexMap<String, String> {
    pairs.iter().map(|(k, v)| (k.to_string(), v.to_string())).collect()
}

fn template(category: &str, pairs: &[(&str, &str)]) -> Template {
    Template {
        schema: "s".to_string(),
        version: "1".to_string(),
        category: category.to_string(),
        description: "d".to_string(),
        purpose: "p".to_string(),
        doc: None,
        extends: None,
        baseline: TemplateBaseline {
            permission: BaselinePermission::Object(
                pairs.iter().map(|(k, v)| (k.to_string(), BaselineValue::Text(v.to_string()))).collect(),
            ),
        },
    }
}

fn detailed_sot(entries: Vec<(&str, &[(&str, &str)])>) -> Sot {
    let mut sot: Sot = IndexMap::new();
    for (name, pairs) in entries {
        sot.insert(
            name.to_string(),
            SotAgent { permission: SotPermission { write: None, edit: None, bash: BashPermission::Detailed(table(pairs)) } },
        );
    }
    sot
}

fn passing_report(agents: &[(&str, &str)]) -> ValidationReport {
    let results: Vec<AgentValidationResult> = agents
        .iter()
        .map(|(a, c)| AgentValidationResult {
            agent: a.to_string(),
            category: c.to_string(),
            passed: true,
            extra_in_resolved: vec![],
            missing_from_resolved: vec![],
            value_mismatches: vec![],
        })
        .collect();
    ValidationReport { total: results.len(), passed: results.len(), failed: 0, results }
}

#[test]
fn days_to_date_epoch() {
    assert_eq!(days_to_date(0), (1970, 1, 1));
}

#[test]
fn days_to_date_leap_day_and_year_ends() {
    assert_eq!(days_to_date(11016), (2000, 2, 29));
    assert_eq!(days_to_date(10956), (1999, 12, 31));
    assert_eq!(days_to_date(19723), (2024, 1, 1));
    assert_eq!(days_to_date(47541), (2100, 3, 1));
}

#[test]
fn date_from_secs_pads_fields() {
    assert_eq!(date_from_secs(0), "1970-01-01");
    assert_eq!(date_from_secs(19723 * 86400 + 86399), "2024-01-01");
    assert_eq!(date_from_secs(11016 * 86400), "2000-02-29");
}

#[test]
fn chrono_date_has_date_shape() {
    let d = chrono_date();
    assert_eq!(d.len(), 10);
    assert_eq!(&d[4..5], "-");
    assert_eq!(&d[7..8], "-");
}

#[test]
fn build_notes_lists_added_and_removed_keys() {
    let mut templates: IndexMap<String, Template> = IndexMap::new();
    templates.insert("backend-api".to_string(), template("backend-api", &[("npm *", "allow"), ("tsc", "allow")]));
    let sot = detailed_sot(vec![("api", &[("npm *", "allow"), ("docker *", "ask"), ("make", "allow")])]);
    let d = GenerateResult { agent: "api".to_string(), category: "backend-api".to_string(), adds: 2, removes: 1 };
    assert_eq!(build_notes(&d, &sot, &templates), "+`docker *`, +`make`, \u{2212}`tsc`");
}

#[test]
fn build_notes_empty_for_zero_delta() {
    let templates: IndexMap<String, Template> = IndexMap::new();
    let sot = detailed_sot(vec![]);
    let d = GenerateResult { agent: "a".to_string(), category: "c".to_string(), adds: 0, removes: 0 };
    assert_eq!(build_notes(&d, &sot, &templates), "");
}

#[test]
fn generate_report_summarises_agents() {
    let mut templates: IndexMap<String, Template> = IndexMap::new();
    templates.insert("backend-api".to_string(), template("backend-api", &[("npm *", "allow")]));
    let mut categories: IndexMap<String, Vec<String>> = IndexMap::new();
    categories.insert("backend-api".to_string(), vec!["api".to_string(), "worker".to_string()]);
    let sot = detailed_sot(vec![
        ("api", &[("npm *", "allow")]),
        ("worker", &[("npm *", "allow"), ("make", "allow")]),
    ]);
    let validation = passing_report(&[("api", "backend-api"), ("worker", "backend-api")]);
    let md = generate_report(&sot, &categories, &templates, &validation, "_agents", "2024-01-01").unwrap();
    assert!(md.starts_with("# Agency Audit Report\n\n**Generated:** 2024-01-01\n"));
    assert!(md.contains("**Agents:** 2 | **Categories:** 1 | **Round-trip validation:** \u{2705} PASS (2/2)"));
    assert!(md.contains("- **1 of 2 agents (50%)** are zero-delta"));
    assert!(md.contains("- **1 agents (50%)** have overrides, ranging from 1 to 1 entries"));
    assert!(md.contains("| `_agents/*.jsonc` | 2 per-agent files |\n"));
}

#[test]
fn generate_report_needs_a_template_per_category() {
    let templates: IndexMap<String, Template> = IndexMap::new();
    let mut categories: IndexMap<String, Vec<String>> = IndexMap::new();
    categories.insert("frontend".to_string(), vec!["ui".to_string()]);
    let sot = detailed_sot(vec![("ui", &[])]);
    let validation = passing_report(&[("ui", "frontend")]);
    let r = generate_report(&sot, &categories, &templates, &validation, "_agents", "2024-01-01");
    assert!(matches!(r, Err(ReportError::NoTemplate(ref c)) if c == "frontend"));
}
