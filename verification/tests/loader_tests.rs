use indexmap::IndexMap;
use opencode_agency::loader::{group_agents, order_templates, TemplateQueue};
use opencode_agency::models::{BaselinePermission, Template, TemplateBaseline};

fn pairs(v: &[(&str, &str)]) -> Vec<(String, String)> {
    v.iter().map(|(a, c)| (a.to_string(), c.to_string())).collect()
}

#[test]
fn group_agents_sorts_categories_and_agents() {
    let agents = pairs(&[
        ("zeta", "planning"),
        ("api", "backend-api"),
        ("alpha", "planning"),
        ("worker", "backend-api"),
        ("db", "backend-api"),
    ]);
    let cats = group_agents(&agents);
    let keys: Vec<&String> = cats.keys().collect();
    assert_eq!(keys, vec!["backend-api", "planning"]);
    assert_eq!(cats["backend-api"], vec!["api", "db", "worker"]);
    assert_eq!(cats["planning"], vec!["alpha", "zeta"]);
}

#[test]
fn group_agents_empty() {
    let cats = group_agents(&[]);
    assert!(cats.is_empty());
}

#[test]
fn group_agents_does_not_list_mixins() {
    // A template that no agent extends never becomes a category.
    let agents = pairs(&[("api", "backend-api")]);
    let cats = group_agents(&agents);
    assert!(!cats.contains_key("vcs-permissions"));
    assert_eq!(cats.len(), 1);
}

fn drain(categories: &IndexMap<String, Vec<String>>, parents_of: &[(&str, &[&str])]) -> Vec<String> {
    let mut q = TemplateQueue::new(categories);
    let mut order = Vec::new();
    while let Some(name) = q.next_name() {
        let parents: &[&str] = parents_of.iter().find(|(n, _)| *n == name).map(|(_, p)| *p).unwrap_or(&[]);
        q.record(&name, parents);
        order.push(name);
    }
    order
}

#[test]
fn template_queue_loads_parents_once() {
    let mut categories: IndexMap<String, Vec<String>> = IndexMap::new();
    categories.insert("backend-api".to_string(), vec!["api".to_string()]);
    categories.insert("frontend".to_string(), vec!["ui".to_string()]);
    let parents: &[(&str, &[&str])] = &[("backend-api", &["vcs-permissions"]), ("frontend", &["vcs-permissions"])];
    let order = drain(&categories, parents);
    assert_eq!(order, vec!["frontend", "vcs-permissions", "backend-api"]);
}

#[test]
fn template_queue_follows_chains() {
    let mut categories: IndexMap<String, Vec<String>> = IndexMap::new();
    categories.insert("leaf".to_string(), vec!["a".to_string()]);
    let parents: &[(&str, &[&str])] = &[("leaf", &["mid", "base"]), ("mid", &["base"])];
    let order = drain(&categories, parents);
    assert_eq!(order, vec!["leaf", "base", "mid"]);
}

fn bare_template(category: &str) -> Template {
    Template {
        schema: "s".to_string(),
        version: "1".to_string(),
        category: category.to_string(),
        description: "d".to_string(),
        purpose: "p".to_string(),
        doc: None,
        extends: None,
        baseline: TemplateBaseline { permission: BaselinePermission::NotObject },
    }
}

#[test]
fn order_templates_sorts_by_name() {
    let mut templates: IndexMap<String, Template> = IndexMap::new();
    for name in ["vcs-permissions", "backend-api", "planning", "lang-rust"] {
        templates.insert(name.to_string(), bare_template(name));
    }
    order_templates(&mut templates);
    let keys: Vec<&String> = templates.keys().collect();
    assert_eq!(keys, vec!["backend-api", "lang-rust", "planning", "vcs-permissions"]);
    for (k, t) in &templates {
        assert_eq!(k, &t.category);
    }
}
