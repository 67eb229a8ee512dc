use indexmap::IndexMap;
use opencode_agency::models::{BaselinePermission, BaselineValue, Extends, Template, TemplateBaseline};
use opencode_agency::template_dag::{ancestor_order, build_dag, detect_cycles, DagError};
use petgraph::graph::NodeIndex;

fn make_test_template(category: &str, extends: Option<Extends>) -> Template {
    let mut perm = IndexMap::new();
    perm.insert("bash".to_string(), BaselineValue::Text("deny".to_string()));
    Template {
        schema: "test".to_string(),
        version: "2.0.0".to_string(),
        category: category.to_string(),
        description: format!("{} template", category),
        purpose: "test".to_string(),
        doc: None,
        extends,
        baseline: TemplateBaseline { permission: BaselinePermission::Object(perm) },
    }
}

fn idx(map: &opencode_agency::template_dag::NodeMap, name: &str) -> NodeIndex {
    NodeIndex::new(map.get(name).unwrap())
}

#[test]
fn test_build_dag_no_extends() {
    let mut templates = IndexMap::new();
    templates.insert("a".to_string(), make_test_template("a", None));
    templates.insert("b".to_string(), make_test_template("b", None));
    templates.insert("c".to_string(), make_test_template("c", None));
    let (graph, node_map) = build_dag(&templates).unwrap();
    assert_eq!(graph.node_count(), 3);
    assert_eq!(graph.edge_count(), 0);
    assert_eq!(node_map.len(), 3);
}

#[test]
fn test_build_dag_single_parent() {
    let mut templates = IndexMap::new();
    templates.insert("a".to_string(), make_test_template("a", Some(Extends::Single("b".to_string()))));
    templates.insert("b".to_string(), make_test_template("b", None));
    let (graph, node_map) = build_dag(&templates).unwrap();
    assert_eq!(graph.node_count(), 2);
    assert_eq!(graph.edge_count(), 1);
    assert!(graph.contains_edge(idx(&node_map, "a"), idx(&node_map, "b")));
}

#[test]
fn test_build_dag_multiple_parents() {
    let mut templates = IndexMap::new();
    templates.insert(
        "a".to_string(),
        make_test_template("a", Some(Extends::Multiple(vec!["b".to_string(), "c".to_string()]))),
    );
    templates.insert("b".to_string(), make_test_template("b", None));
    templates.insert("c".to_string(), make_test_template("c", None));
    let (graph, node_map) = build_dag(&templates).unwrap();
    assert_eq!(graph.node_count(), 3);
    assert_eq!(graph.edge_count(), 2);
    assert!(graph.contains_edge(idx(&node_map, "a"), idx(&node_map, "b")));
    assert!(graph.contains_edge(idx(&node_map, "a"), idx(&node_map, "c")));
}

#[test]
fn test_build_dag_missing_parent_error() {
    let mut templates = IndexMap::new();
    templates.insert(
        "a".to_string(),
        make_test_template("a", Some(Extends::Single("nonexistent".to_string()))),
    );
    let result = build_dag(&templates);
    assert!(result.is_err());
    let err = result.err().unwrap().message();
    assert!(err.contains("no template file found"), "Error should mention missing template: {}", err);
}

#[test]
fn test_detect_cycles_no_cycle() {
    let mut templates = IndexMap::new();
    templates.insert("a".to_string(), make_test_template("a", Some(Extends::Single("b".to_string()))));
    templates.insert("b".to_string(), make_test_template("b", Some(Extends::Single("c".to_string()))));
    templates.insert("c".to_string(), make_test_template("c", None));
    let (graph, _) = build_dag(&templates).unwrap();
    assert!(detect_cycles(&graph).is_ok());
}

#[test]
fn test_detect_cycles_self_reference() {
    let mut templates = IndexMap::new();
    templates.insert("a".to_string(), make_test_template("a", Some(Extends::Single("a".to_string()))));
    let (graph, _) = build_dag(&templates).unwrap();
    let result = detect_cycles(&graph);
    assert!(result.is_err());
    let err = result.unwrap_err().message();
    assert!(err.contains("Cycle detected"), "Error should mention cycle: {}", err);
}

#[test]
fn test_detect_cycles_two_node_cycle() {
    let mut templates = IndexMap::new();
    templates.insert("a".to_string(), make_test_template("a", Some(Extends::Single("b".to_string()))));
    templates.insert("b".to_string(), make_test_template("b", Some(Extends::Single("a".to_string()))));
    let (graph, _) = build_dag(&templates).unwrap();
    let result = detect_cycles(&graph);
    assert!(result.is_err());
    let err = result.unwrap_err().message();
    assert!(err.contains("Cycle detected"), "Error should mention cycle: {}", err);
}

#[test]
fn test_detect_cycles_three_node_cycle() {
    let mut templates = IndexMap::new();
    templates.insert("a".to_string(), make_test_template("a", Some(Extends::Single("b".to_string()))));
    templates.insert("b".to_string(), make_test_template("b", Some(Extends::Single("c".to_string()))));
    templates.insert("c".to_string(), make_test_template("c", Some(Extends::Single("a".to_string()))));
    let (graph, _) = build_dag(&templates).unwrap();
    let result = detect_cycles(&graph);
    assert!(result.is_err());
    let err = result.unwrap_err().message();
    assert!(err.contains("Cycle detected"), "Error should mention cycle: {}", err);
}

#[test]
fn test_ancestor_order_no_parents() {
    let mut templates = IndexMap::new();
    templates.insert("a".to_string(), make_test_template("a", None));
    let (graph, node_map) = build_dag(&templates).unwrap();
    let ancestors = ancestor_order(&graph, &node_map, "a").unwrap();
    assert!(ancestors.is_empty());
}

#[test]
fn test_ancestor_order_single_parent() {
    let mut templates = IndexMap::new();
    templates.insert("a".to_string(), make_test_template("a", Some(Extends::Single("b".to_string()))));
    templates.insert("b".to_string(), make_test_template("b", None));
    let (graph, node_map) = build_dag(&templates).unwrap();
    let ancestors = ancestor_order(&graph, &node_map, "a").unwrap();
    assert_eq!(ancestors, vec!["b"]);
}

#[test]
fn test_ancestor_order_chain() {
    let mut templates = IndexMap::new();
    templates.insert("a".to_string(), make_test_template("a", Some(Extends::Single("b".to_string()))));
    templates.insert("b".to_string(), make_test_template("b", Some(Extends::Single("c".to_string()))));
    templates.insert("c".to_string(), make_test_template("c", None));
    let (graph, node_map) = build_dag(&templates).unwrap();
    let ancestors = ancestor_order(&graph, &node_map, "a").unwrap();
    assert_eq!(ancestors, vec!["c", "b"]);
}

#[test]
fn test_ancestor_order_multiple_parents() {
    let mut templates = IndexMap::new();
    templates.insert(
        "a".to_string(),
        make_test_template("a", Some(Extends::Multiple(vec!["b".to_string(), "c".to_string()]))),
    );
    templates.insert("b".to_string(), make_test_template("b", None));
    templates.insert("c".to_string(), make_test_template("c", None));
    let (graph, node_map) = build_dag(&templates).unwrap();
    let ancestors = ancestor_order(&graph, &node_map, "a").unwrap();
    assert_eq!(ancestors.len(), 2);
    assert!(ancestors.contains(&"b".to_string()));
    assert!(ancestors.contains(&"c".to_string()));
}

#[test]
fn test_ancestor_order_diamond() {
    let mut templates = IndexMap::new();
    templates.insert(
        "a".to_string(),
        make_test_template("a", Some(Extends::Multiple(vec!["b".to_string(), "c".to_string()]))),
    );
    templates.insert("b".to_string(), make_test_template("b", Some(Extends::Single("d".to_string()))));
    templates.insert("c".to_string(), make_test_template("c", Some(Extends::Single("d".to_string()))));
    templates.insert("d".to_string(), make_test_template("d", None));
    let (graph, node_map) = build_dag(&templates).unwrap();
    let ancestors = ancestor_order(&graph, &node_map, "a").unwrap();
    let d_count = ancestors.iter().filter(|s| *s == "d").count();
    assert_eq!(d_count, 1, "d should appear exactly once in ancestors");
    assert_eq!(ancestors.len(), 3);
    assert!(ancestors.contains(&"b".to_string()));
    assert!(ancestors.contains(&"c".to_string()));
    assert!(ancestors.contains(&"d".to_string()));
    let d_pos = ancestors.iter().position(|s| s == "d").unwrap();
    let b_pos = ancestors.iter().position(|s| s == "b").unwrap();
    let c_pos = ancestors.iter().position(|s| s == "c").unwrap();
    assert!(d_pos < b_pos, "d (pos {}) should come before b (pos {})", d_pos, b_pos);
    assert!(d_pos < c_pos, "d (pos {}) should come before c (pos {})", d_pos, c_pos);
}

#[test]
fn cycle_report_walks_the_cycle() {
    let mut templates = IndexMap::new();
    templates.insert("a".to_string(), make_test_template("a", Some(Extends::Single("b".to_string()))));
    templates.insert("b".to_string(), make_test_template("b", Some(Extends::Single("a".to_string()))));
    let (graph, _) = build_dag(&templates).unwrap();
    match detect_cycles(&graph) {
        Err(DagError::Cycle { path }) => {
            assert!(path == "a \u{2192} b \u{2192} a" || path == "b \u{2192} a \u{2192} b", "got {}", path);
        },
        other => panic!("expected a cycle, got {:?}", other),
    }
}

#[test]
fn ancestor_order_of_unknown_template_fails() {
    let mut templates = IndexMap::new();
    templates.insert("a".to_string(), make_test_template("a", None));
    let (graph, node_map) = build_dag(&templates).unwrap();
    let err = ancestor_order(&graph, &node_map, "zzz").unwrap_err();
    assert_eq!(err.message(), "Template 'zzz' not found in DAG");
}

#[test]
fn missing_parent_message_is_exact() {
    let mut templates = IndexMap::new();
    templates.insert("a".to_string(), make_test_template("a", Some(Extends::Single("x".to_string()))));
    let err = build_dag(&templates).err().unwrap();
    assert_eq!(err.message(), "Template 'a' extends 'x', but no template file found for 'x'");
}

/// The names of a reported cycle, checked to follow `$extends` links and to
/// return to where they start.
fn assert_real_cycle(templates: &IndexMap<String, Template>, message: &str) {
    let path = message.strip_prefix("Cycle detected in template inheritance: ").unwrap();
    let names: Vec<&str> = path.split(" \u{2192} ").collect();
    assert!(names.len() >= 2, "{}", message);
    assert_eq!(names[0], names[names.len() - 1], "{}", message);
    let inner = &names[..names.len() - 1];
    for (i, x) in inner.iter().enumerate() {
        assert!(!inner[i + 1..].contains(x), "{} occurs twice: {}", x, message);
    }
    for pair in names.windows(2) {
        let parents = templates[pair[0]].extends.as_ref().map(|e| e.parents()).unwrap_or_default();
        assert!(parents.contains(&pair[1]), "{} -> {} is no link: {}", pair[0], pair[1], message);
    }
}

#[test]
fn detect_cycles_reports_a_real_cycle_past_a_dead_end() {
    let mut templates = IndexMap::new();
    templates.insert(
        "a".to_string(),
        make_test_template("a", Some(Extends::Multiple(vec!["b".to_string(), "x".to_string()]))),
    );
    templates.insert("b".to_string(), make_test_template("b", Some(Extends::Single("a".to_string()))));
    templates.insert("x".to_string(), make_test_template("x", None));
    let (graph, _) = build_dag(&templates).unwrap();
    let err = detect_cycles(&graph).unwrap_err().message();
    assert_real_cycle(&templates, &err);
}

#[test]
fn detect_cycles_reports_real_cycles() {
    let mut templates = IndexMap::new();
    templates.insert(
        "a".to_string(),
        make_test_template("a", Some(Extends::Multiple(vec!["c".to_string(), "b".to_string()]))),
    );
    templates.insert("b".to_string(), make_test_template("b", Some(Extends::Single("c".to_string()))));
    templates.insert("c".to_string(), make_test_template("c", Some(Extends::Single("d".to_string()))));
    templates.insert("d".to_string(), make_test_template("d", Some(Extends::Single("b".to_string()))));
    let (graph, _) = build_dag(&templates).unwrap();
    let err = detect_cycles(&graph).unwrap_err().message();
    assert_real_cycle(&templates, &err);
    let mut self_loop = IndexMap::new();
    self_loop.insert("s".to_string(), make_test_template("s", Some(Extends::Single("s".to_string()))));
    let (graph, _) = build_dag(&self_loop).unwrap();
    let err = detect_cycles(&graph).unwrap_err().message();
    assert_eq!(err, "Cycle detected in template inheritance: s \u{2192} s");
}

#[test]
fn ancestor_order_keeps_declaration_order_of_parents() {
    let mut templates = IndexMap::new();
    templates.insert("a".to_string(), make_test_template("a", None));
    templates.insert("b".to_string(), make_test_template("b", None));
    templates.insert(
        "t".to_string(),
        make_test_template("t", Some(Extends::Multiple(vec!["b".to_string(), "a".to_string()]))),
    );
    let (graph, node_map) = build_dag(&templates).unwrap();
    assert_eq!(ancestor_order(&graph, &node_map, "t").unwrap(), vec!["b", "a"]);

    let mut templates = IndexMap::new();
    templates.insert(
        "app".to_string(),
        make_test_template("app", Some(Extends::Multiple(vec!["x".to_string(), "y".to_string()]))),
    );
    templates.insert("x".to_string(), make_test_template("x", None));
    templates.insert("y".to_string(), make_test_template("y", None));
    let (graph, node_map) = build_dag(&templates).unwrap();
    assert_eq!(ancestor_order(&graph, &node_map, "app").unwrap(), vec!["x", "y"]);
}

#[test]
fn ancestor_order_lists_grandparents_before_parents() {
    let mut templates = IndexMap::new();
    templates.insert(
        "t".to_string(),
        make_test_template("t", Some(Extends::Multiple(vec!["a".to_string(), "b".to_string()]))),
    );
    templates.insert("a".to_string(), make_test_template("a", Some(Extends::Single("c".to_string()))));
    templates.insert("b".to_string(), make_test_template("b", None));
    templates.insert("c".to_string(), make_test_template("c", None));
    let (graph, node_map) = build_dag(&templates).unwrap();
    assert_eq!(ancestor_order(&graph, &node_map, "t").unwrap(), vec!["c", "a", "b"]);
}

#[test]
fn detect_cycles_reports_each_cycle_once_round() {
    let mut templates = IndexMap::new();
    templates.insert("a".to_string(), make_test_template("a", Some(Extends::Single("b".to_string()))));
    templates.insert("b".to_string(), make_test_template("b", Some(Extends::Single("c".to_string()))));
    templates.insert("c".to_string(), make_test_template("c", Some(Extends::Single("a".to_string()))));
    let (graph, _) = build_dag(&templates).unwrap();
    let err = detect_cycles(&graph).unwrap_err().message();
    let rounds = [
        "Cycle detected in template inheritance: a \u{2192} b \u{2192} c \u{2192} a",
        "Cycle detected in template inheritance: b \u{2192} c \u{2192} a \u{2192} b",
        "Cycle detected in template inheritance: c \u{2192} a \u{2192} b \u{2192} c",
    ];
    assert!(rounds.contains(&err.as_str()), "{}", err);

    let mut pair = IndexMap::new();
    pair.insert("a".to_string(), make_test_template("a", Some(Extends::Single("b".to_string()))));
    pair.insert("b".to_string(), make_test_template("b", Some(Extends::Single("a".to_string()))));
    let (graph, _) = build_dag(&pair).unwrap();
    let err = detect_cycles(&graph).unwrap_err().message();
    assert!(
        err == "Cycle detected in template inheritance: a \u{2192} b \u{2192} a"
            || err == "Cycle detected in template inheritance: b \u{2192} a \u{2192} b",
        "{}",
        err
    );
}
