use indexmap::IndexMap;
use opencode_agency::models::{
    BaselinePermission, BaselineValue, BashPermission, Override, OverrideBlock, PermissionOverride, Template,
    TemplateBaseline,
};
use opencode_agency::resolver::{
    merge_baselines, resolve, resolve_with_baseline, resolve_with_trace, PermissionSource, ResolveError,
};

fn make_map(pairs: Vec<(&str, &str)>) -> IndexMap<String, String> {
    pairs.into_iter().map(|(k, v)| (k.to_string(), v.to_string())).collect()
}

fn make_override_with(
    agent: &str,
    extends: &str,
    add: Option<IndexMap<String, String>>,
    remove: Option<Vec<String>>,
) -> Override {
    Override {
        schema: "test".to_string(),
        version: "1.0.0".to_string(),
        agent: agent.to_string(),
        extends: extends.to_string(),
        doc: None,
        overrides: OverrideBlock { permission: Some(PermissionOverride { add, remove }) },
    }
}

fn object(pairs: Vec<(&str, &str)>) -> BaselinePermission {
    BaselinePermission::Object(
        pairs.into_iter().map(|(k, v)| (k.to_string(), BaselineValue::Text(v.to_string()))).collect(),
    )
}

fn template(category: &str, permission: BaselinePermission) -> Template {
    Template {
        schema: "test".to_string(),
        version: "1.0.0".to_string(),
        category: category.to_string(),
        description: "test".to_string(),
        purpose: "test".to_string(),
        doc: None,
        extends: None,
        baseline: TemplateBaseline { permission },
    }
}

#[test]
fn test_merge_baselines_single_parent() {
    let parent = make_map(vec![("git status", "deny"), ("git log", "deny")]);
    let self_bl = make_map(vec![("npm *", "allow")]);
    let result = merge_baselines(&[("parent".to_string(), parent)], &self_bl, "child").unwrap();
    assert_eq!(result.len(), 3);
    assert_eq!(result.get("git status").unwrap(), "deny");
    assert_eq!(result.get("npm *").unwrap(), "allow");
}

#[test]
fn test_merge_baselines_multiple_parents_no_conflict() {
    let p1 = make_map(vec![("git status", "deny")]);
    let p2 = make_map(vec![("jj log", "deny")]);
    let self_bl = make_map(vec![("npm *", "allow")]);
    let result = merge_baselines(&[("p1".to_string(), p1), ("p2".to_string(), p2)], &self_bl, "child").unwrap();
    assert_eq!(result.len(), 3);
}

#[test]
fn test_merge_baselines_same_value_no_conflict() {
    let p1 = make_map(vec![("git status", "deny")]);
    let p2 = make_map(vec![("git status", "deny")]);
    let self_bl = IndexMap::new();
    let result = merge_baselines(&[("p1".to_string(), p1), ("p2".to_string(), p2)], &self_bl, "child").unwrap();
    assert_eq!(result.len(), 1);
    assert_eq!(result.get("git status").unwrap(), "deny");
}

#[test]
fn test_merge_baselines_conflict_error() {
    let p1 = make_map(vec![("git status", "deny")]);
    let p2 = make_map(vec![("git status", "allow")]);
    let self_bl = IndexMap::new();
    let result = merge_baselines(&[("p1".to_string(), p1), ("p2".to_string(), p2)], &self_bl, "child");
    assert!(result.is_err());
    let err = result.unwrap_err().message();
    assert!(err.contains("Conflict"), "Error should mention conflict: {}", err);
    assert!(err.contains("git status"), "Error should mention key: {}", err);
    assert!(err.contains("p2"), "Error should mention parent name: {}", err);
}

#[test]
fn test_merge_baselines_self_wins() {
    let parent = make_map(vec![("npm *", "allow")]);
    let self_bl = make_map(vec![("npm *", "ask")]);
    let result = merge_baselines(&[("parent".to_string(), parent)], &self_bl, "child").unwrap();
    assert_eq!(result.get("npm *").unwrap(), "ask");
}

#[test]
fn test_merge_baselines_empty_parents() {
    let self_bl = make_map(vec![("npm *", "allow")]);
    let result = merge_baselines(&[], &self_bl, "child").unwrap();
    assert_eq!(result.len(), 1);
    assert_eq!(result.get("npm *").unwrap(), "allow");
}

#[test]
fn test_merge_baselines_empty_self() {
    let parent = make_map(vec![("git status", "deny")]);
    let self_bl = IndexMap::new();
    let result = merge_baselines(&[("parent".to_string(), parent)], &self_bl, "child").unwrap();
    assert_eq!(result.len(), 1);
    assert_eq!(result.get("git status").unwrap(), "deny");
}

#[test]
fn test_resolve_with_baseline_complex() {
    let effective = make_map(vec![("npm *", "allow"), ("git status", "deny")]);
    let ov = make_override_with(
        "test-agent",
        "backend-api",
        Some(make_map(vec![("docker *", "ask")])),
        Some(vec!["git status".to_string()]),
    );
    let result = resolve_with_baseline(&effective, "backend-api", &ov).unwrap();
    match &result.permission.bash {
        BashPermission::Detailed(map) => {
            assert_eq!(map.get("npm *").unwrap(), "allow");
            assert_eq!(map.get("docker *").unwrap(), "ask");
            assert!(map.get("git status").is_none(), "git status should be removed");
        },
        _ => panic!("Expected Detailed bash permission"),
    }
}

#[test]
fn test_resolve_with_baseline_simple() {
    let effective = make_map(vec![("bash", "deny")]);
    let ov = make_override_with("plan", "planning", None, None);
    let result = resolve_with_baseline(&effective, "planning", &ov).unwrap();
    assert_eq!(result.permission.bash, BashPermission::Simple("deny".to_string()));
}

#[test]
fn test_resolve_backward_compat() {
    let t = template("backend-api", object(vec![("npm *", "allow"), ("git status", "deny")]));
    let ov = make_override_with("test-agent", "backend-api", Some(make_map(vec![("docker *", "ask")])), None);
    let result = resolve(&t, &ov).unwrap();
    match &result.permission.bash {
        BashPermission::Detailed(map) => {
            assert_eq!(map.get("npm *").unwrap(), "allow");
            assert_eq!(map.get("docker *").unwrap(), "ask");
        },
        _ => panic!("Expected Detailed bash permission"),
    }
}

#[test]
fn test_resolve_with_trace_inherited() {
    let parent = make_map(vec![("git status", "deny")]);
    let self_bl = make_map(vec![("npm *", "allow")]);
    let ov = make_override_with("test", "cat", None, None);
    let traced = resolve_with_trace(&[("vcs-permissions".to_string(), parent)], &self_bl, "cat", &ov).unwrap();
    let git_entry = traced.iter().find(|t| t.key == "git status").unwrap();
    assert!(matches!(&git_entry.source, PermissionSource::Inherited(p) if p == "vcs-permissions"));
}

#[test]
fn test_resolve_with_trace_self_baseline() {
    let parent = make_map(vec![("git status", "deny")]);
    let self_bl = make_map(vec![("npm *", "allow")]);
    let ov = make_override_with("test", "cat", None, None);
    let traced = resolve_with_trace(&[("vcs".to_string(), parent)], &self_bl, "backend-api", &ov).unwrap();
    let npm_entry = traced.iter().find(|t| t.key == "npm *").unwrap();
    assert!(matches!(&npm_entry.source, PermissionSource::SelfBaseline(t) if t == "backend-api"));
}

#[test]
fn test_resolve_with_trace_agent_add() {
    let self_bl = make_map(vec![("npm *", "allow")]);
    let ov = make_override_with("x-backend", "cat", Some(make_map(vec![("docker *", "ask")])), None);
    let traced = resolve_with_trace(&[], &self_bl, "cat", &ov).unwrap();
    let docker_entry = traced.iter().find(|t| t.key == "docker *").unwrap();
    assert!(matches!(&docker_entry.source, PermissionSource::AgentAdd(a) if a == "x-backend"));
}

#[test]
fn test_resolve_with_trace_self_overrides_parent() {
    let parent = make_map(vec![("npm *", "allow")]);
    let self_bl = make_map(vec![("npm *", "ask")]);
    let ov = make_override_with("test", "cat", None, None);
    let traced = resolve_with_trace(&[("parent".to_string(), parent)], &self_bl, "child", &ov).unwrap();
    let npm_entry = traced.iter().find(|t| t.key == "npm *").unwrap();
    assert_eq!(npm_entry.value, "ask");
    assert!(matches!(&npm_entry.source, PermissionSource::SelfBaseline(_)));
}

#[test]
fn test_resolve_with_trace_counts() {
    let parent = make_map(vec![("git status", "deny"), ("jj log", "deny")]);
    let self_bl = make_map(vec![("npm *", "allow")]);
    let ov = make_override_with("agent", "cat", Some(make_map(vec![("docker *", "ask")])), None);
    let traced = resolve_with_trace(&[("vcs".to_string(), parent)], &self_bl, "cat", &ov).unwrap();
    assert_eq!(traced.len(), 4);
    let inherited = traced.iter().filter(|t| matches!(&t.source, PermissionSource::Inherited(_))).count();
    let self_count = traced.iter().filter(|t| matches!(&t.source, PermissionSource::SelfBaseline(_))).count();
    let agent_count = traced.iter().filter(|t| matches!(&t.source, PermissionSource::AgentAdd(_))).count();
    assert_eq!(inherited, 2);
    assert_eq!(self_count, 1);
    assert_eq!(agent_count, 1);
}

#[test]
fn conflict_message_with_hint() {
    let p1 = make_map(vec![("k", "a")]);
    let p2 = make_map(vec![("k", "b")]);
    let err = merge_baselines(&[("p1".to_string(), p1), ("p2".to_string(), p2)], &IndexMap::new(), "child")
        .unwrap_err();
    assert_eq!(
        err.message(),
        "Conflict in template 'child': key 'k' has value 'a' from a previous parent, but parent 'p2' defines it as 'b'. Resolve by moving the entry to the child template's own baseline."
    );
}

#[test]
fn trace_conflict_has_no_hint() {
    let p1 = make_map(vec![("k", "a")]);
    let p2 = make_map(vec![("k", "b")]);
    let ov = make_override_with("x", "child", None, None);
    let err = resolve_with_trace(&[("p1".to_string(), p1), ("p2".to_string(), p2)], &IndexMap::new(), "child", &ov)
        .unwrap_err();
    assert!(matches!(err, ResolveError::Conflict { hint: false, .. }));
    assert!(err.message().ends_with("defines it as 'b'."));
}

#[test]
fn overrides_remove_then_add_order() {
    let effective = make_map(vec![("a", "allow"), ("b", "deny")]);
    let ov = make_override_with("x", "c", Some(make_map(vec![("b", "ask"), ("c", "allow")])), Some(vec!["a".to_string()]));
    let result = resolve_with_baseline(&effective, "backend-api", &ov).unwrap();
    match &result.permission.bash {
        BashPermission::Detailed(map) => {
            let keys: Vec<&String> = map.keys().collect();
            assert_eq!(keys, vec!["b", "c"]);
            assert_eq!(map.get("b").unwrap(), "ask");
        },
        _ => panic!("Expected Detailed bash permission"),
    }
}

#[test]
fn resolve_simple_without_bash_fails() {
    let effective = make_map(vec![("write", "deny")]);
    let ov = make_override_with("plan", "planning", None, None);
    let err = resolve_with_baseline(&effective, "planning", &ov).unwrap_err();
    assert!(matches!(err, ResolveError::NoBash));
    assert_eq!(err.message(), "No 'bash' key in resolved simple permission");
}

#[test]
fn resolve_complex_non_table_baseline_fails() {
    let t = template("backend-api", BaselinePermission::NotObject);
    let ov = make_override_with("x", "backend-api", None, None);
    assert!(matches!(resolve(&t, &ov), Err(ResolveError::ComplexBaselineNotMap)));
}

#[test]
fn resolve_simple_mixed_bash_object_fails() {
    let mut obj = IndexMap::new();
    obj.insert("bash".to_string(), BaselineValue::MixedObject);
    let t = template("planning", BaselinePermission::Object(obj));
    let ov = make_override_with("x", "planning", None, None);
    assert!(matches!(resolve(&t, &ov), Err(ResolveError::BashObjectNotStrings)));
}

#[test]
fn resolve_simple_number_bash_fails() {
    let mut obj = IndexMap::new();
    obj.insert("bash".to_string(), BaselineValue::Other);
    let t = template("planning", BaselinePermission::Object(obj));
    let ov = make_override_with("x", "planning", None, None);
    assert!(matches!(resolve(&t, &ov), Err(ResolveError::BashUnexpectedType)));
}

#[test]
fn resolve_simple_not_object_fails() {
    let t = template("planning", BaselinePermission::NotObject);
    let ov = make_override_with("x", "planning", None, None);
    assert!(matches!(resolve(&t, &ov), Err(ResolveError::SimpleBaselineNotMap)));
}

#[test]
fn resolve_simple_reads_write_edit_and_bash_table() {
    let mut bash = IndexMap::new();
    bash.insert("*".to_string(), "allow".to_string());
    let mut obj = IndexMap::new();
    obj.insert("write".to_string(), BaselineValue::Text("deny".to_string()));
    obj.insert("bash".to_string(), BaselineValue::TextMap(bash));
    let t = template("unrestricted", BaselinePermission::Object(obj));
    let ov = make_override_with("x", "unrestricted", Some(make_map(vec![("edit", "ask")])), None);
    let r = resolve(&t, &ov).unwrap();
    assert_eq!(r.permission.write.as_deref(), Some("deny"));
    assert_eq!(r.permission.edit.as_deref(), Some("ask"));
    match &r.permission.bash {
        BashPermission::Detailed(m) => assert_eq!(m.get("*").unwrap(), "allow"),
        _ => panic!("expected a table"),
    }
}
