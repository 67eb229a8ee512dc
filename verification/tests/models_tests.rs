use opencode_agency::models::{is_simple_category, Extends};

#[test]
fn test_extends_parents_single() {
    let ext = Extends::Single("vcs-permissions".to_string());
    assert_eq!(ext.parents(), vec!["vcs-permissions"]);
}

#[test]
fn test_extends_parents_multiple() {
    let ext = Extends::Multiple(vec!["vcs-permissions".to_string(), "node-toolchain".to_string()]);
    assert_eq!(ext.parents(), vec!["vcs-permissions", "node-toolchain"]);
}

#[test]
fn simple_categories_are_recognised() {
    for c in ["orchestration", "planning", "research-knowledge", "general-purpose", "unrestricted"] {
        assert!(is_simple_category(c), "{} should be simple", c);
    }
    assert!(!is_simple_category("backend-api"));
    assert!(!is_simple_category("Planning"));
}
