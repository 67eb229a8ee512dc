use indexmap::IndexMap;
use opencode_agency::can::{cache_is_fresh, can, match_command, strip_jsonc_comments, MatchKind};
use opencode_agency::models::{BashPermission, Sot, SotAgent, SotPermission};

fn rules(pairs: &[(&str, &str)]) -> IndexMap<String, String> {
    pairs.iter().map(|(k, v)| (k.to_string(), v.to_string())).collect()
}

fn sot_with(agent: &str, bash: BashPermission) -> Sot {
    let mut sot: Sot = IndexMap::new();
    sot.insert(
        agent.to_string(),
        SotAgent { permission: SotPermission { write: None, edit: None, bash } },
    );
    sot
}

#[test]
fn test_match_command_exact() {
    let r = rules(&[("npm test", "allow"), ("npm *", "deny")]);
    let m = match_command(&r, "npm test").unwrap();
    assert_eq!(m.permission, "allow");
}

#[test]
fn test_match_command_wildcard() {
    let r = rules(&[("npm *", "allow")]);
    let m = match_command(&r, "npm install").unwrap();
    assert_eq!(m.permission, "allow");
}

#[test]
fn test_match_command_prefix_alone() {
    let r = rules(&[("npm *", "allow")]);
    let m = match_command(&r, "npm").unwrap();
    assert_eq!(m.permission, "allow");
}

#[test]
fn test_match_command_most_specific_wins() {
    let r = rules(&[("git *", "deny"), ("git commit *", "allow"), ("*", "deny")]);
    let m = match_command(&r, "git commit -m foo").unwrap();
    assert_eq!(m.permission, "allow");
}

#[test]
fn test_match_command_no_match() {
    let r = rules(&[("npm *", "allow")]);
    assert!(match_command(&r, "cargo build").is_none());
}

#[test]
fn test_match_command_catch_all() {
    let r = rules(&[("*", "allow")]);
    let m = match_command(&r, "anything").unwrap();
    assert_eq!(m.permission, "allow");
}

#[test]
fn test_match_command_catch_all_loses_to_specific() {
    let r = rules(&[("*", "deny"), ("npm *", "allow")]);
    let m = match_command(&r, "npm install").unwrap();
    assert_eq!(m.permission, "allow");
}

#[test]
fn test_match_kind_exact() {
    let r = rules(&[("npm test", "allow")]);
    let m = match_command(&r, "npm test").unwrap();
    assert_eq!(m.kind, MatchKind::Exact);
}

#[test]
fn test_match_kind_wildcard() {
    let r = rules(&[("npm *", "allow")]);
    let m = match_command(&r, "npm install").unwrap();
    assert_eq!(m.kind, MatchKind::Wildcard { prefix: "npm".to_string() });
}

#[test]
fn test_match_kind_catch_all() {
    let r = rules(&[("*", "deny")]);
    let m = match_command(&r, "anything").unwrap();
    assert_eq!(m.kind, MatchKind::CatchAll);
}

#[test]
fn test_can_simple_deny() {
    let sot = sot_with("plan", BashPermission::Simple("deny".to_string()));
    let res = can(&sot, "plan", "anything", false).unwrap();
    assert!(!res.allowed);
    assert_eq!(res.permission_value, "deny");
}

#[test]
fn test_can_simple_allow() {
    let sot = sot_with("build", BashPermission::Detailed(rules(&[("npm test", "allow")])));
    let res = can(&sot, "build", "npm test", false).unwrap();
    assert!(res.allowed);
    assert_eq!(res.permission_value, "allow");
    assert!(res.explanation.is_none());
}

#[test]
fn test_can_detailed_allow() {
    let sot = sot_with(
        "build",
        BashPermission::Detailed(rules(&[("npm *", "allow"), ("*", "deny")])),
    );
    let res = can(&sot, "build", "npm install", true).unwrap();
    assert!(res.allowed);
    assert_eq!(res.permission_value, "allow");
    let expl = res.explanation.unwrap();
    assert!(expl.rule.contains("npm *"));
    assert!(expl.match_kind.contains("Wildcard"));
}

#[test]
fn test_can_detailed_deny() {
    let sot = sot_with(
        "build",
        BashPermission::Detailed(rules(&[("npm *", "allow"), ("*", "deny")])),
    );
    let res = can(&sot, "build", "rm -rf /", true).unwrap();
    assert!(!res.allowed);
    assert_eq!(res.permission_value, "deny");
    let expl = res.explanation.unwrap();
    assert!(expl.match_kind.contains("CatchAll"));
}

#[test]
fn test_can_agent_not_found() {
    let sot = sot_with("build", BashPermission::Simple("allow".to_string()));
    let res = can(&sot, "nonexistent", "npm test", false);
    assert!(res.is_err());
    let err_msg = res.unwrap_err().message();
    assert!(err_msg.contains("nonexistent"));
}

#[test]
fn test_can_no_matching_rule_defaults_deny() {
    let sot = sot_with("build", BashPermission::Detailed(rules(&[("npm *", "allow")])));
    let res = can(&sot, "build", "cargo build", true).unwrap();
    assert!(!res.allowed);
    assert_eq!(res.permission_value, "deny");
    let expl = res.explanation.unwrap();
    assert!(expl.rule.contains("default deny"));
    assert!(expl.match_kind.contains("Default"));
}

fn strip(input: &str) -> Vec<u8> {
    strip_jsonc_comments(input.as_bytes())
}

#[test]
fn test_strip_line_comment() {
    let input = r#"{ "a": 1 } // comment"#;
    let v: serde_json::Value = serde_json::from_slice(&strip(input)).unwrap();
    assert_eq!(v["a"], 1);
}

#[test]
fn test_strip_block_comment() {
    let input = "{ /* block */ \"a\": 1 }";
    let v: serde_json::Value = serde_json::from_slice(&strip(input)).unwrap();
    assert_eq!(v["a"], 1);
}

#[test]
fn test_strip_strings_with_slashes() {
    let input = r#"{ "url": "https://example.com" }"#;
    let v: serde_json::Value = serde_json::from_slice(&strip(input)).unwrap();
    assert_eq!(v["url"], "https://example.com");
}

#[test]
fn test_strip_strings_with_double_slashes() {
    let input = r#"{ "path": "a//b" }"#;
    let v: serde_json::Value = serde_json::from_slice(&strip(input)).unwrap();
    assert_eq!(v["path"], "a//b");
}

#[test]
fn test_strip_escaped_quotes() {
    let input = r#"{ "val": "he said \"hi\"" }"#;
    let v: serde_json::Value = serde_json::from_slice(&strip(input)).unwrap();
    assert_eq!(v["val"], r#"he said "hi""#);
}

#[test]
fn test_strip_mixed_comments() {
    let input = r#"{
            // line comment
            "a": 1, /* block */
            "b": 2
        }"#;
    let v: serde_json::Value = serde_json::from_slice(&strip(input)).unwrap();
    assert_eq!(v["a"], 1);
    assert_eq!(v["b"], 2);
}

#[test]
fn test_strip_no_comments() {
    let input = r#"{ "a": 1, "b": 2 }"#;
    let out = strip(input);
    assert_eq!(out, input.as_bytes());
}

fn large_rules(n_rules: usize) -> Sot {
    let mut table = IndexMap::new();
    for i in 0..n_rules {
        table.insert(format!("cmd-{} *", i), "allow".to_string());
    }
    sot_with("perf-agent", BashPermission::Detailed(table))
}

#[test]
fn test_perf_10k() {
    let sot = large_rules(10_000);
    let start = std::time::Instant::now();
    let res = can(&sot, "perf-agent", "cmd-9999 run", false).unwrap();
    let elapsed = start.elapsed();
    assert!(res.allowed);
    assert!(elapsed.as_millis() < 5000, "10k rules took {}ms", elapsed.as_millis());
}

#[test]
fn test_perf_20k() {
    let sot = large_rules(20_000);
    let start = std::time::Instant::now();
    let res = can(&sot, "perf-agent", "cmd-19999 run", false).unwrap();
    let elapsed = start.elapsed();
    assert!(res.allowed);
    assert!(elapsed.as_millis() < 10000, "20k rules took {}ms", elapsed.as_millis());
}

#[test]
fn test_perf_100k() {
    let sot = large_rules(100_000);
    let start = std::time::Instant::now();
    let res = can(&sot, "perf-agent", "cmd-99999 run", false).unwrap();
    let elapsed = start.elapsed();
    assert!(res.allowed);
    assert!(elapsed.as_millis() < 30000, "100k rules took {}ms", elapsed.as_millis());
}

#[test]
fn test_perf_100k_cached() {
    let sot = large_rules(100_000);
    can(&sot, "perf-agent", "cmd-0 run", false).unwrap();
    let start = std::time::Instant::now();
    let res = can(&sot, "perf-agent", "cmd-99999 run", false).unwrap();
    let elapsed = start.elapsed();
    assert!(res.allowed);
    assert!(elapsed.as_millis() < 5000, "100k cached took {}ms", elapsed.as_millis());
}

#[test]
fn can_blanket_explanation_names_the_value() {
    let sot = sot_with("plan", BashPermission::Simple("ask".to_string()));
    let res = can(&sot, "plan", "ls", true).unwrap();
    assert!(!res.allowed);
    assert_eq!(res.permission_value, "ask");
    let expl = res.explanation.unwrap();
    assert_eq!(expl.rule, "bash = \"ask\"");
    assert_eq!(expl.match_kind, "Blanket");
}

#[test]
fn strip_keeps_positions_of_line_comment() {
    let out = strip("ab // c\nd");
    assert_eq!(out, b"ab     \nd".to_vec());
}

#[test]
fn can_ask_rule_is_not_allowed() {
    let sot = sot_with("build", BashPermission::Detailed(rules(&[("git push", "ask"), ("git *", "allow")])));
    let res = can(&sot, "build", "git push", false).unwrap();
    assert_eq!(res.permission_value, "ask");
    assert!(!res.allowed);
    let res = can(&sot, "build", "git status", false).unwrap();
    assert!(res.allowed);
}

#[test]
fn cache_is_fresh_only_when_written_after_the_source() {
    assert!(cache_is_fresh(Some((100, 5)), Some((100, 5))));
    assert!(cache_is_fresh(Some((100, 5)), Some((100, 6))));
    assert!(cache_is_fresh(Some((100, 900)), Some((101, 0))));
    assert!(!cache_is_fresh(Some((100, 5)), Some((100, 4))));
    assert!(!cache_is_fresh(Some((101, 0)), Some((100, 999))));
    assert!(!cache_is_fresh(None, Some((100, 0))));
    assert!(!cache_is_fresh(Some((100, 0)), None));
}
