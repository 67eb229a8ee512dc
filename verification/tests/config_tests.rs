use opencode_agency::config::{choose_dir, choose_groups, default_groups, DirSource, GroupsSource};

#[test]
fn test_default_groups_has_expected_keys() {
    let groups = default_groups();
    assert!(groups.contains_key("Docker"), "should contain Docker group");
    assert!(groups.contains_key("Go Toolchain"), "should contain Go Toolchain group");
    assert!(
        groups.contains_key("Package Managers & Runtimes"),
        "should contain Package Managers & Runtimes group"
    );
    assert!(groups.contains_key("Rust Toolchain"), "should contain Rust Toolchain group");
    assert!(groups.contains_key("WASM Toolchain"), "should contain WASM Toolchain group");
}

#[test]
fn test_default_groups_order_preserved() {
    let groups = default_groups();
    let keys: Vec<&String> = groups.keys().collect();
    assert_eq!(keys[0], "Package Managers & Runtimes");
    assert_eq!(keys[1], "TypeScript & Compilation");
    assert_eq!(keys[2], "Linting & Formatting");
    assert_eq!(keys[3], "Frameworks");
    assert_eq!(keys[4], "Testing");
    assert_eq!(keys[keys.len() - 1], "WASM Toolchain");
}

#[test]
fn default_groups_contents() {
    let groups = default_groups();
    assert_eq!(groups.len(), 19);
    assert_eq!(groups["Docker"], vec!["docker".to_string()]);
    assert_eq!(groups["MCP CLI"], vec!["mcp-cli".to_string(), "$mcp_cli_bin".to_string(), "mcp_cli_bin".to_string()]);
}

#[test]
fn choose_dir_flag_wins_over_config_file() {
    assert_eq!(choose_dir(Some("cli"), Some("cfg".to_string())), DirSource::Flag("cli"));
    assert_eq!(choose_dir::<&str>(None, Some("cfg".to_string())), DirSource::ConfigFile("cfg".to_string()));
    assert_eq!(choose_dir::<&str>(None, None), DirSource::Default);
}

#[test]
fn choose_groups_follows_priority() {
    assert_eq!(choose_groups(Some("g.jsonc"), true, true), GroupsSource::Flag("g.jsonc"));
    assert_eq!(choose_groups::<&str>(None, true, true), GroupsSource::ConfigFile);
    assert_eq!(choose_groups::<&str>(None, false, true), GroupsSource::ProjectFile);
    assert_eq!(choose_groups::<&str>(None, false, false), GroupsSource::BuiltIn);
}
