//! Configuration: which source each setting comes from, and the built-in
//! command groups.

use indexmap::IndexMap;
use vstd::prelude::*;
use vstd::string::*;

use crate::maps::{gm_insert, gm_new, group_entries, has_key, insert_entry, names_view};
use crate::text::string_of;

verus! {

/// The built-in command groups, in display order, each with its command
/// prefixes.
pub open spec fn default_group_list() -> Seq<(Seq<char>, Seq<Seq<char>>)> {
    seq![
        ("Package Managers & Runtimes"@, seq!["npm"@, "npx"@, "pnpm"@, "bun"@, "bunx"@, "node"@, "deno"@, "python"@, "python3"@, "brew"@]),
        ("TypeScript & Compilation"@, seq!["tsc"@, "swc"@, "esbuild"@, "rollup"@, "vite"@, "tsx"@, "ts-node"@]),
        ("Linting & Formatting"@, seq!["biome"@, "eslint"@, "prettier"@]),
        ("Frameworks"@, seq!["next"@, "hono"@, "nest"@]),
        ("Testing"@, seq!["vitest"@, "playwright"@, "jest"@]),
        ("Build Systems"@, seq!["make"@, "turbo"@, "cmake"@]),
        ("Cloud & Platform Tools"@, seq!["wrangler"@, "ray"@]),
        ("Docker"@, seq!["docker"@]),
        ("Shell Tools"@, seq!["zsh"@, "shellcheck"@, "shfmt"@, "chmod"@]),
        ("macOS System Tools"@, seq!["defaults"@, "launchctl"@, "open"@, "osascript"@, "pbcopy"@, "pbpaste"@, "sw_vers"@, "sysctl"@, "system_profiler"@, "plutil"@, "xcode-select"@, "xcrun"@, "otool"@, "codesign"@, "csrutil"@, "spctl"@, "security"@, "diskutil"@, "mdls"@, "mdfind"@, "pmset"@, "powermetrics"@]),
        ("MCP CLI"@, seq!["mcp-cli"@, "$mcp_cli_bin"@, "mcp_cli_bin"@]),
        ("Network Debugging"@, seq!["curl"@, "wget"@, "nc"@, "nslookup"@, "dig"@, "ping"@, "traceroute"@]),
        ("System & Process"@, seq!["ps"@, "top"@, "lsof"@, "netstat"@]),
        ("Kubernetes & Helm"@, seq!["kubectl"@, "helm"@]),
        ("Terraform"@, seq!["terraform"@, "terragrunt"@]),
        ("Infrastructure"@, seq!["aws"@]),
        ("Go Toolchain"@, seq!["go"@, "golangci-lint"@, "staticcheck"@, "dlv"@, "protoc"@, "buf"@]),
        ("Rust Toolchain"@, seq!["cargo"@, "rustc"@, "rustfmt"@, "clippy-driver"@, "rustup"@, "rust-analyzer"@]),
        ("WASM Toolchain"@, seq!["wasm-pack"@, "wasm-opt"@, "wasm-tools"@, "wasmtime"@, "wasmer"@, "wasm2wat"@, "wat2wasm"@, "tinygo"@]),
    ]
}

/// The strings of a list of string slices.
fn to_strings(v: Vec<&str>) -> (r: Vec<String>)
    ensures
        names_view(r) == v@.map_values(|s: &str| s@),
{
    let mut r: Vec<String> = Vec::new();
    let mut i: usize = 0;
    while i < v.len()
        invariant
            i <= v@.len(),
            names_view(r) == v@.map_values(|s: &str| s@).take(i as int),
        decreases v.len() - i,
    {
        let ghost pre = names_view(r);
        r.push(string_of(v[i]));
        proof {
            assert(names_view(r) =~= pre.push(v@[i as int]@));
            assert(v@.map_values(|s: &str| s@).take(i + 1) =~= v@.map_values(|s: &str| s@).take(i as int).push(v@[i as int]@));
        }
        i = i + 1;
    }
    proof {
        assert(v@.map_values(|s: &str| s@).take(v@.len() as int) =~= v@.map_values(|s: &str| s@));
    }
    r
}

/// Every group name of `gs` differs from `name` in length or first
/// character.
pub open spec fn clearly_new(gs: Seq<(Seq<char>, Seq<Seq<char>>)>, name: Seq<char>) -> bool {
    forall|i: int| 0 <= i < gs.len() ==> (#[trigger] gs[i]).0.len() != name.len() || gs[i].0[0] != name[0]
}

fn add_group(groups: &mut IndexMap<String, Vec<String>>, name: &str, items: Vec<&str>)
    requires
        name@.len() > 0,
        clearly_new(group_entries(*old(groups)), name@),
    ensures
        group_entries(*final(groups)) == group_entries(*old(groups)).push((name@, items@.map_values(|s: &str| s@))),
{
    let ghost gs = group_entries(*groups);
    assert(!has_key(gs, name@)) by {
        if has_key(gs, name@) {
            let i = choose|i: int| 0 <= i < gs.len() && #[trigger] gs[i].0 == name@;
            assert(gs[i].0.len() != name@.len() || gs[i].0[0] != name@[0]);
        }
    }
    let v = to_strings(items);
    gm_insert(groups, string_of(name), v);
}

/// Built-in default command group classification.  Key insertion order
/// defines display order.
#[verifier::rlimit(60)]
pub fn default_groups() -> (r: IndexMap<String, Vec<String>>)
    ensures
        group_entries(r) == default_group_list(),
{
    let mut groups = gm_new();
    proof {
        reveal_strlit("Package Managers & Runtimes");
        reveal_strlit("TypeScript & Compilation");
        reveal_strlit("Linting & Formatting");
        reveal_strlit("Frameworks");
        reveal_strlit("Testing");
        reveal_strlit("Build Systems");
        reveal_strlit("Cloud & Platform Tools");
        reveal_strlit("Docker");
        reveal_strlit("Shell Tools");
        reveal_strlit("macOS System Tools");
        reveal_strlit("MCP CLI");
        reveal_strlit("Network Debugging");
        reveal_strlit("System & Process");
        reveal_strlit("Kubernetes & Helm");
        reveal_strlit("Terraform");
        reveal_strlit("Infrastructure");
        reveal_strlit("Go Toolchain");
        reveal_strlit("Rust Toolchain");
        reveal_strlit("WASM Toolchain");
    }
    let ghost pre0 = group_entries(groups);
    let mut v0: Vec<&str> = Vec::new();
    v0.push("npm");
    v0.push("npx");
    v0.push("pnpm");
    v0.push("bun");
    v0.push("bunx");
    v0.push("node");
    v0.push("deno");
    v0.push("python");
    v0.push("python3");
    v0.push("brew");
    add_group(&mut groups, "Package Managers & Runtimes", v0);
    assert(group_entries(groups) =~~= pre0.push(("Package Managers & Runtimes"@, seq!["npm"@, "npx"@, "pnpm"@, "bun"@, "bunx"@, "node"@, "deno"@, "python"@, "python3"@, "brew"@])));
    let ghost pre1 = group_entries(groups);
    let mut v1: Vec<&str> = Vec::new();
    v1.push("tsc");
    v1.push("swc");
    v1.push("esbuild");
    v1.push("rollup");
    v1.push("vite");
    v1.push("tsx");
    v1.push("ts-node");
    add_group(&mut groups, "TypeScript & Compilation", v1);
    assert(group_entries(groups) =~~= pre1.push(("TypeScript & Compilation"@, seq!["tsc"@, "swc"@, "esbuild"@, "rollup"@, "vite"@, "tsx"@, "ts-node"@])));
    let ghost pre2 = group_entries(groups);
    let mut v2: Vec<&str> = Vec::new();
    v2.push("biome");
    v2.push("eslint");
    v2.push("prettier");
    add_group(&mut groups, "Linting & Formatting", v2);
    assert(group_entries(groups) =~~= pre2.push(("Linting & Formatting"@, seq!["biome"@, "eslint"@, "prettier"@])));
    let ghost pre3 = group_entries(groups);
    let mut v3: Vec<&str> = Vec::new();
    v3.push("next");
    v3.push("hono");
    v3.push("nest");
    add_group(&mut groups, "Frameworks", v3);
    assert(group_entries(groups) =~~= pre3.push(("Frameworks"@, seq!["next"@, "hono"@, "nest"@])));
    let ghost pre4 = group_entries(groups);
    let mut v4: Vec<&str> = Vec::new();
    v4.push("vitest");
    v4.push("playwright");
    v4.push("jest");
    add_group(&mut groups, "Testing", v4);
    assert(group_entries(groups) =~~= pre4.push(("Testing"@, seq!["vitest"@, "playwright"@, "jest"@])));
    let ghost pre5 = group_entries(groups);
    let mut v5: Vec<&str> = Vec::new();
    v5.push("make");
    v5.push("turbo");
    v5.push("cmake");
    add_group(&mut groups, "Build Systems", v5);
    assert(group_entries(groups) =~~= pre5.push(("Build Systems"@, seq!["make"@, "turbo"@, "cmake"@])));
    let ghost pre6 = group_entries(groups);
    let mut v6: Vec<&str> = Vec::new();
    v6.push("wrangler");
    v6.push("ray");
    add_group(&mut groups, "Cloud & Platform Tools", v6);
    assert(group_entries(groups) =~~= pre6.push(("Cloud & Platform Tools"@, seq!["wrangler"@, "ray"@])));
    let ghost pre7 = group_entries(groups);
    let mut v7: Vec<&str> = Vec::new();
    v7.push("docker");
    add_group(&mut groups, "Docker", v7);
    assert(group_entries(groups) =~~= pre7.push(("Docker"@, seq!["docker"@])));
    let ghost pre8 = group_entries(groups);
    let mut v8: Vec<&str> = Vec::new();
    v8.push("zsh");
    v8.push("shellcheck");
    v8.push("shfmt");
    v8.push("chmod");
    add_group(&mut groups, "Shell Tools", v8);
    assert(group_entries(groups) =~~= pre8.push(("Shell Tools"@, seq!["zsh"@, "shellcheck"@, "shfmt"@, "chmod"@])));
    let ghost pre9 = group_entries(groups);
    let mut v9: Vec<&str> = Vec::new();
    v9.push("defaults");
    v9.push("launchctl");
    v9.push("open");
    v9.push("osascript");
    v9.push("pbcopy");
    v9.push("pbpaste");
    v9.push("sw_vers");
    v9.push("sysctl");
    v9.push("system_profiler");
    v9.push("plutil");
    v9.push("xcode-select");
    v9.push("xcrun");
    v9.push("otool");
    v9.push("codesign");
    v9.push("csrutil");
    v9.push("spctl");
    v9.push("security");
    v9.push("diskutil");
    v9.push("mdls");
    v9.push("mdfind");
    v9.push("pmset");
    v9.push("powermetrics");
    add_group(&mut groups, "macOS System Tools", v9);
    assert(group_entries(groups) =~~= pre9.push(("macOS System Tools"@, seq!["defaults"@, "launchctl"@, "open"@, "osascript"@, "pbcopy"@, "pbpaste"@, "sw_vers"@, "sysctl"@, "system_profiler"@, "plutil"@, "xcode-select"@, "xcrun"@, "otool"@, "codesign"@, "csrutil"@, "spctl"@, "security"@, "diskutil"@, "mdls"@, "mdfind"@, "pmset"@, "powermetrics"@])));
    let ghost pre10 = group_entries(groups);
    let mut v10: Vec<&str> = Vec::new();
    v10.push("mcp-cli");
    v10.push("$mcp_cli_bin");
    v10.push("mcp_cli_bin");
    add_group(&mut groups, "MCP CLI", v10);
    assert(group_entries(groups) =~~= pre10.push(("MCP CLI"@, seq!["mcp-cli"@, "$mcp_cli_bin"@, "mcp_cli_bin"@])));
    let ghost pre11 = group_entries(groups);
    let mut v11: Vec<&str> = Vec::new();
    v11.push("curl");
    v11.push("wget");
    v11.push("nc");
    v11.push("nslookup");
    v11.push("dig");
    v11.push("ping");
    v11.push("traceroute");
    add_group(&mut groups, "Network Debugging", v11);
    assert(group_entries(groups) =~~= pre11.push(("Network Debugging"@, seq!["curl"@, "wget"@, "nc"@, "nslookup"@, "dig"@, "ping"@, "traceroute"@])));
    let ghost pre12 = group_entries(groups);
    let mut v12: Vec<&str> = Vec::new();
    v12.push("ps");
    v12.push("top");
    v12.push("lsof");
    v12.push("netstat");
    add_group(&mut groups, "System & Process", v12);
    assert(group_entries(groups) =~~= pre12.push(("System & Process"@, seq!["ps"@, "top"@, "lsof"@, "netstat"@])));
    let ghost pre13 = group_entries(groups);
    let mut v13: Vec<&str> = Vec::new();
    v13.push("kubectl");
    v13.push("helm");
    add_group(&mut groups, "Kubernetes & Helm", v13);
    assert(group_entries(groups) =~~= pre13.push(("Kubernetes & Helm"@, seq!["kubectl"@, "helm"@])));
    let ghost pre14 = group_entries(groups);
    let mut v14: Vec<&str> = Vec::new();
    v14.push("terraform");
    v14.push("terragrunt");
    add_group(&mut groups, "Terraform", v14);
    assert(group_entries(groups) =~~= pre14.push(("Terraform"@, seq!["terraform"@, "terragrunt"@])));
    let ghost pre15 = group_entries(groups);
    let mut v15: Vec<&str> = Vec::new();
    v15.push("aws");
    add_group(&mut groups, "Infrastructure", v15);
    assert(group_entries(groups) =~~= pre15.push(("Infrastructure"@, seq!["aws"@])));
    let ghost pre16 = group_entries(groups);
    let mut v16: Vec<&str> = Vec::new();
    v16.push("go");
    v16.push("golangci-lint");
    v16.push("staticcheck");
    v16.push("dlv");
    v16.push("protoc");
    v16.push("buf");
    add_group(&mut groups, "Go Toolchain", v16);
    assert(group_entries(groups) =~~= pre16.push(("Go Toolchain"@, seq!["go"@, "golangci-lint"@, "staticcheck"@, "dlv"@, "protoc"@, "buf"@])));
    let ghost pre17 = group_entries(groups);
    let mut v17: Vec<&str> = Vec::new();
    v17.push("cargo");
    v17.push("rustc");
    v17.push("rustfmt");
    v17.push("clippy-driver");
    v17.push("rustup");
    v17.push("rust-analyzer");
    add_group(&mut groups, "Rust Toolchain", v17);
    assert(group_entries(groups) =~~= pre17.push(("Rust Toolchain"@, seq!["cargo"@, "rustc"@, "rustfmt"@, "clippy-driver"@, "rustup"@, "rust-analyzer"@])));
    let ghost pre18 = group_entries(groups);
    let mut v18: Vec<&str> = Vec::new();
    v18.push("wasm-pack");
    v18.push("wasm-opt");
    v18.push("wasm-tools");
    v18.push("wasmtime");
    v18.push("wasmer");
    v18.push("wasm2wat");
    v18.push("wat2wasm");
    v18.push("tinygo");
    add_group(&mut groups, "WASM Toolchain", v18);
    assert(group_entries(groups) =~~= pre18.push(("WASM Toolchain"@, seq!["wasm-pack"@, "wasm-opt"@, "wasm-tools"@, "wasmtime"@, "wasmer"@, "wasm2wat"@, "wat2wasm"@, "tinygo"@])));
    proof {
        assert(group_entries(groups) =~~= default_group_list());
    }
    groups
}

// ---------------------------------------------------------------------------
// Where settings come from
// ---------------------------------------------------------------------------

/// Where a directory setting comes from.
#[derive(Debug, Clone, PartialEq)]
pub enum DirSource<P> {
    /// The path given on the command line.
    Flag(P),
    /// The name given in the config file, under the project directory.
    ConfigFile(String),
    /// The built-in name, under the project directory.
    Default,
}

/// A directory setting: the command-line flag wins over the config file,
/// which wins over the built-in default.
pub fn choose_dir<P>(flag: Option<P>, config: Option<String>) -> (r: DirSource<P>)
    ensures
        match flag {
            Some(p) => r == DirSource::Flag(p),
            None => match config {
                Some(n) => r == DirSource::<P>::ConfigFile(n),
                None => r == DirSource::<P>::Default,
            },
        },
{
    match flag {
        Some(p) => DirSource::Flag(p),
        None => match config {
            Some(n) => DirSource::ConfigFile(n),
            None => DirSource::Default,
        },
    }
}

/// Where the command groups come from.
#[derive(Debug, Clone, PartialEq)]
pub enum GroupsSource<P> {
    /// The groups file given on the command line.
    Flag(P),
    /// The groups file that the config file names.
    ConfigFile,
    /// `groups.jsonc` in the project directory.
    ProjectFile,
    /// The built-in groups.
    BuiltIn,
}

/// The command groups: the flag's file, else the config file's groups file
/// when it names one that exists, else the project's `groups.jsonc` when it
/// exists, else the built-in groups.
pub fn choose_groups<P>(flag: Option<P>, config_file_found: bool, project_file_found: bool) -> (r: GroupsSource<P>)
    ensures
        match flag {
            Some(p) => r == GroupsSource::Flag(p),
            None => r == if config_file_found {
                GroupsSource::<P>::ConfigFile
            } else if project_file_found {
                GroupsSource::<P>::ProjectFile
            } else {
                GroupsSource::<P>::BuiltIn
            },
        },
{
    match flag {
        Some(p) => GroupsSource::Flag(p),
        None => if config_file_found {
            GroupsSource::ConfigFile
        } else if project_file_found {
            GroupsSource::ProjectFile
        } else {
            GroupsSource::BuiltIn
        },
    }
}

} // verus!
