//! The data of the permission system: permission blocks, templates, agent
//! override files, and the results computed from them.

use indexmap::IndexMap;
use vstd::prelude::*;

use crate::maps::{perm_entries, pm_clone};
use crate::text::str_eq;


verus! {

/// The `bash` permission: a single value for every command, or a table from
/// command patterns to values.
#[derive(Debug, PartialEq)]
pub enum BashPermission {
    Simple(String),
    Detailed(IndexMap<String, String>),
}

/// The mathematical content of a `bash` permission.
pub enum BashView {
    Simple(Seq<char>),
    Detailed(Seq<(Seq<char>, Seq<char>)>),
}

impl BashPermission {
    pub open spec fn bash_view(&self) -> BashView {
        match self {
            BashPermission::Simple(s) => BashView::Simple(s@),
            BashPermission::Detailed(m) => BashView::Detailed(perm_entries(*m)),
        }
    }
}

impl Clone for BashPermission {
    fn clone(&self) -> (r: Self)
        ensures
            r.bash_view() == self.bash_view(),
    {
        match self {
            BashPermission::Simple(s) => BashPermission::Simple(s.clone()),
            BashPermission::Detailed(m) => BashPermission::Detailed(pm_clone(m)),
        }
    }
}

/// A permission block: optional `write` and `edit` values and the `bash`
/// permission.
#[derive(Debug, Clone, PartialEq)]
pub struct SotPermission {
    pub write: Option<String>,
    pub edit: Option<String>,
    pub bash: BashPermission,
}

impl SotPermission {
    /// Field-wise copy of a permission block.
    pub fn copy(&self) -> (r: Self)
        ensures
            r.write == self.write,
            r.edit == self.edit,
            r.bash.bash_view() == self.bash.bash_view(),
    {
        SotPermission { write: self.write.clone(), edit: self.edit.clone(), bash: self.bash.clone() }
    }
}

/// One agent of the generated permissions file.
#[derive(Debug)]
pub struct SotAgent {
    pub permission: SotPermission,
}

/// The generated permissions file: agent name -> agent block, in file order.
pub type Sot = IndexMap<String, SotAgent>;

/// Category name -> agent names.
pub type CategoryMap = IndexMap<String, Vec<String>>;

/// Documentation metadata block (`$doc`).
///
/// Templates typically use `baseline_rationale` and `security_note`;
/// overrides typically use `agent_summary` and `override_rationale`.
#[derive(Debug, Clone, Default, PartialEq)]
pub struct DocBlock {
    /// What the baseline provides and why.
    pub baseline_rationale: Option<String>,
    /// Security-relevant info about the category.
    pub security_note: Option<String>,
    /// One-line description of what this agent does.
    pub agent_summary: Option<String>,
    /// Why this agent differs from its baseline.
    pub override_rationale: Option<String>,
}

/// Template inheritance declaration: one parent, or several resolved
/// left-to-right.
#[derive(Debug, Clone, PartialEq)]
pub enum Extends {
    /// Single parent template reference.
    Single(String),
    /// Multiple parent template references (resolved left-to-right).
    Multiple(Vec<String>),
}

/// The parent names that an `$extends` declaration lists, in order.
pub open spec fn extends_parents(e: Extends) -> Seq<Seq<char>> {
    match e {
        Extends::Single(s) => seq![s@],
        Extends::Multiple(v) => v@.map_values(|p: String| p@),
    }
}

impl Extends {
    /// Return the parent template names, in declaration order.
    pub fn parents(&self) -> (r: Vec<&str>)
        ensures
            r@.map_values(|p: &str| p@) == extends_parents(*self),
    {
        match self {
            Extends::Single(s) => {
                let mut v: Vec<&str> = Vec::new();
                v.push(s.as_str());
                proof {
                    assert(v@.map_values(|p: &str| p@) =~= seq![s@]);
                }
                v
            },
            Extends::Multiple(names) => {
                let mut v: Vec<&str> = Vec::new();
                let mut i: usize = 0;
                while i < names.len()
                    invariant
                        i <= names@.len(),
                        v@.len() == i,
                        forall|j: int| 0 <= j < i ==> #[trigger] v@[j]@ == names@[j]@,
                    decreases names.len() - i,
                {
                    v.push(names[i].as_str());
                    i = i + 1;
                }
                proof {
                    assert(v@.map_values(|p: &str| p@) =~= names@.map_values(|p: String| p@));
                }
                v
            },
        }
    }
}

/// The categories whose template baseline is a whole permission block
/// (`write`/`edit`/`bash`) rather than a table of shell commands.
pub open spec fn simple_categories() -> Seq<Seq<char>> {
    seq!["orchestration"@, "planning"@, "research-knowledge"@, "general-purpose"@, "unrestricted"@]
}

/// Whether `cat` is one of the simple categories.
pub fn is_simple_category(cat: &str) -> (r: bool)
    ensures
        r == simple_categories().contains(cat@),
{
    let r = str_eq(cat, "orchestration") || str_eq(cat, "planning") || str_eq(
        cat,
        "research-knowledge",
    ) || str_eq(cat, "general-purpose") || str_eq(cat, "unrestricted");
    proof {
        let l = simple_categories();
        if r {
            if cat@ == "orchestration"@ {
                assert(l[0] == cat@);
            } else if cat@ == "planning"@ {
                assert(l[1] == cat@);
            } else if cat@ == "research-knowledge"@ {
                assert(l[2] == cat@);
            } else if cat@ == "general-purpose"@ {
                assert(l[3] == cat@);
            } else {
                assert(l[4] == cat@);
            }
        }
    }
    r
}

/// A value of a template's `baseline.permission` object.
#[derive(Debug, PartialEq)]
pub enum BaselineValue {
    /// A JSON string.
    Text(String),
    /// A JSON object whose values are all strings, in the order the object
    /// lists them.
    TextMap(IndexMap<String, String>),
    /// A JSON object with at least one value that is not a string.
    MixedObject,
    /// `null`, a boolean, a number or an array.
    Other,
}

/// The mathematical content of a baseline value.
pub enum ValueView {
    Text(Seq<char>),
    TextMap(Seq<(Seq<char>, Seq<char>)>),
    MixedObject,
    Other,
}

impl BaselineValue {
    pub open spec fn value_view(&self) -> ValueView {
        match self {
            BaselineValue::Text(s) => ValueView::Text(s@),
            BaselineValue::TextMap(m) => ValueView::TextMap(perm_entries(*m)),
            BaselineValue::MixedObject => ValueView::MixedObject,
            BaselineValue::Other => ValueView::Other,
        }
    }

    /// A copy of this value.
    pub fn copy(&self) -> (r: Self)
        ensures
            r.value_view() == self.value_view(),
    {
        match self {
            BaselineValue::Text(s) => BaselineValue::Text(s.clone()),
            BaselineValue::TextMap(m) => BaselineValue::TextMap(pm_clone(m)),
            BaselineValue::MixedObject => BaselineValue::MixedObject,
            BaselineValue::Other => BaselineValue::Other,
        }
    }
}

/// A template's `baseline.permission`: for complex categories the table of
/// shell commands, for simple categories the whole permission block.
#[derive(Debug, PartialEq)]
pub enum BaselinePermission {
    /// A JSON object: its entries, in the order the object lists them.
    Object(IndexMap<String, BaselineValue>),
    /// Any other JSON value.
    NotObject,
}

/// The `baseline` block of a template.
#[derive(Debug, PartialEq)]
pub struct TemplateBaseline {
    pub permission: BaselinePermission,
}

/// A template file.
#[derive(Debug)]
pub struct Template {
    pub schema: String,
    pub version: String,
    pub category: String,
    pub description: String,
    pub purpose: String,
    /// Optional documentation metadata block.
    pub doc: Option<DocBlock>,
    /// Optional parent templates to inherit from.
    pub extends: Option<Extends>,
    pub baseline: TemplateBaseline,
}

/// The `add`/`remove` part of an agent override.
#[derive(Debug, Default)]
pub struct PermissionOverride {
    pub add: Option<IndexMap<String, String>>,
    pub remove: Option<Vec<String>>,
}

/// The `overrides` block of an agent file.
#[derive(Debug, Default)]
pub struct OverrideBlock {
    pub permission: Option<PermissionOverride>,
}

/// An agent override file.
#[derive(Debug)]
pub struct Override {
    pub schema: String,
    pub version: String,
    pub agent: String,
    pub extends: String,
    /// Optional documentation metadata block.
    pub doc: Option<DocBlock>,
    pub overrides: OverrideBlock,
}

/// Result of resolving an agent's permissions.
#[derive(Debug)]
pub struct ResolvedPermission {
    pub permission: SotPermission,
}

/// Delta computed between a permissions file and a template baseline.
#[derive(Debug, Clone)]
pub struct Delta {
    pub adds: Vec<(String, String)>,
    pub removes: Vec<String>,
}

/// Validation result for one agent.
#[derive(Debug, Clone)]
pub struct AgentValidationResult {
    pub agent: String,
    pub category: String,
    pub passed: bool,
    pub extra_in_resolved: Vec<String>,
    pub missing_from_resolved: Vec<String>,
    pub value_mismatches: Vec<(String, String, String)>,
}

/// Validation report for all agents.
#[derive(Debug, Clone)]
pub struct ValidationReport {
    pub total: usize,
    pub passed: usize,
    pub failed: usize,
    pub results: Vec<AgentValidationResult>,
}

} // verus!
