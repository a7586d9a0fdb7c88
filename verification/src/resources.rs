//! The data model: resource kinds, installed records, discoverable
//! resources, repositories, namespaces, change events and cache entries.

use vstd::prelude::*;

use crate::apps::{AppFlags, AppType, InstallScope};
use crate::strutil::eq_str;

verus! {

/// Discovery cache entries go stale after a day.
pub const CACHE_EXPIRY_SECONDS: i64 = 86400;

/// The manageable artifact kinds.
#[derive(Clone, Copy, Debug, PartialEq, Eq, Structural)]
pub enum ResourceType {
    Skill,
    Command,
    Hook,
    Agent,
}

impl ResourceType {
    /// The display label of the kind.
    pub fn as_str(&self) -> (r: &'static str)
        ensures
            r@ == self.spec_label(),
    {
        proof {
            reveal_strlit("Skill");
            reveal_strlit("Command");
            reveal_strlit("Hook");
            reveal_strlit("Agent");
        }
        match self {
            ResourceType::Skill => "Skill",
            ResourceType::Command => "Command",
            ResourceType::Hook => "Hook",
            ResourceType::Agent => "Agent",
        }
    }

    /// The display label of the kind.
    pub open spec fn spec_label(&self) -> Seq<char> {
        match self {
            ResourceType::Skill => "Skill"@,
            ResourceType::Command => "Command"@,
            ResourceType::Hook => "Hook"@,
            ResourceType::Agent => "Agent"@,
        }
    }

    /// The file extension of the kind's resource files.
    pub fn extension(&self) -> (r: &'static str)
        ensures
            r@ == self.spec_extension(),
    {
        proof {
            reveal_strlit("md");
            reveal_strlit("json");
        }
        match self {
            ResourceType::Hook => "json",
            _ => "md",
        }
    }

    /// The file extension of the kind's resource files.
    pub open spec fn spec_extension(&self) -> Seq<char> {
        match self {
            ResourceType::Hook => "json"@,
            _ => "md"@,
        }
    }

    /// The name of the kind's subdirectory under the SSOT root, which is
    /// also the directory name looked for in repository snapshots.
    pub fn root_dir(&self) -> (r: &'static str)
        ensures
            r@ == self.spec_root_dir(),
    {
        proof {
            reveal_strlit("skills");
            reveal_strlit("commands");
            reveal_strlit("hooks");
            reveal_strlit("agents");
        }
        match self {
            ResourceType::Skill => "skills",
            ResourceType::Command => "commands",
            ResourceType::Hook => "hooks",
            ResourceType::Agent => "agents",
        }
    }

    /// The name of the kind's subdirectory under the SSOT root.
    pub open spec fn spec_root_dir(&self) -> Seq<char> {
        match self {
            ResourceType::Skill => "skills"@,
            ResourceType::Command => "commands"@,
            ResourceType::Hook => "hooks"@,
            ResourceType::Agent => "agents"@,
        }
    }

    /// Whether the kind projects by merging into a shared settings
    /// document rather than copying files.
    pub fn is_aggregate(&self) -> (r: bool)
        ensures
            r == matches!(self, ResourceType::Hook),
    {
        matches!(self, ResourceType::Hook)
    }
}

/// The event slot an automation hook fires on.
#[derive(Clone, Copy, Debug, PartialEq, Eq, Structural)]
pub enum HookEventType {
    PreToolUse,
    PostToolUse,
    PermissionRequest,
    SessionEnd,
}

impl HookEventType {
    /// The event name as the client applications spell it.
    pub fn as_str(&self) -> (r: &'static str)
        ensures
            r@ == self.spec_name(),
    {
        proof {
            reveal_strlit("PreToolUse");
            reveal_strlit("PostToolUse");
            reveal_strlit("PermissionRequest");
            reveal_strlit("SessionEnd");
        }
        match self {
            HookEventType::PreToolUse => "PreToolUse",
            HookEventType::PostToolUse => "PostToolUse",
            HookEventType::PermissionRequest => "PermissionRequest",
            HookEventType::SessionEnd => "SessionEnd",
        }
    }

    /// The event name as the client applications spell it.
    pub open spec fn spec_name(&self) -> Seq<char> {
        match self {
            HookEventType::PreToolUse => "PreToolUse"@,
            HookEventType::PostToolUse => "PostToolUse"@,
            HookEventType::PermissionRequest => "PermissionRequest"@,
            HookEventType::SessionEnd => "SessionEnd"@,
        }
    }

    /// Parse an event name; unsupported names yield `None`.
    pub fn parse(name: &str) -> (r: Option<HookEventType>)
        ensures
            match r {
                Some(e) => e.spec_name() == name@,
                None => forall|e: HookEventType| e.spec_name() != name@,
            },
    {
        proof {
            reveal_strlit("PreToolUse");
            reveal_strlit("PostToolUse");
            reveal_strlit("PermissionRequest");
            reveal_strlit("SessionEnd");
        }
        if eq_str(name, "PreToolUse") {
            Some(HookEventType::PreToolUse)
        } else if eq_str(name, "PostToolUse") {
            Some(HookEventType::PostToolUse)
        } else if eq_str(name, "PermissionRequest") {
            Some(HookEventType::PermissionRequest)
        } else if eq_str(name, "SessionEnd") {
            Some(HookEventType::SessionEnd)
        } else {
            assert forall|e: HookEventType| e.spec_name() != name@ by {
                match e {
                    HookEventType::PreToolUse => {},
                    HookEventType::PostToolUse => {},
                    HookEventType::PermissionRequest => {},
                    HookEventType::SessionEnd => {},
                }
            }
            None
        }
    }
}

/// The priority a hook gets when its file names none.
pub fn default_priority() -> (r: i32)
    ensures
        r == 100,
{
    100
}

/// The global enablement a hook gets when its file names none.
pub fn default_enabled() -> (r: bool)
    ensures
        r,
{
    true
}

/// A durable record of one installed resource.
///
/// The hook-specific fields (`event_type`, `rules_json`, `enabled`,
/// `priority`) carry their defaults on the other kinds.  `rules_json`
/// holds the hook's rule array as opaque text: resources are content
/// blobs plus parsed metadata, and the engine never looks inside a rule.
#[derive(Clone, Debug)]
pub struct InstalledResource {
    pub id: String,
    pub name: String,
    pub description: Option<String>,
    pub namespace: String,
    pub filename: String,
    pub directory: String,
    pub category: Option<String>,
    pub allowed_tools: Option<Vec<String>>,
    pub model: Option<String>,
    pub event_type: HookEventType,
    pub rules_json: String,
    pub enabled: bool,
    pub priority: i32,
    pub repo_owner: Option<String>,
    pub repo_name: Option<String>,
    pub repo_branch: Option<String>,
    pub readme_url: Option<String>,
    pub source_path: Option<String>,
    pub apps: AppFlags,
    pub file_hash: Option<String>,
    pub installed_at: i64,
    pub scope: InstallScope,
}

impl InstalledResource {
    /// The identifier agrees with its parts.
    pub open spec fn id_consistent(&self) -> bool {
        self.id@ == crate::ident::spec_join_id(self.namespace@, self.filename@)
    }
}

/// A resource found in a source repository, not yet installed.
#[derive(Clone, Debug)]
pub struct DiscoverableResource {
    pub key: String,
    pub name: String,
    pub description: String,
    pub namespace: String,
    pub filename: String,
    pub category: Option<String>,
    pub event_type: HookEventType,
    pub rules_json: String,
    pub readme_url: Option<String>,
    pub repo_owner: String,
    pub repo_name: String,
    pub repo_branch: String,
    pub source_path: Option<String>,
}

/// A resource found in a target application with no database record.
#[derive(Clone, Debug)]
pub struct UnmanagedResource {
    pub id: String,
    pub namespace: String,
    pub filename: String,
    pub name: String,
    pub description: Option<String>,
    pub found_in: Vec<String>,
}

/// What kind of drift a change event reports.
#[derive(Clone, Copy, Debug, PartialEq, Eq, Structural)]
pub enum ChangeEventType {
    /// The SSOT copy's hash differs from the stored hash.
    SsotModified,
    /// A database record's SSOT file is missing.
    SsotDeleted,
    /// An SSOT file has no database record.
    SsotAdded,
    /// An enabled application copy's hash differs from the SSOT copy's.
    AppConflict,
}

/// One detected change.
#[derive(Clone, Debug)]
pub struct ChangeEvent {
    pub id: String,
    pub event_type: ChangeEventType,
    pub app: Option<AppType>,
}

/// How a divergent application copy is resolved.
#[derive(Clone, Copy, Debug, PartialEq, Eq, Structural)]
pub enum ConflictResolution {
    /// Overwrite the application copy from the SSOT.
    KeepSsot,
    /// Copy the application's version over the SSOT and re-parse.
    KeepApp,
}

/// A namespace and how many installed resources it holds.
#[derive(Clone, Debug)]
pub struct ResourceNamespace {
    pub name: String,
    pub display_name: String,
    pub count: usize,
}

/// A source repository row: coordinates, enablement, builtin marking and
/// localized descriptions.
#[derive(Clone, Debug)]
pub struct RepoWithMeta {
    pub owner: String,
    pub name: String,
    pub branch: String,
    pub enabled: bool,
    pub builtin: bool,
    pub description_zh: Option<String>,
    pub description_en: Option<String>,
    pub description_ja: Option<String>,
    pub added_at: i64,
}

/// The repositories configured out of the box; there are none.
pub fn default_command_repos() -> (r: Vec<RepoWithMeta>)
    ensures
        r@.len() == 0,
{
    Vec::new()
}

/// A description in the three supported languages.
#[derive(Clone, Debug)]
pub struct LocalizedDescription {
    pub zh: String,
    pub en: String,
    pub ja: String,
}

impl LocalizedDescription {
    /// The description a language tag selects: Chinese tags get the
    /// Chinese text, Japanese tags the Japanese text, everything else the
    /// English text.
    pub open spec fn spec_get(&self, lang: Seq<char>) -> Seq<char> {
        if lang == "zh"@ || lang == "zh-CN"@ || lang == "zh-TW"@ {
            self.zh@
        } else if lang == "ja"@ || lang == "ja-JP"@ {
            self.ja@
        } else {
            self.en@
        }
    }

    /// Select the description for a language tag.
    pub fn get(&self, lang: &str) -> (r: &str)
        ensures
            r@ == self.spec_get(lang@),
    {
        proof {
            reveal_strlit("zh");
            reveal_strlit("zh-CN");
            reveal_strlit("zh-TW");
            reveal_strlit("ja");
            reveal_strlit("ja-JP");
        }
        if eq_str(lang, "zh") || eq_str(lang, "zh-CN") || eq_str(lang, "zh-TW") {
            self.zh.as_str()
        } else if eq_str(lang, "ja") || eq_str(lang, "ja-JP") {
            self.ja.as_str()
        } else {
            self.en.as_str()
        }
    }
}

/// One builtin repository from the bundled manifest.
#[derive(Clone, Debug)]
pub struct BuiltinRepoConfig {
    pub owner: String,
    pub name: String,
    pub branch: String,
    pub description: LocalizedDescription,
}

/// The bundled manifest of builtin repositories.
#[derive(Clone, Debug)]
pub struct BuiltinReposConfig {
    pub version: u32,
    pub skills: Vec<BuiltinRepoConfig>,
    pub commands: Vec<BuiltinRepoConfig>,
}

/// The outcome of restoring builtin repositories.
#[derive(Clone, Debug)]
pub struct RestoreResult {
    pub restored_count: u32,
    pub message: String,
}

/// The builtin skill repositories of a manifest.
pub fn get_builtin_skill_repos(config: &BuiltinReposConfig) -> (r: &Vec<BuiltinRepoConfig>)
    ensures
        r == &config.skills,
{
    &config.skills
}

/// The builtin command repositories of a manifest.
pub fn get_builtin_command_repos(config: &BuiltinReposConfig) -> (r: &Vec<BuiltinRepoConfig>)
    ensures
        r == &config.commands,
{
    &config.commands
}

/// Whether `owner/name` names one of the repositories in `list`.
pub open spec fn spec_has_repo(
    list: Seq<BuiltinRepoConfig>,
    owner: Seq<char>,
    name: Seq<char>,
) -> bool {
    exists|i: int| 0 <= i < list.len() && list[i].owner@ == owner && list[i].name@ == name
}

fn list_has_repo(list: &Vec<BuiltinRepoConfig>, owner: &str, name: &str) -> (r: bool)
    ensures
        r == spec_has_repo(list@, owner@, name@),
{
    let n = list.len();
    let mut i: usize = 0;
    while i < n
        invariant
            i <= n,
            n == list.len(),
            forall|j: int|
                0 <= j < i ==> !(list[j].owner@ == owner@ && list[j].name@ == name@),
        decreases n - i,
    {
        if eq_str(list[i].owner.as_str(), owner) && eq_str(list[i].name.as_str(), name) {
            return true;
        }
        i += 1;
    }
    false
}

/// Whether `owner/name` is a builtin skill repository.
pub fn is_builtin_skill_repo(config: &BuiltinReposConfig, owner: &str, name: &str) -> (r: bool)
    ensures
        r == spec_has_repo(config.skills@, owner@, name@),
{
    list_has_repo(&config.skills, owner, name)
}

/// Whether `owner/name` is a builtin command repository.
pub fn is_builtin_command_repo(config: &BuiltinReposConfig, owner: &str, name: &str) -> (r: bool)
    ensures
        r == spec_has_repo(config.commands@, owner@, name@),
{
    list_has_repo(&config.commands, owner, name)
}

/// Whether `x` carries, field for field, the first repository of `list`
/// with its coordinates.
pub open spec fn spec_first_repo(list: Seq<BuiltinRepoConfig>, x: BuiltinRepoConfig) -> bool {
    exists|j: int|
        #![trigger list[j]]
        0 <= j < list.len() && (forall|j2: int|
            0 <= j2 < j ==> !((#[trigger] list[j2]).owner@ == list[j].owner@ && list[j2].name@
                == list[j].name@)) && list[j].owner@ == x.owner@ && list[j].name@ == x.name@
            && list[j].branch@ == x.branch@ && list[j].description.zh@ == x.description.zh@
            && list[j].description.en@ == x.description.en@ && list[j].description.ja@
            == x.description.ja@
}

/// The repositories of `list` with duplicate coordinates dropped, the
/// first occurrence winning with all its fields: an association list
/// from `(owner, name)` to the repository.
fn dedup_repos(list: &Vec<BuiltinRepoConfig>) -> (r: Vec<BuiltinRepoConfig>)
    ensures
        forall|i: int, j: int|
            0 <= i < j < r@.len() ==> !(r@[i].owner@ == r@[j].owner@ && r@[i].name@
                == r@[j].name@),
        forall|i: int| 0 <= i < r@.len() ==> spec_first_repo(list@, #[trigger] r@[i]),
        forall|i: int|
            0 <= i < list@.len() ==> spec_has_repo(r@, list[i].owner@, list[i].name@),
{
    let n = list.len();
    let mut out: Vec<BuiltinRepoConfig> = Vec::new();
    let mut i: usize = 0;
    while i < n
        invariant
            i <= n,
            n == list.len(),
            forall|a: int, b: int|
                0 <= a < b < out@.len() ==> !(out@[a].owner@ == out@[b].owner@ && out@[a].name@
                    == out@[b].name@),
            forall|a: int| 0 <= a < out@.len() ==> spec_first_repo(list@, #[trigger] out@[a]),
            forall|a: int|
                0 <= a < i ==> spec_has_repo(out@, list[a].owner@, list[a].name@),
        decreases n - i,
    {
        let repo = &list[i];
        let ghost prev = out@;
        if !list_has_repo(&out, repo.owner.as_str(), repo.name.as_str()) {
            out.push(repo.clone_repo());
            proof {
                assert(out@[out@.len() - 1].owner@ == list[i as int].owner@);
                assert(out@[out@.len() - 1].name@ == list[i as int].name@);
                // the key was not collected yet, and every earlier key
                // was, so position i holds its first occurrence
                assert forall|j2: int|
                    0 <= j2 < i implies !((#[trigger] list@[j2]).owner@ == list@[i as int]
                    .owner@ && list@[j2].name@ == list@[i as int].name@) by {
                    if list@[j2].owner@ == list@[i as int].owner@ && list@[j2].name@
                        == list@[i as int].name@ {
                        assert(spec_has_repo(prev, list[j2].owner@, list[j2].name@));
                    }
                }
                assert(spec_first_repo(list@, out@[out@.len() - 1]));
                assert forall|a: int|
                    0 <= a < out@.len() implies spec_first_repo(
                    list@,
                    #[trigger] out@[a],
                ) by {
                    if a < out@.len() - 1 {
                        assert(out@[a] == prev[a]);
                    }
                }
                assert forall|a: int|
                    0 <= a < i + 1 implies spec_has_repo(
                    out@,
                    list[a].owner@,
                    list[a].name@,
                ) by {
                    if a < i {
                        let k = choose|k: int|
                            0 <= k < prev.len() && prev[k].owner@ == list[a].owner@
                                && prev[k].name@ == list[a].name@;
                        assert(out@[k] == prev[k]);
                    }
                }
            }
        } else {
            proof {
                assert(spec_has_repo(out@, list[i as int].owner@, list[i as int].name@));
            }
        }
        i += 1;
    }
    out
}

/// The builtin skill repositories keyed by `(owner, name)`, first
/// occurrence winning.
pub fn builtin_skill_repos_map(config: &BuiltinReposConfig) -> (r: Vec<BuiltinRepoConfig>)
    ensures
        forall|i: int, j: int|
            0 <= i < j < r@.len() ==> !(r@[i].owner@ == r@[j].owner@ && r@[i].name@
                == r@[j].name@),
        forall|i: int| 0 <= i < r@.len() ==> spec_first_repo(config.skills@, #[trigger] r@[i]),
        forall|i: int|
            0 <= i < config.skills@.len() ==> spec_has_repo(
                r@,
                config.skills@[i].owner@,
                config.skills@[i].name@,
            ),
{
    dedup_repos(&config.skills)
}

/// The builtin command repositories keyed by `(owner, name)`, first
/// occurrence winning.
pub fn builtin_command_repos_map(config: &BuiltinReposConfig) -> (r: Vec<BuiltinRepoConfig>)
    ensures
        forall|i: int, j: int|
            0 <= i < j < r@.len() ==> !(r@[i].owner@ == r@[j].owner@ && r@[i].name@
                == r@[j].name@),
        forall|i: int| 0 <= i < r@.len() ==> spec_first_repo(config.commands@, #[trigger] r@[i]),
        forall|i: int|
            0 <= i < config.commands@.len() ==> spec_has_repo(
                r@,
                config.commands@[i].owner@,
                config.commands@[i].name@,
            ),
{
    dedup_repos(&config.commands)
}

impl BuiltinRepoConfig {
    /// A field-for-field copy.
    pub fn clone_repo(&self) -> (r: BuiltinRepoConfig)
        ensures
            r.owner@ == self.owner@,
            r.name@ == self.name@,
            r.branch@ == self.branch@,
            r.description.zh@ == self.description.zh@,
            r.description.en@ == self.description.en@,
            r.description.ja@ == self.description.ja@,
    {
        BuiltinRepoConfig {
            owner: self.owner.clone(),
            name: self.name.clone(),
            branch: self.branch.clone(),
            description: LocalizedDescription {
                zh: self.description.zh.clone(),
                en: self.description.en.clone(),
                ja: self.description.ja.clone(),
            },
        }
    }
}

/// Structured metadata of a slash command, from its front matter.
#[derive(Clone, Debug)]
pub struct CommandMetadata {
    pub name: Option<String>,
    pub description: Option<String>,
    pub category: Option<String>,
    pub allowed_tools: Option<Vec<String>>,
}

/// Structured metadata of a prompt agent, from its front matter.
#[derive(Clone, Debug)]
pub struct AgentMetadata {
    pub name: Option<String>,
    pub description: Option<String>,
    pub model: Option<String>,
    pub tools: Option<Vec<String>>,
}

/// Structured metadata of an automation hook, from its JSON document.
/// The rule array is kept as opaque serialized text.
#[derive(Clone, Debug)]
pub struct HookFileMetadata {
    pub name: Option<String>,
    pub description: Option<String>,
    pub event_type: Option<HookEventType>,
    pub rules_json: Option<String>,
    pub priority: i32,
    pub enabled: bool,
}

/// A time-boxed cache of the resources discovered in one repository
/// branch.
#[derive(Clone, Debug)]
pub struct DiscoveryCacheEntry {
    pub repo_owner: String,
    pub repo_name: String,
    pub repo_branch: String,
    pub resources: Vec<DiscoverableResource>,
    pub scanned_at: i64,
}

/// The agents discovered in one repository branch, with their scan time.
pub type AgentDiscoveryCache = DiscoveryCacheEntry;

/// The commands discovered in one repository branch, with their scan time.
pub type CommandDiscoveryCache = DiscoveryCacheEntry;

/// The hooks discovered in one repository branch, with their scan time.
pub type HookDiscoveryCache = DiscoveryCacheEntry;

} // verus!
