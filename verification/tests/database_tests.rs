//! The record tables, repository registries and discovery caches.

use cc_switch::apps::{AppFlags, InstallScope};
use cc_switch::database::Database;
use cc_switch::resources::{
    DiscoverableResource, DiscoveryCacheEntry, HookEventType, InstalledResource, RepoWithMeta,
};

fn test_resource(id: &str, namespace: &str, filename: &str) -> InstalledResource {
    InstalledResource {
        id: id.to_string(),
        name: format!("Test Resource {}", filename),
        description: Some("A test resource".to_string()),
        namespace: namespace.to_string(),
        filename: filename.to_string(),
        directory: String::new(),
        category: Some("test".to_string()),
        allowed_tools: Some(vec!["Bash".to_string(), "Read".to_string()]),
        model: Some("swift".to_string()),
        event_type: HookEventType::PreToolUse,
        rules_json: "[{\"matcher\":\"Bash\",\"hooks\":[{\"type\":\"command\",\"command\":\"/usr/bin/test-hook\"}]}]".to_string(),
        enabled: true,
        priority: 100,
        repo_owner: Some("test-owner".to_string()),
        repo_name: Some("test-repo".to_string()),
        repo_branch: Some("main".to_string()),
        readme_url: None,
        source_path: Some(format!("commands/{}/{}.md", namespace, filename)),
        apps: AppFlags { scribe: true, codex: false, gemini: false },
        file_hash: Some("abc123".to_string()),
        installed_at: 1700000000,
        scope: InstallScope::Global,
    }
}

#[test]
fn test_command_crud() {
    let mut db = Database::memory();

    let command = test_resource("sc/agent", "sc", "agent");
    db.commands.save(command);

    let retrieved = db.commands.get("sc/agent");
    assert!(retrieved.is_some());
    let retrieved = retrieved.unwrap();
    assert_eq!(retrieved.id, "sc/agent");
    assert_eq!(retrieved.namespace, "sc");
    assert_eq!(retrieved.filename, "agent");
    assert!(retrieved.apps.scribe);
    assert!(!retrieved.apps.codex);

    assert_eq!(db.commands.count(), 1);

    let new_apps = AppFlags { scribe: true, codex: true, gemini: false };
    db.commands.update_apps("sc/agent", new_apps);
    let updated = db.commands.get("sc/agent").unwrap();
    assert!(updated.apps.codex);

    let deleted = db.commands.delete("sc/agent");
    assert!(deleted);
    let after_delete = db.commands.get("sc/agent");
    assert!(after_delete.is_none());
}

#[test]
fn test_commands_by_namespace() {
    let mut db = Database::memory();

    db.commands.save(test_resource("commit", "", "commit"));
    db.commands.save(test_resource("sc/agent", "sc", "agent"));
    db.commands.save(test_resource("sc/task", "sc", "task"));
    db.commands.save(test_resource("zcf/feat", "zcf", "feat"));

    let root_commands = db.commands.by_namespace("");
    assert_eq!(root_commands.len(), 1);

    let sc_commands = db.commands.by_namespace("sc");
    assert_eq!(sc_commands.len(), 2);

    let namespaces = db.get_command_namespaces();
    assert_eq!(namespaces.len(), 3);

    let root_ns = namespaces.iter().find(|ns| ns.name.is_empty());
    assert!(root_ns.is_some());
    assert_eq!(root_ns.unwrap().display_name, "Root");
    assert_eq!(root_ns.unwrap().count, 1);
}

#[test]
fn test_command_repos() {
    let mut db = Database::memory();

    let repo = RepoWithMeta {
        owner: "acme-labs".to_string(),
        name: "scribe-commands".to_string(),
        branch: "main".to_string(),
        enabled: true,
        builtin: false,
        description_zh: None,
        description_en: None,
        description_ja: None,
        added_at: 1234567890,
    };

    db.command_repos.add(repo);

    let repos = db.get_all_command_repos();
    assert_eq!(repos.len(), 1);
    assert_eq!(repos[0].owner, "acme-labs");
    assert!(repos[0].enabled);
    assert!(!repos[0].builtin);

    db.command_repos.update_enabled("acme-labs", "scribe-commands", false);
    let repos = db.get_all_command_repos();
    assert!(!repos[0].enabled);

    db.command_repos.remove("acme-labs", "scribe-commands").unwrap();
    let repos = db.get_all_command_repos();
    assert!(repos.is_empty());
}

#[test]
fn test_builtin_command_repo_cannot_be_deleted() {
    let mut db = Database::memory();

    let builtin_repo = RepoWithMeta {
        owner: "vendor-ai".to_string(),
        name: "scribe-core".to_string(),
        branch: "main".to_string(),
        enabled: true,
        builtin: true,
        description_zh: Some("官方仓库".to_string()),
        description_en: Some("Official repo".to_string()),
        description_ja: Some("公式リポジトリ".to_string()),
        added_at: 0,
    };

    db.command_repos.add(builtin_repo);

    let result = db.command_repos.remove("vendor-ai", "scribe-core");
    assert!(result.is_err());

    let repos = db.get_all_command_repos();
    assert_eq!(repos.len(), 1);
    assert!(repos[0].builtin);
}

#[test]
fn test_agent_crud() {
    let mut db = Database::memory();

    let agent = test_resource("development/code-checker", "development", "code-checker");
    db.agents.save(agent);

    let retrieved = db.agents.get("development/code-checker");
    assert!(retrieved.is_some());
    let retrieved = retrieved.unwrap();
    assert_eq!(retrieved.id, "development/code-checker");
    assert_eq!(retrieved.namespace, "development");
    assert_eq!(retrieved.filename, "code-checker");
    assert!(retrieved.apps.scribe);
    assert!(!retrieved.apps.codex);
    assert_eq!(retrieved.model, Some("swift".to_string()));

    assert_eq!(db.agents.count(), 1);

    let new_apps = AppFlags { scribe: true, codex: true, gemini: false };
    db.agents.update_apps("development/code-checker", new_apps);
    let updated = db.agents.get("development/code-checker").unwrap();
    assert!(updated.apps.codex);

    let deleted = db.agents.delete("development/code-checker");
    assert!(deleted);
    let after_delete = db.agents.get("development/code-checker");
    assert!(after_delete.is_none());
}

#[test]
fn test_agents_by_namespace() {
    let mut db = Database::memory();

    db.agents.save(test_resource("debugger", "", "debugger"));
    db.agents.save(test_resource(
        "development/code-checker",
        "development",
        "code-checker",
    ));
    db.agents.save(test_resource("development/tdd-master", "development", "tdd-master"));
    db.agents.save(test_resource("testing/unit-tester", "testing", "unit-tester"));

    let root_agents = db.agents.by_namespace("");
    assert_eq!(root_agents.len(), 1);

    let dev_agents = db.agents.by_namespace("development");
    assert_eq!(dev_agents.len(), 2);

    let namespaces = db.get_agent_namespaces();
    assert_eq!(namespaces.len(), 3);

    let root_ns = namespaces.iter().find(|ns| ns.name.is_empty());
    assert!(root_ns.is_some());
    assert_eq!(root_ns.unwrap().display_name, "Root");
    assert_eq!(root_ns.unwrap().count, 1);
}

#[test]
fn test_agent_discovery_cache() {
    let mut db = Database::memory();

    let agents = vec![DiscoverableResource {
        key: "debugger".to_string(),
        name: "Debugger".to_string(),
        description: "Debug your code".to_string(),
        namespace: String::new(),
        filename: "debugger".to_string(),
        category: None,
        event_type: HookEventType::PreToolUse,
        rules_json: String::new(),
        readme_url: None,
        repo_owner: "test".to_string(),
        repo_name: "agents".to_string(),
        repo_branch: "main".to_string(),
        source_path: Some("agents/debugger.md".to_string()),
    }];

    db.agent_cache.save_cached(DiscoveryCacheEntry {
        repo_owner: "test".to_string(),
        repo_name: "agents".to_string(),
        repo_branch: "main".to_string(),
        resources: agents,
        scanned_at: 1000,
    });

    let cached = db.agent_cache.get_cached("test", "agents", "main", 1000);
    assert!(cached.is_some());
    let cached = cached.unwrap();
    assert_eq!(cached.resources.len(), 1);
    assert_eq!(cached.resources[0].key, "debugger");

    let deleted = db.agent_cache.delete_cached("test", "agents", "main");
    assert!(deleted);

    let after_delete = db.agent_cache.get_cached("test", "agents", "main", 1000);
    assert!(after_delete.is_none());
}

#[test]
fn test_hook_crud() {
    let mut db = Database::memory();

    let mut hook = test_resource("security/pre-bash-check", "security", "pre-bash-check");
    hook.event_type = HookEventType::PreToolUse;
    hook.priority = 100;
    db.hooks.save(hook);

    let retrieved = db.hooks.get("security/pre-bash-check");
    assert!(retrieved.is_some());
    let retrieved = retrieved.unwrap();
    assert_eq!(retrieved.id, "security/pre-bash-check");
    assert_eq!(retrieved.namespace, "security");
    assert_eq!(retrieved.filename, "pre-bash-check");
    assert!(retrieved.apps.scribe);
    assert!(!retrieved.apps.codex);
    assert_eq!(retrieved.event_type, HookEventType::PreToolUse);
    assert_eq!(retrieved.priority, 100);

    assert_eq!(db.hooks.count(), 1);

    db.hooks.update_enabled("security/pre-bash-check", false);
    let updated = db.hooks.get("security/pre-bash-check").unwrap();
    assert!(!updated.enabled);

    let new_apps = AppFlags { scribe: true, codex: true, gemini: false };
    db.hooks.update_apps("security/pre-bash-check", new_apps);
    let updated = db.hooks.get("security/pre-bash-check").unwrap();
    assert!(updated.apps.codex);

    db.hooks.update_priority("security/pre-bash-check", 50);
    let updated = db.hooks.get("security/pre-bash-check").unwrap();
    assert_eq!(updated.priority, 50);

    let deleted = db.hooks.delete("security/pre-bash-check");
    assert!(deleted);

    let retrieved = db.hooks.get("security/pre-bash-check");
    assert!(retrieved.is_none());
}

#[test]
fn test_hook_namespaces() {
    let mut db = Database::memory();

    db.hooks.save(test_resource("security/hook1", "security", "hook1"));
    db.hooks.save(test_resource("security/hook2", "security", "hook2"));
    db.hooks.save(test_resource("logging/hook3", "logging", "hook3"));
    db.hooks.save(test_resource("hook4", "", "hook4"));

    let namespaces = db.get_hook_namespaces();
    assert_eq!(namespaces.len(), 3);

    let security_hooks = db.hooks.by_namespace("security");
    assert_eq!(security_hooks.len(), 2);

    let root_hooks = db.hooks.by_namespace("");
    assert_eq!(root_hooks.len(), 1);
}

#[test]
fn test_reorder_hooks() {
    let mut db = Database::memory();

    let mut hook1 = test_resource("hook1", "", "hook1");
    hook1.priority = 100;
    let mut hook2 = test_resource("hook2", "", "hook2");
    hook2.priority = 200;
    let mut hook3 = test_resource("hook3", "", "hook3");
    hook3.priority = 300;

    db.hooks.save(hook1);
    db.hooks.save(hook2);
    db.hooks.save(hook3);

    let new_order = vec!["hook3".to_string(), "hook1".to_string(), "hook2".to_string()];
    db.hooks.reorder(&new_order);

    let hook3_updated = db.hooks.get("hook3").unwrap();
    let hook1_updated = db.hooks.get("hook1").unwrap();
    let hook2_updated = db.hooks.get("hook2").unwrap();
    assert_eq!(hook3_updated.priority, 10);
    assert_eq!(hook1_updated.priority, 20);
    assert_eq!(hook2_updated.priority, 30);
}

#[test]
fn test_builtin_sync_preserves_user_settings() {
    let mut db = Database::memory();

    db.command_repos.add(RepoWithMeta {
        owner: "acme".to_string(),
        name: "commands".to_string(),
        branch: "dev".to_string(),
        enabled: false,
        builtin: false,
        description_zh: None,
        description_en: None,
        description_ja: None,
        added_at: 42,
    });

    let builtin = vec![cc_switch::resources::BuiltinRepoConfig {
        owner: "acme".to_string(),
        name: "commands".to_string(),
        branch: "main".to_string(),
        description: cc_switch::resources::LocalizedDescription {
            zh: "zh".to_string(),
            en: "en".to_string(),
            ja: "ja".to_string(),
        },
    }];
    let added = db.restore_builtin_command_repos(&builtin);
    assert_eq!(added, 0);
    let row = db.command_repos.get("acme", "commands").unwrap();
    assert!(row.builtin);
    assert!(!row.enabled);
    assert_eq!(row.branch, "dev");
    assert_eq!(row.description_en, Some("en".to_string()));

    let builtin2 = vec![cc_switch::resources::BuiltinRepoConfig {
        owner: "acme".to_string(),
        name: "skills".to_string(),
        branch: "main".to_string(),
        description: cc_switch::resources::LocalizedDescription {
            zh: "zh".to_string(),
            en: "en".to_string(),
            ja: "ja".to_string(),
        },
    }];
    let added2 = db.restore_builtin_skill_repos(&builtin2);
    assert_eq!(added2, 1);
    assert!(db.skill_repos.get("acme", "skills").unwrap().enabled);
}

#[test]
fn test_cache_expiry() {
    let mut db = Database::memory();
    db.command_cache.save_cached(DiscoveryCacheEntry {
        repo_owner: "o".to_string(),
        repo_name: "r".to_string(),
        repo_branch: "main".to_string(),
        resources: vec![],
        scanned_at: 1000,
    });
    // within the window
    assert!(db.command_cache.get_cached("o", "r", "main", 1000 + 86400).is_some());
    // one second past the window
    assert!(db.command_cache.get_cached("o", "r", "main", 1000 + 86401).is_none());
    // cleanup drops the stale entry
    let removed = db.command_cache.cleanup_expired(1000 + 86401);
    assert_eq!(removed, 1);
    assert_eq!(db.clear_all_command_cache(), 0);
}

#[test]
fn listings_are_sorted() {
    let mut db = Database::memory();
    db.commands.save(test_resource("zcf/feat", "zcf", "feat"));
    db.commands.save(test_resource("sc/task", "sc", "task"));
    db.commands.save(test_resource("sc/agent", "sc", "agent"));
    db.commands.save(test_resource("commit", "", "commit"));

    // namespaces ascending, with the root first
    let namespaces = db.get_command_namespaces();
    let names: Vec<&str> = namespaces.iter().map(|ns| ns.name.as_str()).collect();
    assert_eq!(names, vec!["", "sc", "zcf"]);

    // records within a namespace ascending by file part
    let sc = db.commands.by_namespace("sc");
    assert_eq!(sc[0].filename, "agent");
    assert_eq!(sc[1].filename, "task");

    // skills within a namespace ascending by name
    let mut a = test_resource("sc/zz", "sc", "zz");
    a.name = "alpha".to_string();
    let mut b = test_resource("sc/aa", "sc", "aa");
    b.name = "beta".to_string();
    db.skills.save(a);
    db.skills.save(b);
    let skills = db.get_skills_by_namespace("sc");
    assert_eq!(skills[0].name, "alpha");
    assert_eq!(skills[1].name, "beta");

    // repositories by insertion time, ties by owner then name
    let repo = |owner: &str, name: &str, added_at: i64| RepoWithMeta {
        owner: owner.to_string(),
        name: name.to_string(),
        branch: "main".to_string(),
        enabled: true,
        builtin: false,
        description_zh: None,
        description_en: None,
        description_ja: None,
        added_at,
    };
    db.command_repos.add(repo("zeta", "r", 1));
    db.command_repos.add(repo("acme", "tools", 2));
    db.command_repos.add(repo("acme", "extras", 2));
    let repos = db.get_all_command_repos();
    assert_eq!(repos[0].owner, "zeta");
    assert_eq!(repos[1].name, "extras");
    assert_eq!(repos[2].name, "tools");
}

#[test]
fn builtin_map_keeps_first_occurrence() {
    let entry = |owner: &str, branch: &str| cc_switch::resources::BuiltinRepoConfig {
        owner: owner.to_string(),
        name: "commands".to_string(),
        branch: branch.to_string(),
        description: cc_switch::resources::LocalizedDescription {
            zh: "zh".to_string(),
            en: "en".to_string(),
            ja: "ja".to_string(),
        },
    };
    let config = cc_switch::resources::BuiltinReposConfig {
        version: 1,
        skills: vec![],
        commands: vec![entry("acme", "main"), entry("acme", "dev")],
    };
    let map = cc_switch::resources::builtin_command_repos_map(&config);
    assert_eq!(map.len(), 1);
    // the first occurrence wins, with its fields
    assert_eq!(map[0].branch, "main");
}
