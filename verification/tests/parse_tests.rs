//! Metadata parsing, hashing, identifiers, update decisions and
//! discovery.

use cc_switch::apps::{parse_app_type, AppType};
use cc_switch::discovery::{
    deduplicate_resources, plan_discovery, scan_repo_files, sort_by_name, strip_archive_root,
    RepoFile,
};
use cc_switch::errors::{AppError, GitHubApiError, RateLimitInfo};
use cc_switch::hashing::compute_hash;
use cc_switch::hooks::{
    generate_app_hooks_config, json_escape, OfficialHookCommand, OfficialHookEvent,
    OfficialHookRule, OfficialHooksFormat,
};
use cc_switch::ident::{id_to_relative_path, join_id, parse_id, relative_path_to_id};
use cc_switch::parse::{
    parse_agent_metadata, parse_command_metadata, parse_hook_metadata, split_front_matter,
};
use cc_switch::resources::{
    default_enabled, default_priority, HookEventType, LocalizedDescription, RepoWithMeta,
    ResourceType,
};
use cc_switch::update::{
    directory_hash, evaluate_remote_hash, filter_tree_entries, local_resource_result,
    parse_rate_limit, parse_u32, retry_branch, summarize_batch, BatchCheckResult,
    GitHubTreeEntry, RemoteHashOutcome, UpdateCheckResult,
};

#[test]
fn test_localized_description() {
    let desc = LocalizedDescription {
        zh: "中文".to_string(),
        en: "English".to_string(),
        ja: "日本語".to_string(),
    };

    assert_eq!(desc.get("zh"), "中文");
    assert_eq!(desc.get("zh-CN"), "中文");
    assert_eq!(desc.get("en"), "English");
    assert_eq!(desc.get("ja"), "日本語");
    assert_eq!(desc.get("fr"), "English");
}

#[test]
fn test_github_api_error_conversion() {
    let error = GitHubApiError::NotFound;
    let app_error: AppError = error.into();
    assert!(matches!(app_error, AppError::Message(_)));
}

#[test]
fn test_resource_type_display() {
    assert_eq!(ResourceType::Skill.as_str(), "Skill");
    assert_eq!(ResourceType::Command.as_str(), "Command");
    assert_eq!(ResourceType::Hook.as_str(), "Hook");
    assert_eq!(ResourceType::Agent.as_str(), "Agent");
}

#[test]
fn test_batch_check_result_empty() {
    let result = BatchCheckResult {
        success_count: 0,
        failed_count: 0,
        update_count: 0,
        deleted_count: 0,
        results: vec![],
    };
    assert_eq!(result.success_count, 0);
}

#[test]
fn id_path_round_trip() {
    assert_eq!(id_to_relative_path("sc/agent", "md"), "sc/agent.md");
    assert_eq!(relative_path_to_id("sc/agent.md", "md"), "sc/agent");
    assert_eq!(relative_path_to_id("commit.md", "md"), "commit");
    assert_eq!(id_to_relative_path("commit", "md"), "commit.md");
    // backslashes normalize to slashes
    assert_eq!(relative_path_to_id("sc\\agent.md", "md"), "sc/agent");
    // a dotted stem keeps its inner dots
    assert_eq!(relative_path_to_id("a.b.md", "md"), "a.b");
    assert_eq!(id_to_relative_path("a.b", "md"), "a.b.md");
}

#[test]
fn id_parts_round_trip() {
    assert_eq!(parse_id("sc/agent"), ("sc".to_string(), "agent".to_string()));
    assert_eq!(parse_id("commit"), (String::new(), "commit".to_string()));
    assert_eq!(parse_id("a/b/c"), ("a/b".to_string(), "c".to_string()));
    assert_eq!(join_id("sc", "agent"), "sc/agent");
    assert_eq!(join_id("", "commit"), "commit");
}

#[test]
fn app_type_parsing() {
    assert_eq!(parse_app_type("Scribe"), Ok(AppType::Scribe));
    assert_eq!(parse_app_type("CODEX"), Ok(AppType::Codex));
    assert_eq!(parse_app_type("gemini"), Ok(AppType::Gemini));
    assert_eq!(parse_app_type("vim"), Err("vim".to_string()));
}

#[test]
fn compute_hash_is_sha256_hex() {
    // the lower-case hexadecimal SHA-256 digest of "abc"
    assert_eq!(
        compute_hash("abc"),
        "ba7816bf8f01cfea414140de5dae2223b00361a396177a9cb410ff61f20015ad"
    );
    assert_eq!(
        compute_hash(""),
        "e3b0c44298fc1c149afbf4c8996fb92427ae41e4649b934ca495991b7852b855"
    );
}

#[test]
fn strict_front_matter_parse() {
    let content = "---\nname: My Tool\ndescription: does things\ncategory: dev\nallowedTools:\n  - Read\n  - Write\n---\nbody";
    let meta = parse_command_metadata(content);
    assert_eq!(meta.name, Some("My Tool".to_string()));
    assert_eq!(meta.description, Some("does things".to_string()));
    assert_eq!(meta.category, Some("dev".to_string()));
    assert_eq!(
        meta.allowed_tools,
        Some(vec!["Read".to_string(), "Write".to_string()])
    );
}

#[test]
fn missing_front_matter_is_empty() {
    let meta = parse_command_metadata("just a body, no fences");
    assert!(meta.name.is_none());
    assert!(meta.description.is_none());
    assert!(meta.category.is_none());
    assert!(meta.allowed_tools.is_none());
}

#[test]
fn lenient_fallback_parse() {
    // the unescaped colon in the description defeats the strict stage
    let content = "---\nname: Helper\ndescription: warning: colons ahead\n  and a second line\ncategory: tools\nallowed_tools: Read, Write , \n---\n";
    let meta = parse_command_metadata(content);
    assert_eq!(meta.name, Some("Helper".to_string()));
    assert_eq!(
        meta.description,
        Some("warning: colons ahead and a second line".to_string())
    );
    assert_eq!(meta.category, Some("tools".to_string()));
    assert_eq!(
        meta.allowed_tools,
        Some(vec!["Read".to_string(), "Write".to_string()])
    );
}

#[test]
fn lenient_fallback_block_tools() {
    let content = "---\nname: Helper\ndescription: a: b\nallowed_tools:\n  - Read\n  - Grep\n  other: stop\n---\n";
    let meta = parse_command_metadata(content);
    assert_eq!(
        meta.allowed_tools,
        Some(vec!["Read".to_string(), "Grep".to_string()])
    );
}

#[test]
fn agent_metadata_parse() {
    let strict = "---\nname: Inspector\nmodel: swift\ntools:\n  - Read\n---\nbody";
    let meta = parse_agent_metadata(strict);
    assert_eq!(meta.name, Some("Inspector".to_string()));
    assert_eq!(meta.model, Some("swift".to_string()));
    assert_eq!(meta.tools, Some(vec!["Read".to_string()]));

    // the lenient stage takes the word after the model key
    let lenient = "---\ndescription: a: b\nmodel: turbo-fast extra\n---\n";
    let meta = parse_agent_metadata(lenient);
    assert_eq!(meta.model, Some("turbo".to_string()));

    // an agent file must open with a fence
    let meta = parse_agent_metadata("name: x\n---\n");
    assert!(meta.name.is_none());
}

#[test]
fn split_front_matter_handles_bom() {
    let content = "\u{feff}---\nname: x\n---\nbody";
    assert_eq!(split_front_matter(content), Some("name: x".to_string()));
    assert_eq!(split_front_matter("no fences"), None);
}

#[test]
fn hook_metadata_parse() {
    let content = "{\"name\":\"Guard\",\"description\":\"checks\",\"eventType\":\"PostToolUse\",\"rules\":[{\"matcher\":\"Bash\",\"hooks\":[]}],\"priority\":7,\"enabled\":false}";
    let meta = parse_hook_metadata(content).unwrap();
    assert_eq!(meta.name, Some("Guard".to_string()));
    assert_eq!(meta.description, Some("checks".to_string()));
    assert_eq!(meta.event_type, Some(HookEventType::PostToolUse));
    assert_eq!(meta.priority, 7);
    assert!(!meta.enabled);
    assert!(meta.rules_json.unwrap().contains("\"matcher\":\"Bash\""));

    // defaults fill the gaps
    let meta = parse_hook_metadata("{}").unwrap();
    assert_eq!(meta.priority, default_priority());
    assert_eq!(meta.enabled, default_enabled());
    assert!(meta.event_type.is_none());

    assert!(parse_hook_metadata("not json").is_err());
}

#[test]
fn official_hooks_fan_out() {
    let format = OfficialHooksFormat {
        hooks: Some(vec![
            OfficialHookEvent {
                event: "PreToolUse".to_string(),
                rules: vec![OfficialHookRule {
                    matcher: Some("Bash".to_string()),
                    hooks: vec![
                        OfficialHookCommand {
                            cmd_type: "command".to_string(),
                            command: Some("/bin/check \"x\"".to_string()),
                            timeout: None,
                        },
                        OfficialHookCommand {
                            cmd_type: "other".to_string(),
                            command: Some("dropped".to_string()),
                            timeout: None,
                        },
                    ],
                }],
            },
            OfficialHookEvent {
                event: "SessionStart".to_string(),
                rules: vec![OfficialHookRule { matcher: None, hooks: vec![] }],
            },
            OfficialHookEvent { event: "SessionEnd".to_string(), rules: vec![] },
        ]),
    };
    let list = format.to_hook_metadata_list();
    // the unsupported event name and the empty rule array are skipped
    assert_eq!(list.len(), 1);
    assert_eq!(list[0].0, HookEventType::PreToolUse);
    let meta = &list[0].1;
    assert_eq!(meta.event_type, Some(HookEventType::PreToolUse));
    assert_eq!(meta.priority, 100);
    assert!(meta.enabled);
    assert_eq!(
        meta.rules_json.as_deref(),
        Some("[{\"matcher\":\"Bash\",\"hooks\":[{\"type\":\"command\",\"command\":\"/bin/check \\\"x\\\"\"}]}]")
    );
}

#[test]
fn json_escaping() {
    assert_eq!(json_escape("plain"), "plain");
    assert_eq!(json_escape("a\"b\\c"), "a\\\"b\\\\c");
    assert_eq!(json_escape("line\nbreak\ttab"), "line\\nbreak\\ttab");
    assert_eq!(json_escape("\u{1}"), "\\u0001");
}

#[test]
fn update_detection() {
    let stored = "aaa".to_string();
    // unchanged remote hash: no update
    let r = evaluate_remote_hash(
        "sc/agent",
        Some(&stored),
        &RemoteHashOutcome::Found("aaa".to_string()),
    );
    assert!(!r.has_update);
    assert!(r.new_hash.is_none());
    assert!(r.error.is_none());
    assert!(!r.remote_deleted);

    // changed remote content: an update with a non-null new hash
    let r = evaluate_remote_hash(
        "sc/agent",
        Some(&stored),
        &RemoteHashOutcome::Found("bbb".to_string()),
    );
    assert!(r.has_update);
    assert_eq!(r.new_hash, Some("bbb".to_string()));

    // a missing resource counts as deleted remotely
    let r = evaluate_remote_hash("sc/agent", Some(&stored), &RemoteHashOutcome::NotFound);
    assert!(r.remote_deleted);
    assert!(!r.has_update);

    // a failed lookup carries its error
    let r = evaluate_remote_hash(
        "sc/agent",
        Some(&stored),
        &RemoteHashOutcome::Failed(GitHubApiError::Unauthorized),
    );
    assert_eq!(r.error, Some("authentication failed".to_string()));

    // a locally imported resource supports no check
    let r = local_resource_result("local/one");
    assert!(r.error.is_some());
    assert!(!r.has_update);
}

#[test]
fn retry_uses_default_branch_once() {
    let d: Result<String, GitHubApiError> = Ok("master".to_string());
    assert_eq!(retry_branch("main", &d), Some("master".to_string()));
    let same: Result<String, GitHubApiError> = Ok("main".to_string());
    assert_eq!(retry_branch("main", &same), None);
    let failed: Result<String, GitHubApiError> = Err(GitHubApiError::NotFound);
    assert_eq!(retry_branch("main", &failed), None);
}

#[test]
fn batch_summary_counts() {
    let mk = |err: Option<&str>, upd: bool, del: bool| UpdateCheckResult {
        id: "x".to_string(),
        has_update: upd,
        new_hash: None,
        commit_message: None,
        updated_at: None,
        error: err.map(|e| e.to_string()),
        remote_deleted: del,
    };
    let batch = summarize_batch(vec![
        mk(None, true, false),
        mk(Some("boom"), false, false),
        mk(None, false, true),
    ]);
    assert_eq!(batch.success_count, 2);
    assert_eq!(batch.failed_count, 1);
    assert_eq!(batch.update_count, 1);
    assert_eq!(batch.deleted_count, 1);
    assert_eq!(batch.results.len(), 3);
}

#[test]
fn rate_limit_parsing() {
    assert_eq!(parse_u32("123"), Some(123));
    assert_eq!(parse_u32("+7"), Some(7));
    assert_eq!(parse_u32(""), None);
    assert_eq!(parse_u32("12a"), None);
    assert_eq!(parse_u32("99999999999"), None);

    let remaining = "10".to_string();
    let limit = "60".to_string();
    let reset = "3600".to_string();
    let info = parse_rate_limit(Some(&remaining), Some(&limit), Some(&reset)).unwrap();
    assert_eq!(info, RateLimitInfo { remaining: 10, limit: 60, reset_at: 3600 });
    assert!(parse_rate_limit(None, Some(&limit), Some(&reset)).is_none());
}

#[test]
fn composite_directory_hash() {
    let entry = |path: &str, ty: &str, sha: &str| GitHubTreeEntry {
        path: path.to_string(),
        entry_type: ty.to_string(),
        sha: sha.to_string(),
        size: None,
    };
    // blobs sorted by path, their hashes concatenated, then hashed:
    // here the concatenation is "aabb" whatever the input order
    let entries = vec![
        entry("skills/z.md", "blob", "bb"),
        entry("skills", "tree", "ignored"),
        entry("skills/a.md", "blob", "aa"),
    ];
    let h = directory_hash(&entries).unwrap();
    assert_eq!(h, compute_hash("aabb"));

    let no_blobs = vec![entry("skills", "tree", "x")];
    assert!(matches!(directory_hash(&no_blobs), Err(GitHubApiError::NotFound)));
}

#[test]
fn tree_filtering() {
    let entry = |path: &str| GitHubTreeEntry {
        path: path.to_string(),
        entry_type: "blob".to_string(),
        sha: "s".to_string(),
        size: Some(1),
    };
    let entries = vec![entry("skills/a.md"), entry("skills"), entry("other/b.md")];
    let kept = filter_tree_entries(entries, "skills");
    assert_eq!(kept.len(), 2);
    assert!(kept.iter().all(|e| e.path == "skills" || e.path.starts_with("skills/")));
}

#[test]
fn discovery_scan_and_ordering() {
    let repo = RepoWithMeta {
        owner: "acme".to_string(),
        name: "commands".to_string(),
        branch: "main".to_string(),
        enabled: true,
        builtin: false,
        description_zh: None,
        description_en: None,
        description_ja: None,
        added_at: 0,
    };
    let file = |path: &str, content: &str| RepoFile {
        path: path.to_string(),
        content: content.to_string(),
    };
    let files = vec![
        file("plugins/bun/commands/feat.md", "---\nname: Bravo\n---\n"),
        file("commands/top.md", "---\nname: alpha\n---\n"),
        file("commands/README.md", "skipped"),
        file(".hidden/commands/x.md", "skipped"),
        file("a/b/c/d/commands/deep.md", "too deep"),
        file("commands/top.txt", "wrong extension"),
    ];
    let found = scan_repo_files(&ResourceType::Command, &files, &repo);
    assert_eq!(found.len(), 2);

    let sorted = sort_by_name(found);
    // case-insensitive name order: alpha before Bravo
    assert_eq!(sorted[0].name, "alpha");
    assert_eq!(sorted[0].key, "top");
    assert_eq!(sorted[0].namespace, "");
    assert_eq!(sorted[1].name, "Bravo");
    assert_eq!(sorted[1].key, "bun/feat");
    assert_eq!(sorted[1].namespace, "bun");
    assert_eq!(sorted[1].source_path.as_deref(), Some("plugins/bun/commands/feat.md"));

    // case-insensitive identifiers collapse, first wins
    let mut a = sorted[0].clone();
    a.key = "Top".to_string();
    let deduped = deduplicate_resources(vec![sorted[0].clone(), a]);
    assert_eq!(deduped.len(), 1);
    assert_eq!(deduped[0].key, "top");
}

#[test]
fn archive_root_stripping() {
    let file = |path: &str, content: &str| RepoFile {
        path: path.to_string(),
        content: content.to_string(),
    };
    let entries = vec![
        file("repo-main/commands/a.md", "alpha"),
        file("repo-main/readme.txt", "r"),
        file("stray/other.md", "dropped"),
    ];
    let stripped = strip_archive_root(entries);
    assert_eq!(stripped.len(), 2);
    assert_eq!(stripped[0].path, "commands/a.md");
    assert_eq!(stripped[0].content, "alpha");
    assert_eq!(stripped[1].path, "readme.txt");
}

#[test]
fn discovery_planning() {
    let repo = |owner: &str, enabled: bool| RepoWithMeta {
        owner: owner.to_string(),
        name: "r".to_string(),
        branch: "main".to_string(),
        enabled,
        builtin: false,
        description_zh: None,
        description_en: None,
        description_ja: None,
        added_at: 0,
    };
    let mut db = cc_switch::database::Database::memory();
    db.command_cache.save_cached(cc_switch::resources::DiscoveryCacheEntry {
        repo_owner: "cached".to_string(),
        repo_name: "r".to_string(),
        repo_branch: "main".to_string(),
        resources: vec![],
        scanned_at: 1000,
    });
    let repos = vec![repo("cached", true), repo("fresh", true), repo("off", false)];
    let (fetch, cached) = plan_discovery(&repos, &db.command_cache, 2000, false);
    assert_eq!(cached, vec![0]);
    assert_eq!(fetch, vec![1]);

    // a forced refresh fetches everything enabled
    let (fetch, cached) = plan_discovery(&repos, &db.command_cache, 2000, true);
    assert_eq!(fetch, vec![0, 1]);
    assert!(cached.is_empty());
}

#[test]
fn error_messages() {
    let e = GitHubApiError::RateLimited(RateLimitInfo { remaining: 0, limit: 60, reset_at: 1 });
    assert_eq!(e.message(), "remote rate limit exhausted");
    let e = GitHubApiError::NetworkError("timed out".to_string());
    assert_eq!(e.message(), "network error: timed out");
    let app: AppError = GitHubApiError::Unauthorized.into();
    assert_eq!(app.text(), "authentication failed");
}

#[test]
fn hook_config_empty_without_hooks() {
    let table = cc_switch::database::ResourceTable::new();
    let config = generate_app_hooks_config(&table, &AppType::Scribe);
    assert_eq!(config.groups.len(), 4);
    assert!(config.groups.iter().all(|g| g.rules.is_empty()));
}

#[test]
fn unmanaged_hook_rule_selection() {
    let rules = vec![
        (
            HookEventType::PreToolUse,
            "Bash".to_string(),
            "{\"matcher\":\"Bash\",\"hooks\":[]}".to_string(),
        ),
        (
            HookEventType::PreToolUse,
            "Read".to_string(),
            "{\"matcher\":\"Read\",\"hooks\":[]}".to_string(),
        ),
        (
            HookEventType::SessionEnd,
            "Bash".to_string(),
            "{\"matcher\":\"Bash\",\"hooks\":[]}".to_string(),
        ),
    ];
    let managed = vec![(HookEventType::PreToolUse, "Bash".to_string())];
    let unmanaged = cc_switch::hooks::unmanaged_hook_rules(&rules, &managed);
    // the managed (event, matcher) pair is skipped; a same matcher under
    // another event is not
    assert_eq!(unmanaged, vec![1, 2]);
}

#[test]
fn rate_limit_rejects_bad_headers() {
    let good = "10".to_string();
    let bad = "ten".to_string();
    assert!(parse_rate_limit(Some(&good), Some(&bad), Some(&good)).is_none());
}
