//! The synchronization engine: install, projection, drift and
//! resolution, scope migration, namespaces.

use cc_switch::apps::{AppType, InstallScope};
use cc_switch::engine::SyncState;
use cc_switch::errors::AppError;
use cc_switch::hashing::compute_hash;
use cc_switch::resources::{
    ChangeEventType, ConflictResolution, DiscoverableResource, HookEventType, ResourceType,
};

fn discoverable(key: &str) -> DiscoverableResource {
    let (namespace, filename) = match key.rfind('/') {
        Some(p) => (key[..p].to_string(), key[p + 1..].to_string()),
        None => (String::new(), key.to_string()),
    };
    DiscoverableResource {
        key: key.to_string(),
        name: filename.clone(),
        description: "discovered".to_string(),
        namespace,
        filename,
        category: None,
        event_type: HookEventType::PreToolUse,
        rules_json: String::new(),
        readme_url: None,
        repo_owner: "acme".to_string(),
        repo_name: "commands".to_string(),
        repo_branch: "main".to_string(),
        source_path: Some(format!("commands/{}.md", key)),
    }
}

const BODY: &str = "---\nname: Agent Command\ndescription: runs the agent\n---\nbody\n";

#[test]
fn scenario_install_command() {
    // install Command id `sc/agent` from repo `acme/commands@main` for Scribe
    let mut state = SyncState::new(ResourceType::Command);
    let res = discoverable("sc/agent");
    let content = BODY.to_string();
    state
        .install(&res, &AppType::Scribe, Some(&content), None, 1700000000)
        .unwrap();

    // SSOT file stands at the id's relative path under the commands root
    assert!(state.ssot.get("sc/agent.md").is_some());
    assert_eq!(state.ssot.get("sc/agent.md").unwrap(), BODY);

    // the record row carries the parsed parts and exactly Scribe enabled
    let rec = state.table.get("sc/agent").unwrap();
    assert_eq!(rec.namespace, "sc");
    assert_eq!(rec.filename, "agent");
    assert!(rec.apps.scribe);
    assert!(!rec.apps.codex);
    assert!(!rec.apps.gemini);
    assert_eq!(rec.name, "Agent Command");
    assert_eq!(rec.repo_owner, Some("acme".to_string()));
    assert!(matches!(rec.scope, InstallScope::Global));
    assert_eq!(rec.file_hash, Some(compute_hash(BODY)));

    // the invoking application got a byte-identical projection
    assert_eq!(state.scribe_files.get("sc/agent.md").unwrap(), BODY);
}

#[test]
fn scenario_toggle_codex() {
    let mut state = SyncState::new(ResourceType::Command);
    let res = discoverable("sc/agent");
    let content = BODY.to_string();
    state
        .install(&res, &AppType::Scribe, Some(&content), None, 0)
        .unwrap();

    state.toggle_app("sc/agent", &AppType::Codex, true).unwrap();

    // Codex's copy exists with bytes identical to the SSOT copy
    let codex_copy = state.codex_files.get("sc/agent.md").unwrap().clone();
    let ssot_copy = state.ssot.get("sc/agent.md").unwrap().clone();
    assert_eq!(codex_copy, ssot_copy);
    assert!(state.table.get("sc/agent").unwrap().apps.codex);

    // disabling removes the projection again
    state.toggle_app("sc/agent", &AppType::Codex, false).unwrap();
    assert!(state.codex_files.get("sc/agent.md").is_none());
    assert!(!state.table.get("sc/agent").unwrap().apps.codex);
}

#[test]
fn scenario_external_edit_conflict() {
    let mut state = SyncState::new(ResourceType::Command);
    let res = discoverable("sc/agent");
    let content = BODY.to_string();
    state
        .install(&res, &AppType::Scribe, Some(&content), None, 0)
        .unwrap();

    // externally edit Scribe's copy
    state.scribe_files.put("sc/agent.md", "---\nname: Edited\n---\nedited body\n");

    let events = state.detect_changes();
    let conflicts: Vec<_> = events
        .iter()
        .filter(|e| matches!(e.event_type, ChangeEventType::AppConflict))
        .collect();
    assert_eq!(conflicts.len(), 1);
    assert_eq!(conflicts[0].id, "sc/agent");
    assert_eq!(conflicts[0].app, Some(AppType::Scribe));

    // keeping the app copy moves the edit into the SSOT and the record
    state
        .resolve_conflict("sc/agent", &AppType::Scribe, ConflictResolution::KeepApp)
        .unwrap();
    let ssot_copy = state.ssot.get("sc/agent.md").unwrap().clone();
    assert_eq!(ssot_copy, "---\nname: Edited\n---\nedited body\n");
    let rec = state.table.get("sc/agent").unwrap();
    assert_eq!(rec.file_hash, Some(compute_hash(&ssot_copy)));
    // the kept bytes were re-parsed into the record; fields the parse
    // does not yield keep their stored values
    assert_eq!(rec.name, "Edited");
    assert_eq!(rec.description, Some("runs the agent".to_string()));
    assert_eq!(rec.repo_owner, Some("acme".to_string()));
    assert!(rec.apps.scribe);

    // after resolution nothing diverges any more
    let events = state.detect_changes();
    assert!(events
        .iter()
        .all(|e| !matches!(e.event_type, ChangeEventType::AppConflict)));
}

#[test]
fn resolve_keep_ssot_overwrites_app_copy() {
    let mut state = SyncState::new(ResourceType::Command);
    let res = discoverable("sc/agent");
    let content = BODY.to_string();
    state
        .install(&res, &AppType::Scribe, Some(&content), None, 0)
        .unwrap();
    state.scribe_files.put("sc/agent.md", "divergent");

    state
        .resolve_conflict("sc/agent", &AppType::Scribe, ConflictResolution::KeepSsot)
        .unwrap();
    assert_eq!(state.scribe_files.get("sc/agent.md").unwrap(), BODY);
}

#[test]
fn install_is_idempotent() {
    let mut state = SyncState::new(ResourceType::Command);
    let res = discoverable("sc/agent");
    let content = BODY.to_string();
    state
        .install(&res, &AppType::Scribe, Some(&content), None, 0)
        .unwrap();

    // a repeat install for another application neither duplicates the
    // file or the record nor clobbers the stored content
    state.ssot.put("sc/agent.md", "locally edited");
    state
        .install(&res, &AppType::Codex, Some(&content), None, 1)
        .unwrap();

    assert_eq!(state.ssot.count(), 1);
    assert_eq!(state.table.count(), 1);
    assert_eq!(state.ssot.get("sc/agent.md").unwrap(), "locally edited");

    // the enabled flags only grew
    let rec = state.table.get("sc/agent").unwrap();
    assert!(rec.apps.scribe);
    assert!(rec.apps.codex);
}

#[test]
fn sync_all_repairs_drift() {
    let mut state = SyncState::new(ResourceType::Command);
    let res = discoverable("sc/agent");
    let content = BODY.to_string();
    state
        .install(&res, &AppType::Scribe, Some(&content), None, 0)
        .unwrap();
    state.toggle_app("sc/agent", &AppType::Codex, true).unwrap();
    state.codex_files.put("sc/agent.md", "drifted");

    let synced = state.sync_all_to_apps();
    assert_eq!(synced, 2);
    assert_eq!(state.codex_files.get("sc/agent.md").unwrap(), BODY);
    assert_eq!(state.scribe_files.get("sc/agent.md").unwrap(), BODY);
}

#[test]
fn uninstall_removes_everything() {
    let mut state = SyncState::new(ResourceType::Command);
    let res = discoverable("sc/agent");
    let content = BODY.to_string();
    state
        .install(&res, &AppType::Scribe, Some(&content), None, 0)
        .unwrap();
    state.toggle_app("sc/agent", &AppType::Codex, true).unwrap();

    state.uninstall("sc/agent").unwrap();
    assert!(state.table.get("sc/agent").is_none());
    assert!(state.ssot.get("sc/agent.md").is_none());
    assert!(state.scribe_files.get("sc/agent.md").is_none());
    assert!(state.codex_files.get("sc/agent.md").is_none());

    // uninstalling again reports the record as missing
    assert!(matches!(state.uninstall("sc/agent"), Err(AppError::NotFound(_))));
}

#[test]
fn namespace_guard() {
    let mut state = SyncState::new(ResourceType::Command);
    let res = discoverable("ns/tool");
    let content = BODY.to_string();
    state
        .install(&res, &AppType::Scribe, Some(&content), None, 0)
        .unwrap();

    // deletion fails while a resource references the namespace
    assert!(matches!(state.delete_namespace("ns"), Err(AppError::Conflict(_))));
    // the root namespace is never deletable
    assert!(matches!(state.delete_namespace(""), Err(AppError::InvalidInput(_))));

    state.uninstall("ns/tool").unwrap();
    assert!(state.delete_namespace("ns").is_ok());
    assert!(state.create_namespace("ns").is_ok());
    assert!(state.create_namespace("").is_err());
}

#[test]
fn change_scope_migrates_sequentially() {
    let mut state = SyncState::new(ResourceType::Command);
    let res = discoverable("sc/agent");
    let content = BODY.to_string();
    state
        .install(&res, &AppType::Scribe, Some(&content), None, 0)
        .unwrap();

    let scope = InstallScope::Project("/work/proj".to_string());
    state.change_scope("sc/agent", &scope, &AppType::Scribe).unwrap();

    // the global projection is gone, the project copy stands
    assert!(state.scribe_files.get("sc/agent.md").is_none());
    assert_eq!(
        state.project_files.get("/work/proj/sc/agent.md").unwrap(),
        BODY
    );
    assert!(matches!(
        state.table.get("sc/agent").unwrap().scope,
        InstallScope::Project(_)
    ));

    // and back to global
    state
        .change_scope("sc/agent", &InstallScope::Global, &AppType::Scribe)
        .unwrap();
    assert!(state.project_files.get("/work/proj/sc/agent.md").is_none());
    assert_eq!(state.scribe_files.get("sc/agent.md").unwrap(), BODY);
}

#[test]
fn detect_changes_added_modified_deleted() {
    let mut state = SyncState::new(ResourceType::Command);
    let res = discoverable("sc/agent");
    let content = BODY.to_string();
    state
        .install(&res, &AppType::Scribe, Some(&content), None, 0)
        .unwrap();

    // an unmanaged SSOT file, a locally edited one, a missing one
    state.ssot.put("loose.md", "unmanaged");
    state.ssot.put("sc/agent.md", "edited");
    let res2 = discoverable("sc/gone");
    state
        .install(&res2, &AppType::Scribe, Some(&content), None, 0)
        .unwrap();
    state.ssot.remove("sc/gone.md");

    let events = state.detect_changes();
    assert!(events.iter().any(|e| matches!(e.event_type, ChangeEventType::SsotAdded)
        && e.id == "loose"));
    assert!(events.iter().any(|e| matches!(e.event_type, ChangeEventType::SsotModified)
        && e.id == "sc/agent"));
    assert!(events.iter().any(|e| matches!(e.event_type, ChangeEventType::SsotDeleted)
        && e.id == "sc/gone"));
}

#[test]
fn import_and_scan_unmanaged() {
    let mut state = SyncState::new(ResourceType::Command);
    state.scribe_files.put("zcf/feat.md", BODY);
    state.codex_files.put("zcf/feat.md", BODY);

    let unmanaged = state.scan_unmanaged();
    assert_eq!(unmanaged.len(), 1);
    assert_eq!(unmanaged[0].id, "zcf/feat");
    assert_eq!(unmanaged[0].found_in, vec!["scribe".to_string(), "codex".to_string()]);

    let imported = state.import_from_apps(&vec!["zcf/feat".to_string()]);
    assert_eq!(imported, 1);
    let rec = state.table.get("zcf/feat").unwrap();
    assert!(rec.apps.scribe);
    assert!(rec.apps.codex);
    assert!(!rec.apps.gemini);
    assert!(rec.repo_owner.is_none());
    assert_eq!(rec.name, "Agent Command");
    assert_eq!(state.ssot.get("zcf/feat.md").unwrap(), BODY);
    assert!(state.scan_unmanaged().is_empty());
}

#[test]
fn hook_install_and_config_generation() {
    let mut state = SyncState::new(ResourceType::Hook);
    let mut res = discoverable("security/check");
    res.source_path = Some("hooks/security/check.json".to_string());
    let content = "{\"name\":\"Pre Bash\",\"eventType\":\"PreToolUse\",\"rules\":[{\"matcher\":\"Bash\",\"hooks\":[{\"type\":\"command\",\"command\":\"/bin/check\"}]}],\"priority\":10}"
        .to_string();
    state
        .install(&res, &AppType::Scribe, Some(&content), None, 0)
        .unwrap();

    let rec = state.table.get("security/check").unwrap();
    assert_eq!(rec.name, "Pre Bash");
    assert_eq!(rec.event_type, HookEventType::PreToolUse);
    assert_eq!(rec.priority, 10);
    assert!(rec.enabled);
    assert!(rec.rules_json.contains("\"matcher\":\"Bash\""));
    // hooks project through the aggregate document, never file by file
    assert!(state.scribe_files.get("security/check.json").is_none());

    let config = cc_switch::hooks::generate_app_hooks_config(&state.table, &AppType::Scribe);
    assert_eq!(config.groups.len(), 4);
    assert_eq!(config.groups[0].event, HookEventType::PreToolUse);
    assert_eq!(config.groups[0].rules.len(), 1);
    assert_eq!(config.groups[0].rules[0], rec.rules_json);
    assert!(config.groups[1].rules.is_empty());

    // an invalid hook document is rejected before anything changes
    let mut bad = discoverable("security/bad");
    bad.source_path = Some("hooks/security/bad.json".to_string());
    let bad_content = "not json".to_string();
    assert!(state
        .install(&bad, &AppType::Scribe, Some(&bad_content), None, 0)
        .is_err());
    assert!(state.table.get("security/bad").is_none());
}

#[test]
fn hook_priority_orders_config() {
    let mut state = SyncState::new(ResourceType::Hook);
    for (id, priority) in [("a", 30), ("b", 10), ("c", 20)] {
        let mut res = discoverable(id);
        res.source_path = Some(format!("hooks/{}.json", id));
        let content = format!(
            "{{\"eventType\":\"PostToolUse\",\"rules\":[{{\"matcher\":\"{}\",\"hooks\":[]}}],\"priority\":{}}}",
            id, priority
        );
        state.install(&res, &AppType::Scribe, Some(&content), None, 0).unwrap();
    }
    let config = cc_switch::hooks::generate_app_hooks_config(&state.table, &AppType::Scribe);
    let group = &config.groups[1];
    assert_eq!(group.event, HookEventType::PostToolUse);
    assert_eq!(group.rules.len(), 3);
    assert!(group.rules[0].contains("\"b\""));
    assert!(group.rules[1].contains("\"c\""));
    assert!(group.rules[2].contains("\"a\""));
}

#[test]
fn refresh_from_ssot_reconciles() {
    let mut state = SyncState::new(ResourceType::Command);
    let res = discoverable("sc/agent");
    let res2 = discoverable("sc/gone");
    let content = BODY.to_string();
    state.install(&res, &AppType::Scribe, Some(&content), None, 0).unwrap();
    state.install(&res2, &AppType::Scribe, Some(&content), None, 0).unwrap();

    // one file edited on disk, one gone
    state.ssot.put("sc/agent.md", "---\nname: Renamed\n---\nnew body\n");
    state.ssot.remove("sc/gone.md");

    let refreshed = state.refresh_from_ssot();
    assert_eq!(refreshed, 1);
    assert!(state.table.get("sc/gone").is_none());
    let rec = state.table.get("sc/agent").unwrap();
    assert_eq!(rec.name, "Renamed");
    assert_eq!(
        rec.file_hash,
        Some(compute_hash("---\nname: Renamed\n---\nnew body\n"))
    );
    // the fields only the record knows were kept
    assert!(rec.apps.scribe);
    assert_eq!(rec.repo_owner, Some("acme".to_string()));

    assert_eq!(state.get_content("sc/agent").unwrap(), "---\nname: Renamed\n---\nnew body\n");
    assert!(state.get_content("sc/gone").is_err());
}

#[test]
fn execute_update_keeps_enabled_set() {
    let mut state = SyncState::new(ResourceType::Command);
    let res = discoverable("sc/agent");
    let content = BODY.to_string();
    state.install(&res, &AppType::Scribe, Some(&content), None, 0).unwrap();
    state.toggle_app("sc/agent", &AppType::Gemini, true).unwrap();

    let newer = "---\nname: Agent Command\ndescription: second revision\n---\nnewer body\n"
        .to_string();
    state
        .execute_update(&res, &AppType::Scribe, &newer, Some("deadbeef".to_string()), 7)
        .unwrap();

    assert_eq!(state.ssot.get("sc/agent.md").unwrap(), &newer);
    let rec = state.table.get("sc/agent").unwrap();
    assert_eq!(rec.file_hash, Some("deadbeef".to_string()));
    // the previously enabled set survived the update
    assert!(rec.apps.scribe);
    assert!(rec.apps.gemini);
    assert!(!rec.apps.codex);
    // and every enabled application's copy was refreshed
    assert_eq!(state.scribe_files.get("sc/agent.md").unwrap(), &newer);
    assert_eq!(state.gemini_files.get("sc/agent.md").unwrap(), &newer);
    assert!(state.codex_files.get("sc/agent.md").is_none());
}
