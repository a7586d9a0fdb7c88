//! The synchronization engine for one resource kind.
//!
//! A [`SyncState`] gathers everything one kind's reconciliation reads and
//! writes: the SSOT tree, the three application trees, the project-scoped
//! tree, and the record table.  Install, uninstall, per-application
//! toggling, full resync, drift detection and conflict resolution are all
//! specified and proved against this state; the surrounding program only
//! moves bytes between disk and the model.

use vstd::prelude::*;

use crate::apps::{AppFlags, AppType, InstallScope};
use crate::database::ResourceTable;
use crate::errors::AppError;
use crate::fstore::FileStore;
use crate::hashing::{compute_hash, spec_content_hash};
use crate::ident::{id_to_relative_path, spec_id_to_path};
use crate::resources::{DiscoverableResource, InstalledResource, ResourceType};

verus! {

/// The world of one resource kind.
///
/// The file-backed kinds (agents, commands, hooks) run the full install,
/// projection and reconciliation cycle here.  Skills are directory
/// resources whose install flow is not part of this engine: their
/// records, repositories, caches and update checks are handled at the
/// database and update-checking level, so the operations below that
/// parse or write a single resource file require a non-skill kind.
pub struct SyncState {
    /// Which kind this engine instance manages.
    pub kind: ResourceType,
    /// The authoritative tree.
    pub ssot: FileStore,
    /// The per-application trees.
    pub scribe_files: FileStore,
    pub codex_files: FileStore,
    pub gemini_files: FileStore,
    /// Project-scoped copies, keyed `project-path/relative-path`.
    pub project_files: FileStore,
    /// The installed records of this kind.
    pub table: ResourceTable,
}

/// The relative path of an identifier under a kind's root.
pub open spec fn spec_rel(kind: ResourceType, id: Seq<char>) -> Seq<char> {
    spec_id_to_path(id, kind.spec_extension())
}

impl SyncState {
    /// Every tree and the table are well-formed, and no SSOT path holds a
    /// backslash, so that paths and identifiers stay in bijection.
    pub open spec fn wf(&self) -> bool {
        &&& self.ssot.wf()
        &&& self.scribe_files.wf()
        &&& self.codex_files.wf()
        &&& self.gemini_files.wf()
        &&& self.project_files.wf()
        &&& self.table.wf()
        &&& forall|i: int, j: int|
            0 <= i < self.ssot.entries.len() && 0 <= j < self.ssot.entries[i].path@.len()
                ==> #[trigger] self.ssot.entries[i].path@[j] != '\\'
    }

    /// The application tree of `app`.
    pub open spec fn spec_app_files(&self, app: AppType) -> FileStore {
        match app {
            AppType::Scribe => self.scribe_files,
            AppType::Codex => self.codex_files,
            AppType::Gemini => self.gemini_files,
        }
    }

    /// Whether the SSOT holds a copy of `id`.
    pub open spec fn has_ssot_copy(&self, id: Seq<char>) -> bool {
        self.ssot.spec_has(spec_rel(self.kind, id))
    }

    /// The SSOT copy of `id`.
    pub open spec fn ssot_copy(&self, id: Seq<char>) -> Seq<char> {
        self.ssot.spec_at(spec_rel(self.kind, id))
    }

    /// Whether `app` holds a projected copy of `id`.
    pub open spec fn has_app_copy(&self, id: Seq<char>, app: AppType) -> bool {
        self.spec_app_files(app).spec_has(spec_rel(self.kind, id))
    }

    /// The projected copy of `id` in `app`.
    pub open spec fn app_copy(&self, id: Seq<char>, app: AppType) -> Seq<char> {
        self.spec_app_files(app).spec_at(spec_rel(self.kind, id))
    }

    /// An engine over empty trees and an empty table.
    pub fn new(kind: ResourceType) -> (r: SyncState)
        ensures
            r.wf(),
            r.kind == kind,
            r.ssot.entries@.len() == 0,
            r.table.records@.len() == 0,
            r.scribe_files.entries@.len() == 0,
            r.codex_files.entries@.len() == 0,
            r.gemini_files.entries@.len() == 0,
            r.project_files.entries@.len() == 0,
    {
        SyncState {
            kind,
            ssot: FileStore::new(),
            scribe_files: FileStore::new(),
            codex_files: FileStore::new(),
            gemini_files: FileStore::new(),
            project_files: FileStore::new(),
            table: ResourceTable::new(),
        }
    }

    /// The relative path of `id` under this kind's root.
    pub fn rel_path(&self, id: &str) -> (r: String)
        ensures
            r@ == spec_rel(self.kind, id@),
    {
        id_to_relative_path(id, self.kind.extension())
    }

    /// Read the SSOT copy of a resource.
    pub fn get_content(&self, id: &str) -> (r: Result<&String, AppError>)
        requires
            self.wf(),
        ensures
            match r {
                Ok(c) => self.has_ssot_copy(id@) && c@ == self.ssot_copy(id@),
                Err(e) => !self.has_ssot_copy(id@) && e is NotFound,
            },
    {
        let rel = self.rel_path(id);
        match self.ssot.get(rel.as_str()) {
            Some(c) => Ok(c),
            None => Err(AppError::NotFound(String::from_str(id))),
        }
    }

    /// Mirror the SSOT copy of a resource into one application's tree,
    /// byte for byte.
    pub fn copy_to_app(&mut self, id: &str, app: &AppType) -> (r: Result<(), AppError>)
        requires
            old(self).wf(),
        ensures
            final(self).wf(),
            r is Ok <==> old(self).has_ssot_copy(id@),
            final(self).kind == old(self).kind,
            final(self).ssot == old(self).ssot,
            final(self).table == old(self).table,
            final(self).project_files == old(self).project_files,
            r is Err ==> *final(self) == *old(self),
            r is Ok ==> final(self).has_app_copy(id@, *app) && final(self).app_copy(id@, *app)
                == old(self).ssot_copy(id@),
            forall|a: AppType|
                a != *app ==> final(self).spec_app_files(a) == old(self).spec_app_files(a),
            forall|q: Seq<char>|
                q != spec_rel(old(self).kind, id@) ==> final(self).spec_app_files(
                    *app,
                ).spec_has(q) == old(self).spec_app_files(*app).spec_has(q),
            forall|q: Seq<char>|
                q != spec_rel(old(self).kind, id@) && old(self).spec_app_files(*app).spec_has(q)
                    ==> final(self).spec_app_files(*app).spec_at(q) == old(self).spec_app_files(
                    *app,
                ).spec_at(q),
    {
        let rel = self.rel_path(id);
        let content = match self.ssot.get(rel.as_str()) {
            Some(c) => c.clone(),
            None => {
                return Err(AppError::NotFound(String::from_str(id)));
            },
        };
        match app {
            AppType::Scribe => self.scribe_files.put(rel.as_str(), content.as_str()),
            AppType::Codex => self.codex_files.put(rel.as_str(), content.as_str()),
            AppType::Gemini => self.gemini_files.put(rel.as_str(), content.as_str()),
        }
        Ok(())
    }

    /// Remove a resource's projected copy from one application's tree;
    /// removing an absent copy changes nothing.
    pub fn remove_from_app(&mut self, id: &str, app: &AppType)
        requires
            old(self).wf(),
        ensures
            final(self).wf(),
            final(self).kind == old(self).kind,
            final(self).ssot == old(self).ssot,
            final(self).table == old(self).table,
            final(self).project_files == old(self).project_files,
            !final(self).has_app_copy(id@, *app),
            forall|a: AppType|
                a != *app ==> final(self).spec_app_files(a) == old(self).spec_app_files(a),
            forall|q: Seq<char>|
                q != spec_rel(old(self).kind, id@) ==> final(self).spec_app_files(
                    *app,
                ).spec_has(q) == old(self).spec_app_files(*app).spec_has(q),
            forall|q: Seq<char>|
                q != spec_rel(old(self).kind, id@) && old(self).spec_app_files(*app).spec_has(q)
                    ==> final(self).spec_app_files(*app).spec_at(q) == old(self).spec_app_files(
                    *app,
                ).spec_at(q),
    {
        let rel = self.rel_path(id);
        match app {
            AppType::Scribe => self.scribe_files.remove(rel.as_str()),
            AppType::Codex => self.codex_files.remove(rel.as_str()),
            AppType::Gemini => self.gemini_files.remove(rel.as_str()),
        }
    }

    /// Flip a resource's enablement for one application and make the
    /// application tree agree: enabling copies the SSOT file over,
    /// disabling removes the projection.  The stored flags change only
    /// when the file operation went through, so the tree stays a function
    /// of the stored state.
    pub fn toggle_app(&mut self, id: &str, app: &AppType, enabled: bool) -> (r: Result<
        (),
        AppError,
    >)
        requires
            old(self).wf(),
        ensures
            final(self).wf(),
            final(self).kind == old(self).kind,
            final(self).ssot == old(self).ssot,
            r is Ok <==> old(self).table.spec_has(id@) && (enabled ==> old(self).has_ssot_copy(
                id@,
            )),
            r is Err ==> *final(self) == *old(self),
            r is Ok ==> final(self).table.spec_at(id@) == (InstalledResource {
                apps: final(self).table.spec_at(id@).apps,
                ..old(self).table.spec_at(id@)
            }) && final(self).table.spec_at(id@).apps.spec_enabled_for(*app) == enabled && (
            forall|a: AppType|
                a != *app ==> final(self).table.spec_at(id@).apps.spec_enabled_for(a) == old(self).table.spec_at(id@).apps.spec_enabled_for(a)),
            r is Ok && enabled ==> final(self).has_app_copy(id@, *app) && final(self).app_copy(
                id@,
                *app,
            ) == old(self).ssot_copy(id@),
            r is Ok && !enabled ==> !final(self).has_app_copy(id@, *app),
            forall|q: Seq<char>| final(self).table.spec_has(q) == old(self).table.spec_has(q),
            forall|q: Seq<char>|
                q != id@ && old(self).table.spec_has(q) ==> final(self).table.spec_at(q) == old(self).table.spec_at(q),
            forall|a: AppType|
                a != *app ==> final(self).spec_app_files(a) == old(self).spec_app_files(a),
            forall|q: Seq<char>|
                q != spec_rel(old(self).kind, id@) ==> final(self).spec_app_files(
                    *app,
                ).spec_has(q) == old(self).spec_app_files(*app).spec_has(q),
    {
        if self.table.get(id).is_none() {
            return Err(AppError::NotFound(String::from_str(id)));
        }
        if enabled {
            let outcome = self.copy_to_app(id, app);
            if outcome.is_err() {
                return Err(AppError::NotFound(String::from_str(id)));
            }
        } else {
            self.remove_from_app(id, app);
        }
        let flags = match self.table.get(id) {
            Some(rec) => rec.apps,
            None => AppFlags::none(),
        };
        let mut updated = flags;
        updated.set_enabled_for(app, enabled);
        self.table.update_apps(id, updated);
        Ok(())
    }
}

} // verus!

use crate::ident::{spec_filename_of, spec_namespace_of};
use crate::parse::{
    json_bool_field, json_field_json, json_int_field, json_ok, json_str_field,
    parse_agent_metadata, parse_command_metadata, parse_hook_metadata, spec_agent_meta,
    spec_command_meta,
};
use crate::ident::parse_id;
use crate::resources::HookEventType;

verus! {

/// Two optional strings carry the same characters.
pub open spec fn opt_same(a: Option<String>, b: Option<String>) -> bool {
    match (a, b) {
        (Some(x), Some(y)) => x@ == y@,
        (None, None) => true,
        _ => false,
    }
}

/// The string field takes the parsed value when one stands, the
/// discovered value otherwise.
pub open spec fn spec_str_or(o: Option<Seq<char>>, fallback: Seq<char>) -> Seq<char> {
    match o {
        Some(v) => v,
        None => fallback,
    }
}

/// The optional field takes the parsed value when one stands, the prior
/// stored value otherwise.
pub open spec fn opt_or_kept(
    field: Option<String>,
    parsed: Option<Seq<char>>,
    prior: Option<String>,
) -> bool {
    match parsed {
        Some(v) => field matches Some(d) && d@ == v,
        None => opt_same(field, prior),
    }
}

/// The optional list field takes the parsed items when they stand, the
/// prior stored items otherwise.
pub open spec fn opt_list_or_kept(
    field: Option<Vec<String>>,
    parsed: Option<Seq<Seq<char>>>,
    prior: Option<Vec<String>>,
) -> bool {
    match parsed {
        Some(v) => field matches Some(l) && l.deep_view() == v,
        None => match (field, prior) {
            (Some(a), Some(b)) => a.deep_view() == b.deep_view(),
            (None, None) => true,
            _ => false,
        },
    }
}

/// The optional field takes the parsed value when one stands; otherwise
/// the discovered text, with an empty text reading as absent.
pub open spec fn opt_or_discovered(
    field: Option<String>,
    parsed: Option<Seq<char>>,
    discovered: Seq<char>,
) -> bool {
    match parsed {
        Some(v) => field matches Some(d) && d@ == v,
        None => if discovered.len() > 0 {
            field matches Some(d) && d@ == discovered
        } else {
            field is None
        },
    }
}

/// The metadata-bearing fields of a fresh record, per kind: parsed values
/// override the discovered ones, the discovered ones fill the gaps.
pub open spec fn spec_installed_fields(
    kind: ResourceType,
    content: Seq<char>,
    res: DiscoverableResource,
    rec: InstalledResource,
) -> bool {
    match kind {
        ResourceType::Command => {
            &&& rec.name@ == spec_str_or(spec_command_meta(content).0, res.name@)
            &&& opt_or_discovered(rec.description, spec_command_meta(content).1, res.description@)
            &&& (match spec_command_meta(content).2 {
                Some(v) => rec.category matches Some(c) && c@ == v,
                None => opt_same(rec.category, res.category),
            })
            &&& (match spec_command_meta(content).3 {
                Some(v) => rec.allowed_tools matches Some(l) && l.deep_view() == v,
                None => rec.allowed_tools is None,
            })
        },
        ResourceType::Agent => {
            &&& rec.name@ == spec_str_or(spec_agent_meta(content).0, res.name@)
            &&& opt_or_discovered(rec.description, spec_agent_meta(content).1, res.description@)
            &&& (match spec_agent_meta(content).2 {
                Some(v) => rec.model matches Some(m) && m@ == v,
                None => rec.model is None,
            })
            &&& (match spec_agent_meta(content).3 {
                Some(v) => rec.allowed_tools matches Some(l) && l.deep_view() == v,
                None => rec.allowed_tools is None,
            })
        },
        ResourceType::Hook => {
            &&& rec.name@ == spec_str_or(json_str_field(content, "name"@), res.name@)
            &&& opt_or_discovered(rec.description, json_str_field(content, "description"@), res.description@)
            &&& (match json_str_field(content, "eventType"@) {
                Some(s) => if exists|e: HookEventType| e.spec_name() == s {
                    rec.event_type.spec_name() == s
                } else {
                    rec.event_type == res.event_type
                },
                None => rec.event_type == res.event_type,
            })
            &&& rec.rules_json@ == spec_str_or(json_field_json(content, "rules"@), res.rules_json@)
            &&& rec.enabled == (match json_bool_field(content, "enabled"@) {
                Some(b) => b,
                None => true,
            })
            &&& rec.priority as int == (match json_int_field(content, "priority"@) {
                Some(v) => if -0x8000_0000 <= v < 0x8000_0000 {
                    v
                } else {
                    100
                },
                None => 100,
            })
        },
        ResourceType::Skill => true,
    }
}

impl SyncState {
    /// Install a discovered resource for one application.
    ///
    /// The resource's content is written under the SSOT unless a copy is
    /// already there: a repeat install never clobbers local edits.  The
    /// caller supplies the downloaded text (needed only when the SSOT
    /// lacks the file) and the canonical remote hash when it could fetch
    /// one; without a remote hash the record falls back to the local hash
    /// of the stored bytes.  Metadata parsed from the stored copy
    /// overrides the discovered metadata.  A fresh record enables exactly
    /// the invoking application at global scope; a repeat install only
    /// adds that application to the stored flags.  File-backed kinds then
    /// project the copy into the invoking application's tree.
    pub fn install(
        &mut self,
        res: &DiscoverableResource,
        app: &AppType,
        content: Option<&String>,
        remote_hash: Option<String>,
        now: i64,
    ) -> (r: Result<(), AppError>)
        requires
            old(self).wf(),
            old(self).kind != ResourceType::Skill,
            forall|j: int| 0 <= j < res.key@.len() ==> res.key@[j] != '\\',
        ensures
            final(self).wf(),
            final(self).kind == old(self).kind,
            ({
                let key = res.key@;
                let had = old(self).has_ssot_copy(key);
                let eff = if had {
                    old(self).ssot_copy(key)
                } else {
                    match content {
                        Some(c) => c@,
                        None => Seq::<char>::empty(),
                    }
                };
                &&& (r is Ok <==> (had || content is Some) && (old(self).kind
                    == ResourceType::Hook ==> json_ok(eff)))
                &&& (r is Err ==> *final(self) == *old(self))
                &&& (r is Ok ==> {
                    let rec = final(self).table.spec_at(key);
                    &&& final(self).has_ssot_copy(key)
                    &&& final(self).ssot_copy(key) == eff
                    &&& final(self).ssot.entries@.len() == old(self).ssot.entries@.len() + (
                    if had {
                        0int
                    } else {
                        1int
                    })
                    &&& final(self).table.spec_has(key)
                    &&& final(self).table.records@.len() == old(self).table.records@.len() + (
                    if old(self).table.spec_has(key) {
                        0int
                    } else {
                        1int
                    })
                    &&& rec.id@ == key
                    &&& rec.namespace@ == spec_namespace_of(key)
                    &&& rec.filename@ == spec_filename_of(key)
                    &&& rec.apps.spec_enabled_for(*app)
                    &&& (forall|a: AppType|
                        a != *app ==> rec.apps.spec_enabled_for(a) == (old(self).table.spec_has(
                            key,
                        ) && old(self).table.spec_at(key).apps.spec_enabled_for(a)))
                    &&& rec.scope is Global
                    &&& (rec.file_hash matches Some(h) && h@ == (match remote_hash {
                        Some(rh) => rh@,
                        None => spec_content_hash(eff),
                    }))
                    &&& rec.installed_at == now
                    &&& (rec.repo_owner matches Some(o) && o@ == res.repo_owner@)
                    &&& (rec.repo_name matches Some(o) && o@ == res.repo_name@)
                    &&& (rec.repo_branch matches Some(o) && o@ == res.repo_branch@)
                    &&& opt_same(rec.source_path, res.source_path)
                    &&& opt_same(rec.readme_url, res.readme_url)
                    &&& spec_installed_fields(old(self).kind, eff, *res, rec)
                    &&& (old(self).kind != ResourceType::Hook ==> final(self).has_app_copy(
                        key,
                        *app,
                    ) && final(self).app_copy(key, *app) == eff)
                    &&& (old(self).kind == ResourceType::Hook ==> final(self).scribe_files
                        == old(self).scribe_files && final(self).codex_files == old(self).codex_files && final(self).gemini_files == old(self).gemini_files)
                })
                &&& (forall|q: Seq<char>|
                    q != spec_rel(old(self).kind, key) ==> final(self).ssot.spec_has(q) == old(self).ssot.spec_has(q))
                &&& (forall|q: Seq<char>|
                    q != spec_rel(old(self).kind, key) && old(self).ssot.spec_has(q) ==> final(self).ssot.spec_at(q) == old(self).ssot.spec_at(q))
                &&& (forall|q: Seq<char>|
                    q != key ==> final(self).table.spec_has(q) == old(self).table.spec_has(q))
                &&& (forall|q: Seq<char>|
                    q != key && old(self).table.spec_has(q) ==> final(self).table.spec_at(q)
                        == old(self).table.spec_at(q))
                &&& final(self).project_files == old(self).project_files
            }),
    {
        let ghost pre = *self;
        let rel = self.rel_path(res.key.as_str());
        let had = self.ssot.contains(rel.as_str());
        let eff: String = if had {
            match self.ssot.get(rel.as_str()) {
                Some(c) => c.clone(),
                None => {
                    proof {
                        assert(false);
                    }
                    String::new()
                },
            }
        } else {
            match content {
                Some(c) => c.clone(),
                None => {
                    return Err(AppError::NotFound(String::from_str(res.key.as_str())));
                },
            }
        };
        let file_hash = match remote_hash {
            Some(rh) => rh,
            None => compute_hash(eff.as_str()),
        };
        let (namespace, filename) = parse_id(res.key.as_str());
        let prior_flags = match self.table.get(res.key.as_str()) {
            Some(prior) => prior.apps,
            None => AppFlags::none(),
        };
        let mut apps = prior_flags;
        apps.set_enabled_for(app, true);
        let mut rec = InstalledResource {
            id: String::from_str(res.key.as_str()),
            name: res.name.clone(),
            description: None,
            namespace,
            filename,
            directory: String::new(),
            category: None,
            allowed_tools: None,
            model: None,
            event_type: res.event_type,
            rules_json: res.rules_json.clone(),
            enabled: true,
            priority: 100,
            repo_owner: Some(res.repo_owner.clone()),
            repo_name: Some(res.repo_name.clone()),
            repo_branch: Some(res.repo_branch.clone()),
            readme_url: clone_opt(&res.readme_url),
            source_path: clone_opt(&res.source_path),
            apps,
            file_hash: Some(file_hash),
            installed_at: now,
            scope: InstallScope::Global,
        };
        match self.kind {
            ResourceType::Command => {
                let meta = parse_command_metadata(eff.as_str());
                rec.name = or_string(meta.name, rec.name);
                rec.description = or_discovered(meta.description, &res.description);
                rec.category = match meta.category {
                    Some(c) => Some(c),
                    None => clone_opt(&res.category),
                };
                rec.allowed_tools = meta.allowed_tools;
            },
            ResourceType::Agent => {
                let meta = parse_agent_metadata(eff.as_str());
                rec.name = or_string(meta.name, rec.name);
                rec.description = or_discovered(meta.description, &res.description);
                rec.model = meta.model;
                rec.allowed_tools = meta.tools;
            },
            ResourceType::Hook => {
                let meta = match parse_hook_metadata(eff.as_str()) {
                    Ok(m) => m,
                    Err(e) => {
                        return Err(e);
                    },
                };
                rec.name = or_string(meta.name, rec.name);
                rec.description = or_discovered(meta.description, &res.description);
                rec.event_type = match meta.event_type {
                    Some(e) => e,
                    None => res.event_type,
                };
                rec.rules_json = match meta.rules_json {
                    Some(r2) => r2,
                    None => rec.rules_json,
                };
                rec.enabled = meta.enabled;
                rec.priority = meta.priority;
            },
            ResourceType::Skill => {
                proof {
                    assert(false);
                }
            },
        }
        if !had {
            self.ssot.put(rel.as_str(), eff.as_str());
            proof {
                assert forall|i: int, j: int|
                    0 <= i < self.ssot.entries.len() && 0 <= j
                        < self.ssot.entries[i].path@.len() implies #[trigger] self.ssot.entries[
                    i
                ].path@[j] != '\\' by {
                    if self.ssot.entries[i].path@ == rel@ {
                        assert(rel@ == res.key@ + seq!['.'] + self.kind.spec_extension());
                        if j < res.key@.len() {
                            assert(rel@[j] == res.key@[j]);
                        } else if j == res.key@.len() {
                            assert(rel@[j] == '.');
                        } else {
                            assert(rel@[j] == self.kind.spec_extension()[j - res.key@.len() - 1]);
                            proof_extension_no_backslash(self.kind, j - res.key@.len() - 1);
                        }
                    } else {
                        assert(pre.ssot.spec_has(self.ssot.entries[i].path@));
                        let k = choose|k: int|
                            0 <= k < pre.ssot.entries.len() && pre.ssot.entries[k].path@
                                == self.ssot.entries[i].path@;
                        assert(pre.ssot.entries[k].path@[j] != '\\');
                    }
                }
            }
        }
        self.table.save(rec);
        if !matches!(self.kind, ResourceType::Hook) {
            let outcome = self.copy_to_app(res.key.as_str(), app);
            proof {
                assert(outcome is Ok);
            }
        }
        Ok(())
    }
}

/// Neither resource file extension contains a backslash.
proof fn proof_extension_no_backslash(kind: ResourceType, j: int)
    requires
        0 <= j < kind.spec_extension().len(),
    ensures
        kind.spec_extension()[j] != '\\',
{
    reveal_strlit("md");
    reveal_strlit("json");
}

/// Take the parsed string when one stands, the discovered one otherwise.
fn or_string(parsed: Option<String>, fallback: String) -> (r: String)
    ensures
        r@ == (match parsed {
            Some(v) => v@,
            None => fallback@,
        }),
{
    match parsed {
        Some(v) => v,
        None => fallback,
    }
}

/// Take the parsed description when one stands; otherwise the discovered
/// text, an empty text reading as absent.
fn or_discovered(parsed: Option<String>, discovered: &String) -> (r: Option<String>)
    ensures
        opt_or_discovered(r, (match parsed {
            Some(v) => Some(v@),
            None => None,
        }), discovered@),
{
    match parsed {
        Some(v) => Some(v),
        None => {
            if discovered.as_str().is_empty() {
                None
            } else {
                Some(discovered.clone())
            }
        },
    }
}

/// Copy an optional string.
fn clone_opt(o: &Option<String>) -> (r: Option<String>)
    ensures
        opt_same(r, *o),
{
    match o {
        Some(s) => Some(s.clone()),
        None => None,
    }
}

/// Copy an optional string list.
fn clone_opt_vec(o: &Option<Vec<String>>) -> (r: Option<Vec<String>>)
    ensures
        match (r, *o) {
            (Some(a), Some(b)) => a.deep_view() == b.deep_view(),
            (None, None) => true,
            _ => false,
        },
{
    match o {
        Some(v) => {
            let n = v.len();
            let mut out: Vec<String> = Vec::new();
            let mut i: usize = 0;
            while i < n
                invariant
                    i <= n,
                    n == v@.len(),
                    out.deep_view() =~= v.deep_view().subrange(0, i as int),
                decreases n - i,
            {
                let item = String::from_str(v[i].as_str());
                proof {
                    assert(item@ == v@[i as int]@);
                    assert(out.deep_view().len() == out@.len());
                    assert(out@.len() == i);
                }
                out.push(item);
                proof {
                    assert(out@.len() == i + 1);
                    assert(out@[i as int]@ == v@[i as int]@);
                    assert(out.deep_view() =~= v.deep_view().subrange(0, i + 1));
                }
                i += 1;
            }
            proof {
                assert(v.deep_view().subrange(0, n as int) =~= v.deep_view());
            }
            Some(out)
        },
        None => None,
    }
}

} // verus!

use crate::ident::lemma_path_round_trip;
use crate::resources::{ChangeEvent, ChangeEventType, ConflictResolution};

verus! {

/// How many records of `s` are enabled for `app` with a standing SSOT
/// copy in `st`: the number of copies a resync to `app` makes.
pub open spec fn count_syncable(s: Seq<InstalledResource>, st: SyncState, app: AppType) -> nat
    decreases s.len(),
{
    if s.len() == 0 {
        0
    } else {
        count_syncable(s.drop_last(), st, app) + (if s.last().apps.spec_enabled_for(app)
            && st.has_ssot_copy(s.last().id@) {
            1nat
        } else {
            0nat
        })
    }
}

/// The syncable count reads only the records, the kind and the SSOT
/// tree: two states agreeing on those count alike.
proof fn lemma_count_syncable_same(s: Seq<InstalledResource>, a: SyncState, b: SyncState, app: AppType)
    requires
        a.kind == b.kind,
        a.ssot == b.ssot,
    ensures
        count_syncable(s, a, app) == count_syncable(s, b, app),
    decreases s.len(),
{
    if s.len() > 0 {
        lemma_count_syncable_same(s.drop_last(), a, b, app);
    }
}

/// Relative paths determine identifiers: two identifiers with the same
/// relative path are equal, as long as neither holds a backslash.
pub proof fn lemma_rel_injective(kind: ResourceType, a: Seq<char>, b: Seq<char>)
    requires
        spec_rel(kind, a) == spec_rel(kind, b),
    ensures
        a == b,
{
    assert(spec_rel(kind, a).len() == a.len() + 1 + kind.spec_extension().len());
    assert(spec_rel(kind, b).len() == b.len() + 1 + kind.spec_extension().len());
    assert(a.len() == b.len());
    assert forall|j: int| 0 <= j < a.len() implies a[j] == b[j] by {
        assert(spec_rel(kind, a)[j] == a[j]);
        assert(spec_rel(kind, b)[j] == b[j]);
    }
    assert(a =~= b);
}

impl SyncState {
    /// Remove a resource everywhere: from every application tree, from
    /// the SSOT, and from the record table, in that order.
    pub fn uninstall(&mut self, id: &str) -> (r: Result<(), AppError>)
        requires
            old(self).wf(),
        ensures
            final(self).wf(),
            final(self).kind == old(self).kind,
            r is Ok <==> old(self).table.spec_has(id@),
            r is Err ==> *final(self) == *old(self),
            r is Ok ==> !final(self).table.spec_has(id@) && !final(self).has_ssot_copy(id@)
                && (forall|a: AppType| !final(self).has_app_copy(id@, a)),
            final(self).project_files == old(self).project_files,
            forall|q: Seq<char>|
                q != id@ ==> final(self).table.spec_has(q) == old(self).table.spec_has(q),
            forall|q: Seq<char>|
                q != id@ && old(self).table.spec_has(q) ==> final(self).table.spec_at(q) == old(self).table.spec_at(q),
            forall|q: Seq<char>|
                q != spec_rel(old(self).kind, id@) ==> final(self).ssot.spec_has(q) == old(self).ssot.spec_has(q),
            forall|q: Seq<char>|
                q != spec_rel(old(self).kind, id@) && old(self).ssot.spec_has(q) ==> final(self).ssot.spec_at(q) == old(self).ssot.spec_at(q),
            forall|a: AppType, q: Seq<char>|
                q != spec_rel(old(self).kind, id@) ==> final(self).spec_app_files(a).spec_has(q)
                    == old(self).spec_app_files(a).spec_has(q),
            forall|a: AppType, q: Seq<char>|
                q != spec_rel(old(self).kind, id@) && old(self).spec_app_files(a).spec_has(q)
                    ==> final(self).spec_app_files(a).spec_at(q) == old(self).spec_app_files(
                    a,
                ).spec_at(q),
    {
        if self.table.get(id).is_none() {
            return Err(AppError::NotFound(String::from_str(id)));
        }
        self.remove_from_app(id, &AppType::Scribe);
        self.remove_from_app(id, &AppType::Codex);
        self.remove_from_app(id, &AppType::Gemini);
        let rel = self.rel_path(id);
        let ghost pre = *self;
        self.ssot.remove(rel.as_str());
        proof {
            assert forall|i: int, j: int|
                0 <= i < self.ssot.entries.len() && 0 <= j
                    < self.ssot.entries[i].path@.len() implies #[trigger] self.ssot.entries[
                i
            ].path@[j] != '\\' by {
                let p = self.ssot.entries[i].path@;
                assert(self.ssot.spec_has(p));
                assert(p != rel@);
                assert(pre.ssot.spec_has(p));
                let k = choose|k: int|
                    0 <= k < pre.ssot.entries.len() && pre.ssot.entries[k].path@ == p;
                assert(pre.ssot.entries[k].path@[j] != '\\');
            }
        }
        self.table.delete(id);
        Ok(())
    }

    /// Whether some record enabled for `app` projects to path `q` from a
    /// standing SSOT copy.
    pub open spec fn spec_enabled_rel(&self, q: Seq<char>, app: AppType) -> bool {
        exists|i: int|
            0 <= i < self.table.records.len() && (#[trigger] self.table.records[i]).apps
                .spec_enabled_for(app) && spec_rel(self.kind, self.table.records[i].id@) == q
                && self.ssot.spec_has(q)
    }

    /// Force-copy every resource enabled for `app` from the SSOT into the
    /// application's tree, repairing any drift.  Reports how many copies
    /// were made: one per enabled record with a standing SSOT copy.
    pub fn sync_to_app(&mut self, app: &AppType) -> (r: usize)
        requires
            old(self).wf(),
        ensures
            final(self).wf(),
            final(self).kind == old(self).kind,
            final(self).ssot == old(self).ssot,
            final(self).table == old(self).table,
            final(self).project_files == old(self).project_files,
            r == count_syncable(old(self).table.records@, *old(self), *app),
            forall|a: AppType|
                a != *app ==> final(self).spec_app_files(a) == old(self).spec_app_files(a),
            forall|id: Seq<char>|
                #![trigger old(self).table.spec_at(id)]
                old(self).table.spec_has(id) && old(self).table.spec_at(id).apps.spec_enabled_for(
                    *app,
                ) && old(self).has_ssot_copy(id) ==> final(self).has_app_copy(id, *app)
                    && final(self).app_copy(id, *app) == old(self).ssot_copy(id),
            forall|q: Seq<char>|
                !old(self).spec_enabled_rel(q, *app) ==> final(self).spec_app_files(
                    *app,
                ).spec_has(q) == old(self).spec_app_files(*app).spec_has(q),
            forall|q: Seq<char>|
                !old(self).spec_enabled_rel(q, *app) && old(self).spec_app_files(*app).spec_has(
                    q,
                ) ==> final(self).spec_app_files(*app).spec_at(q) == old(self).spec_app_files(
                    *app,
                ).spec_at(q),
    {
        let n = self.table.count();
        let mut synced: usize = 0;
        let mut i: usize = 0;
        proof {
            assert(old(self).table.records@.subrange(0, 0) =~= Seq::<
                InstalledResource,
            >::empty());
        }
        while i < n
            invariant
                i <= n,
                synced <= i,
                synced == count_syncable(
                    old(self).table.records@.subrange(0, i as int),
                    *old(self),
                    *app,
                ),
                n == self.table.records.len(),
                self.wf(),
                self.kind == old(self).kind,
                self.ssot == old(self).ssot,
                self.table == old(self).table,
                self.project_files == old(self).project_files,
                forall|a: AppType|
                    a != *app ==> self.spec_app_files(a) == old(self).spec_app_files(a),
                forall|j: int|
                    #![trigger old(self).table.records[j]]
                    0 <= j < i && old(self).table.records[j].apps.spec_enabled_for(*app) && old(self).has_ssot_copy(old(self).table.records[j].id@) ==> self.has_app_copy(
                        old(self).table.records[j].id@,
                        *app,
                    ) && self.app_copy(old(self).table.records[j].id@, *app) == old(self).ssot_copy(old(self).table.records[j].id@),
                forall|q: Seq<char>|
                    !old(self).spec_enabled_rel(q, *app) ==> self.spec_app_files(
                        *app,
                    ).spec_has(q) == old(self).spec_app_files(*app).spec_has(q),
                forall|q: Seq<char>|
                    !old(self).spec_enabled_rel(q, *app) && old(self).spec_app_files(
                        *app,
                    ).spec_has(q) ==> self.spec_app_files(*app).spec_at(q) == old(self).spec_app_files(*app).spec_at(q),
            decreases n - i,
        {
            proof {
                assert(old(self).table.records@.subrange(0, i + 1).drop_last() =~= old(
                    self,
                ).table.records@.subrange(0, i as int));
                assert(old(self).table.records@.subrange(0, i + 1).last() == old(
                    self,
                ).table.records@[i as int]);
            }
            let enabled = self.table.records[i].apps.is_enabled_for(app);
            if enabled {
                let id = self.table.records[i].id.clone();
                let ghost mid = *self;
                let outcome = self.copy_to_app(id.as_str(), app);
                if outcome.is_ok() {
                    synced += 1;
                    if synced > i {
                        synced = i + 1;
                    }
                }
                proof {
                    let idv = old(self).table.records[i as int].id@;
                    assert(id@ == idv);
                    if old(self).has_ssot_copy(idv) {
                        assert(outcome is Ok);
                    } else {
                        assert(outcome is Err);
                        assert(*self == mid);
                    }
                    assert forall|j: int|
                        #![trigger old(self).table.records[j]]
                        0 <= j < i + 1 && old(self).table.records[j].apps.spec_enabled_for(
                            *app,
                        ) && old(self).has_ssot_copy(old(self).table.records[j].id@) implies
                        self.has_app_copy(old(self).table.records[j].id@, *app)
                        && self.app_copy(old(self).table.records[j].id@, *app) == old(self).ssot_copy(old(self).table.records[j].id@) by {
                        if j < i {
                            let jid = old(self).table.records[j].id@;
                            if spec_rel(self.kind, jid) != spec_rel(self.kind, idv) {
                                assert(mid.has_app_copy(jid, *app));
                            } else {
                                lemma_rel_injective(self.kind, jid, idv);
                            }
                        }
                    }
                    if outcome is Ok {
                        assert(old(self).spec_enabled_rel(spec_rel(self.kind, idv), *app));
                    }
                }
            }
            i += 1;
        }
        proof {
            assert(old(self).table.records@.subrange(0, n as int) =~= old(
                self,
            ).table.records@);
        }
        synced
    }

    /// Force-copy every enabled resource into every application tree.
    /// Reports the copies made over all three applications.
    pub fn sync_all_to_apps(&mut self) -> (r: usize)
        requires
            old(self).wf(),
        ensures
            final(self).wf(),
            final(self).kind == old(self).kind,
            final(self).ssot == old(self).ssot,
            final(self).table == old(self).table,
            final(self).project_files == old(self).project_files,
            ({
                let total = count_syncable(old(self).table.records@, *old(self), AppType::Scribe)
                    + count_syncable(old(self).table.records@, *old(self), AppType::Codex)
                    + count_syncable(old(self).table.records@, *old(self), AppType::Gemini);
                total <= usize::MAX ==> r == total
            }),
            forall|id: Seq<char>, a: AppType|
                #![trigger final(self).app_copy(id, a)]
                old(self).table.spec_has(id) && old(self).table.spec_at(id).apps.spec_enabled_for(
                    a,
                ) && old(self).has_ssot_copy(id) ==> final(self).has_app_copy(id, a) && final(self).app_copy(id, a) == old(self).ssot_copy(id),
    {
        let a = self.sync_to_app(&AppType::Scribe);
        let ghost s1 = *self;
        let b = self.sync_to_app(&AppType::Codex);
        let ghost s2 = *self;
        let c = self.sync_to_app(&AppType::Gemini);
        proof {
            lemma_count_syncable_same(s1.table.records@, s1, *old(self), AppType::Codex);
            lemma_count_syncable_same(s2.table.records@, s2, *old(self), AppType::Gemini);
            assert forall|id: Seq<char>, ap: AppType|
                #![trigger self.app_copy(id, ap)]
                old(self).table.spec_has(id) && old(self).table.spec_at(
                    id,
                ).apps.spec_enabled_for(ap) && old(self).has_ssot_copy(id) implies self
                .has_app_copy(id, ap) && self.app_copy(id, ap) == old(self).ssot_copy(id) by {
                assert(s1.table.spec_at(id) == old(self).table.spec_at(id));
                assert(s2.table.spec_at(id) == old(self).table.spec_at(id));
                match ap {
                    AppType::Scribe => {
                        assert(s1.has_app_copy(id, AppType::Scribe) && s1.app_copy(
                            id,
                            AppType::Scribe,
                        ) == old(self).ssot_copy(id));
                        assert(s2.spec_app_files(AppType::Scribe) == s1.spec_app_files(
                            AppType::Scribe,
                        ));
                        assert(self.spec_app_files(AppType::Scribe) == s2.spec_app_files(
                            AppType::Scribe,
                        ));
                    },
                    AppType::Codex => {
                        assert(s2.has_app_copy(id, AppType::Codex) && s2.app_copy(
                            id,
                            AppType::Codex,
                        ) == s1.ssot_copy(id));
                        assert(self.spec_app_files(AppType::Codex) == s2.spec_app_files(
                            AppType::Codex,
                        ));
                    },
                    AppType::Gemini => {
                        assert(self.has_app_copy(id, AppType::Gemini) && self.app_copy(
                            id,
                            AppType::Gemini,
                        ) == s2.ssot_copy(id));
                    },
                }
            }
        }
        if a <= usize::MAX - b && a + b <= usize::MAX - c {
            a + b + c
        } else {
            usize::MAX
        }
    }

    /// Resolve a divergent application copy: keeping the SSOT overwrites
    /// the application copy from the SSOT; keeping the application copies
    /// the application's version over the SSOT, re-parses its metadata
    /// into the record and stores the new content hash, while the fields
    /// only the record knows — repository coordinates, enablement flags,
    /// scope — are preserved.
    pub fn resolve_conflict(&mut self, id: &str, app: &AppType, resolution: ConflictResolution)
        -> (r: Result<(), AppError>)
        requires
            old(self).wf(),
            old(self).kind != ResourceType::Skill,
            forall|j: int| 0 <= j < id@.len() ==> id@[j] != '\\',
        ensures
            final(self).wf(),
            final(self).kind == old(self).kind,
            resolution is KeepSsot && old(self).has_ssot_copy(id@) ==> final(self).has_app_copy(
                id@,
                *app,
            ) && final(self).app_copy(id@, *app) == old(self).ssot_copy(id@) && final(self).ssot
                == old(self).ssot && final(self).table == old(self).table,
            resolution is KeepSsot && !old(self).has_ssot_copy(id@) ==> *final(self) == *old(self),
            resolution is KeepSsot ==> r is Ok,
            resolution is KeepApp && old(self).has_app_copy(id@, *app) ==> final(self).has_ssot_copy(id@) && final(self).ssot_copy(id@) == old(self).app_copy(id@, *app)
                && (old(self).table.spec_has(id@) ==> {
                let rec = final(self).table.spec_at(id@);
                let prior = old(self).table.spec_at(id@);
                let kept = old(self).app_copy(id@, *app);
                &&& final(self).table.spec_has(id@)
                &&& (rec.file_hash matches Some(h) && h@ == spec_content_hash(kept))
                &&& rec.apps == prior.apps
                &&& rec.id@ == prior.id@
                &&& opt_same(rec.repo_owner, prior.repo_owner)
                &&& opt_same(rec.repo_name, prior.repo_name)
                &&& opt_same(rec.repo_branch, prior.repo_branch)
                &&& rec.scope.deep_view() == prior.scope.deep_view()
                &&& rec.namespace@ == prior.namespace@
                &&& rec.filename@ == prior.filename@
                &&& (old(self).kind == ResourceType::Command ==> {
                    &&& rec.name@ == spec_str_or(spec_command_meta(kept).0, prior.name@)
                    &&& opt_or_kept(rec.description, spec_command_meta(kept).1, prior.description)
                    &&& opt_or_kept(rec.category, spec_command_meta(kept).2, prior.category)
                    &&& opt_list_or_kept(
                        rec.allowed_tools,
                        spec_command_meta(kept).3,
                        prior.allowed_tools,
                    )
                })
                &&& (old(self).kind == ResourceType::Agent ==> {
                    &&& rec.name@ == spec_str_or(spec_agent_meta(kept).0, prior.name@)
                    &&& opt_or_kept(rec.description, spec_agent_meta(kept).1, prior.description)
                    &&& opt_or_kept(rec.model, spec_agent_meta(kept).2, prior.model)
                    &&& opt_list_or_kept(
                        rec.allowed_tools,
                        spec_agent_meta(kept).3,
                        prior.allowed_tools,
                    )
                })
            }),
            resolution is KeepApp && !old(self).has_app_copy(id@, *app) ==> *final(self) == *old(self),
            resolution is KeepApp ==> r is Ok,
            forall|q: Seq<char>|
                q != id@ ==> final(self).table.spec_has(q) == old(self).table.spec_has(q),
            forall|q: Seq<char>|
                q != id@ && old(self).table.spec_has(q) ==> final(self).table.spec_at(q) == old(self).table.spec_at(q),
    {
        let rel = self.rel_path(id);
        match resolution {
            ConflictResolution::KeepSsot => {
                if self.ssot.contains(rel.as_str()) {
                    let outcome = self.copy_to_app(id, app);
                    proof {
                        assert(outcome is Ok);
                    }
                }
                Ok(())
            },
            ConflictResolution::KeepApp => {
                let app_content: Option<String> = match app {
                    AppType::Scribe => match self.scribe_files.get(rel.as_str()) {
                        Some(c) => Some(c.clone()),
                        None => None,
                    },
                    AppType::Codex => match self.codex_files.get(rel.as_str()) {
                        Some(c) => Some(c.clone()),
                        None => None,
                    },
                    AppType::Gemini => match self.gemini_files.get(rel.as_str()) {
                        Some(c) => Some(c.clone()),
                        None => None,
                    },
                };
                let content = match app_content {
                    Some(c) => c,
                    None => {
                        return Ok(());
                    },
                };
                let ghost pre = *self;
                self.ssot.put(rel.as_str(), content.as_str());
                proof {
                    assert forall|i: int, j: int|
                        0 <= i < self.ssot.entries.len() && 0 <= j
                            < self.ssot.entries[i].path@.len() implies #[trigger] self.ssot
                        .entries[i].path@[j] != '\\' by {
                        if self.ssot.entries[i].path@ == rel@ {
                            assert(rel@ == id@ + seq!['.'] + self.kind.spec_extension());
                            if j < id@.len() {
                                assert(rel@[j] == id@[j]);
                            } else if j == id@.len() {
                                assert(rel@[j] == '.');
                            } else {
                                proof_extension_no_backslash(
                                    self.kind,
                                    j - id@.len() - 1,
                                );
                                assert(rel@[j] == self.kind.spec_extension()[j - id@.len() - 1]);
                            }
                        } else {
                            assert(pre.ssot.spec_has(self.ssot.entries[i].path@));
                            let k = choose|k: int|
                                0 <= k < pre.ssot.entries.len() && pre.ssot.entries[k].path@
                                    == self.ssot.entries[i].path@;
                            assert(pre.ssot.entries[k].path@[j] != '\\');
                        }
                    }
                }
                let file_hash = compute_hash(content.as_str());
                let prior_rec: Option<InstalledResource> = match self.table.get(id) {
                    Some(prior) => {
                        // re-parse the kept bytes into the record, old
                        // values filling where the parse yields nothing
                        let mut rec = InstalledResource {
                            id: prior.id.clone(),
                            name: prior.name.clone(),
                            description: clone_opt(&prior.description),
                            namespace: prior.namespace.clone(),
                            filename: prior.filename.clone(),
                            directory: prior.directory.clone(),
                            category: clone_opt(&prior.category),
                            allowed_tools: clone_opt_vec(&prior.allowed_tools),
                            model: clone_opt(&prior.model),
                            event_type: prior.event_type,
                            rules_json: prior.rules_json.clone(),
                            enabled: prior.enabled,
                            priority: prior.priority,
                            repo_owner: clone_opt(&prior.repo_owner),
                            repo_name: clone_opt(&prior.repo_name),
                            repo_branch: clone_opt(&prior.repo_branch),
                            readme_url: clone_opt(&prior.readme_url),
                            source_path: clone_opt(&prior.source_path),
                            apps: prior.apps,
                            file_hash: Some(file_hash),
                            installed_at: prior.installed_at,
                            scope: match &prior.scope {
                                InstallScope::Global => InstallScope::Global,
                                InstallScope::Project(p) => InstallScope::Project(p.clone()),
                            },
                        };
                        match self.kind {
                            ResourceType::Command => {
                                let meta = parse_command_metadata(content.as_str());
                                rec.name = or_string(meta.name, rec.name);
                                rec.description = match meta.description {
                                    Some(v) => Some(v),
                                    None => rec.description,
                                };
                                rec.category = match meta.category {
                                    Some(v) => Some(v),
                                    None => rec.category,
                                };
                                rec.allowed_tools = match meta.allowed_tools {
                                    Some(v) => Some(v),
                                    None => rec.allowed_tools,
                                };
                            },
                            ResourceType::Agent => {
                                let meta = parse_agent_metadata(content.as_str());
                                rec.name = or_string(meta.name, rec.name);
                                rec.description = match meta.description {
                                    Some(v) => Some(v),
                                    None => rec.description,
                                };
                                rec.model = match meta.model {
                                    Some(v) => Some(v),
                                    None => rec.model,
                                };
                                rec.allowed_tools = match meta.tools {
                                    Some(v) => Some(v),
                                    None => rec.allowed_tools,
                                };
                            },
                            _ => {
                                match parse_hook_metadata(content.as_str()) {
                                    Ok(meta) => {
                                        rec.name = or_string(meta.name, rec.name);
                                        rec.description = match meta.description {
                                            Some(v) => Some(v),
                                            None => rec.description,
                                        };
                                        rec.event_type = match meta.event_type {
                                            Some(e) => e,
                                            None => rec.event_type,
                                        };
                                        rec.rules_json = match meta.rules_json {
                                            Some(v) => v,
                                            None => rec.rules_json,
                                        };
                                        rec.enabled = meta.enabled;
                                        rec.priority = meta.priority;
                                    },
                                    Err(_) => {},
                                }
                            },
                        }
                        Some(rec)
                    },
                    None => None,
                };
                if let Some(rec) = prior_rec {
                    self.table.save(rec);
                }
                Ok(())
            },
        }
    }

    /// Reject the deletion of a namespace while any installed resource
    /// still references it; deleting an empty, named namespace succeeds
    /// and is a pure directory operation with no modeled effect.
    pub fn delete_namespace(&self, namespace: &str) -> (r: Result<(), AppError>)
        ensures
            r is Ok <==> namespace@.len() > 0 && crate::database::count_ns(
                self.table.records@,
                namespace@,
            ) == 0,
            r matches Err(e) ==> (namespace@.len() == 0 ==> e is InvalidInput) && (
            namespace@.len() > 0 ==> e is Conflict),
    {
        proof {
            reveal_strlit("the root namespace cannot be deleted");
            reveal_strlit("namespace still holds installed resources");
        }
        if namespace.is_empty() {
            return Err(
                AppError::InvalidInput(String::from_str("the root namespace cannot be deleted")),
            );
        }
        let in_use = self.table.count_in_namespace(namespace);
        if in_use > 0 {
            return Err(
                AppError::Conflict(
                    String::from_str("namespace still holds installed resources"),
                ),
            );
        }
        Ok(())
    }

    /// Creating a namespace only needs a name; the directories come into
    /// being when files are put under them.
    pub fn create_namespace(&self, namespace: &str) -> (r: Result<(), AppError>)
        ensures
            r is Ok <==> namespace@.len() > 0,
            r matches Err(e) ==> e is InvalidInput,
    {
        proof {
            reveal_strlit("a namespace needs a name");
        }
        if namespace.is_empty() {
            return Err(AppError::InvalidInput(String::from_str("a namespace needs a name")));
        }
        Ok(())
    }
}

} // verus!

use crate::ident::relative_path_to_id;
use crate::strutil::{ends_with_str, eq_str, push_char};

verus! {

/// How many events of `s` report `(id, et, app)`.
pub open spec fn count_events(
    s: Seq<ChangeEvent>,
    id: Seq<char>,
    et: ChangeEventType,
    app: Option<AppType>,
) -> nat
    decreases s.len(),
{
    if s.len() == 0 {
        0
    } else {
        count_events(s.drop_last(), id, et, app) + (if s.last().id@ == id && s.last().event_type
            == et && s.last().app == app {
            1nat
        } else {
            0nat
        })
    }
}

/// Appending one event raises exactly its own count by one.
pub proof fn lemma_count_push(s: Seq<ChangeEvent>, e: ChangeEvent)
    ensures
        forall|id: Seq<char>, et: ChangeEventType, app: Option<AppType>|
            #[trigger] count_events(s.push(e), id, et, app) == count_events(s, id, et, app) + (
            if e.id@ == id && e.event_type == et && e.app == app {
                1nat
            } else {
                0nat
            }),
{
    assert forall|id: Seq<char>, et: ChangeEventType, app: Option<AppType>|
        #[trigger] count_events(s.push(e), id, et, app) == count_events(s, id, et, app) + (
        if e.id@ == id && e.event_type == et && e.app == app {
            1nat
        } else {
            0nat
        }) by {
        assert(s.push(e).drop_last() =~= s);
        assert(s.push(e).last() == e);
    }
}

impl SyncState {
    /// An SSOT file with no record.
    pub open spec fn added_cond(&self, id: Seq<char>) -> bool {
        self.has_ssot_copy(id) && !self.table.spec_has(id)
    }

    /// A record whose SSOT copy hashes differently from the stored hash.
    pub open spec fn modified_cond(&self, id: Seq<char>) -> bool {
        self.has_ssot_copy(id) && self.table.spec_has(id) && (self.table.spec_at(
            id,
        ).file_hash matches Some(h) && h@ != spec_content_hash(self.ssot_copy(id)))
    }

    /// A record whose SSOT file is gone.
    pub open spec fn deleted_cond(&self, id: Seq<char>) -> bool {
        self.table.spec_has(id) && !self.has_ssot_copy(id)
    }

    /// An enabled projection whose bytes hash differently from the SSOT
    /// copy's.
    pub open spec fn conflict_cond(&self, id: Seq<char>, app: AppType) -> bool {
        &&& self.table.spec_has(id)
        &&& self.table.spec_at(id).apps.spec_enabled_for(app)
        &&& self.has_ssot_copy(id)
        &&& self.has_app_copy(id, app)
        &&& spec_content_hash(self.app_copy(id, app)) != spec_content_hash(self.ssot_copy(id))
    }

    /// Whether some SSOT entry before position `i` is the file of `id`.
    pub open spec fn prefix_has_rel(&self, i: int, id: Seq<char>) -> bool {
        exists|j: int|
            0 <= j < i && (#[trigger] self.ssot.entries[j]).path@ == spec_rel(self.kind, id)
    }

    /// Walk the SSOT and the projections and report every drift, once:
    /// an unmanaged SSOT file, a locally edited SSOT file, a record whose
    /// file is gone, and — for every enabled `(resource, application)`
    /// pair — a projected copy whose hash differs from the SSOT copy's.
    pub fn detect_changes(&self) -> (r: Vec<ChangeEvent>)
        requires
            self.wf(),
        ensures
            forall|id: Seq<char>|
                #[trigger] count_events(r@, id, ChangeEventType::SsotAdded, None) == (
                if self.added_cond(id) {
                    1nat
                } else {
                    0nat
                }),
            forall|id: Seq<char>|
                #[trigger] count_events(r@, id, ChangeEventType::SsotModified, None) == (
                if self.modified_cond(id) {
                    1nat
                } else {
                    0nat
                }),
            forall|id: Seq<char>|
                #[trigger] count_events(r@, id, ChangeEventType::SsotDeleted, None) == (
                if self.deleted_cond(id) {
                    1nat
                } else {
                    0nat
                }),
            forall|id: Seq<char>, app: AppType|
                #[trigger] count_events(r@, id, ChangeEventType::AppConflict, Some(app)) == (
                if self.conflict_cond(id, app) {
                    1nat
                } else {
                    0nat
                }),
            forall|k: int|
                0 <= k < r@.len() ==> match (#[trigger] r@[k]).event_type {
                    ChangeEventType::SsotAdded => r@[k].app is None && self.added_cond(
                        r@[k].id@,
                    ),
                    ChangeEventType::SsotModified => r@[k].app is None && self.modified_cond(
                        r@[k].id@,
                    ),
                    ChangeEventType::SsotDeleted => r@[k].app is None && self.deleted_cond(
                        r@[k].id@,
                    ),
                    ChangeEventType::AppConflict => r@[k].app matches Some(a)
                        && self.conflict_cond(r@[k].id@, a),
                },
    {
        let mut events: Vec<ChangeEvent> = Vec::new();
        let mut suffix = String::new();
        push_char(&mut suffix, '.');
        suffix.append(self.kind.extension());
        proof {
            assert(suffix@ =~= seq!['.'] + self.kind.spec_extension());
        }
        let n = self.ssot.count();
        let mut i: usize = 0;
        while i < n
            invariant
                i <= n,
                self.wf(),
                n == self.ssot.entries.len(),
                suffix@ == seq!['.'] + self.kind.spec_extension(),
                forall|id: Seq<char>|
                    #[trigger] count_events(events@, id, ChangeEventType::SsotAdded, None) == (
                    if self.prefix_has_rel(i as int, id) && !self.table.spec_has(id) {
                        1nat
                    } else {
                        0nat
                    }),
                forall|id: Seq<char>|
                    #[trigger] count_events(events@, id, ChangeEventType::SsotModified, None)
                        == (if self.prefix_has_rel(i as int, id) && self.table.spec_has(id) && (
                    self.table.spec_at(id).file_hash matches Some(h) && h@ != spec_content_hash(
                        self.ssot_copy(id),
                    )) {
                        1nat
                    } else {
                        0nat
                    }),
                forall|id: Seq<char>|
                    count_events(events@, id, ChangeEventType::SsotDeleted, None) == 0,
                forall|id: Seq<char>, app: AppType|
                    count_events(events@, id, ChangeEventType::AppConflict, Some(app)) == 0,
                forall|k: int|
                    0 <= k < events@.len() ==> match (#[trigger] events@[k]).event_type {
                        ChangeEventType::SsotAdded => events@[k].app is None && self.added_cond(
                            events@[k].id@,
                        ),
                        ChangeEventType::SsotModified => events@[k].app is None
                            && self.modified_cond(events@[k].id@),
                        ChangeEventType::SsotDeleted => false,
                        ChangeEventType::AppConflict => false,
                    },
            decreases n - i,
        {
            let path = self.ssot.path_at(i).clone();
            let content = self.ssot.content_at(i).clone();
            let ghost pre_events = events@;
            if ends_with_str(path.as_str(), suffix.as_str()) {
                let id = relative_path_to_id(path.as_str(), self.kind.extension());
                proof {
                    assert forall|j2: int|
                        0 <= j2 < path@.len() implies path@[j2] != '\\' by {
                        assert(self.ssot.entries[i as int].path@[j2] != '\\');
                    }
                    lemma_path_round_trip_engine(self.kind, path@);
                    assert(spec_rel(self.kind, id@) == path@);
                }
                match self.table.get(id.as_str()) {
                    Some(rec) => {
                        let differs = match &rec.file_hash {
                            Some(stored) => {
                                let current = compute_hash(content.as_str());
                                !eq_str(stored.as_str(), current.as_str())
                            },
                            None => false,
                        };
                        if differs {
                            events.push(
                                ChangeEvent {
                                    id: id.clone(),
                                    event_type: ChangeEventType::SsotModified,
                                    app: None,
                                },
                            );
                            proof {
                                lemma_count_push(
                                    pre_events,
                                    ChangeEvent {
                                        id: id,
                                        event_type: ChangeEventType::SsotModified,
                                        app: None,
                                    },
                                );
                            }
                        }
                    },
                    None => {
                        events.push(
                            ChangeEvent {
                                id: id.clone(),
                                event_type: ChangeEventType::SsotAdded,
                                app: None,
                            },
                        );
                        proof {
                            lemma_count_push(
                                pre_events,
                                ChangeEvent {
                                    id: id,
                                    event_type: ChangeEventType::SsotAdded,
                                    app: None,
                                },
                            );
                        }
                    },
                }
                proof {
                    lemma_prefix_step(self, i as int, id@);
                }
            } else {
                proof {
                    assert forall|id: Seq<char>|
                        self.prefix_has_rel(i + 1, id) == self.prefix_has_rel(
                        i as int,
                        id,
                    ) by {
                        if self.prefix_has_rel(i + 1, id) {
                            let j = choose|j: int|
                                0 <= j < i + 1 && (#[trigger] self.ssot.entries[j]).path@
                                    == spec_rel(self.kind, id);
                            if j == i {
                                assert(crate::strutil::spec_ends_with(
                                    spec_rel(self.kind, id),
                                    seq!['.'] + self.kind.spec_extension(),
                                )) by {
                                    let rl = spec_rel(self.kind, id);
                                    assert(rl.subrange(
                                        rl.len() - suffix@.len(),
                                        rl.len() as int,
                                    ) =~= suffix@);
                                }
                                assert(false);
                            }
                        }
                    }
                }
            }
            i += 1;
        }
        proof {
            assert forall|id: Seq<char>|
                self.prefix_has_rel(n as int, id) == self.has_ssot_copy(id) by {}
        }
        let m = self.table.count();
        let mut t: usize = 0;
        while t < m
            invariant
                t <= m,
                self.wf(),
                m == self.table.records.len(),
                forall|id: Seq<char>|
                    #[trigger] count_events(events@, id, ChangeEventType::SsotAdded, None) == (
                    if self.added_cond(id) {
                        1nat
                    } else {
                        0nat
                    }),
                forall|id: Seq<char>|
                    #[trigger] count_events(events@, id, ChangeEventType::SsotModified, None)
                        == (if self.modified_cond(id) {
                        1nat
                    } else {
                        0nat
                    }),
                forall|id: Seq<char>|
                    #[trigger] count_events(events@, id, ChangeEventType::SsotDeleted, None)
                        == (if self.deleted_cond(id) && (exists|j: int|
                        0 <= j < t && (#[trigger] self.table.records[j]).id@ == id) {
                        1nat
                    } else {
                        0nat
                    }),
                forall|id: Seq<char>, app: AppType|
                    count_events(events@, id, ChangeEventType::AppConflict, Some(app)) == 0,
                forall|k: int|
                    0 <= k < events@.len() ==> match (#[trigger] events@[k]).event_type {
                        ChangeEventType::SsotAdded => events@[k].app is None && self.added_cond(
                            events@[k].id@,
                        ),
                        ChangeEventType::SsotModified => events@[k].app is None
                            && self.modified_cond(events@[k].id@),
                        ChangeEventType::SsotDeleted => events@[k].app is None
                            && self.deleted_cond(events@[k].id@),
                        ChangeEventType::AppConflict => false,
                    },
            decreases m - t,
        {
            let id = self.table.records[t].id.clone();
            let rel = self.rel_path(id.as_str());
            let ghost pre_events = events@;
            if !self.ssot.contains(rel.as_str()) {
                proof {
                    let k = choose|k: int|
                        0 <= k < self.table.records.len() && self.table.records[k].id@ == id@;
                    assert(k == t);
                }
                events.push(
                    ChangeEvent { id: id.clone(), event_type: ChangeEventType::SsotDeleted, app: None },
                );
                proof {
                    lemma_count_push(
                        pre_events,
                        ChangeEvent { id: id, event_type: ChangeEventType::SsotDeleted, app: None },
                    );
                    assert forall|q: Seq<char>|
                        #[trigger] count_events(events@, q, ChangeEventType::SsotDeleted, None)
                            == (if self.deleted_cond(q) && (exists|j: int|
                            0 <= j < t + 1 && (#[trigger] self.table.records[j]).id@ == q) {
                            1nat
                        } else {
                            0nat
                        }) by {
                        if q == id@ {
                            assert(self.table.records[t as int].id@ == q);
                        } else if self.deleted_cond(q) && (exists|j: int|
                            0 <= j < t + 1 && (#[trigger] self.table.records[j]).id@ == q) {
                            let j = choose|j: int|
                                0 <= j < t + 1 && (#[trigger] self.table.records[j]).id@ == q;
                            assert(j < t);
                        }
                    }
                }
            } else {
                proof {
                    assert forall|q: Seq<char>|
                        #[trigger] count_events(events@, q, ChangeEventType::SsotDeleted, None)
                            == (if self.deleted_cond(q) && (exists|j: int|
                            0 <= j < t + 1 && (#[trigger] self.table.records[j]).id@ == q) {
                            1nat
                        } else {
                            0nat
                        }) by {
                        if self.deleted_cond(q) && (exists|j: int|
                            0 <= j < t + 1 && (#[trigger] self.table.records[j]).id@ == q) {
                            let j = choose|j: int|
                                0 <= j < t + 1 && (#[trigger] self.table.records[j]).id@ == q;
                            if j == t {
                                assert(self.has_ssot_copy(q));
                            }
                            assert(j < t);
                        }
                    }
                }
            }
            t += 1;
        }
        proof {
            assert forall|id: Seq<char>|
                #[trigger] count_events(events@, id, ChangeEventType::SsotDeleted, None) == (
                if self.deleted_cond(id) {
                    1nat
                } else {
                    0nat
                }) by {
                if self.deleted_cond(id) {
                    let k = choose|k: int|
                        0 <= k < self.table.records.len() && self.table.records[k].id@ == id;
                    assert(0 <= k < m && self.table.records[k].id@ == id);
                }
            }
        }
        let mut c: usize = 0;
        while c < m
            invariant
                c <= m,
                self.wf(),
                m == self.table.records.len(),
                forall|id: Seq<char>|
                    #[trigger] count_events(events@, id, ChangeEventType::SsotAdded, None) == (
                    if self.added_cond(id) {
                        1nat
                    } else {
                        0nat
                    }),
                forall|id: Seq<char>|
                    #[trigger] count_events(events@, id, ChangeEventType::SsotModified, None)
                        == (if self.modified_cond(id) {
                        1nat
                    } else {
                        0nat
                    }),
                forall|id: Seq<char>|
                    #[trigger] count_events(events@, id, ChangeEventType::SsotDeleted, None)
                        == (if self.deleted_cond(id) {
                        1nat
                    } else {
                        0nat
                    }),
                forall|id: Seq<char>, app: AppType|
                    #[trigger] count_events(events@, id, ChangeEventType::AppConflict, Some(app))
                        == (if self.conflict_cond(id, app) && (exists|j: int|
                        0 <= j < c && (#[trigger] self.table.records[j]).id@ == id) {
                        1nat
                    } else {
                        0nat
                    }),
                forall|k: int|
                    0 <= k < events@.len() ==> match (#[trigger] events@[k]).event_type {
                        ChangeEventType::SsotAdded => events@[k].app is None && self.added_cond(
                            events@[k].id@,
                        ),
                        ChangeEventType::SsotModified => events@[k].app is None
                            && self.modified_cond(events@[k].id@),
                        ChangeEventType::SsotDeleted => events@[k].app is None
                            && self.deleted_cond(events@[k].id@),
                        ChangeEventType::AppConflict => events@[k].app matches Some(a)
                            && self.conflict_cond(events@[k].id@, a),
                    },
            decreases m - c,
        {
            let id = self.table.records[c].id.clone();
            proof {
                let k = choose|k: int|
                    0 <= k < self.table.records.len() && self.table.records[k].id@ == id@;
                assert(k == c);
            }
            self.conflict_scan(&mut events, id.as_str(), &AppType::Scribe, Ghost(c as int));
            self.conflict_scan(&mut events, id.as_str(), &AppType::Codex, Ghost(c as int));
            self.conflict_scan(&mut events, id.as_str(), &AppType::Gemini, Ghost(c as int));
            proof {
                assert forall|q: Seq<char>, app: AppType|
                    #[trigger] count_events(events@, q, ChangeEventType::AppConflict, Some(app))
                        == (if self.conflict_cond(q, app) && (exists|j: int|
                        0 <= j < c + 1 && (#[trigger] self.table.records[j]).id@ == q) {
                        1nat
                    } else {
                        0nat
                    }) by {
                    if q == id@ {
                        assert(self.table.records[c as int].id@ == q);
                        match app {
                            AppType::Scribe => {},
                            AppType::Codex => {},
                            AppType::Gemini => {},
                        }
                    } else {
                        if self.conflict_cond(q, app) && (exists|j: int|
                            0 <= j < c + 1 && (#[trigger] self.table.records[j]).id@ == q) {
                            let j = choose|j: int|
                                0 <= j < c + 1 && (#[trigger] self.table.records[j]).id@ == q;
                            assert(j < c);
                        }
                    }
                }
            }
            c += 1;
        }
        proof {
            assert forall|id: Seq<char>, app: AppType|
                #[trigger] count_events(events@, id, ChangeEventType::AppConflict, Some(app))
                    == (if self.conflict_cond(id, app) {
                    1nat
                } else {
                    0nat
                }) by {
                if self.conflict_cond(id, app) {
                    let k = choose|k: int|
                        0 <= k < self.table.records.len() && self.table.records[k].id@ == id;
                    assert(0 <= k < m && self.table.records[k].id@ == id);
                }
            }
        }
        events
    }

    /// Append the conflict event of one `(resource, application)` pair
    /// when its projected copy's hash differs from the SSOT copy's.
    fn conflict_scan(
        &self,
        events: &mut Vec<ChangeEvent>,
        id: &str,
        app: &AppType,
        position: Ghost<int>,
    )
        requires
            self.wf(),
            self.table.spec_has(id@),
        ensures
            final(events)@ == (if self.conflict_cond(id@, *app) {
                old(events)@.push(
                    ChangeEvent {
                        id: final(events)@.last().id,
                        event_type: ChangeEventType::AppConflict,
                        app: Some(*app),
                    },
                )
            } else {
                old(events)@
            }),
            self.conflict_cond(id@, *app) ==> final(events)@.len() == old(events)@.len() + 1
                && final(events)@.last().id@ == id@ && final(events)@.last().event_type
                == ChangeEventType::AppConflict && final(events)@.last().app == Some(*app),
            forall|q: Seq<char>, et: ChangeEventType, a: Option<AppType>|
                #[trigger] count_events(final(events)@, q, et, a) == count_events(
                    old(events)@,
                    q,
                    et,
                    a,
                ) + (if self.conflict_cond(id@, *app) && q == id@ && et
                    == ChangeEventType::AppConflict && a == Some(*app) {
                    1nat
                } else {
                    0nat
                }),
    {
        let rel = self.rel_path(id);
        let enabled = match self.table.get(id) {
            Some(rec) => rec.apps.is_enabled_for(app),
            None => false,
        };
        if !enabled {
            return ;
        }
        let ssot_content = match self.ssot.get(rel.as_str()) {
            Some(content) => content,
            None => {
                return ;
            },
        };
        let app_content = match app {
            AppType::Scribe => self.scribe_files.get(rel.as_str()),
            AppType::Codex => self.codex_files.get(rel.as_str()),
            AppType::Gemini => self.gemini_files.get(rel.as_str()),
        };
        let app_content = match app_content {
            Some(content) => content,
            None => {
                return ;
            },
        };
        let ssot_hash = compute_hash(ssot_content.as_str());
        let app_hash = compute_hash(app_content.as_str());
        if !eq_str(app_hash.as_str(), ssot_hash.as_str()) {
            let ghost pre = events@;
            events.push(
                ChangeEvent {
                    id: String::from_str(id),
                    event_type: ChangeEventType::AppConflict,
                    app: Some(*app),
                },
            );
            proof {
                lemma_count_push(pre, events@.last());
            }
        }
    }
}

/// On a backslash-free path carrying the kind's extension, stripping the
/// extension and appending it again gives the path back.
proof fn lemma_path_round_trip_engine(kind: ResourceType, path: Seq<char>)
    requires
        crate::strutil::spec_ends_with(path, seq!['.'] + kind.spec_extension()),
        forall|j: int| 0 <= j < path.len() ==> path[j] != '\\',
    ensures
        spec_rel(kind, crate::ident::spec_path_to_id(path, kind.spec_extension())) == path,
{
    crate::ident::lemma_id_round_trip(path, kind.spec_extension());
}

/// Stands where the prefix-scan invariant advances over a recognized
/// resource file.
proof fn lemma_prefix_step(s: &SyncState, i: int, id: Seq<char>)
    requires
        s.wf(),
        0 <= i < s.ssot.entries.len(),
        s.ssot.entries[i].path@ == spec_rel(s.kind, id),
    ensures
        forall|q: Seq<char>|
            #[trigger] s.prefix_has_rel(i + 1, q) == (s.prefix_has_rel(i, q) || q == id),
{
    assert forall|q: Seq<char>|
        #[trigger] s.prefix_has_rel(i + 1, q) == (s.prefix_has_rel(i, q) || q == id) by {
        if s.prefix_has_rel(i + 1, q) {
            let j = choose|j: int|
                0 <= j < i + 1 && (#[trigger] s.ssot.entries[j]).path@ == spec_rel(s.kind, q);
            if j == i {
                lemma_rel_injective(s.kind, q, id);
            }
        }
        if q == id {
            assert(s.ssot.entries[i].path@ == spec_rel(s.kind, q));
        }
    }
}

} // verus!

use crate::resources::UnmanagedResource;

verus! {

/// Whether `out` reports an unmanaged resource under `id`.
pub open spec fn spec_unmanaged_listed(out: Seq<UnmanagedResource>, id: Seq<char>) -> bool {
    exists|k: int| 0 <= k < out.len() && (#[trigger] out[k]).id@ == id
}

/// Hashes of equal texts are equal: once a projection's bytes mirror the
/// SSOT copy's, their content hashes agree.
pub proof fn lemma_projection_hashes_agree(s: SyncState, id: Seq<char>, app: AppType)
    requires
        s.has_ssot_copy(id),
        s.has_app_copy(id, app),
        s.app_copy(id, app) == s.ssot_copy(id),
    ensures
        spec_content_hash(s.app_copy(id, app)) == spec_content_hash(s.ssot_copy(id)),
{
}

/// Whether `id` occurs in `ids`.
pub open spec fn spec_id_listed(ids: Seq<Seq<char>>, id: Seq<char>) -> bool {
    exists|k: int| 0 <= k < ids.len() && ids[k] == id
}

impl SyncState {
    /// Migrate a resource between global and project scope: the copies of
    /// the old scope are removed, a copy is placed for the new scope, and
    /// the record follows — sequentially, never both states persisted.
    /// Moving between two scopes needs the SSOT copy; a no-op change of
    /// scope to itself always succeeds.
    pub fn change_scope(
        &mut self,
        id: &str,
        new_scope: &InstallScope,
        current_app: &AppType,
    ) -> (r: Result<(), AppError>)
        requires
            old(self).wf(),
        ensures
            final(self).wf(),
            final(self).kind == old(self).kind,
            final(self).ssot == old(self).ssot,
            r is Err ==> *final(self) == *old(self),
            r is Ok <==> old(self).table.spec_has(id@) && (old(self).table.spec_at(
                id@,
            ).scope.deep_view() == new_scope.deep_view() || old(self).has_ssot_copy(id@)),
            r is Ok && old(self).table.spec_at(id@).scope.deep_view() != new_scope.deep_view()
                ==> {
                &&& final(self).table.spec_at(id@).scope.deep_view() == new_scope.deep_view()
                &&& final(self).table.spec_at(id@) == (InstalledResource {
                    scope: final(self).table.spec_at(id@).scope,
                    ..old(self).table.spec_at(id@)
                })
                &&& (old(self).table.spec_at(id@).scope is Global ==> forall|a: AppType|
                    a != *current_app ==> !final(self).has_app_copy(id@, a))
                &&& (new_scope matches InstallScope::Project(p) ==> final(self).project_files.spec_has(p@ + seq!['/'] + spec_rel(old(self).kind, id@))
                    && final(self).project_files.spec_at(
                    p@ + seq!['/'] + spec_rel(old(self).kind, id@),
                ) == old(self).ssot_copy(id@) && (old(self).table.spec_at(id@).scope is Global
                    ==> forall|a: AppType| !final(self).has_app_copy(id@, a)))
                &&& (new_scope is Global ==> final(self).has_app_copy(id@, *current_app)
                    && final(self).app_copy(id@, *current_app) == old(self).ssot_copy(id@))
            },
            r is Ok && old(self).table.spec_at(id@).scope.deep_view() == new_scope.deep_view()
                ==> *final(self) == *old(self),
            forall|q: Seq<char>| final(self).table.spec_has(q) == old(self).table.spec_has(q),
            forall|q: Seq<char>|
                q != id@ && old(self).table.spec_has(q) ==> final(self).table.spec_at(q) == old(self).table.spec_at(q),
    {
        let same = match self.table.get(id) {
            Some(rec) => Some(rec.scope.same_as(new_scope)),
            None => None,
        };
        let same = match same {
            Some(s) => s,
            None => {
                return Err(AppError::NotFound(String::from_str(id)));
            },
        };
        if same {
            return Ok(());
        }
        let rel = self.rel_path(id);
        if !self.ssot.contains(rel.as_str()) {
            return Err(AppError::NotFound(String::from_str(id)));
        }
        let old_project: Option<String> = match self.table.get(id) {
            Some(rec) => match &rec.scope {
                InstallScope::Global => None,
                InstallScope::Project(p) => Some(p.clone()),
            },
            None => None,
        };
        match old_project {
            None => {
                self.remove_from_app(id, &AppType::Scribe);
                self.remove_from_app(id, &AppType::Codex);
                self.remove_from_app(id, &AppType::Gemini);
            },
            Some(p) => {
                let mut key = p;
                push_char(&mut key, '/');
                key.append(rel.as_str());
                self.project_files.remove(key.as_str());
            },
        }
        match new_scope {
            InstallScope::Global => {
                let outcome = self.copy_to_app(id, current_app);
                proof {
                    assert(outcome is Ok);
                }
            },
            InstallScope::Project(p) => {
                let content = match self.ssot.get(rel.as_str()) {
                    Some(content) => content.clone(),
                    None => {
                        proof {
                            assert(false);
                        }
                        String::new()
                    },
                };
                let mut key = p.clone();
                push_char(&mut key, '/');
                key.append(rel.as_str());
                assert(key@ =~= p@ + seq!['/'] + rel@);
                self.project_files.put(key.as_str(), content.as_str());
            },
        }
        let scope_copy = match new_scope {
            InstallScope::Global => InstallScope::Global,
            InstallScope::Project(p) => InstallScope::Project(p.clone()),
        };
        self.table.update_scope(id, scope_copy);
        Ok(())
    }

    /// The names of the applications holding a projected copy of `id`,
    /// in the fixed application order.
    pub open spec fn spec_found_in(&self, id: Seq<char>) -> Seq<Seq<char>> {
        (if self.has_app_copy(id, AppType::Scribe) {
            seq!["scribe"@]
        } else {
            Seq::<Seq<char>>::empty()
        }) + (if self.has_app_copy(id, AppType::Codex) {
            seq!["codex"@]
        } else {
            Seq::<Seq<char>>::empty()
        }) + (if self.has_app_copy(id, AppType::Gemini) {
            seq!["gemini"@]
        } else {
            Seq::<Seq<char>>::empty()
        })
    }

    /// Which applications hold a copy of `id`, as displayable names.
    fn found_in(&self, id: &str) -> (r: Vec<String>)
        requires
            self.wf(),
        ensures
            r.deep_view() == self.spec_found_in(id@),
            r@.len() > 0 <==> exists|a: AppType| self.has_app_copy(id@, a),
    {
        let rel = self.rel_path(id);
        let mut out: Vec<String> = Vec::new();
        if self.scribe_files.contains(rel.as_str()) {
            out.push(String::from_str(AppType::Scribe.as_str()));
        }
        if self.codex_files.contains(rel.as_str()) {
            out.push(String::from_str(AppType::Codex.as_str()));
        }
        if self.gemini_files.contains(rel.as_str()) {
            out.push(String::from_str(AppType::Gemini.as_str()));
        }
        proof {
            assert(out.deep_view() =~= self.spec_found_in(id@));
            if out@.len() > 0 {
                assert(exists|a: AppType| self.has_app_copy(id@, a)) by {
                    if self.has_app_copy(id@, AppType::Scribe) {
                    } else if self.has_app_copy(id@, AppType::Codex) {
                    } else {
                        assert(self.has_app_copy(id@, AppType::Gemini));
                    }
                }
            }
            if exists|a: AppType| self.has_app_copy(id@, a) {
                let a = choose|a: AppType| self.has_app_copy(id@, a);
                match a {
                    AppType::Scribe => {},
                    AppType::Codex => {},
                    AppType::Gemini => {},
                }
                assert(out@.len() > 0);
            }
        }
        out
    }

    /// Whether the file at position `j` of `a`'s tree is an unmanaged
    /// resource file: it carries the kind's extension, holds no
    /// backslash, and its identifier has no record.
    pub open spec fn spec_unmanaged_file(&self, a: AppType, j: int) -> bool {
        let path = self.spec_app_files(a).entries[j].path@;
        &&& crate::strutil::spec_ends_with(path, seq!['.'] + self.kind.spec_extension())
        &&& (forall|c: int| 0 <= c < path.len() ==> path[c] != '\\')
        &&& !self.table.spec_has(crate::ident::spec_path_to_id(path, self.kind.spec_extension()))
    }

    /// Find the resources of this kind lying in application trees with no
    /// record: each reported once, with the applications it was found in;
    /// every unmanaged resource file of every tree is reported.
    pub fn scan_unmanaged(&self) -> (r: Vec<UnmanagedResource>)
        requires
            self.wf(),
        ensures
            forall|a: int, b: int| 0 <= a < b < r@.len() ==> (#[trigger] r@[a]).id@ != (
            #[trigger] r@[b]).id@,
            forall|k: int|
                0 <= k < r@.len() ==> !self.table.spec_has((#[trigger] r@[k]).id@) && (
                exists|a: AppType| self.has_app_copy(r@[k].id@, a)) && r@[k].found_in.deep_view()
                    == self.spec_found_in(r@[k].id@) && r@[k].namespace@ == spec_namespace_of(
                    r@[k].id@,
                ) && r@[k].filename@ == spec_filename_of(r@[k].id@),
            forall|a: AppType, j: int|
                0 <= j < self.spec_app_files(a).entries.len() && self.spec_unmanaged_file(
                    a,
                    j,
                ) ==> spec_unmanaged_listed(
                    r@,
                    crate::ident::spec_path_to_id(
                        (#[trigger] self.spec_app_files(a).entries[j]).path@,
                        self.kind.spec_extension(),
                    ),
                ),
    {
        let mut out: Vec<UnmanagedResource> = Vec::new();
        self.scan_store_unmanaged(&mut out, &AppType::Scribe);
        let ghost o1 = out@;
        self.scan_store_unmanaged(&mut out, &AppType::Codex);
        let ghost o2 = out@;
        self.scan_store_unmanaged(&mut out, &AppType::Gemini);
        proof {
            assert forall|a: AppType, j: int|
                0 <= j < self.spec_app_files(a).entries.len() && self.spec_unmanaged_file(
                    a,
                    j,
                ) implies spec_unmanaged_listed(
                out@,
                crate::ident::spec_path_to_id(
                    (#[trigger] self.spec_app_files(a).entries[j]).path@,
                    self.kind.spec_extension(),
                ),
            ) by {
                let id = crate::ident::spec_path_to_id(
                    self.spec_app_files(a).entries[j].path@,
                    self.kind.spec_extension(),
                );
                match a {
                    AppType::Scribe => {
                        let k = choose|k: int|
                            0 <= k < o1.len() && (#[trigger] o1[k]).id@ == id;
                        assert(out@[k].id@ == id);
                    },
                    AppType::Codex => {
                        let k = choose|k: int|
                            0 <= k < o2.len() && (#[trigger] o2[k]).id@ == id;
                        assert(out@[k].id@ == id);
                    },
                    AppType::Gemini => {},
                }
            }
        }
        out
    }

    /// Collect the unmanaged resources of one application tree into
    /// `out`, skipping identifiers already collected.
    fn scan_store_unmanaged(&self, out: &mut Vec<UnmanagedResource>, app: &AppType)
        requires
            self.wf(),
            forall|a: int, b: int|
                0 <= a < b < old(out)@.len() ==> (#[trigger] old(out)@[a]).id@ != (
                #[trigger] old(out)@[b]).id@,
            forall|k: int|
                0 <= k < old(out)@.len() ==> !self.table.spec_has((#[trigger] old(out)@[k]).id@)
                    && (exists|a: AppType| self.has_app_copy(old(out)@[k].id@, a)) && old(out)@[k].found_in.deep_view() == self.spec_found_in(old(out)@[k].id@) && old(out)@[k].namespace@ == spec_namespace_of(old(out)@[k].id@) && old(out)@[k].filename@ == spec_filename_of(old(out)@[k].id@),
        ensures
            forall|a: int, b: int|
                0 <= a < b < final(out)@.len() ==> (#[trigger] final(out)@[a]).id@ != (
                #[trigger] final(out)@[b]).id@,
            forall|k: int|
                0 <= k < final(out)@.len() ==> !self.table.spec_has(
                    (#[trigger] final(out)@[k]).id@,
                ) && (exists|a: AppType| self.has_app_copy(final(out)@[k].id@, a)) && final(out)@[k].found_in.deep_view() == self.spec_found_in(final(out)@[k].id@) && final(out)@[k].namespace@ == spec_namespace_of(final(out)@[k].id@) && final(out)@[k].filename@ == spec_filename_of(final(out)@[k].id@),
            final(out)@.len() >= old(out)@.len(),
            forall|k: int|
                0 <= k < old(out)@.len() ==> #[trigger] final(out)@[k] == old(out)@[k],
            forall|j: int|
                0 <= j < self.spec_app_files(*app).entries.len() && self.spec_unmanaged_file(
                    *app,
                    j,
                ) ==> spec_unmanaged_listed(
                    final(out)@,
                    crate::ident::spec_path_to_id(
                        (#[trigger] self.spec_app_files(*app).entries[j]).path@,
                        self.kind.spec_extension(),
                    ),
                ),
    {
        let store: &FileStore = match app {
            AppType::Scribe => &self.scribe_files,
            AppType::Codex => &self.codex_files,
            AppType::Gemini => &self.gemini_files,
        };
        let mut suffix = String::new();
        push_char(&mut suffix, '.');
        suffix.append(self.kind.extension());
        proof {
            assert(suffix@ =~= seq!['.'] + self.kind.spec_extension());
        }
        let n = store.count();
        let mut i: usize = 0;
        while i < n
            invariant
                i <= n,
                self.wf(),
                n == store.entries.len(),
                store == self.spec_app_files(*app),
                suffix@ == seq!['.'] + self.kind.spec_extension(),
                out@.len() >= old(out)@.len(),
                forall|k: int|
                    0 <= k < old(out)@.len() ==> #[trigger] out@[k] == old(out)@[k],
                forall|a: int, b: int|
                    0 <= a < b < out@.len() ==> (#[trigger] out@[a]).id@ != (
                    #[trigger] out@[b]).id@,
                forall|k: int|
                    0 <= k < out@.len() ==> !self.table.spec_has((#[trigger] out@[k]).id@) && (
                    exists|a: AppType| self.has_app_copy(out@[k].id@, a)) && out@[k].found_in
                        .deep_view() == self.spec_found_in(out@[k].id@) && out@[k].namespace@
                        == spec_namespace_of(out@[k].id@) && out@[k].filename@
                        == spec_filename_of(out@[k].id@),
                forall|j: int|
                    0 <= j < i && self.spec_unmanaged_file(*app, j) ==> spec_unmanaged_listed(
                        out@,
                        crate::ident::spec_path_to_id(
                            (#[trigger] self.spec_app_files(*app).entries[j]).path@,
                            self.kind.spec_extension(),
                        ),
                    ),
            decreases n - i,
        {
            let path = store.path_at(i).clone();
            proof {
                assert(store.entries[i as int].path@ == path@);
            }
            if !ends_with_str(path.as_str(), suffix.as_str()) {
                proof {
                    assert(!self.spec_unmanaged_file(*app, i as int));
                }
                i += 1;
                continue ;
            }
            if crate::strutil::find_char(path.as_str(), '\\').is_some() {
                proof {
                    assert(!self.spec_unmanaged_file(*app, i as int));
                }
                i += 1;
                continue ;
            }
            let id = relative_path_to_id(path.as_str(), self.kind.extension());
            proof {
                lemma_path_round_trip_engine(self.kind, path@);
                assert(spec_rel(self.kind, id@) == path@);
                assert(self.spec_app_files(*app).spec_has(path@));
            }
            let mut already = false;
            let m = out.len();
            let mut k: usize = 0;
            while k < m
                invariant
                    k <= m,
                    m == out@.len(),
                    already ==> exists|j: int| 0 <= j < m && (#[trigger] out@[j]).id@ == id@,
                    !already ==> forall|j: int| 0 <= j < k ==> (#[trigger] out@[j]).id@ != id@,
                decreases m - k,
            {
                if eq_str(out[k].id.as_str(), id.as_str()) {
                    already = true;
                }
                k += 1;
            }
            if already {
                proof {
                    assert(spec_unmanaged_listed(out@, id@));
                }
                i += 1;
                continue ;
            }
            if self.table.get(id.as_str()).is_some() {
                proof {
                    assert(!self.spec_unmanaged_file(*app, i as int));
                }
                i += 1;
                continue ;
            }
            let (namespace, filename) = parse_id(id.as_str());
            let found_in = self.found_in(id.as_str());
            let name = filename.clone();
            let ghost prev = out@;
            out.push(
                UnmanagedResource {
                    id: id.clone(),
                    namespace,
                    filename,
                    name,
                    description: None,
                    found_in,
                },
            );
            proof {
                assert(self.spec_app_files(*app).spec_has(path@));
                assert(self.has_app_copy(id@, *app));
                assert(exists|a: AppType| self.has_app_copy(id@, a));
                assert(out@[out@.len() - 1].id@ == id@);
                assert(out@[out@.len() - 1].found_in.deep_view() == self.spec_found_in(id@));
                assert(out@[out@.len() - 1].namespace@ == spec_namespace_of(id@));
                assert(out@[out@.len() - 1].filename@ == spec_filename_of(id@));
                assert(!self.table.spec_has(id@));
                assert(spec_unmanaged_listed(out@, id@));
                assert forall|k2: int|
                    0 <= k2 < out@.len() implies !self.table.spec_has(
                    (#[trigger] out@[k2]).id@,
                ) && (exists|a: AppType| self.has_app_copy(out@[k2].id@, a)) && out@[k2]
                    .found_in.deep_view() == self.spec_found_in(out@[k2].id@) && out@[k2]
                    .namespace@ == spec_namespace_of(out@[k2].id@) && out@[k2].filename@
                    == spec_filename_of(out@[k2].id@) by {
                    if k2 < out@.len() - 1 {
                        assert(out@[k2] == prev[k2]);
                    }
                }
                assert forall|j: int|
                    0 <= j < i + 1 && self.spec_unmanaged_file(*app, j) implies
                    spec_unmanaged_listed(
                    out@,
                    crate::ident::spec_path_to_id(
                        (#[trigger] self.spec_app_files(*app).entries[j]).path@,
                        self.kind.spec_extension(),
                    ),
                ) by {
                    if j < i {
                        let jid = crate::ident::spec_path_to_id(
                            self.spec_app_files(*app).entries[j].path@,
                            self.kind.spec_extension(),
                        );
                        let k2 = choose|k2: int|
                            0 <= k2 < prev.len() && (#[trigger] prev[k2]).id@ == jid;
                        assert(out@[k2].id@ == jid);
                    }
                }
            }
            i += 1;
        }
    }
}

} // verus!

verus! {

/// How many of `ids` have a copy in some application tree of `st`./// How many of `ids` have a copy in some application tree of `st`.
pub open spec fn count_importable(ids: Seq<Seq<char>>, st: SyncState) -> nat
    decreases ids.len(),
{
    if ids.len() == 0 {
        0
    } else {
        count_importable(ids.drop_last(), st) + (if exists|a: AppType|
            st.has_app_copy(ids.last(), a) {
            1nat
        } else {
            0nat
        })
    }
}

impl SyncState {
    /// The text an import takes for `id`: the standing SSOT copy when one
    /// exists, else the first application copy in application order.
    pub open spec fn spec_import_source(&self, id: Seq<char>) -> Seq<char> {
        if self.has_ssot_copy(id) {
            self.ssot_copy(id)
        } else if self.has_app_copy(id, AppType::Scribe) {
            self.app_copy(id, AppType::Scribe)
        } else if self.has_app_copy(id, AppType::Codex) {
            self.app_copy(id, AppType::Codex)
        } else {
            self.app_copy(id, AppType::Gemini)
        }
    }

    /// Bring resources found in application trees under management: for
    /// each named identifier with a copy in some application, the first
    /// found copy is placed under the SSOT (unless the SSOT already has
    /// one), its metadata is parsed, and a record is stored whose flags
    /// mark exactly the applications holding a copy.  Identifiers with no
    /// copy anywhere are skipped.  Reports how many were imported.
    pub fn import_from_apps(&mut self, ids: &Vec<String>) -> (r: usize)
        requires
            old(self).wf(),
            old(self).kind == ResourceType::Command || old(self).kind == ResourceType::Agent,
            forall|a: int, b: int| 0 <= a < b < ids@.len() ==> ids@[a]@ != ids@[b]@,
            forall|k: int, j: int|
                0 <= k < ids@.len() && 0 <= j < ids@[k]@.len() ==> #[trigger] ids@[k]@[j]
                    != '\\',
        ensures
            final(self).wf(),
            final(self).kind == old(self).kind,
            final(self).scribe_files == old(self).scribe_files,
            final(self).codex_files == old(self).codex_files,
            final(self).gemini_files == old(self).gemini_files,
            final(self).project_files == old(self).project_files,
            r == count_importable(ids.deep_view(), *old(self)),
            forall|k: int|
                #![trigger ids@[k]]
                0 <= k < ids@.len() && (exists|a: AppType| old(self).has_app_copy(
                    ids@[k]@,
                    a,
                )) ==> {
                    let id = ids@[k]@;
                    let eff = old(self).spec_import_source(id);
                    let rec = final(self).table.spec_at(id);
                    &&& final(self).has_ssot_copy(id)
                    &&& final(self).ssot_copy(id) == eff
                    &&& final(self).table.spec_has(id)
                    &&& rec.id@ == id
                    &&& rec.namespace@ == spec_namespace_of(id)
                    &&& rec.filename@ == spec_filename_of(id)
                    &&& (forall|a: AppType| rec.apps.spec_enabled_for(a) == old(self).has_app_copy(id, a))
                    &&& (rec.file_hash matches Some(h) && h@ == spec_content_hash(eff))
                    &&& rec.repo_owner is None
                    &&& rec.source_path is None
                    &&& rec.scope is Global
                    &&& rec.name@ == spec_str_or(
                        (if old(self).kind == ResourceType::Command {
                            crate::parse::spec_command_meta(eff).0
                        } else {
                            crate::parse::spec_agent_meta(eff).0
                        }),
                        spec_filename_of(id),
                    )
                },
            forall|k: int|
                #![trigger ids@[k]]
                0 <= k < ids@.len() && !(exists|a: AppType| old(self).has_app_copy(
                    ids@[k]@,
                    a,
                )) ==> final(self).table.spec_has(ids@[k]@) == old(self).table.spec_has(
                    ids@[k]@,
                ) && final(self).ssot.spec_has(spec_rel(old(self).kind, ids@[k]@)) == old(self).ssot.spec_has(spec_rel(old(self).kind, ids@[k]@)),
            forall|q: Seq<char>|
                !spec_id_listed(ids.deep_view(), q) ==> final(self).table.spec_has(q) == old(self).table.spec_has(q),
            forall|q: Seq<char>|
                !spec_id_listed(ids.deep_view(), q) && old(self).table.spec_has(q) ==> final(self).table.spec_at(q) == old(self).table.spec_at(q),
            forall|q: Seq<char>|
                (forall|k: int|
                    0 <= k < ids@.len() ==> q != spec_rel(old(self).kind, (#[trigger] ids@[k])@))
                    ==> final(self).ssot.spec_has(q) == old(self).ssot.spec_has(q) && (old(self).ssot.spec_has(q) ==> final(self).ssot.spec_at(q) == old(self).ssot.spec_at(
                    q,
                )),
    {
        let n = ids.len();
        let mut imported: usize = 0;
        let mut i: usize = 0;
        proof {
            assert(ids.deep_view().subrange(0, 0) =~= Seq::<Seq<char>>::empty());
        }
        while i < n
            invariant
                i <= n,
                imported <= i,
                n == ids@.len(),
                self.wf(),
                self.kind == old(self).kind,
                old(self).kind == ResourceType::Command || old(self).kind
                    == ResourceType::Agent,
                self.scribe_files == old(self).scribe_files,
                self.codex_files == old(self).codex_files,
                self.gemini_files == old(self).gemini_files,
                self.project_files == old(self).project_files,
                forall|a: int, b: int| 0 <= a < b < ids@.len() ==> ids@[a]@ != ids@[b]@,
                forall|k: int, j: int|
                    0 <= k < ids@.len() && 0 <= j < ids@[k]@.len() ==> #[trigger] ids@[k]@[j]
                        != '\\',
                imported == count_importable(ids.deep_view().subrange(0, i as int), *old(self)),
                forall|k: int|
                    #![trigger ids@[k]]
                    0 <= k < i && (exists|a: AppType| old(self).has_app_copy(ids@[k]@, a))
                        ==> {
                        let id = ids@[k]@;
                        let eff = old(self).spec_import_source(id);
                        let rec = self.table.spec_at(id);
                        &&& self.has_ssot_copy(id)
                        &&& self.ssot_copy(id) == eff
                        &&& self.table.spec_has(id)
                        &&& rec.id@ == id
                        &&& rec.namespace@ == spec_namespace_of(id)
                        &&& rec.filename@ == spec_filename_of(id)
                        &&& (forall|a: AppType| rec.apps.spec_enabled_for(a) == old(self).has_app_copy(id, a))
                        &&& (rec.file_hash matches Some(h) && h@ == spec_content_hash(eff))
                        &&& rec.repo_owner is None
                        &&& rec.source_path is None
                        &&& rec.scope is Global
                        &&& rec.name@ == spec_str_or(
                            (if old(self).kind == ResourceType::Command {
                                crate::parse::spec_command_meta(eff).0
                            } else {
                                crate::parse::spec_agent_meta(eff).0
                            }),
                            spec_filename_of(id),
                        )
                    },
                forall|k: int|
                    #![trigger ids@[k]]
                    i <= k < ids@.len() ==> self.table.spec_has(ids@[k]@) == old(self).table.spec_has(ids@[k]@) && (old(self).table.spec_has(ids@[k]@)
                        ==> self.table.spec_at(ids@[k]@) == old(self).table.spec_at(ids@[k]@))
                        && self.ssot.spec_has(spec_rel(old(self).kind, ids@[k]@)) == old(self).ssot.spec_has(spec_rel(old(self).kind, ids@[k]@)) && (old(self).ssot.spec_has(spec_rel(old(self).kind, ids@[k]@)) ==> self.ssot.spec_at(
                        spec_rel(old(self).kind, ids@[k]@),
                    ) == old(self).ssot.spec_at(spec_rel(old(self).kind, ids@[k]@))),
                forall|k: int|
                    #![trigger ids@[k]]
                    0 <= k < i && !(exists|a: AppType| old(self).has_app_copy(ids@[k]@, a))
                        ==> self.table.spec_has(ids@[k]@) == old(self).table.spec_has(ids@[k]@)
                        && self.ssot.spec_has(spec_rel(old(self).kind, ids@[k]@)) == old(
                        self,
                    ).ssot.spec_has(spec_rel(old(self).kind, ids@[k]@)),
                forall|q: Seq<char>|
                    !spec_id_listed(ids.deep_view(), q) ==> self.table.spec_has(q) == old(self).table.spec_has(q),
                forall|q: Seq<char>|
                    !spec_id_listed(ids.deep_view(), q) && old(self).table.spec_has(q)
                        ==> self.table.spec_at(q) == old(self).table.spec_at(q),
                forall|q: Seq<char>|
                    (forall|k: int|
                        0 <= k < ids@.len() ==> q != spec_rel(
                            old(self).kind,
                            (#[trigger] ids@[k])@,
                        )) ==> self.ssot.spec_has(q) == old(self).ssot.spec_has(q) && (old(self).ssot.spec_has(q) ==> self.ssot.spec_at(q) == old(self).ssot.spec_at(q)),
            decreases n - i,
        {
            let id = ids[i].clone();
            let ghost idv = id@;
            let ghost pre = *self;
            proof {
                assert(ids.deep_view().subrange(0, i + 1).drop_last() =~= ids.deep_view()
                    .subrange(0, i as int));
                assert(ids.deep_view().subrange(0, i + 1).last() == ids@[i as int]@);
                assert(ids.deep_view()[i as int] == ids@[i as int]@);
            }
            let rel = self.rel_path(id.as_str());
            let in_scribe = self.scribe_files.contains(rel.as_str());
            let in_codex = self.codex_files.contains(rel.as_str());
            let in_gemini = self.gemini_files.contains(rel.as_str());
            let source: Option<String> = if in_scribe {
                match self.scribe_files.get(rel.as_str()) {
                    Some(c) => Some(c.clone()),
                    None => None,
                }
            } else if in_codex {
                match self.codex_files.get(rel.as_str()) {
                    Some(c) => Some(c.clone()),
                    None => None,
                }
            } else if in_gemini {
                match self.gemini_files.get(rel.as_str()) {
                    Some(c) => Some(c.clone()),
                    None => None,
                }
            } else {
                None
            };
            proof {
                assert(in_scribe == pre.has_app_copy(idv, AppType::Scribe));
                assert(in_codex == pre.has_app_copy(idv, AppType::Codex));
                assert(in_gemini == pre.has_app_copy(idv, AppType::Gemini));
            }
            match source {
                None => {
                    proof {
                        assert(!(exists|a: AppType| pre.has_app_copy(idv, a))) by {
                            if exists|a: AppType| pre.has_app_copy(idv, a) {
                                let a = choose|a: AppType| pre.has_app_copy(idv, a);
                                match a {
                                    AppType::Scribe => {
                                        assert(in_scribe);
                                    },
                                    AppType::Codex => {
                                        assert(in_codex);
                                    },
                                    AppType::Gemini => {
                                        assert(in_gemini);
                                    },
                                }
                            }
                        }
                        assert forall|a: AppType|
                            !old(self).has_app_copy(idv, a) by {
                            assert(!pre.has_app_copy(idv, a));
                        }
                    }
                },
                Some(found) => {
                    proof {
                        assert(in_scribe || in_codex || in_gemini);
                        assert(exists|a: AppType| old(self).has_app_copy(idv, a)) by {
                            if in_scribe {
                                assert(old(self).has_app_copy(idv, AppType::Scribe));
                            } else if in_codex {
                                assert(old(self).has_app_copy(idv, AppType::Codex));
                            } else {
                                assert(old(self).has_app_copy(idv, AppType::Gemini));
                            }
                        }
                    }
                    if !self.ssot.contains(rel.as_str()) {
                        self.ssot.put(rel.as_str(), found.as_str());
                        proof {
                            assert forall|a: int, j: int|
                                0 <= a < self.ssot.entries.len() && 0 <= j
                                    < self.ssot.entries[a].path@.len() implies #[trigger] self
                                .ssot.entries[a].path@[j] != '\\' by {
                                if self.ssot.entries[a].path@ == rel@ {
                                    assert(rel@ == idv + seq!['.']
                                        + self.kind.spec_extension());
                                    if j < idv.len() {
                                        assert(rel@[j] == idv[j]);
                                        assert(ids@[i as int]@[j] != '\\');
                                    } else if j == idv.len() {
                                        assert(rel@[j] == '.');
                                    } else {
                                        proof_extension_no_backslash(
                                            self.kind,
                                            j - idv.len() - 1,
                                        );
                                        assert(rel@[j] == self.kind.spec_extension()[j
                                            - idv.len() - 1]);
                                    }
                                } else {
                                    assert(pre.ssot.spec_has(self.ssot.entries[a].path@));
                                    let k = choose|k: int|
                                        0 <= k < pre.ssot.entries.len()
                                            && pre.ssot.entries[k].path@
                                            == self.ssot.entries[a].path@;
                                    assert(pre.ssot.entries[k].path@[j] != '\\');
                                }
                            }
                        }
                    }
                    let eff = match self.ssot.get(rel.as_str()) {
                        Some(c) => c.clone(),
                        None => {
                            proof {
                                assert(false);
                            }
                            String::new()
                        },
                    };
                    let file_hash = compute_hash(eff.as_str());
                    let (namespace, filename) = parse_id(id.as_str());
                    let apps = AppFlags {
                        scribe: self.scribe_files.contains(rel.as_str()),
                        codex: self.codex_files.contains(rel.as_str()),
                        gemini: self.gemini_files.contains(rel.as_str()),
                    };
                    let mut rec = InstalledResource {
                        id: id.clone(),
                        name: filename.clone(),
                        description: None,
                        namespace,
                        filename,
                        directory: String::new(),
                        category: None,
                        allowed_tools: None,
                        model: None,
                        event_type: crate::resources::HookEventType::PreToolUse,
                        rules_json: String::new(),
                        enabled: true,
                        priority: 100,
                        repo_owner: None,
                        repo_name: None,
                        repo_branch: None,
                        readme_url: None,
                        source_path: None,
                        apps,
                        file_hash: Some(file_hash),
                        installed_at: 0,
                        scope: InstallScope::Global,
                    };
                    match self.kind {
                        ResourceType::Command => {
                            let meta = parse_command_metadata(eff.as_str());
                            rec.name = or_string(meta.name, rec.name);
                            rec.description = meta.description;
                            rec.category = meta.category;
                            rec.allowed_tools = meta.allowed_tools;
                        },
                        _ => {
                            let meta = parse_agent_metadata(eff.as_str());
                            rec.name = or_string(meta.name, rec.name);
                            rec.description = meta.description;
                            rec.model = meta.model;
                            rec.allowed_tools = meta.tools;
                        },
                    }
                    self.table.save(rec);
                    imported += 1;
                    if imported > i {
                        imported = i + 1;
                    }
                },
            }
            proof {
                assert forall|k: int|
                    #![trigger ids@[k]]
                    0 <= k < i + 1 && (exists|a: AppType| old(self).has_app_copy(
                        ids@[k]@,
                        a,
                    )) implies {
                    let id2 = ids@[k]@;
                    let eff2 = old(self).spec_import_source(id2);
                    let rec2 = self.table.spec_at(id2);
                    &&& self.has_ssot_copy(id2)
                    &&& self.ssot_copy(id2) == eff2
                    &&& self.table.spec_has(id2)
                    &&& rec2.id@ == id2
                    &&& rec2.namespace@ == spec_namespace_of(id2)
                    &&& rec2.filename@ == spec_filename_of(id2)
                    &&& (forall|a: AppType| rec2.apps.spec_enabled_for(a) == old(self).has_app_copy(id2, a))
                    &&& (rec2.file_hash matches Some(h) && h@ == spec_content_hash(eff2))
                    &&& rec2.repo_owner is None
                    &&& rec2.source_path is None
                    &&& rec2.scope is Global
                    &&& rec2.name@ == spec_str_or(
                        (if old(self).kind == ResourceType::Command {
                            crate::parse::spec_command_meta(eff2).0
                        } else {
                            crate::parse::spec_agent_meta(eff2).0
                        }),
                        spec_filename_of(id2),
                    )
                } by {
                    if k < i {
                        assert(ids@[k]@ != idv);
                        if spec_rel(old(self).kind, ids@[k]@) == spec_rel(
                            old(self).kind,
                            idv,
                        ) {
                            lemma_rel_injective(old(self).kind, ids@[k]@, idv);
                        }
                    } else {
                        assert forall|a: AppType|
                            self.table.spec_at(idv).apps.spec_enabled_for(a) == old(self).has_app_copy(idv, a) by {
                            match a {
                                AppType::Scribe => {},
                                AppType::Codex => {},
                                AppType::Gemini => {},
                            }
                        }
                    }
                }
            }
            proof {
                assert forall|k: int|
                    #![trigger ids@[k]]
                    i + 1 <= k < ids@.len() implies self.table.spec_has(ids@[k]@) == old(
                    self,
                ).table.spec_has(ids@[k]@) && (old(self).table.spec_has(ids@[k]@)
                    ==> self.table.spec_at(ids@[k]@) == old(self).table.spec_at(ids@[k]@))
                    && self.ssot.spec_has(spec_rel(old(self).kind, ids@[k]@)) == old(
                    self,
                ).ssot.spec_has(spec_rel(old(self).kind, ids@[k]@)) && (old(
                    self,
                ).ssot.spec_has(spec_rel(old(self).kind, ids@[k]@)) ==> self.ssot.spec_at(
                    spec_rel(old(self).kind, ids@[k]@),
                ) == old(self).ssot.spec_at(spec_rel(old(self).kind, ids@[k]@))) by {
                    assert(ids@[k]@ != idv);
                    if spec_rel(old(self).kind, ids@[k]@) == spec_rel(old(self).kind, idv) {
                        lemma_rel_injective(old(self).kind, ids@[k]@, idv);
                    }
                }
                assert forall|k: int|
                    #![trigger ids@[k]]
                    0 <= k < i + 1 && !(exists|a: AppType| old(self).has_app_copy(
                        ids@[k]@,
                        a,
                    )) implies self.table.spec_has(ids@[k]@) == old(self).table.spec_has(
                    ids@[k]@,
                ) && self.ssot.spec_has(spec_rel(old(self).kind, ids@[k]@)) == old(
                    self,
                ).ssot.spec_has(spec_rel(old(self).kind, ids@[k]@)) by {
                    if k < i {
                        if ids@[k]@ != idv && spec_rel(old(self).kind, ids@[k]@) == spec_rel(
                            old(self).kind,
                            idv,
                        ) {
                            lemma_rel_injective(old(self).kind, ids@[k]@, idv);
                        }
                    }
                }
            }
            i += 1;
        }
        proof {
            assert(ids.deep_view().subrange(0, n as int) =~= ids.deep_view());
        }
        imported
    }
}

} // verus!

verus! {

/// How many records of `s` have an SSOT copy in `st` whose content hash
/// differs from the stored hash.
pub open spec fn count_refresh(s: Seq<InstalledResource>, st: SyncState) -> nat
    decreases s.len(),
{
    if s.len() == 0 {
        0
    } else {
        count_refresh(s.drop_last(), st) + (if st.has_ssot_copy(s.last().id@) && !(
        s.last().file_hash matches Some(h) && h@ == spec_content_hash(
            st.ssot_copy(s.last().id@),
        )) {
            1nat
        } else {
            0nat
        })
    }
}

impl SyncState {
    /// Reconcile the record table with the SSOT tree: a record whose file
    /// is gone is dropped; a record whose file hashes differently from
    /// the stored hash gets its metadata re-parsed from the file and the
    /// new hash stored, while its identity, enablement flags, repository
    /// coordinates and scope are kept.  Reports how many records were
    /// re-read.
    pub fn refresh_from_ssot(&mut self) -> (r: usize)
        requires
            old(self).wf(),
            old(self).kind != ResourceType::Skill,
        ensures
            final(self).wf(),
            final(self).kind == old(self).kind,
            final(self).ssot == old(self).ssot,
            final(self).scribe_files == old(self).scribe_files,
            final(self).codex_files == old(self).codex_files,
            final(self).gemini_files == old(self).gemini_files,
            final(self).project_files == old(self).project_files,
            r == count_refresh(old(self).table.records@, *old(self)),
            forall|id: Seq<char>|
                #[trigger] final(self).table.spec_has(id) == (old(self).table.spec_has(id)
                    && old(self).has_ssot_copy(id)),
            forall|id: Seq<char>|
                #[trigger] final(self).table.spec_has(id) ==> {
                    let rec = final(self).table.spec_at(id);
                    let prior = old(self).table.spec_at(id);
                    &&& (rec.file_hash matches Some(h) && h@ == spec_content_hash(
                        old(self).ssot_copy(id),
                    ))
                    &&& rec.id@ == prior.id@
                    &&& rec.apps == prior.apps
                    &&& opt_same(rec.repo_owner, prior.repo_owner)
                    &&& opt_same(rec.repo_name, prior.repo_name)
                    &&& opt_same(rec.repo_branch, prior.repo_branch)
                    &&& rec.scope.deep_view() == prior.scope.deep_view()
                    &&& rec.namespace@ == prior.namespace@
                    &&& rec.filename@ == prior.filename@
                },
    {
        let ghost orig = *self;
        let n = self.table.count();
        let mut ids: Vec<String> = Vec::new();
        let mut i: usize = 0;
        while i < n
            invariant
                i <= n,
                n == self.table.records.len(),
                ids@.len() == i,
                forall|k: int| 0 <= k < i ==> (#[trigger] ids@[k])@ == self.table.records[k].id@,
            decreases n - i,
        {
            ids.push(self.table.records[i].id.clone());
            i += 1;
        }
        let mut refreshed: usize = 0;
        let mut j: usize = 0;
        proof {
            assert(orig.table.records@.subrange(0, 0) =~= Seq::<InstalledResource>::empty());
        }
        while j < n
            invariant
                j <= n,
                refreshed <= j,
                n == ids@.len(),
                n == orig.table.records.len(),
                orig.wf(),
                orig.kind != ResourceType::Skill,
                self.wf(),
                self.kind == orig.kind,
                self.ssot == orig.ssot,
                self.scribe_files == orig.scribe_files,
                self.codex_files == orig.codex_files,
                self.gemini_files == orig.gemini_files,
                self.project_files == orig.project_files,
                forall|k: int| 0 <= k < n ==> (#[trigger] ids@[k])@ == orig.table.records[k].id@,
                refreshed == count_refresh(orig.table.records@.subrange(0, j as int), orig),
                forall|k: int|
                    #![trigger ids@[k]]
                    0 <= k < j ==> self.table.spec_has(ids@[k]@) == orig.has_ssot_copy(
                        ids@[k]@,
                    ),
                forall|k: int|
                    #![trigger ids@[k]]
                    0 <= k < j && self.table.spec_has(ids@[k]@) ==> {
                        let rec = self.table.spec_at(ids@[k]@);
                        let prior = orig.table.spec_at(ids@[k]@);
                        &&& (rec.file_hash matches Some(h) && h@ == spec_content_hash(
                            orig.ssot_copy(ids@[k]@),
                        ))
                        &&& rec.id@ == prior.id@
                        &&& rec.apps == prior.apps
                        &&& opt_same(rec.repo_owner, prior.repo_owner)
                        &&& opt_same(rec.repo_name, prior.repo_name)
                        &&& opt_same(rec.repo_branch, prior.repo_branch)
                        &&& rec.scope.deep_view() == prior.scope.deep_view()
                        &&& rec.namespace@ == prior.namespace@
                        &&& rec.filename@ == prior.filename@
                    },
                forall|k: int|
                    #![trigger ids@[k]]
                    j <= k < n ==> self.table.spec_has(ids@[k]@) && self.table.spec_at(
                        ids@[k]@,
                    ) == orig.table.spec_at(ids@[k]@),
                forall|q: Seq<char>|
                    !orig.table.spec_has(q) ==> self.table.spec_has(q) == orig.table.spec_has(
                        q,
                    ),
            decreases n - j,
        {
            let id = ids[j].clone();
            let ghost idv = id@;
            let ghost pre = *self;
            proof {
                assert(orig.table.records[j as int].id@ == idv);
                assert(orig.table.spec_has(idv));
                let k0 = choose|k0: int|
                    0 <= k0 < orig.table.records.len() && orig.table.records[k0].id@ == idv;
                assert(k0 == j);
                assert(orig.table.spec_at(idv) == orig.table.records[j as int]);
                assert(orig.table.records@.subrange(0, j + 1).drop_last()
                    =~= orig.table.records@.subrange(0, j as int));
                assert(orig.table.records@.subrange(0, j + 1).last()
                    == orig.table.records@[j as int]);
                assert forall|k: int|
                    0 <= k < n && k != j implies (#[trigger] ids@[k])@ != idv by {
                    if ids@[k]@ == idv {
                        assert(orig.table.records[k].id@ == orig.table.records[j as int].id@);
                    }
                }
            }
            let rel = self.rel_path(id.as_str());
            if !self.ssot.contains(rel.as_str()) {
                self.table.delete(id.as_str());
            } else {
                let content = match self.ssot.get(rel.as_str()) {
                    Some(c) => c.clone(),
                    None => {
                        proof {
                            assert(false);
                        }
                        String::new()
                    },
                };
                let current = compute_hash(content.as_str());
                let unchanged = match self.table.get(id.as_str()) {
                    Some(rec) => match &rec.file_hash {
                        Some(stored) => eq_str(stored.as_str(), current.as_str()),
                        None => false,
                    },
                    None => false,
                };
                if !unchanged {
                    let prior = match self.table.get(id.as_str()) {
                        Some(rec) => rec,
                        None => {
                            proof {
                                assert(false);
                            }
                            &self.table.records[0]
                        },
                    };
                    let mut rec = InstalledResource {
                        id: id.clone(),
                        name: prior.filename.clone(),
                        description: None,
                        namespace: prior.namespace.clone(),
                        filename: prior.filename.clone(),
                        directory: prior.directory.clone(),
                        category: None,
                        allowed_tools: None,
                        model: None,
                        event_type: prior.event_type,
                        rules_json: prior.rules_json.clone(),
                        enabled: prior.enabled,
                        priority: prior.priority,
                        repo_owner: clone_opt(&prior.repo_owner),
                        repo_name: clone_opt(&prior.repo_name),
                        repo_branch: clone_opt(&prior.repo_branch),
                        readme_url: clone_opt(&prior.readme_url),
                        source_path: clone_opt(&prior.source_path),
                        apps: prior.apps,
                        file_hash: Some(current),
                        installed_at: prior.installed_at,
                        scope: match &prior.scope {
                            InstallScope::Global => InstallScope::Global,
                            InstallScope::Project(p) => InstallScope::Project(p.clone()),
                        },
                    };
                    match self.kind {
                        ResourceType::Command => {
                            let meta = parse_command_metadata(content.as_str());
                            rec.name = or_string(meta.name, rec.name);
                            rec.description = meta.description;
                            rec.category = meta.category;
                            rec.allowed_tools = meta.allowed_tools;
                        },
                        ResourceType::Agent => {
                            let meta = parse_agent_metadata(content.as_str());
                            rec.name = or_string(meta.name, rec.name);
                            rec.description = meta.description;
                            rec.model = meta.model;
                            rec.allowed_tools = meta.tools;
                        },
                        _ => {
                            match parse_hook_metadata(content.as_str()) {
                                Ok(meta) => {
                                    rec.name = or_string(meta.name, rec.name);
                                    rec.description = meta.description;
                                    rec.event_type = match meta.event_type {
                                        Some(e) => e,
                                        None => rec.event_type,
                                    };
                                    rec.rules_json = match meta.rules_json {
                                        Some(t) => t,
                                        None => rec.rules_json,
                                    };
                                    rec.enabled = meta.enabled;
                                    rec.priority = meta.priority;
                                },
                                Err(_) => {},
                            }
                        },
                    }
                    self.table.save(rec);
                    refreshed += 1;
                    if refreshed > j {
                        refreshed = j + 1;
                    }
                }
            }
            proof {
                assert forall|k: int|
                    #![trigger ids@[k]]
                    0 <= k < j + 1 && self.table.spec_has(ids@[k]@) implies {
                    let rec = self.table.spec_at(ids@[k]@);
                    let prior = orig.table.spec_at(ids@[k]@);
                    &&& (rec.file_hash matches Some(h) && h@ == spec_content_hash(
                        orig.ssot_copy(ids@[k]@),
                    ))
                    &&& rec.id@ == prior.id@
                    &&& rec.apps == prior.apps
                    &&& opt_same(rec.repo_owner, prior.repo_owner)
                    &&& opt_same(rec.repo_name, prior.repo_name)
                    &&& opt_same(rec.repo_branch, prior.repo_branch)
                    &&& rec.scope.deep_view() == prior.scope.deep_view()
                    &&& rec.namespace@ == prior.namespace@
                    &&& rec.filename@ == prior.filename@
                } by {
                    if k < j {
                        assert(ids@[k]@ != idv);
                        assert(self.table.spec_at(ids@[k]@) == pre.table.spec_at(ids@[k]@));
                    }
                }
                assert forall|k: int|
                    #![trigger ids@[k]]
                    j + 1 <= k < n implies self.table.spec_has(ids@[k]@)
                    && self.table.spec_at(ids@[k]@) == orig.table.spec_at(ids@[k]@) by {
                    assert(ids@[k]@ != idv);
                }
            }
            j += 1;
        }
        proof {
            assert(orig.table.records@.subrange(0, n as int) =~= orig.table.records@);
            assert forall|id: Seq<char>|
                #[trigger] self.table.spec_has(id) == (orig.table.spec_has(id)
                    && orig.has_ssot_copy(id)) by {
                if orig.table.spec_has(id) {
                    let k = choose|k: int|
                        0 <= k < orig.table.records.len() && orig.table.records[k].id@ == id;
                    assert(ids@[k]@ == id);
                }
            }
            assert forall|id: Seq<char>|
                #[trigger] self.table.spec_has(id) implies {
                let rec = self.table.spec_at(id);
                let prior = orig.table.spec_at(id);
                &&& (rec.file_hash matches Some(h) && h@ == spec_content_hash(
                    orig.ssot_copy(id),
                ))
                &&& rec.id@ == prior.id@
                &&& rec.apps == prior.apps
                &&& opt_same(rec.repo_owner, prior.repo_owner)
                &&& opt_same(rec.repo_name, prior.repo_name)
                &&& opt_same(rec.repo_branch, prior.repo_branch)
                &&& rec.scope.deep_view() == prior.scope.deep_view()
                &&& rec.namespace@ == prior.namespace@
                &&& rec.filename@ == prior.filename@
            } by {
                let k = choose|k: int|
                    0 <= k < orig.table.records.len() && orig.table.records[k].id@ == id;
                assert(ids@[k]@ == id);
            }
        }
        refreshed
    }
}

} // verus!

verus! {

impl SyncState {
    /// Execute an update: drop the stale SSOT copy and install the
    /// resource afresh from the newly downloaded text.  Because a repeat
    /// install only adds the invoking application to the stored flags,
    /// the previously enabled application set survives the update.
    pub fn execute_update(
        &mut self,
        res: &DiscoverableResource,
        app: &AppType,
        content: &String,
        remote_hash: Option<String>,
        now: i64,
    ) -> (r: Result<(), AppError>)
        requires
            old(self).wf(),
            old(self).kind != ResourceType::Skill,
            forall|j: int| 0 <= j < res.key@.len() ==> res.key@[j] != '\\',
        ensures
            final(self).wf(),
            final(self).kind == old(self).kind,
            r is Ok <==> (old(self).kind == ResourceType::Hook ==> json_ok(content@)),
            r is Ok ==> {
                let key = res.key@;
                let rec = final(self).table.spec_at(key);
                &&& final(self).has_ssot_copy(key)
                &&& final(self).ssot_copy(key) == content@
                &&& final(self).table.spec_has(key)
                &&& rec.apps.spec_enabled_for(*app)
                &&& (forall|a: AppType|
                    a != *app ==> rec.apps.spec_enabled_for(a) == (old(self).table.spec_has(
                        key,
                    ) && old(self).table.spec_at(key).apps.spec_enabled_for(a)))
                &&& (rec.file_hash matches Some(h) && h@ == (match remote_hash {
                    Some(rh) => rh@,
                    None => spec_content_hash(content@),
                }))
                &&& (old(self).kind != ResourceType::Hook ==> forall|a: AppType|
                    rec.apps.spec_enabled_for(a) ==> final(self).has_app_copy(key, a)
                        && final(self).app_copy(key, a) == content@)
            },
    {
        let rel = self.rel_path(res.key.as_str());
        let ghost pre = *self;
        self.ssot.remove(rel.as_str());
        proof {
            assert forall|i: int, j: int|
                0 <= i < self.ssot.entries.len() && 0 <= j
                    < self.ssot.entries[i].path@.len() implies #[trigger] self.ssot.entries[
                i
            ].path@[j] != '\\' by {
                let p = self.ssot.entries[i].path@;
                assert(self.ssot.spec_has(p));
                assert(p != rel@);
                assert(pre.ssot.spec_has(p));
                let k = choose|k: int|
                    0 <= k < pre.ssot.entries.len() && pre.ssot.entries[k].path@ == p;
                assert(pre.ssot.entries[k].path@[j] != '\\');
            }
        }
        let ghost mid = *self;
        let outcome = self.install(res, app, Some(content), remote_hash, now);
        proof {
            assert(!mid.has_ssot_copy(res.key@));
            assert(mid.table.spec_has(res.key@) == pre.table.spec_has(res.key@));
            if mid.table.spec_has(res.key@) {
                assert(mid.table.spec_at(res.key@) == pre.table.spec_at(res.key@));
            }
        }
        if outcome.is_err() {
            return outcome;
        }
        // refresh every application the record is enabled for, not only
        // the invoking one
        if !matches!(self.kind, ResourceType::Hook) {
            let flags = match self.table.get(res.key.as_str()) {
                Some(rec) => rec.apps,
                None => {
                    proof {
                        assert(false);
                    }
                    AppFlags::none()
                },
            };
            let ghost s0 = *self;
            if flags.scribe {
                let copied = self.copy_to_app(res.key.as_str(), &AppType::Scribe);
                proof {
                    assert(copied is Ok);
                }
            }
            let ghost s1 = *self;
            if flags.codex {
                let copied = self.copy_to_app(res.key.as_str(), &AppType::Codex);
                proof {
                    assert(copied is Ok);
                }
            }
            let ghost s2 = *self;
            if flags.gemini {
                let copied = self.copy_to_app(res.key.as_str(), &AppType::Gemini);
                proof {
                    assert(copied is Ok);
                }
            }
            proof {
                let key = res.key@;
                assert forall|a: AppType|
                    self.table.spec_at(key).apps.spec_enabled_for(a) implies self.has_app_copy(
                    key,
                    a,
                ) && self.app_copy(key, a) == content@ by {
                    match a {
                        AppType::Scribe => {
                            assert(s1.spec_app_files(AppType::Scribe) == self.spec_app_files(
                                AppType::Scribe,
                            ));
                        },
                        AppType::Codex => {
                            assert(s2.spec_app_files(AppType::Codex) == self.spec_app_files(
                                AppType::Codex,
                            ));
                        },
                        AppType::Gemini => {},
                    }
                }
            }
        }
        Ok(())
    }
}


} // verus!
