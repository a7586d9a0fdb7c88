//! Target applications, per-application enablement flags, and install scope.

use vstd::prelude::*;

use crate::strutil::{eq_str, spec_ascii_lower, to_ascii_lower};

verus! {

/// One of the client applications that resources are projected into.
#[derive(Clone, Copy, Debug, PartialEq, Eq, Structural, Hash)]
pub enum AppType {
    Scribe,
    Codex,
    Gemini,
}

impl AppType {
    /// The lower-case name of the application.
    pub fn as_str(&self) -> (r: &'static str)
        ensures
            r@ == self.spec_name(),
    {
        proof {
            reveal_strlit("scribe");
            reveal_strlit("codex");
            reveal_strlit("gemini");
        }
        match self {
            AppType::Scribe => "scribe",
            AppType::Codex => "codex",
            AppType::Gemini => "gemini",
        }
    }

    /// The lower-case name of the application, as a character sequence.
    pub open spec fn spec_name(&self) -> Seq<char> {
        match self {
            AppType::Scribe => "scribe"@,
            AppType::Codex => "codex"@,
            AppType::Gemini => "gemini"@,
        }
    }
}

/// Parse an application name, case-insensitively; an unrecognized name is
/// handed back as the error.
pub fn parse_app_type(app: &str) -> (r: Result<AppType, String>)
    ensures
        ({
            let lower = spec_ascii_lower(app@);
            match r {
                Ok(a) => a.spec_name() == lower,
                Err(s) => s@ == app@ && lower != "scribe"@ && lower != "codex"@ && lower
                    != "gemini"@,
            }
        }),
{
    proof {
        reveal_strlit("scribe");
        reveal_strlit("codex");
        reveal_strlit("gemini");
    }
    let lower = to_ascii_lower(app);
    if eq_str(lower.as_str(), "scribe") {
        Ok(AppType::Scribe)
    } else if eq_str(lower.as_str(), "codex") {
        Ok(AppType::Codex)
    } else if eq_str(lower.as_str(), "gemini") {
        Ok(AppType::Gemini)
    } else {
        Err(String::from_str(app))
    }
}

/// Per-application enablement flags of one installed resource.
#[derive(Clone, Copy, Debug, PartialEq, Eq, Structural)]
pub struct AppFlags {
    pub scribe: bool,
    pub codex: bool,
    pub gemini: bool,
}

impl AppFlags {
    /// Flags with every application disabled.
    pub fn none() -> (r: AppFlags)
        ensures
            !r.scribe && !r.codex && !r.gemini,
    {
        AppFlags { scribe: false, codex: false, gemini: false }
    }

    /// Flags with exactly one application enabled.
    pub fn only(app: &AppType) -> (r: AppFlags)
        ensures
            forall|a: AppType| r.spec_enabled_for(a) <==> a == app,
    {
        AppFlags {
            scribe: matches!(app, AppType::Scribe),
            codex: matches!(app, AppType::Codex),
            gemini: matches!(app, AppType::Gemini),
        }
    }

    /// Whether the flag of `app` is set.
    pub open spec fn spec_enabled_for(&self, app: AppType) -> bool {
        match app {
            AppType::Scribe => self.scribe,
            AppType::Codex => self.codex,
            AppType::Gemini => self.gemini,
        }
    }

    /// Read the flag of one application.
    pub fn is_enabled_for(&self, app: &AppType) -> (r: bool)
        ensures
            r == self.spec_enabled_for(*app),
    {
        match app {
            AppType::Scribe => self.scribe,
            AppType::Codex => self.codex,
            AppType::Gemini => self.gemini,
        }
    }

    /// Set the flag of one application, leaving the others alone.
    pub fn set_enabled_for(&mut self, app: &AppType, enabled: bool)
        ensures
            final(self).spec_enabled_for(*app) == enabled,
            forall|a: AppType| a != app ==> final(self).spec_enabled_for(a)
                == old(self).spec_enabled_for(a),
    {
        match app {
            AppType::Scribe => self.scribe = enabled,
            AppType::Codex => self.codex = enabled,
            AppType::Gemini => self.gemini = enabled,
        }
    }
}

impl Default for AppFlags {
    /// Flags with every application disabled.
    fn default() -> (r: AppFlags)
        ensures
            !r.scribe && !r.codex && !r.gemini,
    {
        AppFlags { scribe: false, codex: false, gemini: false }
    }
}

/// Whether a resource is active for every project or for one project
/// directory.
#[derive(Clone, Debug)]
pub enum InstallScope {
    Global,
    Project(String),
}

impl InstallScope {
    /// Compare two scopes.
    pub fn same_as(&self, other: &InstallScope) -> (r: bool)
        ensures
            r == (self.deep_view() == other.deep_view()),
    {
        match (self, other) {
            (InstallScope::Global, InstallScope::Global) => true,
            (InstallScope::Project(a), InstallScope::Project(b)) => eq_str(
                a.as_str(),
                b.as_str(),
            ),
            _ => false,
        }
    }
}

impl DeepView for InstallScope {
    type V = ScopeView;

    open spec fn deep_view(&self) -> ScopeView {
        match self {
            InstallScope::Global => ScopeView::Global,
            InstallScope::Project(p) => ScopeView::Project(p@),
        }
    }
}

/// The mathematical form of an install scope.
pub enum ScopeView {
    Global,
    Project(Seq<char>),
}

/// Whether the application supports prompt agents.
pub fn check_app_agents_support(app: &AppType) -> (r: bool)
    ensures
        r == matches!(app, AppType::Scribe),
{
    matches!(app, AppType::Scribe)
}

/// Whether the application supports slash commands.
pub fn check_app_commands_support(app: &AppType) -> (r: bool)
    ensures
        r == matches!(app, AppType::Scribe),
{
    matches!(app, AppType::Scribe)
}

/// Whether the application supports automation hooks.
pub fn check_app_hooks_support(app: &AppType) -> (r: bool)
    ensures
        r == matches!(app, AppType::Scribe),
{
    matches!(app, AppType::Scribe)
}

} // verus!
