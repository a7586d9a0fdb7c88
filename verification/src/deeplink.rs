//! Deep-link imports: registering a skill repository from a link.

use vstd::prelude::*;

use crate::database::Database;
use crate::errors::AppError;
use crate::resources::RepoWithMeta;
use crate::strutil::{eq_str, split_str, spec_split};

verus! {

/// What a deep link asks for: the resource kind, the repository
/// coordinates, and optionally a branch and an initial enablement.
#[derive(Clone, Debug)]
pub struct DeepLinkImportRequest {
    pub resource: String,
    pub repo: Option<String>,
    pub branch: Option<String>,
    pub enabled: Option<bool>,
}

/// Register the skill repository a deep link names: the request must ask
/// for a skill and carry a repository spelled `owner/name`; the branch
/// falls back to `main` and the repository starts enabled unless the
/// link says otherwise.  The stored row is never builtin.  Returns the
/// accepted `owner/name`.
pub fn import_skill_from_deeplink(
    db: &mut Database,
    request: &DeepLinkImportRequest,
    now: i64,
) -> (r: Result<String, AppError>)
    requires
        old(db).wf(),
    ensures
        final(db).wf(),
        r is Ok <==> request.resource@ == "skill"@ && (request.repo matches Some(repo)
            && spec_split(repo@, '/').len() == 2),
        r matches Err(e) ==> e is InvalidInput && *final(db) == *old(db),
        r matches Ok(accepted) ==> ({
            let repo = request.repo->0@;
            let owner = spec_split(repo, '/')[0];
            let name = spec_split(repo, '/')[1];
            let row = final(db).skill_repos.spec_at(owner, name);
            &&& accepted@ == owner + seq!['/'] + name
            &&& final(db).skill_repos.spec_has(owner, name)
            &&& row.owner@ == owner
            &&& row.name@ == name
            &&& row.branch@ == (match request.branch {
                Some(b) => b@,
                None => "main"@,
            })
            &&& row.enabled == (match request.enabled {
                Some(e) => e,
                None => true,
            })
            &&& !row.builtin
            &&& row.added_at == now
            &&& final(db).agents == old(db).agents
            &&& final(db).commands == old(db).commands
            &&& final(db).hooks == old(db).hooks
            &&& final(db).skills == old(db).skills
            &&& final(db).command_repos == old(db).command_repos
        }),
{
    proof {
        reveal_strlit("skill");
        reveal_strlit("main");
        reveal_strlit("a deep link of this shape imports only skill repositories");
        reveal_strlit("the repository must be spelled owner/name");
    }
    if !eq_str(request.resource.as_str(), "skill") {
        return Err(
            AppError::InvalidInput(
                String::from_str("a deep link of this shape imports only skill repositories"),
            ),
        );
    }
    let repo_str = match &request.repo {
        Some(s) => s,
        None => {
            return Err(
                AppError::InvalidInput(
                    String::from_str("the repository must be spelled owner/name"),
                ),
            );
        },
    };
    let parts = split_str(repo_str.as_str(), '/');
    if parts.len() != 2 {
        return Err(
            AppError::InvalidInput(
                String::from_str("the repository must be spelled owner/name"),
            ),
        );
    }
    proof {
        assert(parts.deep_view()[0] == parts@[0]@);
        assert(parts.deep_view()[1] == parts@[1]@);
    }
    let owner = parts[0].clone();
    let name = parts[1].clone();
    let branch = match &request.branch {
        Some(b) => b.clone(),
        None => String::from_str("main"),
    };
    let enabled = match request.enabled {
        Some(e) => e,
        None => true,
    };
    let row = RepoWithMeta {
        owner: owner.clone(),
        name: name.clone(),
        branch,
        enabled,
        builtin: false,
        description_zh: None,
        description_en: None,
        description_ja: None,
        added_at: now,
    };
    db.skill_repos.add(row);
    let mut accepted = owner;
    crate::strutil::push_char(&mut accepted, '/');
    accepted.append(name.as_str());
    proof {
        assert(accepted@ =~= parts.deep_view()[0] + seq!['/'] + parts.deep_view()[1]);
    }
    Ok(accepted)
}

} // verus!
