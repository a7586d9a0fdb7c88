//! Project paths: the directories that project-scoped resources install
//! into.

use vstd::prelude::*;

verus! {

/// Validation of project directories.
pub struct ProjectService;

impl ProjectService {
    /// Relies on `std::path::Path::is_dir`: whether an existing
    /// directory stands at the path.  What is on disk can change between
    /// calls, so nothing more is promised.
    #[verifier::external_body]
    pub fn is_project_valid(path: &str) -> bool {
        std::path::Path::new(path).is_dir()
    }
}

} // verus!
