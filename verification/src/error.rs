//! Why a branch diff could not be opened.
use vstd::prelude::*;

verus! {

#[derive(Clone, Copy, Debug, PartialEq, Eq, Structural)]
pub enum BranchDiffError {
    /// The project has no active repository.
    NoActiveRepository,
    /// The repository does not say which branch is its default.
    UnknownDefaultBranch,
    /// What was saved for the view is not a diff against a merge base.
    NotAMergeBase,
    /// The workspace was closed meanwhile.
    WorkspaceGone,
}

/// What the user is told.
pub open spec fn error_text(error: BranchDiffError) -> Seq<char> {
    match error {
        BranchDiffError::NoActiveRepository => "No active repository"@,
        BranchDiffError::UnknownDefaultBranch => "Could not determine default branch"@,
        BranchDiffError::NotAMergeBase => "expected a merge base for a branch diff"@,
        BranchDiffError::WorkspaceGone => "workspace gone"@,
    }
}

impl BranchDiffError {
    /// What the user is told.
    pub fn message(&self) -> (text: String)
        ensures
            text@ == error_text(*self),
            match *self {
                BranchDiffError::NoActiveRepository => text@ == "No active repository"@,
                BranchDiffError::UnknownDefaultBranch => text@
                    == "Could not determine default branch"@,
                BranchDiffError::NotAMergeBase => text@
                    == "expected a merge base for a branch diff"@,
                BranchDiffError::WorkspaceGone => text@ == "workspace gone"@,
            },
    {
        match self {
            BranchDiffError::NoActiveRepository => "No active repository".to_owned(),
            BranchDiffError::UnknownDefaultBranch =>
                "Could not determine default branch".to_owned(),
            BranchDiffError::NotAMergeBase => "expected a merge base for a branch diff".to_owned(),
            BranchDiffError::WorkspaceGone => "workspace gone".to_owned(),
        }
    }
}

} // verus!
