//! What a diff is taken against, and what a view knows of the diff that it shows.
use crate::file_entry::{models, DiffFileEntry, FileModel};
use vstd::prelude::*;

verus! {

/// The number of a repository within its project.
#[derive(Clone, Copy, Debug, PartialEq, Eq, Structural)]
pub struct RepositoryId(pub u64);

/// What the work tree is compared with.
#[derive(Debug, PartialEq, Eq)]
pub enum DiffBase {
    Head,
    Index,
    Staged,
    /// The merge base with a branch.
    Merge { base_ref: String },
}

/// A [`DiffBase`], with its reference as text.
pub enum DiffBaseModel {
    Head,
    Index,
    Staged,
    Merge { base_ref: Seq<char> },
}

impl View for DiffBase {
    type V = DiffBaseModel;

    open spec fn view(&self) -> DiffBaseModel {
        match *self {
            DiffBase::Head => DiffBaseModel::Head,
            DiffBase::Index => DiffBaseModel::Index,
            DiffBase::Staged => DiffBaseModel::Staged,
            DiffBase::Merge { base_ref } => DiffBaseModel::Merge { base_ref: base_ref@ },
        }
    }
}

impl DiffBaseModel {
    /// The branch whose merge base is compared with.
    pub open spec fn merge_ref(self) -> Option<Seq<char>> {
        match self {
            DiffBaseModel::Merge { base_ref } => Some(base_ref),
            _ => None,
        }
    }
}

/// The views of what an option holds.
pub open spec fn text_of(text: Option<String>) -> Option<Seq<char>> {
    match text {
        Some(text) => Some(text@),
        None => None,
    }
}

impl DiffBase {
    /// The branch whose merge base is compared with.
    pub fn merge_ref(&self) -> (base_ref: Option<String>)
        ensures
            text_of(base_ref) == self@.merge_ref(),
            match *self {
                DiffBase::Merge { base_ref: branch } => base_ref matches Some(text) && text@
                    == branch@,
                _ => base_ref is None,
            },
    {
        match self {
            DiffBase::Merge { base_ref } => Some(base_ref.clone()),
            _ => None,
        }
    }
}

impl Clone for DiffBase {
    fn clone(&self) -> (base: Self)
        ensures
            base == *self,
    {
        match self {
            DiffBase::Head => DiffBase::Head,
            DiffBase::Index => DiffBase::Index,
            DiffBase::Staged => DiffBase::Staged,
            DiffBase::Merge { base_ref } => DiffBase::Merge { base_ref: base_ref.clone() },
        }
    }
}

/// What a view reads of the diff that it shows.
pub struct DiffMultibuffer {
    pub diff_base: DiffBase,
    pub repo: Option<RepositoryId>,
    pub file_entries: Vec<DiffFileEntry>,
    /// Whether the diff has no excerpts to show.
    pub is_empty: bool,
    pub total_review_comment_count: usize,
    pub additions: u32,
    pub deletions: u32,
}

/// A [`DiffMultibuffer`], with its files as models.
pub struct DiffModel {
    pub diff_base: DiffBaseModel,
    pub repo: Option<RepositoryId>,
    pub files: Seq<FileModel>,
    pub is_empty: bool,
    pub total_review_comment_count: int,
    pub additions: int,
    pub deletions: int,
}

impl View for DiffMultibuffer {
    type V = DiffModel;

    open spec fn view(&self) -> DiffModel {
        DiffModel {
            diff_base: self.diff_base@,
            repo: self.repo,
            files: models(self.file_entries@),
            is_empty: self.is_empty,
            total_review_comment_count: self.total_review_comment_count as int,
            additions: self.additions as int,
            deletions: self.deletions as int,
        }
    }
}

/// A diff against `diff_base` in `repo` of which nothing is loaded yet.
pub open spec fn unloaded_diff(
    diff_base: DiffBaseModel,
    repo: Option<RepositoryId>,
) -> DiffModel {
    DiffModel {
        diff_base,
        repo,
        files: Seq::<FileModel>::empty(),
        is_empty: true,
        total_review_comment_count: 0,
        additions: 0,
        deletions: 0,
    }
}

impl DiffMultibuffer {
    /// A diff against `diff_base` in `repo` of which nothing is loaded yet.
    pub fn new(diff_base: DiffBase, repo: Option<RepositoryId>) -> (diff: DiffMultibuffer)
        ensures
            diff@ == unloaded_diff(diff_base@, repo),
            diff.diff_base == diff_base,
            diff.repo == repo,
            diff.file_entries@.len() == 0,
            diff.is_empty,
            diff.total_review_comment_count == 0,
            diff.additions == 0,
            diff.deletions == 0,
    {
        let diff = DiffMultibuffer {
            diff_base,
            repo,
            file_entries: Vec::new(),
            is_empty: true,
            total_review_comment_count: 0,
            additions: 0,
            deletions: 0,
        };
        assert(models(diff.file_entries@) =~= Seq::<FileModel>::empty());
        diff
    }
}

/// Only a diff against a merge base names a branch, and it names the one it is taken against.
pub proof fn law_merge_ref_names_the_branch(diff_base: DiffBaseModel, base_ref: Seq<char>)
    ensures
        diff_base.merge_ref() == Some(base_ref) <==> diff_base == (DiffBaseModel::Merge {
            base_ref,
        }),
        diff_base.merge_ref() is None <==> !(diff_base is Merge),
{
}

/// A diff is seen with the base, the repository, the files and the counts that it has.
pub proof fn law_diff_seen_as_it_is(diff: DiffMultibuffer)
    ensures
        diff@.diff_base == diff.diff_base@,
        diff@.repo == diff.repo,
        diff@.files.len() == diff.file_entries@.len(),
        forall|i: int|
            0 <= i < diff.file_entries@.len() ==> #[trigger] diff@.files[i]
                == diff.file_entries@[i]@,
        diff@.is_empty == diff.is_empty,
        diff@.total_review_comment_count == diff.total_review_comment_count,
        diff@.additions == diff.additions,
        diff@.deletions == diff.deletions,
        match diff.diff_base {
            DiffBase::Head => diff@.diff_base is Head,
            DiffBase::Index => diff@.diff_base is Index,
            DiffBase::Staged => diff@.diff_base is Staged,
            DiffBase::Merge { base_ref } => diff@.diff_base == (DiffBaseModel::Merge {
                base_ref: base_ref@,
            }),
        },
{
}

} // verus!
