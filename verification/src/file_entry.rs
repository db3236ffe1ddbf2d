//! The files of a diff, as the diff lists them.
use crate::repo_path::RepoPath;
use vstd::prelude::*;

verus! {

/// What happened to a file on one side of a tracked change.
#[derive(Clone, Copy, Debug, PartialEq, Eq, Structural)]
pub enum StatusCode {
    Modified,
    TypeChanged,
    Added,
    Deleted,
    Renamed,
    Copied,
    Unmodified,
}

/// What one side of an unfinished merge did to a file.
#[derive(Clone, Copy, Debug, PartialEq, Eq, Structural)]
pub enum UnmergedStatusCode {
    Added,
    Deleted,
    Updated,
}

/// The status of a file that an unfinished merge left in conflict.
#[derive(Clone, Copy, Debug, PartialEq, Eq, Structural)]
pub struct UnmergedStatus {
    pub first_head: UnmergedStatusCode,
    pub second_head: UnmergedStatusCode,
}

/// The status of a tracked file, in the index and in the work tree.
#[derive(Clone, Copy, Debug, PartialEq, Eq, Structural)]
pub struct TrackedStatus {
    pub index_status: StatusCode,
    pub worktree_status: StatusCode,
}

/// The status of a file relative to its repository.
#[derive(Clone, Copy, Debug, PartialEq, Eq, Structural)]
pub enum FileStatus {
    Untracked,
    Ignored,
    Unmerged(UnmergedStatus),
    TrackedFile(TrackedStatus),
}

impl StatusCode {
    /// The status of a file with this change in the work tree and none in the index.
    pub fn worktree(self) -> (status: FileStatus)
        ensures
            status == FileStatus::TrackedFile(
                TrackedStatus { index_status: StatusCode::Unmodified, worktree_status: self },
            ),
    {
        FileStatus::TrackedFile(
            TrackedStatus { index_status: StatusCode::Unmodified, worktree_status: self },
        )
    }
}

/// The key under which the multibuffer of a diff holds a file.
#[derive(Debug, PartialEq, Eq)]
pub struct PathKey {
    pub sort_prefix: Option<u64>,
    pub path: RepoPath,
}

/// A [`PathKey`], with its path as components.
pub struct PathKeyModel {
    pub sort_prefix: Option<u64>,
    pub path: Seq<Seq<char>>,
}

impl View for PathKey {
    type V = PathKeyModel;

    open spec fn view(&self) -> PathKeyModel {
        PathKeyModel { sort_prefix: self.sort_prefix, path: self.path@ }
    }
}

impl PathKey {
    /// The key of `path` among those with the prefix `sort_prefix`.
    pub fn with_sort_prefix(sort_prefix: u64, path: RepoPath) -> (key: PathKey)
        ensures
            key@ == (PathKeyModel { sort_prefix: Some(sort_prefix), path: path@ }),
            key.sort_prefix == Some(sort_prefix),
            key.path == path,
    {
        PathKey { sort_prefix: Some(sort_prefix), path }
    }
}

impl Clone for PathKey {
    fn clone(&self) -> (key: Self)
        ensures
            key@ == self@,
            key.sort_prefix == self.sort_prefix,
            key.path@ == self.path@,
    {
        PathKey { sort_prefix: self.sort_prefix, path: self.path.clone() }
    }
}

/// One file of a diff.
#[derive(Debug, PartialEq, Eq)]
pub struct DiffFileEntry {
    pub path_key: PathKey,
    pub repo_path: RepoPath,
    pub status: FileStatus,
}

/// A [`DiffFileEntry`], with its paths as components.
pub struct FileModel {
    pub path_key: PathKeyModel,
    pub repo_path: Seq<Seq<char>>,
    pub status: FileStatus,
}

impl View for DiffFileEntry {
    type V = FileModel;

    open spec fn view(&self) -> FileModel {
        FileModel {
            path_key: self.path_key@,
            repo_path: self.repo_path@,
            status: self.status,
        }
    }
}

impl Clone for DiffFileEntry {
    fn clone(&self) -> (entry: Self)
        ensures
            entry@ == self@,
            entry.path_key.sort_prefix == self.path_key.sort_prefix,
            entry.path_key.path@ == self.path_key.path@,
            entry.repo_path@ == self.repo_path@,
            entry.status == self.status,
    {
        DiffFileEntry {
            path_key: self.path_key.clone(),
            repo_path: self.repo_path.clone(),
            status: self.status,
        }
    }
}

impl FileModel {
    /// The directory that the file lies in, as components from the root down. A file without a
    /// path counts as one of the root.
    pub open spec fn parent(self) -> Seq<Seq<char>> {
        if self.repo_path.len() == 0 {
            Seq::<Seq<char>>::empty()
        } else {
            self.repo_path.drop_last()
        }
    }
}

/// The views of a list of files.
pub open spec fn models(files: Seq<DiffFileEntry>) -> Seq<FileModel> {
    files.map_values(|file: DiffFileEntry| file@)
}

/// A list of files is seen file by file, each with the key, the path and the status that it has.
pub proof fn law_files_seen_as_they_are(files: Seq<DiffFileEntry>, i: int)
    requires
        0 <= i < files.len(),
    ensures
        models(files).len() == files.len(),
        models(files)[i].path_key.sort_prefix == files[i].path_key.sort_prefix,
        models(files)[i].path_key.path == files[i].path_key.path@,
        models(files)[i].repo_path == files[i].repo_path@,
        models(files)[i].status == files[i].status,
{
}

} // verus!
