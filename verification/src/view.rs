//! The view of the changes since a branch.
use crate::diff::{
    text_of, unloaded_diff, DiffBase, DiffBaseModel, DiffModel, DiffMultibuffer, RepositoryId,
};
use crate::error::BranchDiffError;
use crate::file_entry::{models, DiffFileEntry, FileModel};
use crate::repo_path::{join, law_spelled_alike_is_same, valid_components, RepoPath};
use crate::sort::sorted_by_path;
use crate::tree::{entry_models, BranchDiffTreeEntry, ExpandedDirs};
use crate::tree_build::build_branch_diff_tree_entries;
use crate::tree_laws::lemma_rows_depend_on_openness;
use crate::tree_model::{is_open, tree_rows};
use crate::width::{
    clamped_branch_diff_tree_width, clamped_width, Pixels, BRANCH_DIFF_TREE_DEFAULT_WIDTH,
    BRANCH_DIFF_TREE_MIN_WIDTH,
};
use vstd::prelude::*;
use vstd::string::*;

verus! {

/// The view of the changes since a branch: "Changes since {branch}".
///
/// It shows one diff against the merge base with a branch, and beside it the tree of the files
/// that the diff lists. The branch can be changed in place.
pub struct BranchDiff {
    diff: DiffMultibuffer,
    show_tree: bool,
    tree_width: Pixels,
    tree_expanded_dirs: ExpandedDirs,
}

/// A [`BranchDiff`], as the contracts speak of it.
pub struct BranchDiffModel {
    pub diff: DiffModel,
    pub show_tree: bool,
    pub tree_width: int,
    pub choices: Map<Seq<char>, bool>,
}

impl View for BranchDiff {
    type V = BranchDiffModel;

    closed spec fn view(&self) -> BranchDiffModel {
        BranchDiffModel {
            diff: self.diff@,
            show_tree: self.show_tree,
            tree_width: self.tree_width as int,
            choices: self.tree_expanded_dirs@,
        }
    }
}

/// A view of `diff` as it is first shown: with the tree, in its default width, and every directory
/// open.
pub open spec fn fresh_view(diff: DiffModel) -> BranchDiffModel {
    BranchDiffModel {
        diff,
        show_tree: true,
        tree_width: BRANCH_DIFF_TREE_DEFAULT_WIDTH as int,
        choices: Map::<Seq<char>, bool>::empty(),
    }
}

/// A view of the changes since `base_ref`, as it is first shown: in `repo` where one is given,
/// else in the one that a new diff starts with.
pub open spec fn fresh_branch_view(
    base_ref: Seq<char>,
    repo: Option<RepositoryId>,
    initial_repo: Option<RepositoryId>,
) -> BranchDiffModel {
    fresh_view(
        unloaded_diff(
            DiffBaseModel::Merge { base_ref },
            if repo is Some {
                repo
            } else {
                initial_repo
            },
        ),
    )
}

/// What is asked of a repository to have a diff reviewed.
#[derive(Debug, PartialEq, Eq)]
pub struct ReviewRequest {
    pub repo: RepositoryId,
    pub base_ref: String,
}

/// What a diff is sent for review with.
#[derive(Debug, PartialEq, Eq)]
pub struct ReviewBranchDiff {
    pub diff_text: String,
    pub base_ref: String,
}

/// How a text of the tab is coloured.
#[derive(Clone, Copy, Debug, PartialEq, Eq, Structural)]
pub enum TextColor {
    Default,
    Muted,
}

/// What the tab of a view shows.
#[derive(Debug, PartialEq, Eq)]
pub struct TabContent {
    pub text: String,
    pub color: TextColor,
}

/// What is saved of a view.
#[derive(Debug, PartialEq, Eq)]
pub struct SavedDiffBase {
    pub item_id: u64,
    pub workspace_id: i64,
    pub diff_base: DiffBase,
}

/// A [`SavedDiffBase`], with its reference as text.
pub struct SavedModel {
    pub item_id: u64,
    pub workspace_id: i64,
    pub diff_base: DiffBaseModel,
}

impl View for SavedDiffBase {
    type V = SavedModel;

    open spec fn view(&self) -> SavedModel {
        SavedModel {
            item_id: self.item_id,
            workspace_id: self.workspace_id,
            diff_base: self.diff_base@,
        }
    }
}

/// What is saved of the view `item_id`. Nothing is saved for a workspace that is not itself saved,
/// or without a merge base.
pub open spec fn saved_of(
    view: BranchDiffModel,
    workspace_id: Option<i64>,
    item_id: u64,
) -> Option<SavedModel> {
    match workspace_id {
        Some(workspace_id) if view.diff.diff_base.merge_ref() is Some => Some(
            SavedModel { item_id, workspace_id, diff_base: view.diff.diff_base },
        ),
        _ => None,
    }
}

/// The view for which `diff_base` was saved.
pub open spec fn restored_from(
    diff_base: DiffBaseModel,
    workspace_is_open: bool,
    initial_repo: Option<RepositoryId>,
) -> Result<BranchDiffModel, BranchDiffError> {
    match diff_base.merge_ref() {
        None => Err(BranchDiffError::NotAMergeBase),
        Some(base_ref) => if workspace_is_open {
            Ok(fresh_branch_view(base_ref, None, initial_repo))
        } else {
            Err(BranchDiffError::WorkspaceGone)
        },
    }
}

/// The view that stands beside another after a split.
pub open spec fn split_of(
    view: BranchDiffModel,
    workspace_is_open: bool,
    initial_repo: Option<RepositoryId>,
) -> Option<BranchDiffModel> {
    match view.diff.diff_base.merge_ref() {
        Some(base_ref) if workspace_is_open => Some(
            fresh_branch_view(base_ref, view.diff.repo, initial_repo),
        ),
        _ => None,
    }
}

/// The view with its tree shown if it was hidden, and hidden if it was shown.
pub open spec fn with_tree_toggled(view: BranchDiffModel) -> BranchDiffModel {
    BranchDiffModel { show_tree: !view.show_tree, ..view }
}

/// The view after a click on a row that shows the directory `path` open or not.
pub open spec fn with_directory_toggled(
    view: BranchDiffModel,
    path: Seq<Seq<char>>,
    expanded: bool,
) -> BranchDiffModel {
    BranchDiffModel { choices: view.choices.insert(join(path), !expanded), ..view }
}

/// What the option of a view holds.
pub open spec fn view_of(view: Option<BranchDiff>) -> Option<BranchDiffModel> {
    match view {
        Some(view) => Some(view@),
        None => None,
    }
}

/// What the result of opening a view holds.
pub open spec fn outcome_of(
    view: Result<BranchDiff, BranchDiffError>,
) -> Result<BranchDiffModel, BranchDiffError> {
    match view {
        Ok(view) => Ok(view@),
        Err(error) => Err(error),
    }
}

/// The title of a view of a diff against `diff_base`.
pub open spec fn title_of(diff_base: DiffBaseModel) -> Seq<char> {
    match diff_base.merge_ref() {
        Some(base_ref) => "Changes since "@ + base_ref,
        None => "Changes"@,
    }
}

/// Which of the types that a view can act as is asked for.
#[derive(Clone, Copy, Debug, PartialEq, Eq, Structural)]
pub struct RequestedType {
    pub is_branch_diff: bool,
    pub is_diff_multibuffer: bool,
    pub is_editor: bool,
    pub is_splittable_editor: bool,
    pub is_diff_buffer_list: bool,
}

/// What a view acts as.
#[derive(Clone, Copy, Debug, PartialEq, Eq, Structural)]
pub enum ActsAs {
    /// The view itself.
    BranchDiff,
    /// The diff that it shows.
    DiffMultibuffer,
    /// The editor on the right, that of the work tree.
    RhsEditor,
    /// The editor of both sides.
    SplittableEditor,
    /// The list of buffers that the diff is made of.
    DiffBufferList,
}

/// What the tree shows beside a diff.
pub struct TreePanel {
    pub width: Pixels,
    pub file_count: usize,
    pub entries: Vec<BranchDiffTreeEntry>,
}

impl BranchDiff {
    #[verifier::type_invariant]
    spec fn tree_is_wide_enough(self) -> bool {
        self.tree_width >= BRANCH_DIFF_TREE_MIN_WIDTH
    }

    /// A view of the changes since the default branch of the active repository, once the
    /// repository has answered which branch that is.
    pub fn new_with_default_branch(
        active_repository: Option<RepositoryId>,
        default_branch: Option<String>,
    ) -> (view: Result<BranchDiff, BranchDiffError>)
        ensures
            match view {
                Ok(view) => {
                    &&& active_repository is Some
                    &&& default_branch is Some
                    &&& view@ == fresh_branch_view(
                        default_branch->0@,
                        active_repository,
                        active_repository,
                    )
                },
                Err(error) => {
                    ||| active_repository is None && error == BranchDiffError::NoActiveRepository
                    ||| active_repository is Some && default_branch is None && error
                        == BranchDiffError::UnknownDefaultBranch
                },
            },
    {
        match BranchDiff::deploy_branch_diff(active_repository) {
            Err(error) => Err(error),
            Ok(repo) => match BranchDiff::default_branch_loaded(default_branch) {
                Err(error) => Err(error),
                Ok(base_ref) => Ok(
                    BranchDiff::new_with_base_ref(base_ref, Some(repo), active_repository),
                ),
            },
        }
    }

    /// A view of the changes since `base_ref` in `repo`.
    pub fn new_with_branch_base(
        base_ref: String,
        repo: RepositoryId,
        initial_repo: Option<RepositoryId>,
    ) -> (view: BranchDiff)
        ensures
            view@ == fresh_branch_view(base_ref@, Some(repo), initial_repo),
    {
        BranchDiff::new_with_base_ref(base_ref, Some(repo), initial_repo)
    }

    /// A view of the changes since `base_ref`: in `repo` where one is given, else in
    /// `initial_repo`, the one that a new diff starts with.
    pub fn new_with_base_ref(
        base_ref: String,
        repo: Option<RepositoryId>,
        initial_repo: Option<RepositoryId>,
    ) -> (view: BranchDiff)
        ensures
            view@ == fresh_branch_view(base_ref@, repo, initial_repo),
            view@.diff.diff_base == (DiffBaseModel::Merge { base_ref: base_ref@ }),
            repo is Some ==> view@.diff.repo == repo,
            repo is None ==> view@.diff.repo == initial_repo,
            view@.diff.is_empty,
            view@.diff.files.len() == 0,
    {
        let mut diff = DiffMultibuffer::new(DiffBase::Merge { base_ref }, initial_repo);
        if repo.is_some() {
            diff.repo = repo;
        }
        BranchDiff::from_diff(diff)
    }

    /// A view of `diff`.
    pub fn from_diff(diff: DiffMultibuffer) -> (view: BranchDiff)
        ensures
            view@ == fresh_view(diff@),
            view@.diff == diff@,
            view@.show_tree,
            view@.tree_width == BRANCH_DIFF_TREE_DEFAULT_WIDTH,
            view@.choices == Map::<Seq<char>, bool>::empty(),
    {
        BranchDiff {
            diff,
            show_tree: true,
            tree_width: BRANCH_DIFF_TREE_DEFAULT_WIDTH,
            tree_expanded_dirs: ExpandedDirs::new(),
        }
    }

    /// Shows the tree, or hides it. The row to which the tree is then scrolled, at its top, is
    /// returned.
    pub fn toggle_tree(&mut self) -> (row: usize)
        ensures
            row == 0,
            final(self)@ == with_tree_toggled(old(self)@),
            final(self)@.show_tree != old(self)@.show_tree,
            final(self)@.diff == old(self)@.diff,
            final(self)@.tree_width == old(self)@.tree_width,
            final(self)@.choices == old(self)@.choices,
    {
        proof {
            use_type_invariant(&*self);
        }
        self.show_tree = !self.show_tree;
        0
    }

    /// Opens the directory `path` where a row shows it closed, and closes it where a row shows it
    /// open.
    pub fn toggle_directory(&mut self, path: &RepoPath, expanded: bool)
        ensures
            final(self)@ == with_directory_toggled(old(self)@, path@, expanded),
            final(self)@.choices == old(self)@.choices.insert(join(path@), !expanded),
            final(self)@.diff == old(self)@.diff,
            final(self)@.show_tree == old(self)@.show_tree,
            final(self)@.tree_width == old(self)@.tree_width,
    {
        proof {
            use_type_invariant(&*self);
        }
        let mut dirs = ExpandedDirs::new();
        std::mem::swap(&mut dirs, &mut self.tree_expanded_dirs);
        dirs.insert(path, !expanded);
        self.tree_expanded_dirs = dirs;
    }

    /// Takes a click on the edge of the tree: a double click gives the tree its default width
    /// back. Whether the width was set is returned.
    pub fn click_resize_handle(&mut self, click_count: usize) -> (reset: bool)
        ensures
            reset == (click_count >= 2),
            final(self)@ == if click_count >= 2 {
                BranchDiffModel {
                    tree_width: BRANCH_DIFF_TREE_DEFAULT_WIDTH as int,
                    ..old(self)@
                }
            } else {
                old(self)@
            },
    {
        if click_count >= 2 {
            self.tree_width = BRANCH_DIFF_TREE_DEFAULT_WIDTH;
            true
        } else {
            false
        }
    }

    /// Takes a drag of the edge of the tree to `requested`, where `available` is there for the
    /// tree and the editor.
    pub fn drag_resize_handle(&mut self, requested: Pixels, available: Pixels)
        ensures
            final(self)@ == (BranchDiffModel {
                tree_width: clamped_width(requested as int, available as int),
                ..old(self)@
            }),
    {
        self.tree_width = clamped_branch_diff_tree_width(requested, available);
    }

    /// The width of the tree.
    pub fn tree_width(&self) -> (width: Pixels)
        ensures
            width == self@.tree_width,
            width >= BRANCH_DIFF_TREE_MIN_WIDTH,
    {
        proof {
            use_type_invariant(self);
        }
        self.tree_width
    }

    /// Whether the tree is switched on.
    pub fn show_tree(&self) -> (shown: bool)
        ensures
            shown == self@.show_tree,
    {
        self.show_tree
    }

    /// Whether there is a tree beside the diff: where it is switched on and there are files.
    pub fn renders_tree(&self) -> (shown: bool)
        ensures
            shown == (self@.show_tree && self@.diff.files.len() > 0),
    {
        self.show_tree && !self.diff.file_entries.is_empty()
    }

    /// What the tree shows.
    pub fn render_tree(&self) -> (panel: TreePanel)
        ensures
            panel.width == self@.tree_width,
            panel.file_count == self@.diff.files.len(),
            entry_models(panel.entries@) == tree_rows(self@.diff.files, self@.choices),
    {
        let files = clone_entries(&self.diff.file_entries);
        let file_count = files.len();
        let entries = build_branch_diff_tree_entries(files, &self.tree_expanded_dirs);
        TreePanel { width: self.tree_width, file_count, entries }
    }

    /// What the view knows of the diff that it shows.
    pub fn diff(&self) -> (diff: &DiffMultibuffer)
        ensures
            diff@ == self@.diff,
    {
        &self.diff
    }

    /// Takes over what is known of the diff now.
    pub fn set_diff(&mut self, diff: DiffMultibuffer)
        ensures
            final(self)@ == (BranchDiffModel { diff: diff@, ..old(self)@ }),
    {
        proof {
            use_type_invariant(&*self);
        }
        self.diff = diff;
    }

    /// What the work tree is compared with.
    pub fn diff_base(&self) -> (base: &DiffBase)
        ensures
            base@ == self@.diff.diff_base,
    {
        &self.diff.diff_base
    }

    /// The repository that the diff is taken in.
    pub fn repo(&self) -> (repo: Option<RepositoryId>)
        ensures
            repo == self@.diff.repo,
    {
        self.diff.repo
    }

    /// Takes the diff in another repository.
    pub fn set_repo(&mut self, repo: Option<RepositoryId>)
        ensures
            final(self)@ == (BranchDiffModel {
                diff: DiffModel { repo, ..old(self)@.diff },
                ..old(self)@
            }),
    {
        proof {
            use_type_invariant(&*self);
        }
        self.diff.repo = repo;
    }

    /// Shows the changes since another branch.
    pub fn set_merge_base(&mut self, base_ref: String)
        ensures
            final(self)@ == (BranchDiffModel {
                diff: DiffModel {
                    diff_base: DiffBaseModel::Merge { base_ref: base_ref@ },
                    ..old(self)@.diff
                },
                ..old(self)@
            }),
    {
        proof {
            use_type_invariant(&*self);
        }
        self.diff.diff_base = DiffBase::Merge { base_ref };
    }

    /// What to ask for in order to have the diff reviewed: its text, from the repository it is
    /// taken in. There is nothing to ask for without a merge base or without a repository.
    pub fn review_diff(&self) -> (request: Option<ReviewRequest>)
        ensures
            match request {
                Some(request) => {
                    &&& self@.diff.diff_base == DiffBaseModel::Merge { base_ref: request.base_ref@ }
                    &&& self@.diff.repo == Some(request.repo)
                },
                None => self@.diff.diff_base.merge_ref() is None || self@.diff.repo is None,
            },
            request is Some <==> self@.diff.diff_base is Merge && self@.diff.repo is Some,
    {
        match &self.diff.diff_base {
            DiffBase::Merge { base_ref } => match self.diff.repo {
                Some(repo) => Some(ReviewRequest { repo, base_ref: base_ref.clone() }),
                None => None,
            },
            _ => None,
        }
    }

    /// The title of the view.
    pub fn tab_content_text(&self) -> (text: String)
        ensures
            text@ == title_of(self@.diff.diff_base),
            match self@.diff.diff_base {
                DiffBaseModel::Merge { base_ref } => text@ == "Changes since "@ + base_ref,
                _ => text@ == "Changes"@,
            },
    {
        match &self.diff.diff_base {
            DiffBase::Merge { base_ref } => "Changes since ".to_owned().concat(base_ref.as_str()),
            _ => "Changes".to_owned(),
        }
    }

    /// The tooltip of the tab: the title.
    pub fn tab_tooltip_text(&self) -> (text: Option<String>)
        ensures
            text_of(text) == Some(title_of(self@.diff.diff_base)),
            text matches Some(text) && match self@.diff.diff_base {
                DiffBaseModel::Merge { base_ref } => text@ == "Changes since "@ + base_ref,
                _ => text@ == "Changes"@,
            },
    {
        Some(self.tab_content_text())
    }

    /// What the tab shows: the title, muted unless the tab is selected.
    pub fn tab_content(&self, selected: bool) -> (content: TabContent)
        ensures
            content.text@ == title_of(self@.diff.diff_base),
            match self@.diff.diff_base {
                DiffBaseModel::Merge { base_ref } => content.text@ == "Changes since "@ + base_ref,
                _ => content.text@ == "Changes"@,
            },
            content.color == if selected {
                TextColor::Default
            } else {
                TextColor::Muted
            },
    {
        TabContent {
            text: self.tab_content_text(),
            color: if selected {
                TextColor::Default
            } else {
                TextColor::Muted
            },
        }
    }

    /// What the view acts as where a type is asked for.
    pub fn act_as_type(requested: RequestedType) -> (acts_as: Option<ActsAs>)
        ensures
            acts_as == if requested.is_branch_diff {
                Some(ActsAs::BranchDiff)
            } else if requested.is_diff_multibuffer {
                Some(ActsAs::DiffMultibuffer)
            } else if requested.is_editor {
                Some(ActsAs::RhsEditor)
            } else if requested.is_splittable_editor {
                Some(ActsAs::SplittableEditor)
            } else if requested.is_diff_buffer_list {
                Some(ActsAs::DiffBufferList)
            } else {
                None
            },
    {
        if requested.is_branch_diff {
            Some(ActsAs::BranchDiff)
        } else if requested.is_diff_multibuffer {
            Some(ActsAs::DiffMultibuffer)
        } else if requested.is_editor {
            Some(ActsAs::RhsEditor)
        } else if requested.is_splittable_editor {
            Some(ActsAs::SplittableEditor)
        } else if requested.is_diff_buffer_list {
            Some(ActsAs::DiffBufferList)
        } else {
            None
        }
    }

    /// The view that stands beside this one after a split: of the same changes in the same
    /// repository, as it is first shown. There is none where the workspace is gone, or without a
    /// merge base.
    pub fn clone_on_split(
        &self,
        workspace_is_open: bool,
        initial_repo: Option<RepositoryId>,
    ) -> (view: Option<BranchDiff>)
        ensures
            view_of(view) == split_of(self@, workspace_is_open, initial_repo),
            view is Some <==> workspace_is_open && self@.diff.diff_base is Merge,
            view matches Some(view) ==> {
                &&& view@.diff.diff_base == self@.diff.diff_base
                &&& self@.diff.repo is Some ==> view@.diff.repo == self@.diff.repo
                &&& self@.diff.repo is None ==> view@.diff.repo == initial_repo
                &&& view@.show_tree
                &&& view@.tree_width == BRANCH_DIFF_TREE_DEFAULT_WIDTH
                &&& view@.choices == Map::<Seq<char>, bool>::empty()
            },
    {
        if !workspace_is_open {
            return None;
        }
        match &self.diff.diff_base {
            DiffBase::Merge { base_ref } => Some(
                BranchDiff::new_with_base_ref(base_ref.clone(), self.diff.repo, initial_repo),
            ),
            _ => None,
        }
    }

    /// What is to be saved of the view `item_id`: what it compares with. Nothing is saved for a
    /// workspace that is not itself saved, or without a merge base.
    pub fn serialize(&self, workspace_id: Option<i64>, item_id: u64) -> (saved: Option<
        SavedDiffBase,
    >)
        ensures
            match saved {
                Some(saved) => Some(saved@) == saved_of(self@, workspace_id, item_id),
                None => saved_of(self@, workspace_id, item_id) is None,
            },
            saved is Some <==> workspace_id is Some && self@.diff.diff_base is Merge,
            saved matches Some(saved) ==> saved.item_id == item_id && workspace_id == Some(
                saved.workspace_id,
            ) && saved.diff_base@ == self@.diff.diff_base,
    {
        match workspace_id {
            None => None,
            Some(workspace_id) => match &self.diff.diff_base {
                DiffBase::Merge { base_ref } => {
                    let diff_base = DiffBase::Merge { base_ref: base_ref.clone() };
                    Some(SavedDiffBase { item_id, workspace_id, diff_base })
                },
                _ => None,
            },
        }
    }

    /// The view for which `diff_base` was saved.
    pub fn deserialize(
        diff_base: DiffBase,
        workspace_is_open: bool,
        initial_repo: Option<RepositoryId>,
    ) -> (view: Result<BranchDiff, BranchDiffError>)
        ensures
            outcome_of(view) == restored_from(diff_base@, workspace_is_open, initial_repo),
            match view {
                Ok(view) => {
                    &&& workspace_is_open
                    &&& diff_base is Merge
                    &&& view@.diff.diff_base == diff_base@
                    &&& view@.diff.repo == initial_repo
                    &&& view@.show_tree
                    &&& view@.tree_width == BRANCH_DIFF_TREE_DEFAULT_WIDTH
                    &&& view@.choices == Map::<Seq<char>, bool>::empty()
                },
                Err(BranchDiffError::NotAMergeBase) => !(diff_base is Merge),
                Err(error) => error == BranchDiffError::WorkspaceGone && diff_base is Merge
                    && !workspace_is_open,
            },
    {
        match diff_base {
            DiffBase::Merge { base_ref } => {
                if workspace_is_open {
                    Ok(BranchDiff::new_with_base_ref(base_ref, None, initial_repo))
                } else {
                    Err(BranchDiffError::WorkspaceGone)
                }
            },
            _ => Err(BranchDiffError::NotAMergeBase),
        }
    }
}

/// The action that sends a diff for review, once its text is there. There is none where the
/// workspace is gone.
pub fn review_diff_loaded(
    request: ReviewRequest,
    diff_text: String,
    workspace_is_open: bool,
) -> (action: Option<ReviewBranchDiff>)
    ensures
        match action {
            Some(action) => {
                &&& workspace_is_open
                &&& action.diff_text == diff_text
                &&& action.base_ref == request.base_ref
            },
            None => !workspace_is_open,
        },
{
    if workspace_is_open {
        Some(ReviewBranchDiff { diff_text, base_ref: request.base_ref })
    } else {
        None
    }
}

/// A copy of a list of files.
fn clone_entries(files: &Vec<DiffFileEntry>) -> (copy: Vec<DiffFileEntry>)
    ensures
        models(copy@) == models(files@),
{
    let mut copy: Vec<DiffFileEntry> = Vec::new();
    let mut i: usize = 0;
    while i < files.len()
        invariant
            i <= files@.len(),
            models(copy@) == models(files@).take(i as int),
        decreases files@.len() - i,
    {
        let ghost before = copy@;
        copy.push(files[i].clone());
        assert(models(copy@) =~= models(before).push(models(files@)[i as int]));
        assert(models(files@).take(i + 1) =~= models(files@).take(i as int).push(
            models(files@)[i as int],
        ));
        i += 1;
    }
    assert(models(files@).take(i as int) =~= models(files@));
    copy
}

/// A view that was saved and restored shows the changes since the same branch again.
pub proof fn law_restored_as_saved(
    view: BranchDiffModel,
    workspace_id: i64,
    item_id: u64,
    initial_repo: Option<RepositoryId>,
)
    requires
        view.diff.diff_base.merge_ref() is Some,
    ensures
        saved_of(view, Some(workspace_id), item_id) matches Some(saved) && restored_from(
            saved.diff_base,
            true,
            initial_repo,
        ) matches Ok(restored) && restored.diff.diff_base == view.diff.diff_base && title_of(
            restored.diff.diff_base,
        ) == title_of(view.diff.diff_base),
{
}

/// A split shows the changes since the same branch, in the same repository where there is one.
pub proof fn law_split_shows_the_same(
    view: BranchDiffModel,
    initial_repo: Option<RepositoryId>,
)
    requires
        view.diff.diff_base.merge_ref() is Some,
    ensures
        split_of(view, true, initial_repo) matches Some(split) && split.diff.diff_base
            == view.diff.diff_base && (view.diff.repo is Some ==> split.diff.repo
            == view.diff.repo),
{
}

/// Toggling the tree twice changes nothing.
pub proof fn law_tree_toggled_twice(view: BranchDiffModel)
    ensures
        with_tree_toggled(with_tree_toggled(view)) == view,
{
}

/// A click on the row of a directory opens or closes that directory and no other.
pub proof fn law_toggle_changes_one_directory(
    view: BranchDiffModel,
    path: Seq<Seq<char>>,
    other: Seq<Seq<char>>,
)
    requires
        valid_components(path),
        valid_components(other),
    ensures
        is_open(
            with_directory_toggled(view, path, is_open(view.choices, path)).choices,
            other,
        ) == if other == path {
            !is_open(view.choices, other)
        } else {
            is_open(view.choices, other)
        },
{
    if join(path) == join(other) {
        law_spelled_alike_is_same(path, other);
    }
}

/// A second click on the row of a directory undoes the first: every row is shown as before.
pub proof fn law_directory_toggled_twice(
    view: BranchDiffModel,
    path: Seq<Seq<char>>,
    files: Seq<FileModel>,
)
    ensures
        ({
            let expanded = is_open(view.choices, path);
            let once = with_directory_toggled(view, path, expanded);
            let twice = with_directory_toggled(once, path, !expanded);
            tree_rows(files, twice.choices) == tree_rows(files, view.choices)
        }),
{
    let expanded = is_open(view.choices, path);
    let once = with_directory_toggled(view, path, expanded);
    let twice = with_directory_toggled(once, path, !expanded);
    assert forall|other: Seq<Seq<char>>| #[trigger] is_open(twice.choices, other) == is_open(
        view.choices,
        other,
    ) by {}
    lemma_rows_depend_on_openness(
        sorted_by_path(files),
        Seq::<Seq<char>>::empty(),
        0,
        twice.choices,
        view.choices,
    );
}

/// A view is first shown with the diff that it is given, the tree switched on and in its default
/// width, and every directory open.
pub proof fn law_first_shown(diff: DiffModel, path: Seq<Seq<char>>)
    ensures
        fresh_view(diff).diff == diff,
        fresh_view(diff).show_tree,
        fresh_view(diff).tree_width == BRANCH_DIFF_TREE_DEFAULT_WIDTH,
        is_open(fresh_view(diff).choices, path),
{
}

/// A view of the changes since a branch is a view of a diff against the merge base with that
/// branch, of which nothing is loaded yet. It is in the repository given, if one is.
pub proof fn law_first_shown_since_a_branch(
    base_ref: Seq<char>,
    repo: Option<RepositoryId>,
    initial_repo: Option<RepositoryId>,
)
    ensures
        ({
            let view = fresh_branch_view(base_ref, repo, initial_repo);
            &&& view == fresh_view(view.diff)
            &&& view.diff.diff_base == (DiffBaseModel::Merge { base_ref })
            &&& repo is Some ==> view.diff.repo == repo
            &&& repo is None ==> view.diff.repo == initial_repo
            &&& view.diff.is_empty
            &&& view.diff.files.len() == 0
            &&& view.diff.total_review_comment_count == 0
            &&& view.diff.additions == 0
            &&& view.diff.deletions == 0
        }),
{
}

/// Something is saved exactly of a view of the changes since a branch, in a workspace that is
/// itself saved. It is what the view compares with, under the numbers of both.
pub proof fn law_what_is_saved(
    view: BranchDiffModel,
    workspace_id: Option<i64>,
    item_id: u64,
)
    ensures
        match saved_of(view, workspace_id, item_id) {
            Some(saved) => {
                &&& workspace_id == Some(saved.workspace_id)
                &&& saved.item_id == item_id
                &&& saved.diff_base == view.diff.diff_base
                &&& saved.diff_base is Merge
            },
            None => workspace_id is None || !(view.diff.diff_base is Merge),
        },
{
}

/// What was saved is restored as it is first shown, in the repository that a new diff starts with,
/// exactly if it is a diff against a merge base and the workspace is open. Where it is none, that
/// is what the error says, in whatever state the workspace is.
pub proof fn law_what_is_restored(
    diff_base: DiffBaseModel,
    workspace_is_open: bool,
    initial_repo: Option<RepositoryId>,
)
    ensures
        match restored_from(diff_base, workspace_is_open, initial_repo) {
            Ok(view) => {
                &&& diff_base is Merge
                &&& workspace_is_open
                &&& view == fresh_view(view.diff)
                &&& view.diff.diff_base == diff_base
                &&& view.diff.repo == initial_repo
                &&& view.diff.is_empty
                &&& view.diff.files.len() == 0
            },
            Err(error) => if diff_base is Merge {
                !workspace_is_open && error == BranchDiffError::WorkspaceGone
            } else {
                error == BranchDiffError::NotAMergeBase
            },
        },
{
}

/// A view can be split exactly if it shows the changes since a branch and the workspace is open.
/// The other view is as it is first shown.
pub proof fn law_what_is_split(
    view: BranchDiffModel,
    workspace_is_open: bool,
    initial_repo: Option<RepositoryId>,
)
    ensures
        match split_of(view, workspace_is_open, initial_repo) {
            Some(split) => {
                &&& view.diff.diff_base is Merge
                &&& workspace_is_open
                &&& split == fresh_view(split.diff)
                &&& split.diff.diff_base == view.diff.diff_base
                &&& view.diff.repo is Some ==> split.diff.repo == view.diff.repo
                &&& view.diff.repo is None ==> split.diff.repo == initial_repo
                &&& split.diff.is_empty
                &&& split.diff.files.len() == 0
            },
            None => !(view.diff.diff_base is Merge && workspace_is_open),
        },
{
}

/// The title of the changes since a branch ends with the whole name of the branch, so that two
/// branches never have the same title. A view of anything else is titled alike.
pub proof fn law_title_names_the_branch(
    base_ref: Seq<char>,
    other_ref: Seq<char>,
    other: DiffBaseModel,
)
    ensures
        title_of(DiffBaseModel::Merge { base_ref }).take(14) == "Changes since "@,
        title_of(DiffBaseModel::Merge { base_ref }).skip(14) == base_ref,
        title_of(DiffBaseModel::Merge { base_ref }) == title_of(
            DiffBaseModel::Merge { base_ref: other_ref },
        ) <==> base_ref == other_ref,
        !(other is Merge) ==> title_of(other) == "Changes"@,
{
    reveal_strlit("Changes since ");
    let title = title_of(DiffBaseModel::Merge { base_ref });
    let other_title = title_of(DiffBaseModel::Merge { base_ref: other_ref });
    assert(title.take(14) =~= "Changes since "@);
    assert(title.skip(14) =~= base_ref);
    assert(other_title.skip(14) =~= other_ref);
}

/// Toggling the tree changes whether it is switched on, and nothing else.
pub proof fn law_tree_toggled(view: BranchDiffModel)
    ensures
        with_tree_toggled(view).show_tree != view.show_tree,
        with_tree_toggled(view).diff == view.diff,
        with_tree_toggled(view).tree_width == view.tree_width,
        with_tree_toggled(view).choices == view.choices,
{
}

/// A click on a row that shows a directory open closes it, and one on a row that shows it closed
/// opens it. The click changes nothing but what is chosen for that directory.
pub proof fn law_directory_toggled(
    view: BranchDiffModel,
    path: Seq<Seq<char>>,
    expanded: bool,
    text: Seq<char>,
)
    ensures
        ({
            let after = with_directory_toggled(view, path, expanded);
            &&& after.choices.dom().contains(join(path))
            &&& after.choices[join(path)] != expanded
            &&& is_open(after.choices, path) != expanded
            &&& text != join(path) ==> (after.choices.dom().contains(text)
                <==> view.choices.dom().contains(text)) && after.choices[text]
                == view.choices[text]
            &&& after.diff == view.diff
            &&& after.show_tree == view.show_tree
            &&& after.tree_width == view.tree_width
        }),
{
}

} // verus!
