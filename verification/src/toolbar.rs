//! The toolbar of a branch diff.
use crate::diff::{DiffBase, DiffBaseModel};
use crate::view::{BranchDiff, BranchDiffModel};
use vstd::prelude::*;
use vstd::string::*;

verus! {

/// The number of an open view.
#[derive(Clone, Copy, Debug, PartialEq, Eq, Structural)]
pub struct EntityId(pub u64);

/// Where a toolbar stands.
#[derive(Clone, Copy, Debug, PartialEq, Eq, Structural)]
pub enum ToolbarItemLocation {
    Hidden,
    PrimaryRight,
}

/// The toolbar of the branch diff that is active in a pane.
#[derive(Debug, PartialEq, Eq)]
pub struct BranchDiffToolbar {
    branch_diff: Option<EntityId>,
}

impl View for BranchDiffToolbar {
    type V = Option<EntityId>;

    closed spec fn view(&self) -> Option<EntityId> {
        self.branch_diff
    }
}

/// What a button of the toolbar asks for.
#[derive(Clone, Copy, Debug, PartialEq, Eq, Structural)]
pub enum ToolbarAction {
    ToggleBranchDiffTree,
    ReviewDiff,
    SendReviewToAgent,
}

/// How an action is dispatched: after the view is focused, where there is one to focus.
#[derive(Clone, Copy, Debug, PartialEq, Eq, Structural)]
pub struct Dispatch {
    pub focus: Option<EntityId>,
    pub action: ToolbarAction,
}

/// The lines that a diff adds and deletes.
#[derive(Clone, Copy, Debug, PartialEq, Eq, Structural)]
pub struct DiffStat {
    pub additions: u32,
    pub deletions: u32,
}

/// What the toolbar shows.
#[derive(Debug, PartialEq, Eq)]
pub struct ToolbarContents {
    pub diff_stat: Option<DiffStat>,
    /// Whether the button for the tree is pressed.
    pub tree_toggled: bool,
    pub tree_tooltip: String,
    pub base_ref_label: String,
    /// The branch that is selected where another is picked.
    pub selected_base_ref: String,
    pub show_review_button: bool,
    /// How many review comments can be sent, where there are some.
    pub send_review_count: Option<usize>,
}

/// A [`ToolbarContents`], with its texts as models.
pub struct ToolbarModel {
    pub diff_stat: Option<(int, int)>,
    pub tree_toggled: bool,
    pub tree_tooltip: Seq<char>,
    pub base_ref_label: Seq<char>,
    pub selected_base_ref: Seq<char>,
    pub show_review_button: bool,
    pub send_review_count: Option<int>,
}

impl View for ToolbarContents {
    type V = ToolbarModel;

    open spec fn view(&self) -> ToolbarModel {
        ToolbarModel {
            diff_stat: match self.diff_stat {
                Some(stat) => Some((stat.additions as int, stat.deletions as int)),
                None => None,
            },
            tree_toggled: self.tree_toggled,
            tree_tooltip: self.tree_tooltip@,
            base_ref_label: self.base_ref_label@,
            selected_base_ref: self.selected_base_ref@,
            show_review_button: self.show_review_button,
            send_review_count: match self.send_review_count {
                Some(count) => Some(count as int),
                None => None,
            },
        }
    }
}

/// What the toolbar shows for `view`, which compares with `base_ref`.
pub open spec fn contents_for(
    view: BranchDiffModel,
    base_ref: Seq<char>,
    ai_is_enabled: bool,
) -> ToolbarModel {
    ToolbarModel {
        diff_stat: if view.diff.is_empty {
            None
        } else {
            Some((view.diff.additions, view.diff.deletions))
        },
        tree_toggled: view.show_tree,
        tree_tooltip: if view.show_tree {
            "Hide File Tree"@
        } else {
            "Show File Tree"@
        },
        base_ref_label: "Base: "@ + base_ref,
        selected_base_ref: base_ref,
        show_review_button: !view.diff.is_empty && ai_is_enabled,
        send_review_count: if view.diff.total_review_comment_count > 0 {
            Some(view.diff.total_review_comment_count)
        } else {
            None
        },
    }
}

impl BranchDiffToolbar {
    /// A toolbar of no branch diff.
    pub fn new() -> (toolbar: BranchDiffToolbar)
        ensures
            toolbar@ == None::<EntityId>,
    {
        BranchDiffToolbar { branch_diff: None }
    }

    /// The branch diff that the toolbar belongs to, while it is still open.
    pub fn branch_diff(&self, is_open: bool) -> (branch_diff: Option<EntityId>)
        ensures
            branch_diff == if is_open {
                self@
            } else {
                None
            },
    {
        if is_open {
            self.branch_diff
        } else {
            None
        }
    }

    /// Takes the active item of the pane, where that acts as a branch diff. The toolbar is shown
    /// for a branch diff only.
    pub fn set_active_pane_item(&mut self, branch_diff: Option<EntityId>) -> (location:
        ToolbarItemLocation)
        ensures
            final(self)@ == branch_diff,
            location == if branch_diff is Some {
                ToolbarItemLocation::PrimaryRight
            } else {
                ToolbarItemLocation::Hidden
            },
    {
        self.branch_diff = branch_diff;
        if self.branch_diff.is_some() {
            ToolbarItemLocation::PrimaryRight
        } else {
            ToolbarItemLocation::Hidden
        }
    }

    /// How the action is dispatched. The branch diff is focused first, while it is still open.
    pub fn dispatch_action(&self, is_open: bool, action: ToolbarAction) -> (dispatch: Dispatch)
        ensures
            dispatch.focus == if is_open {
                self@
            } else {
                None
            },
            dispatch.action == action,
    {
        Dispatch { focus: self.branch_diff(is_open), action }
    }

    /// What the toolbar shows for the branch diff that it belongs to. It is empty where that is
    /// closed, or does not compare with a merge base.
    pub fn render(branch_diff: Option<&BranchDiff>, ai_is_enabled: bool) -> (contents: Option<
        ToolbarContents,
    >)
        ensures
            match contents {
                Some(contents) => {
                    &&& branch_diff is Some
                    &&& branch_diff->0@.diff.diff_base.merge_ref() is Some
                    &&& contents@ == contents_for(
                        branch_diff->0@,
                        branch_diff->0@.diff.diff_base.merge_ref()->0,
                        ai_is_enabled,
                    )
                },
                None => branch_diff is None
                    || branch_diff->0@.diff.diff_base.merge_ref() is None,
            },
            contents is Some <==> branch_diff is Some && branch_diff->0@.diff.diff_base is Merge,
            contents matches Some(contents) ==> {
                let diff = branch_diff->0@.diff;
                &&& contents.diff_stat is Some <==> !diff.is_empty
                &&& contents.diff_stat matches Some(stat) ==> stat.additions == diff.additions
                    && stat.deletions == diff.deletions
                &&& contents.tree_toggled == branch_diff->0@.show_tree
                &&& contents.tree_toggled ==> contents.tree_tooltip@ == "Hide File Tree"@
                &&& !contents.tree_toggled ==> contents.tree_tooltip@ == "Show File Tree"@
                &&& diff.diff_base == (DiffBaseModel::Merge {
                    base_ref: contents.selected_base_ref@,
                })
                &&& contents.base_ref_label@ == "Base: "@ + contents.selected_base_ref@
                &&& contents.show_review_button <==> ai_is_enabled && !diff.is_empty
                &&& contents.send_review_count is Some <==> diff.total_review_comment_count > 0
                &&& contents.send_review_count matches Some(count) ==> count
                    == diff.total_review_comment_count
            },
    {
        let view = match branch_diff {
            Some(view) => view,
            None => {
                return None;
            },
        };
        let base_ref = match view.diff_base() {
            DiffBase::Merge { base_ref } => base_ref.clone(),
            _ => {
                return None;
            },
        };
        let diff = view.diff();
        let show_tree = view.show_tree();
        let diff_stat = if diff.is_empty {
            None
        } else {
            Some(DiffStat { additions: diff.additions, deletions: diff.deletions })
        };
        let send_review_count = if diff.total_review_comment_count > 0 {
            Some(diff.total_review_comment_count)
        } else {
            None
        };
        Some(
            ToolbarContents {
                diff_stat,
                tree_toggled: show_tree,
                tree_tooltip: if show_tree {
                    "Hide File Tree".to_owned()
                } else {
                    "Show File Tree".to_owned()
                },
                base_ref_label: "Base: ".to_owned().concat(base_ref.as_str()),
                selected_base_ref: base_ref,
                show_review_button: !diff.is_empty && ai_is_enabled,
                send_review_count,
            },
        )
    }
}

/// The counts are shown exactly if the diff is not empty, and are then those of the diff, whatever
/// their values.
pub proof fn law_toolbar_counts(view: BranchDiffModel, base_ref: Seq<char>, ai_is_enabled: bool)
    ensures
        view.diff.is_empty ==> contents_for(view, base_ref, ai_is_enabled).diff_stat is None,
        !view.diff.is_empty ==> contents_for(view, base_ref, ai_is_enabled).diff_stat == Some(
            (view.diff.additions, view.diff.deletions),
        ),
{
}

/// The button for an agent's comments is shown exactly if the diff is not empty and agents are
/// enabled, and the one that sends comments exactly if there are some: it then counts all of them.
pub proof fn law_toolbar_review(view: BranchDiffModel, base_ref: Seq<char>, ai_is_enabled: bool)
    requires
        view.diff.total_review_comment_count >= 0,
    ensures
        contents_for(view, base_ref, ai_is_enabled).show_review_button <==> ai_is_enabled
            && !view.diff.is_empty,
        match contents_for(view, base_ref, ai_is_enabled).send_review_count {
            Some(count) => count == view.diff.total_review_comment_count && count != 0,
            None => view.diff.total_review_comment_count == 0,
        },
{
}

/// The button for the tree is pressed exactly while the tree is switched on, and its tooltip names
/// the other state. The label names the whole branch, which is also the one selected.
pub proof fn law_toolbar_names_the_branch(
    view: BranchDiffModel,
    base_ref: Seq<char>,
    ai_is_enabled: bool,
)
    ensures
        ({
            let contents = contents_for(view, base_ref, ai_is_enabled);
            &&& contents.tree_toggled == view.show_tree
            &&& view.show_tree ==> contents.tree_tooltip == "Hide File Tree"@
            &&& !view.show_tree ==> contents.tree_tooltip == "Show File Tree"@
            &&& contents.selected_base_ref == base_ref
            &&& contents.base_ref_label.len() == 6 + base_ref.len()
            &&& contents.base_ref_label.take(6) == "Base: "@
            &&& contents.base_ref_label.skip(6) == base_ref
        }),
{
    reveal_strlit("Base: ");
    let contents = contents_for(view, base_ref, ai_is_enabled);
    assert(contents.base_ref_label.take(6) =~= "Base: "@);
    assert(contents.base_ref_label.skip(6) =~= base_ref);
}

} // verus!
