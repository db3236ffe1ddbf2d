//! Opening a branch diff from a workspace: what to ask for, what to show, and what to reuse.
use crate::diff::{text_of, DiffBase, DiffBaseModel, RepositoryId};
use crate::error::BranchDiffError;
use crate::order::{place_of_name, Place};
use crate::view::BranchDiff;
use vstd::prelude::*;

verus! {

/// A branch diff that is open in the workspace.
#[derive(Debug, PartialEq, Eq)]
pub struct OpenDiff {
    pub diff_base: DiffBase,
    pub repo: Option<RepositoryId>,
}

/// An [`OpenDiff`], with its reference as text.
pub struct OpenDiffModel {
    pub diff_base: DiffBaseModel,
    pub repo: Option<RepositoryId>,
}

impl View for OpenDiff {
    type V = OpenDiffModel;

    open spec fn view(&self) -> OpenDiffModel {
        OpenDiffModel { diff_base: self.diff_base@, repo: self.repo }
    }
}

/// The views of the branch diffs that are open.
pub open spec fn open_models(items: Seq<OpenDiff>) -> Seq<OpenDiffModel> {
    items.map_values(|item: OpenDiff| item@)
}

/// How a branch diff comes to be shown.
#[derive(Debug, PartialEq, Eq)]
pub enum DeployPlan {
    /// Activate the open one with this number, after giving it the repository if it has another.
    Activate { index: usize, switch_repo: bool },
    /// Make a new one and add it to the active pane.
    Create { base_ref: String, repo: RepositoryId },
}

/// A [`DeployPlan`], with its reference as text.
pub enum PlanModel {
    Activate { index: int, switch_repo: bool },
    Create { base_ref: Seq<char>, repo: RepositoryId },
}

impl View for DeployPlan {
    type V = PlanModel;

    open spec fn view(&self) -> PlanModel {
        match *self {
            DeployPlan::Activate { index, switch_repo } => PlanModel::Activate {
                index: index as int,
                switch_repo,
            },
            DeployPlan::Create { base_ref, repo } => PlanModel::Create {
                base_ref: base_ref@,
                repo,
            },
        }
    }
}

/// Whether the item shows the changes since `base_ref`.
pub open spec fn shows(item: OpenDiffModel, base_ref: Seq<char>) -> bool {
    item.diff_base == DiffBaseModel::Merge { base_ref }
}

/// The number of the first item from `from` on that shows the changes since `base_ref`.
pub open spec fn first_showing(
    items: Seq<OpenDiffModel>,
    base_ref: Seq<char>,
    from: int,
) -> Option<int>
    decreases items.len() - from,
{
    if from < 0 || from >= items.len() {
        None
    } else if shows(items[from], base_ref) {
        Some(from)
    } else {
        first_showing(items, base_ref, from + 1)
    }
}

/// How the changes since `base_ref` in `repo` come to be shown while `items` are open.
pub open spec fn plan_for(
    items: Seq<OpenDiffModel>,
    repo: RepositoryId,
    base_ref: Seq<char>,
) -> PlanModel {
    match first_showing(items, base_ref, 0) {
        Some(index) => PlanModel::Activate {
            index,
            switch_repo: items[index].repo != Some(repo),
        },
        None => PlanModel::Create { base_ref, repo },
    }
}

/// The items that are open once the plan is carried out for `repo`.
pub open spec fn carried_out(
    items: Seq<OpenDiffModel>,
    plan: PlanModel,
    repo: RepositoryId,
) -> Seq<OpenDiffModel> {
    match plan {
        PlanModel::Activate { index, switch_repo } => if switch_repo {
            items.update(index, OpenDiffModel { repo: Some(repo), ..items[index] })
        } else {
            items
        },
        PlanModel::Create { base_ref, repo } => items.push(
            OpenDiffModel { diff_base: DiffBaseModel::Merge { base_ref }, repo: Some(repo) },
        ),
    }
}

/// The number of the item that is active once the plan is carried out.
pub open spec fn active_after(items: Seq<OpenDiffModel>, plan: PlanModel) -> int {
    match plan {
        PlanModel::Activate { index, .. } => index,
        PlanModel::Create { .. } => items.len() as int,
    }
}

/// What the user picks the branch to compare with from.
#[derive(Debug, PartialEq, Eq)]
pub struct BranchPicker {
    pub repository: RepositoryId,
    pub selected_branch: Option<String>,
}

impl BranchDiff {
    /// The repository whose default branch the changes are to be shown since.
    pub fn deploy_branch_diff(active_repository: Option<RepositoryId>) -> (repository: Result<
        RepositoryId,
        BranchDiffError,
    >)
        ensures
            match active_repository {
                Some(repo) => repository == Ok::<RepositoryId, BranchDiffError>(repo),
                None => repository == Err::<RepositoryId, BranchDiffError>(
                    BranchDiffError::NoActiveRepository,
                ),
            },
    {
        match active_repository {
            Some(repo) => Ok(repo),
            None => Err(BranchDiffError::NoActiveRepository),
        }
    }

    /// The branch that the changes are to be shown since, once the repository has answered which
    /// one is its default.
    pub fn default_branch_loaded(default_branch: Option<String>) -> (base_ref: Result<
        String,
        BranchDiffError,
    >)
        ensures
            match default_branch {
                Some(branch) => base_ref == Ok::<String, BranchDiffError>(branch),
                None => base_ref == Err::<String, BranchDiffError>(
                    BranchDiffError::UnknownDefaultBranch,
                ),
            },
    {
        match default_branch {
            Some(branch) => Ok(branch),
            None => Err(BranchDiffError::UnknownDefaultBranch),
        }
    }

    /// The picker for the branch to compare with: over the branches of the active repository, with
    /// the one selected that the active branch diff, if there is one, is already compared with.
    pub fn compare_with_branch(
        active_repository: Option<RepositoryId>,
        active_diff_base: Option<&DiffBase>,
    ) -> (picker: Result<BranchPicker, BranchDiffError>)
        ensures
            match active_repository {
                Some(repo) => picker matches Ok(picker) && picker.repository == repo && text_of(
                    picker.selected_branch,
                ) == match active_diff_base {
                    Some(diff_base) => diff_base@.merge_ref(),
                    None => None,
                },
                None => picker == Err::<BranchPicker, BranchDiffError>(
                    BranchDiffError::NoActiveRepository,
                ),
            },
            match (picker, active_diff_base) {
                (Ok(picker), Some(DiffBase::Merge { base_ref })) => picker.selected_branch matches
                    Some(selected) && selected@ == base_ref@,
                (Ok(picker), _) => picker.selected_branch is None,
                (Err(_), _) => active_repository is None,
            },
    {
        match active_repository {
            Some(repository) => {
                let selected_branch = match active_diff_base {
                    Some(diff_base) => diff_base.merge_ref(),
                    None => None,
                };
                Ok(BranchPicker { repository, selected_branch })
            },
            None => Err(BranchDiffError::NoActiveRepository),
        }
    }

    /// How the changes since `base_ref` in `intended_repo` come to be shown while `items` are
    /// open: the first item that shows the changes since that branch is reused, and given the
    /// repository if it has another or none.
    pub fn deploy_branch_diff_with_base_ref(
        items: &Vec<OpenDiff>,
        intended_repo: RepositoryId,
        base_ref: String,
    ) -> (plan: DeployPlan)
        ensures
            plan@ == plan_for(open_models(items@), intended_repo, base_ref@),
            match plan {
                DeployPlan::Activate { index, switch_repo } => {
                    &&& index < items@.len()
                    &&& items@[index as int].diff_base matches DiffBase::Merge { base_ref: shown }
                        && shown@ == base_ref@
                    &&& forall|i: int|
                        0 <= i < index ==> !((#[trigger] items@[i]).diff_base matches
                            DiffBase::Merge { base_ref: shown } && shown@ == base_ref@)
                    &&& switch_repo == (items@[index as int].repo != Some(intended_repo))
                },
                DeployPlan::Create { base_ref: asked_for, repo } => {
                    &&& asked_for@ == base_ref@
                    &&& repo == intended_repo
                    &&& forall|i: int|
                        0 <= i < items@.len() ==> !((#[trigger] items@[i]).diff_base matches
                            DiffBase::Merge { base_ref: shown } && shown@ == base_ref@)
                },
            },
    {
        let mut index: usize = 0;
        while index < items.len()
            invariant
                index <= items@.len(),
                forall|i: int|
                    0 <= i < index ==> !((#[trigger] items@[i]).diff_base matches
                        DiffBase::Merge { base_ref: shown } && shown@ == base_ref@),
                first_showing(open_models(items@), base_ref@, 0) == first_showing(
                    open_models(items@),
                    base_ref@,
                    index as int,
                ),
            decreases items@.len() - index,
        {
            let item = &items[index];
            assert(open_models(items@)[index as int] == item@);
            if let DiffBase::Merge { base_ref: existing } = &item.diff_base {
                let place = place_of_name(existing.as_str(), base_ref.as_str());
                if place == Place::Same {
                    let switch_repo = match item.repo {
                        Some(current) => current != intended_repo,
                        None => true,
                    };
                    return DeployPlan::Activate { index, switch_repo };
                }
            }
            index += 1;
        }
        DeployPlan::Create { base_ref, repo: intended_repo }
    }
}

/// Where the first item that shows the changes since a branch is found.
proof fn lemma_first_showing(items: Seq<OpenDiffModel>, base_ref: Seq<char>, from: int)
    requires
        0 <= from,
    ensures
        match first_showing(items, base_ref, from) {
            Some(index) => {
                &&& from <= index < items.len()
                &&& shows(items[index], base_ref)
                &&& forall|i: int| from <= i < index ==> !shows(#[trigger] items[i], base_ref)
            },
            None => forall|i: int|
                from <= i < items.len() ==> !shows(#[trigger] items[i], base_ref),
        },
    decreases items.len() - from,
{
    if from < items.len() && !shows(items[from], base_ref) {
        lemma_first_showing(items, base_ref, from + 1);
    }
}

/// The active item then shows the changes since the branch, in the repository; no other item is
/// changed, and none is closed.
pub proof fn law_deploy_shows_the_branch(
    items: Seq<OpenDiffModel>,
    repo: RepositoryId,
    base_ref: Seq<char>,
)
    ensures
        ({
            let plan = plan_for(items, repo, base_ref);
            let after = carried_out(items, plan, repo);
            let active = active_after(items, plan);
            &&& 0 <= active < after.len()
            &&& shows(after[active], base_ref)
            &&& after[active].diff_base == DiffBaseModel::Merge { base_ref }
            &&& after[active].repo == Some(repo)
            &&& items.len() <= after.len() <= items.len() + 1
            &&& forall|i: int|
                0 <= i < items.len() && i != active ==> #[trigger] after[i] == items[i]
        }),
{
    lemma_first_showing(items, base_ref, 0);
}

/// A branch that is already shown is never shown by a second item.
pub proof fn law_deploy_reuses(
    items: Seq<OpenDiffModel>,
    repo: RepositoryId,
    base_ref: Seq<char>,
    i: int,
)
    requires
        0 <= i < items.len(),
        shows(items[i], base_ref),
    ensures
        carried_out(items, plan_for(items, repo, base_ref), repo).len() == items.len(),
{
    lemma_first_showing(items, base_ref, 0);
}

/// Whether no branch is shown by two items.
pub open spec fn one_item_per_branch(items: Seq<OpenDiffModel>) -> bool {
    forall|i: int, j: int, base_ref: Seq<char>|
        0 <= i < items.len() && 0 <= j < items.len() && #[trigger] shows(items[i], base_ref)
            && #[trigger] shows(items[j], base_ref) ==> i == j
}

/// Where no branch is shown by two items, none is afterwards.
pub proof fn law_deploy_keeps_one_item_per_branch(
    items: Seq<OpenDiffModel>,
    repo: RepositoryId,
    base_ref: Seq<char>,
)
    requires
        one_item_per_branch(items),
    ensures
        one_item_per_branch(carried_out(items, plan_for(items, repo, base_ref), repo)),
{
    lemma_first_showing(items, base_ref, 0);
    let after = carried_out(items, plan_for(items, repo, base_ref), repo);
    assert forall|i: int, j: int, other: Seq<char>|
        0 <= i < after.len() && 0 <= j < after.len() && #[trigger] shows(after[i], other)
            && #[trigger] shows(after[j], other) implies i == j by {
        if i < items.len() {
            assert(shows(items[i], other));
        }
        if j < items.len() {
            assert(shows(items[j], other));
        }
    }
}

/// Showing the same changes again activates the same item and changes nothing.
pub proof fn law_deploy_twice(
    items: Seq<OpenDiffModel>,
    repo: RepositoryId,
    base_ref: Seq<char>,
)
    ensures
        ({
            let plan = plan_for(items, repo, base_ref);
            let after = carried_out(items, plan, repo);
            plan_for(after, repo, base_ref) == PlanModel::Activate {
                index: active_after(items, plan),
                switch_repo: false,
            }
        }),
{
    lemma_first_showing(items, base_ref, 0);
    let plan = plan_for(items, repo, base_ref);
    let after = carried_out(items, plan, repo);
    let active = active_after(items, plan);
    lemma_first_showing(after, base_ref, 0);
    assert(shows(after[active], base_ref));
    assert forall|i: int| 0 <= i < active implies !shows(#[trigger] after[i], base_ref) by {
        assert(after[i] == items[i]);
    }
}

/// Where no open item is a diff against the merge base with the branch, one is made: against that
/// merge base and in the repository asked for. It stands behind the items that were open.
pub proof fn law_deploy_creates_what_is_asked_for(
    items: Seq<OpenDiffModel>,
    repo: RepositoryId,
    base_ref: Seq<char>,
)
    requires
        forall|i: int|
            0 <= i < items.len() ==> (#[trigger] items[i]).diff_base != (DiffBaseModel::Merge {
                base_ref,
            }),
    ensures
        plan_for(items, repo, base_ref) == (PlanModel::Create { base_ref, repo }),
        active_after(items, plan_for(items, repo, base_ref)) == items.len(),
        carried_out(items, plan_for(items, repo, base_ref), repo) == items.push(
            OpenDiffModel { diff_base: DiffBaseModel::Merge { base_ref }, repo: Some(repo) },
        ),
{
    lemma_first_showing(items, base_ref, 0);
}

/// Where some open items are diffs against the merge base with the branch, the first of them is
/// activated. It is given the repository exactly if it has another or none, and stays as it is
/// otherwise.
pub proof fn law_deploy_activates_the_first(
    items: Seq<OpenDiffModel>,
    repo: RepositoryId,
    base_ref: Seq<char>,
    i: int,
)
    requires
        0 <= i < items.len(),
        items[i].diff_base == (DiffBaseModel::Merge { base_ref }),
        forall|j: int|
            0 <= j < i ==> (#[trigger] items[j]).diff_base != (DiffBaseModel::Merge { base_ref }),
    ensures
        plan_for(items, repo, base_ref) == (PlanModel::Activate {
            index: i,
            switch_repo: items[i].repo != Some(repo),
        }),
        active_after(items, plan_for(items, repo, base_ref)) == i,
        carried_out(items, plan_for(items, repo, base_ref), repo) == items.update(
            i,
            OpenDiffModel { diff_base: DiffBaseModel::Merge { base_ref }, repo: Some(repo) },
        ),
{
    lemma_first_showing(items, base_ref, 0);
    assert(items.update(i, items[i]) =~= items);
}

/// The open branch diffs are seen one by one, each with the branch and the repository that it has.
pub proof fn law_open_diffs_seen_as_they_are(items: Seq<OpenDiff>, i: int)
    requires
        0 <= i < items.len(),
    ensures
        open_models(items).len() == items.len(),
        open_models(items)[i].diff_base == items[i].diff_base@,
        open_models(items)[i].repo == items[i].repo,
        items[i].diff_base matches DiffBase::Merge { base_ref } ==> open_models(items)[i].diff_base
            == (DiffBaseModel::Merge { base_ref: base_ref@ }),
{
}

} // verus!
