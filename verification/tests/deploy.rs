use branch_diff::deploy::{BranchPicker, DeployPlan, OpenDiff};
use branch_diff::diff::{DiffBase, DiffMultibuffer, RepositoryId};
use branch_diff::error::BranchDiffError;
use branch_diff::toolbar::{
    BranchDiffToolbar, DiffStat, Dispatch, EntityId, ToolbarAction, ToolbarContents,
    ToolbarItemLocation,
};
use branch_diff::view::BranchDiff;

const REPO: RepositoryId = RepositoryId(1);
const OTHER_REPO: RepositoryId = RepositoryId(2);

fn merge(base_ref: &str) -> DiffBase {
    DiffBase::Merge {
        base_ref: base_ref.to_string(),
    }
}

fn open(base_ref: &str, repo: Option<RepositoryId>) -> OpenDiff {
    OpenDiff {
        diff_base: merge(base_ref),
        repo,
    }
}

fn plan(items: &Vec<OpenDiff>, repo: RepositoryId, base_ref: &str) -> DeployPlan {
    BranchDiff::deploy_branch_diff_with_base_ref(items, repo, base_ref.to_string())
}

fn carry_out(items: &mut Vec<OpenDiff>, plan: DeployPlan, repo: RepositoryId) -> usize {
    match plan {
        DeployPlan::Activate { index, switch_repo } => {
            if switch_repo {
                items[index].repo = Some(repo);
            }
            index
        }
        DeployPlan::Create { base_ref, repo } => {
            items.push(open(&base_ref, Some(repo)));
            items.len() - 1
        }
    }
}

#[test]
fn the_default_branch_is_shown_beside_another_branch() {
    let mut items = vec![open("topic", Some(REPO))];
    let repo = BranchDiff::deploy_branch_diff(Some(REPO)).unwrap();
    let base_ref = BranchDiff::default_branch_loaded(Some("origin/main".to_string())).unwrap();
    let first = plan(&items, repo, &base_ref);
    let active = carry_out(&mut items, first, repo);
    assert_eq!(items[active].diff_base, merge("origin/main"));
    assert_eq!(items, vec![open("topic", Some(REPO)), open("origin/main", Some(REPO))]);
    let again = plan(&items, repo, &base_ref);
    assert_eq!(
        again,
        DeployPlan::Activate {
            index: active,
            switch_repo: false
        }
    );
}

#[test]
fn the_first_item_of_the_branch_is_reused() {
    let items = vec![
        OpenDiff { diff_base: DiffBase::Head, repo: Some(REPO) },
        open("topic", Some(REPO)),
        open("main", Some(OTHER_REPO)),
        open("main", Some(REPO)),
    ];
    assert_eq!(
        plan(&items, REPO, "main"),
        DeployPlan::Activate { index: 2, switch_repo: true }
    );
    assert_eq!(
        plan(&items, OTHER_REPO, "main"),
        DeployPlan::Activate { index: 2, switch_repo: false }
    );
    assert_eq!(
        plan(&items, REPO, "topic"),
        DeployPlan::Activate { index: 1, switch_repo: false }
    );
    assert_eq!(
        plan(&vec![open("main", None)], REPO, "main"),
        DeployPlan::Activate { index: 0, switch_repo: true }
    );
}

#[test]
fn a_branch_that_is_not_shown_gets_a_new_item() {
    let create = DeployPlan::Create { base_ref: "mai".to_string(), repo: REPO };
    assert_eq!(plan(&vec![open("main", Some(REPO))], REPO, "mai"), create);
    assert_eq!(
        plan(&Vec::new(), OTHER_REPO, "main"),
        DeployPlan::Create { base_ref: "main".to_string(), repo: OTHER_REPO }
    );
}

#[test]
fn without_a_repository_or_a_default_branch_nothing_is_opened() {
    assert_eq!(BranchDiff::deploy_branch_diff(None), Err(BranchDiffError::NoActiveRepository));
    assert_eq!(BranchDiff::deploy_branch_diff(Some(REPO)), Ok(REPO));
    assert_eq!(BranchDiff::default_branch_loaded(None), Err(BranchDiffError::UnknownDefaultBranch));
    assert_eq!(BranchDiff::default_branch_loaded(Some("main".to_string())), Ok("main".to_string()));
}

#[test]
fn the_picker_selects_the_branch_that_is_shown() {
    let picker = |selected_branch: Option<&str>| {
        Ok(BranchPicker {
            repository: REPO,
            selected_branch: selected_branch.map(|branch| branch.to_string()),
        })
    };
    assert_eq!(BranchDiff::compare_with_branch(Some(REPO), Some(&merge("main"))), picker(Some("main")));
    assert_eq!(BranchDiff::compare_with_branch(Some(REPO), Some(&DiffBase::Staged)), picker(None));
    assert_eq!(BranchDiff::compare_with_branch(Some(REPO), None), picker(None));
    assert_eq!(
        BranchDiff::compare_with_branch(None, Some(&merge("main"))),
        Err(BranchDiffError::NoActiveRepository)
    );
}

fn diff(base: DiffBase) -> DiffMultibuffer {
    let mut diff = DiffMultibuffer::new(base, Some(REPO));
    diff.is_empty = false;
    diff.additions = 5;
    diff.deletions = 3;
    diff.total_review_comment_count = 2;
    diff
}

#[test]
fn the_toolbar_of_a_diff_with_changes() {
    let mut view = BranchDiff::from_diff(diff(merge("main")));
    let contents = BranchDiffToolbar::render(Some(&view), true);
    assert_eq!(
        contents,
        Some(ToolbarContents {
            diff_stat: Some(DiffStat { additions: 5, deletions: 3 }),
            tree_toggled: true,
            tree_tooltip: "Hide File Tree".to_string(),
            base_ref_label: "Base: main".to_string(),
            selected_base_ref: "main".to_string(),
            show_review_button: true,
            send_review_count: Some(2),
        })
    );
    view.toggle_tree();
    let contents = BranchDiffToolbar::render(Some(&view), false).unwrap();
    assert!(!contents.tree_toggled);
    assert_eq!(contents.tree_tooltip, "Show File Tree");
    assert!(!contents.show_review_button);
}

#[test]
fn the_toolbar_of_an_empty_diff() {
    let view = BranchDiff::new_with_branch_base("main".to_string(), REPO, None);
    let contents = BranchDiffToolbar::render(Some(&view), true).unwrap();
    assert_eq!(contents.diff_stat, None);
    assert!(!contents.show_review_button);
    assert_eq!(contents.send_review_count, None);
}

#[test]
fn the_toolbar_is_empty_without_a_branch_diff() {
    assert_eq!(BranchDiffToolbar::render(None, true), None);
    let view = BranchDiff::from_diff(diff(DiffBase::Head));
    assert_eq!(BranchDiffToolbar::render(Some(&view), true), None);
}

#[test]
fn the_toolbar_follows_the_active_item() {
    let mut toolbar = BranchDiffToolbar::new();
    assert_eq!(toolbar.branch_diff(true), None);
    let view = EntityId(4);
    assert_eq!(
        toolbar.set_active_pane_item(Some(view)),
        ToolbarItemLocation::PrimaryRight
    );
    assert_eq!(toolbar.branch_diff(true), Some(view));
    assert_eq!(toolbar.branch_diff(false), None);
    let action = ToolbarAction::ReviewDiff;
    assert_eq!(
        toolbar.dispatch_action(true, action),
        Dispatch { focus: Some(view), action }
    );
    assert_eq!(
        toolbar.dispatch_action(false, action),
        Dispatch { focus: None, action }
    );
    assert_eq!(toolbar.set_active_pane_item(None), ToolbarItemLocation::Hidden);
    assert_eq!(toolbar.branch_diff(true), None);
}
