use branch_diff::diff::{DiffBase, DiffMultibuffer, RepositoryId};
use branch_diff::error::BranchDiffError;
use branch_diff::file_entry::{DiffFileEntry, FileStatus, PathKey, StatusCode, TrackedStatus};
use branch_diff::repo_path::RepoPath;
use branch_diff::rows::{compute_indents, render_rows, FolderIcon, TreeRow};
use branch_diff::tree::BranchDiffTreeEntry;
use branch_diff::view::{
    review_diff_loaded, ActsAs, BranchDiff, RequestedType, ReviewBranchDiff, ReviewRequest,
    TextColor,
};
use branch_diff::width::{px, BRANCH_DIFF_TREE_DEFAULT_WIDTH};

const REPO: RepositoryId = RepositoryId(7);
const OTHER_REPO: RepositoryId = RepositoryId(8);

fn merge(base_ref: &str) -> DiffBase {
    DiffBase::Merge {
        base_ref: base_ref.to_string(),
    }
}

fn repo_path(path: &str) -> RepoPath {
    RepoPath::new(path).unwrap()
}

fn file(path: &str) -> DiffFileEntry {
    DiffFileEntry {
        path_key: PathKey::with_sort_prefix(2, repo_path(path)),
        repo_path: repo_path(path),
        status: StatusCode::Modified.worktree(),
    }
}

fn view_of(diff_base: DiffBase, repo: Option<RepositoryId>, paths: &[&str]) -> BranchDiff {
    let mut diff = DiffMultibuffer::new(diff_base, repo);
    diff.file_entries = paths.iter().map(|path| file(path)).collect();
    BranchDiff::from_diff(diff)
}

#[test]
fn a_new_view_shows_its_tree_in_the_default_width() {
    let view = BranchDiff::new_with_branch_base("topic".to_string(), REPO, Some(OTHER_REPO));
    assert_eq!(view.diff_base(), &merge("topic"));
    assert_eq!(view.repo(), Some(REPO));
    assert!(view.show_tree());
    assert_eq!(view.tree_width(), BRANCH_DIFF_TREE_DEFAULT_WIDTH);
    assert_eq!(view.tree_width(), px(240));
    assert!(!view.renders_tree());
    assert!(view.diff().is_empty);
}

#[test]
fn a_new_view_keeps_the_initial_repository_unless_one_is_given() {
    let view = BranchDiff::new_with_base_ref("topic".to_string(), None, Some(OTHER_REPO));
    assert_eq!(view.repo(), Some(OTHER_REPO));
    let view = BranchDiff::new_with_base_ref("topic".to_string(), Some(REPO), Some(OTHER_REPO));
    assert_eq!(view.repo(), Some(REPO));
    let view = BranchDiff::new_with_base_ref("topic".to_string(), None, None);
    assert_eq!(view.repo(), None);
}

#[test]
fn a_view_of_the_default_branch_needs_a_repository_and_a_branch() {
    let main = Some("origin/main".to_string());
    let view = BranchDiff::new_with_default_branch(Some(REPO), main.clone())
        .ok()
        .unwrap();
    assert_eq!(view.diff_base(), &merge("origin/main"));
    assert_eq!(view.repo(), Some(REPO));
    assert_eq!(
        BranchDiff::new_with_default_branch(None, main).err(),
        Some(BranchDiffError::NoActiveRepository)
    );
    assert_eq!(
        BranchDiff::new_with_default_branch(None, None).err(),
        Some(BranchDiffError::NoActiveRepository)
    );
    assert_eq!(
        BranchDiff::new_with_default_branch(Some(REPO), None).err(),
        Some(BranchDiffError::UnknownDefaultBranch)
    );
}

#[test]
fn the_messages_of_the_errors() {
    assert_eq!(BranchDiffError::NoActiveRepository.message(), "No active repository");
    assert_eq!(
        BranchDiffError::UnknownDefaultBranch.message(),
        "Could not determine default branch"
    );
    assert_eq!(
        BranchDiffError::NotAMergeBase.message(),
        "expected a merge base for a branch diff"
    );
    assert_eq!(BranchDiffError::WorkspaceGone.message(), "workspace gone");
}

#[test]
fn the_tree_is_toggled_and_scrolled_to_its_top() {
    let mut view = view_of(merge("main"), Some(REPO), &["a.rs"]);
    assert!(view.renders_tree());
    assert_eq!(view.toggle_tree(), 0);
    assert!(!view.show_tree());
    assert!(!view.renders_tree());
    assert_eq!(view.toggle_tree(), 0);
    assert!(view.show_tree());
    assert!(view.renders_tree());
}

#[test]
fn a_click_on_a_directory_closes_it_and_a_second_opens_it() {
    let mut view = view_of(merge("main"), Some(REPO), &["a/b.rs", "c/d.rs"]);
    let before = view.render_tree().entries;
    assert_eq!(before.len(), 4);
    view.toggle_directory(&repo_path("a"), true);
    let closed = view.render_tree().entries;
    assert_eq!(closed.len(), 3);
    assert!(matches!(&closed[0], BranchDiffTreeEntry::Directory(entry) if !entry.expanded));
    assert!(matches!(&closed[1], BranchDiffTreeEntry::Directory(entry) if entry.expanded));
    view.toggle_directory(&repo_path("a"), false);
    assert_eq!(view.render_tree().entries, before);
}

#[test]
fn the_edge_of_the_tree_is_dragged_and_reset() {
    let mut view = view_of(merge("main"), None, &[]);
    view.drag_resize_handle(px(480), px(1000));
    assert_eq!(view.tree_width(), px(480));
    assert!(!view.click_resize_handle(1));
    assert_eq!(view.tree_width(), px(480));
    view.drag_resize_handle(px(10), px(1000));
    assert_eq!(view.tree_width(), px(160));
    assert_eq!(view.render_tree().width, px(160));
    assert!(view.click_resize_handle(2));
    assert_eq!(view.tree_width(), px(240));
    assert!(!view.click_resize_handle(0));
}

#[test]
fn the_panel_counts_the_files_and_not_the_rows() {
    let mut view = view_of(merge("main"), None, &["a/b.rs", "a/c.rs", "d.rs"]);
    view.toggle_directory(&repo_path("a"), true);
    let panel = view.render_tree();
    assert_eq!(panel.file_count, 3);
    assert_eq!(panel.entries.len(), 2);
}

#[test]
fn what_a_row_shows() {
    let view = view_of(merge("main"), None, &["a/b/c.rs", "d.rs"]);
    let entries = view.render_tree().entries;
    assert_eq!(
        BranchDiff::render_tree_entry(0, &entries[0], None),
        TreeRow::Directory {
            ix: 0,
            indent_level: 0,
            fallback_icon: FolderIcon::FolderOpen,
            name: "a/b".to_string(),
            path: repo_path("a/b"),
            expand_on_click: false,
        }
    );
    let row = |active: Option<&RepoPath>, selected: bool| {
        assert_eq!(
            BranchDiff::render_tree_entry(1, &entries[1], active),
            TreeRow::File {
                ix: 1,
                indent_level: 1,
                selected,
                status: FileStatus::TrackedFile(TrackedStatus {
                    index_status: StatusCode::Unmodified,
                    worktree_status: StatusCode::Modified,
                }),
                file_name: "c.rs".to_string(),
                full_path: "a/b/c.rs".to_string(),
                path_key: PathKey::with_sort_prefix(2, repo_path("a/b/c.rs")),
            }
        );
    };
    row(None, false);
    row(Some(&repo_path("d.rs")), false);
    row(Some(&repo_path("a/b/c.rs")), true);
}

#[test]
fn a_closed_directory_has_the_other_icon() {
    let mut view = view_of(merge("main"), None, &["a/b.rs"]);
    view.toggle_directory(&repo_path("a"), true);
    let entries = view.render_tree().entries;
    assert!(matches!(
        BranchDiff::render_tree_entry(4, &entries[0], None),
        TreeRow::Directory {
            ix: 4,
            fallback_icon: FolderIcon::Folder,
            expand_on_click: true,
            ..
        }
    ));
}

#[test]
fn rows_and_indents_of_a_range() {
    let view = view_of(merge("main"), None, &["a/b.rs", "a/c/d.rs", "e.rs"]);
    let entries = view.render_tree().entries;
    assert_eq!(compute_indents(&entries, 0, 7), vec![0, 1, 2, 1, 0, 0, 0]);
    assert_eq!(compute_indents(&entries, 2, 4), vec![2, 1]);
    assert_eq!(compute_indents(&entries, 4, 2), Vec::<usize>::new());
    let rows = render_rows(&entries, 3, 9, Some(&repo_path("e.rs")));
    assert_eq!(rows.len(), 2);
    assert_eq!(rows[0], BranchDiff::render_tree_entry(3, &entries[3], None));
    assert!(matches!(&rows[1], TreeRow::File { ix: 4, selected: true, .. }));
    assert_eq!(render_rows(&entries, 9, 12, None).len(), 0);
    assert_eq!(render_rows(&entries, 2, 2, None).len(), 0);
    assert_eq!(render_rows(&entries, 0, 5, None).len(), 5);
}

#[test]
fn the_base_and_the_repository_are_changed_in_place() {
    let mut view = view_of(merge("main"), Some(REPO), &["a.rs"]);
    view.set_merge_base("topic".to_string());
    assert_eq!(view.diff_base(), &merge("topic"));
    assert_eq!(view.repo(), Some(REPO));
    view.set_repo(None);
    assert_eq!(view.repo(), None);
    assert_eq!(view.diff_base(), &merge("topic"));
    assert_eq!(view.diff().file_entries.len(), 1);
    view.set_diff(DiffMultibuffer::new(DiffBase::Head, Some(OTHER_REPO)));
    assert_eq!(view.diff_base(), &DiffBase::Head);
    assert_eq!(view.repo(), Some(OTHER_REPO));
    assert!(!view.renders_tree());
}

#[test]
fn a_review_needs_a_merge_base_and_a_repository() {
    let request = ReviewRequest {
        repo: REPO,
        base_ref: "main".to_string(),
    };
    assert_eq!(view_of(merge("main"), Some(REPO), &[]).review_diff(), Some(request));
    assert_eq!(view_of(merge("main"), None, &[]).review_diff(), None);
    assert_eq!(view_of(DiffBase::Head, Some(REPO), &[]).review_diff(), None);
    assert_eq!(view_of(DiffBase::Staged, None, &[]).review_diff(), None);
}

#[test]
fn a_loaded_diff_is_sent_while_the_workspace_is_open() {
    let request = || ReviewRequest {
        repo: REPO,
        base_ref: "main".to_string(),
    };
    assert_eq!(
        review_diff_loaded(request(), "+ line".to_string(), true),
        Some(ReviewBranchDiff {
            diff_text: "+ line".to_string(),
            base_ref: "main".to_string(),
        })
    );
    assert_eq!(review_diff_loaded(request(), "+ line".to_string(), false), None);
}

#[test]
fn the_title_names_the_branch() {
    let view = view_of(merge("origin/main"), None, &[]);
    assert_eq!(view.tab_content_text(), "Changes since origin/main");
    assert_eq!(view.tab_tooltip_text(), Some("Changes since origin/main".to_string()));
    for base in [DiffBase::Head, DiffBase::Index, DiffBase::Staged] {
        assert_eq!(view_of(base, None, &[]).tab_content_text(), "Changes");
    }
    assert_eq!(view.tab_content(true).color, TextColor::Default);
    assert_eq!(view.tab_content(false).color, TextColor::Muted);
    assert_eq!(view.tab_content(false).text, "Changes since origin/main");
}

#[test]
fn what_a_view_acts_as() {
    let none = RequestedType {
        is_branch_diff: false,
        is_diff_multibuffer: false,
        is_editor: false,
        is_splittable_editor: false,
        is_diff_buffer_list: false,
    };
    let cases = [
        (RequestedType { is_branch_diff: true, ..none }, Some(ActsAs::BranchDiff)),
        (RequestedType { is_diff_multibuffer: true, ..none }, Some(ActsAs::DiffMultibuffer)),
        (RequestedType { is_editor: true, ..none }, Some(ActsAs::RhsEditor)),
        (RequestedType { is_splittable_editor: true, ..none }, Some(ActsAs::SplittableEditor)),
        (RequestedType { is_diff_buffer_list: true, ..none }, Some(ActsAs::DiffBufferList)),
        (none, None),
    ];
    for (requested, expected) in cases {
        assert_eq!(BranchDiff::act_as_type(requested), expected);
    }
}

#[test]
fn a_split_shows_the_same_changes_afresh() {
    let mut view = view_of(merge("main"), Some(REPO), &["a.rs"]);
    view.toggle_tree();
    let split = view.clone_on_split(true, Some(OTHER_REPO)).unwrap();
    assert_eq!(split.diff_base(), &merge("main"));
    assert_eq!(split.repo(), Some(REPO));
    assert!(split.show_tree());
    assert!(view.clone_on_split(false, Some(OTHER_REPO)).is_none());
    assert!(view_of(DiffBase::Index, Some(REPO), &[]).clone_on_split(true, None).is_none());
    let split = view_of(merge("main"), None, &[]).clone_on_split(true, Some(OTHER_REPO)).unwrap();
    assert_eq!(split.repo(), Some(OTHER_REPO));
}

#[test]
fn a_saved_view_is_restored_with_its_branch() {
    let view = view_of(merge("topic"), Some(REPO), &["a.rs"]);
    let saved = view.serialize(Some(3), 11).unwrap();
    assert_eq!(saved.workspace_id, 3);
    assert_eq!(saved.item_id, 11);
    assert_eq!(saved.diff_base, merge("topic"));
    let restored = BranchDiff::deserialize(saved.diff_base, true, Some(OTHER_REPO)).ok().unwrap();
    assert_eq!(restored.diff_base(), view.diff_base());
    assert_eq!(restored.tab_content_text(), view.tab_content_text());
    assert_eq!(restored.repo(), Some(OTHER_REPO));
}

#[test]
fn what_is_not_saved_and_what_is_not_restored() {
    assert_eq!(view_of(merge("topic"), None, &[]).serialize(None, 11), None);
    assert_eq!(view_of(DiffBase::Head, None, &[]).serialize(Some(3), 11), None);
    let error = |base, open| BranchDiff::deserialize(base, open, None).err();
    assert_eq!(error(DiffBase::Head, true), Some(BranchDiffError::NotAMergeBase));
    assert_eq!(error(DiffBase::Index, false), Some(BranchDiffError::NotAMergeBase));
    assert_eq!(error(merge("topic"), false), Some(BranchDiffError::WorkspaceGone));
    assert_eq!(error(merge("topic"), true), None);
}
