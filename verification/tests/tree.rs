use branch_diff::file_entry::{DiffFileEntry, PathKey, StatusCode};
use branch_diff::repo_path::RepoPath;
use branch_diff::tree::{
    compact_branch_diff_directory_chain, BranchDiffTreeEntry, BranchDiffTreeNode, ExpandedDirs,
};
use branch_diff::tree_build::build_branch_diff_tree_entries;

fn repo_path(path: &str) -> RepoPath {
    RepoPath::new(path).unwrap()
}

fn tree_test_file(path: &str) -> DiffFileEntry {
    let repo_path = repo_path(path);
    DiffFileEntry {
        path_key: PathKey::with_sort_prefix(2, repo_path.clone()),
        repo_path,
        status: StatusCode::Modified.worktree(),
    }
}

fn files(paths: &[&str]) -> Vec<DiffFileEntry> {
    paths.iter().map(|path| tree_test_file(path)).collect()
}

/// One line per row: the indentation, a sign for an open or closed directory, and the name.
fn outline(entries: &[BranchDiffTreeEntry]) -> Vec<String> {
    entries
        .iter()
        .map(|entry| match entry {
            BranchDiffTreeEntry::Directory(entry) => format!(
                "{}{}{}",
                "  ".repeat(entry.depth),
                if entry.expanded { "-" } else { "+" },
                entry.name
            ),
            BranchDiffTreeEntry::File(entry) => format!(
                "{}{}",
                "  ".repeat(entry.depth),
                entry.entry.repo_path.file_name().unwrap_or("")
            ),
        })
        .collect()
}

#[test]
fn test_branch_diff_tree_entries_and_collapsed_directories() {
    let files = vec![
        tree_test_file("src/lib/a.rs"),
        tree_test_file("README.md"),
        tree_test_file("tests/test.rs"),
        tree_test_file("src/lib/b.rs"),
    ];

    let entries = build_branch_diff_tree_entries(files.clone(), &ExpandedDirs::new());
    assert_eq!(entries.len(), 6);
    assert!(matches!(
        &entries[0],
        BranchDiffTreeEntry::Directory(entry)
            if entry.path == repo_path("src/lib")
                && entry.name == "src/lib"
                && entry.depth == 0
                && entry.expanded
    ));
    assert!(matches!(
        &entries[1],
        BranchDiffTreeEntry::File(entry)
            if entry.entry.repo_path == repo_path("src/lib/a.rs") && entry.depth == 1
    ));
    assert!(matches!(
        &entries[2],
        BranchDiffTreeEntry::File(entry)
            if entry.entry.repo_path == repo_path("src/lib/b.rs") && entry.depth == 1
    ));
    assert!(matches!(
        &entries[3],
        BranchDiffTreeEntry::Directory(entry)
            if entry.path == repo_path("tests") && entry.depth == 0
    ));
    assert!(matches!(
        &entries[5],
        BranchDiffTreeEntry::File(entry)
            if entry.entry.repo_path == repo_path("README.md") && entry.depth == 0
    ));

    let mut collapsed = ExpandedDirs::new();
    collapsed.insert(&repo_path("src/lib"), false);
    let entries = build_branch_diff_tree_entries(files, &collapsed);
    assert_eq!(entries.len(), 4);
    assert!(matches!(
        &entries[0],
        BranchDiffTreeEntry::Directory(entry) if !entry.expanded
    ));
    assert!(!entries.iter().any(|entry| matches!(
        entry,
        BranchDiffTreeEntry::File(entry)
            if entry.entry.repo_path == repo_path("src/lib/a.rs")
                || entry.entry.repo_path == repo_path("src/lib/b.rs")
    )));
}

#[test]
fn no_files_give_no_rows() {
    let entries = build_branch_diff_tree_entries(Vec::new(), &ExpandedDirs::new());
    assert_eq!(entries.len(), 0);
}

#[test]
fn directories_come_before_files_and_both_by_name() {
    let entries = build_branch_diff_tree_entries(
        files(&["z.rs", "a.rs", "m/z.rs", "m/a.rs", "b/x/1", "b/y/2", "B/0", "b-c/3"]),
        &ExpandedDirs::new(),
    );
    assert_eq!(
        outline(&entries),
        vec![
            "-B", "  0", "-b", "  -x", "    1", "  -y", "    2", "-b-c", "  3", "-m", "  a.rs",
            "  z.rs", "a.rs", "z.rs",
        ]
    );
}

#[test]
fn a_chain_is_cut_where_a_directory_holds_a_file() {
    let entries = build_branch_diff_tree_entries(
        files(&["a/b/c/d/one.txt", "a/b/two.txt"]),
        &ExpandedDirs::new(),
    );
    assert_eq!(outline(&entries), vec!["-a/b", "  -c/d", "    one.txt", "  two.txt"]);
    assert!(matches!(
        &entries[1],
        BranchDiffTreeEntry::Directory(entry) if entry.path == repo_path("a/b/c/d")
    ));
}

#[test]
fn a_choice_counts_only_for_the_end_of_a_chain() {
    let mut dirs = ExpandedDirs::new();
    dirs.insert(&repo_path("a"), false);
    let listed = files(&["a/b/one.txt"]);
    let entries = build_branch_diff_tree_entries(listed.clone(), &dirs);
    assert_eq!(outline(&entries), vec!["-a/b", "  one.txt"]);
    dirs.insert(&repo_path("a/b"), false);
    let entries = build_branch_diff_tree_entries(listed.clone(), &dirs);
    assert_eq!(outline(&entries), vec!["+a/b"]);
    dirs.insert(&repo_path("a/b"), true);
    let entries = build_branch_diff_tree_entries(listed, &dirs);
    assert_eq!(outline(&entries), vec!["-a/b", "  one.txt"]);
}

#[test]
fn a_closed_directory_hides_all_levels_below_it_and_nothing_else() {
    let listed = files(&["a/x.rs", "a/b/y.rs", "a/b/c/z.rs", "d/w.rs"]);
    let mut dirs = ExpandedDirs::new();
    dirs.insert(&repo_path("a/b"), false);
    let entries = build_branch_diff_tree_entries(listed.clone(), &dirs);
    assert_eq!(outline(&entries), vec!["-a", "  +b", "  x.rs", "-d", "  w.rs"]);
    dirs.insert(&repo_path("a"), false);
    let entries = build_branch_diff_tree_entries(listed, &dirs);
    assert_eq!(outline(&entries), vec!["+a", "-d", "  w.rs"]);
}

#[test]
fn every_file_has_one_row_while_all_is_open() {
    let paths = ["q/w/e.rs", "q/w/r.rs", "q/t.rs", "y.rs", "u/i/o/p.rs", "u/i/a.rs"];
    let entries = build_branch_diff_tree_entries(files(&paths), &ExpandedDirs::new());
    let mut shown: Vec<String> = entries
        .iter()
        .filter_map(|entry| match entry {
            BranchDiffTreeEntry::File(entry) => Some(entry.entry.repo_path.as_unix_str()),
            BranchDiffTreeEntry::Directory(_) => None,
        })
        .collect();
    shown.sort();
    let mut listed: Vec<String> = paths.iter().map(|path| path.to_string()).collect();
    listed.sort();
    assert_eq!(shown, listed);
}

#[test]
fn the_order_of_the_list_does_not_matter() {
    let forward = ["a/1", "b/2", "a/c/3", "4", "b/5"];
    let backward = ["b/5", "4", "a/c/3", "b/2", "a/1"];
    assert_eq!(
        build_branch_diff_tree_entries(files(&forward), &ExpandedDirs::new()),
        build_branch_diff_tree_entries(files(&backward), &ExpandedDirs::new())
    );
}

#[test]
fn files_of_one_path_stay_in_the_order_of_the_list() {
    let mut first = tree_test_file("same.rs");
    first.status = StatusCode::Added.worktree();
    let second = tree_test_file("same.rs");
    let entries = build_branch_diff_tree_entries(
        vec![first.clone(), tree_test_file("other.rs"), second.clone()],
        &ExpandedDirs::new(),
    );
    assert!(matches!(&entries[1], BranchDiffTreeEntry::File(entry) if entry.entry == first));
    assert!(matches!(&entries[2], BranchDiffTreeEntry::File(entry) if entry.entry == second));
}

#[test]
fn a_file_without_a_path_stands_first_among_those_of_the_root() {
    let entries =
        build_branch_diff_tree_entries(files(&["b.rs", "", "a/c.rs"]), &ExpandedDirs::new());
    assert_eq!(outline(&entries), vec!["-a", "  c.rs", "", "b.rs"]);
}

#[test]
fn the_indentation_steps_in_only_below_open_directories() {
    let entries = build_branch_diff_tree_entries(
        files(&["a/b/1", "a/2", "c/d/e/3", "c/d/4", "5"]),
        &ExpandedDirs::new(),
    );
    assert_eq!(entries[0].depth(), 0);
    for pair in entries.windows(2) {
        match &pair[0] {
            BranchDiffTreeEntry::Directory(entry) if entry.expanded => {
                assert_eq!(pair[1].depth(), entry.depth + 1)
            }
            other => assert!(pair[1].depth() <= other.depth()),
        }
    }
}

#[test]
fn each_directory_has_one_row() {
    let entries = build_branch_diff_tree_entries(
        files(&["a/b/1", "a/b/2", "a/c/3", "b/b/4", "b/5"]),
        &ExpandedDirs::new(),
    );
    let mut paths: Vec<String> = entries
        .iter()
        .filter_map(|entry| match entry {
            BranchDiffTreeEntry::Directory(entry) => Some(entry.path.as_unix_str()),
            BranchDiffTreeEntry::File(_) => None,
        })
        .collect();
    let count = paths.len();
    paths.sort();
    paths.dedup();
    assert_eq!(paths.len(), count);
    assert_eq!(paths, vec!["a", "a/b", "a/c", "b", "b/b"]);
}

fn node(name: &str, path: &str, children: Vec<BranchDiffTreeNode>) -> BranchDiffTreeNode {
    BranchDiffTreeNode {
        name: name.to_string(),
        path: RepoPath::new(path).ok(),
        children,
        files: Vec::new(),
    }
}

#[test]
fn a_chain_of_directories_has_one_name() {
    let chain = node("a", "a", vec![node("b", "a/b", vec![node("c", "a/b/c", vec![])])]);
    let (end, name) = compact_branch_diff_directory_chain(&chain);
    assert_eq!(end.name, "c");
    assert_eq!(name, "a/b/c");
}

#[test]
fn a_chain_stops_above_a_directory_without_a_path() {
    let chain = node("a", "a", vec![node("b", "a//b", vec![])]);
    let (end, name) = compact_branch_diff_directory_chain(&chain);
    assert_eq!(end.name, "a");
    assert_eq!(name, "a");
}
