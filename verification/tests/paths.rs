use branch_diff::order::{place_of_name, Place};
use branch_diff::repo_path::{InvalidRepoPath, RepoPath};

#[test]
fn a_path_is_spelled_as_it_was_read() {
    for text in ["", "a", "src/lib/a.rs", "d\u{e9}j\u{e0}/vu", "a b/c\\d", "...", "..a/.b"] {
        let path = RepoPath::new(text).unwrap();
        assert_eq!(path.as_unix_str(), text);
        assert_eq!(RepoPath::new(&path.as_unix_str()), Ok(path));
    }
}

#[test]
fn a_text_that_is_not_in_normal_form_is_refused() {
    for text in ["/", "/a", "a/", "a//b", ".", "..", "a/./b", "a/../b", "../a", "a/.."] {
        assert_eq!(RepoPath::new(text), Err(InvalidRepoPath));
    }
}

#[test]
fn components_and_file_name() {
    let path = RepoPath::new("src/lib/a.rs").unwrap();
    assert_eq!(path.components(), &vec!["src", "lib", "a.rs"]);
    assert_eq!(path.file_name(), Some("a.rs"));
    assert_eq!(path.prefix(2).as_unix_str(), "src/lib");
    assert_eq!(path.prefix(0), RepoPath::new("").unwrap());
    assert_eq!(RepoPath::new("").unwrap().file_name(), None);
}

#[test]
fn names_are_ordered_like_text() {
    let names = ["", "A", "B", "a", "a.rs", "aa", "b", "\u{e9}", "\u{1f600}"];
    for a in names {
        for b in names {
            let place = place_of_name(a, b);
            assert_eq!(place == Place::Before, a < b);
            assert_eq!(place == Place::Same, a == b);
            assert_eq!(place == Place::After, a > b);
        }
    }
}

#[test]
fn paths_are_ordered_component_by_component() {
    let below = RepoPath::new("a/z").unwrap();
    let beside = RepoPath::new("a-b").unwrap();
    assert_eq!(below.place(&beside), Place::Before);
    assert_eq!(beside.place(&below), Place::After);
    assert_eq!(RepoPath::new("a").unwrap().place(&below), Place::Before);
    assert_eq!(below.place(&below.clone()), Place::Same);
    assert!(below.is_same_as(&RepoPath::new("a/z").unwrap()));
    assert!(!below.is_same_as(&beside));
}
