//! What the tree of a list of files shows, stated over the list alone.
use crate::file_entry::FileModel;
use crate::order::{
    lemma_name_lt_irreflexive, lemma_name_lt_total, lemma_name_lt_transitive, name_lt,
};
use crate::repo_path::join;
use crate::sort::sorted_by_path;
use vstd::prelude::*;

verus! {

/// One row of the tree.
pub enum EntryModel {
    Directory { path: Seq<Seq<char>>, name: Seq<char>, depth: int, expanded: bool },
    File { file: FileModel, depth: int },
}

impl EntryModel {
    /// How far the row is indented.
    pub open spec fn level(self) -> int {
        match self {
            EntryModel::Directory { depth, .. } => depth,
            EntryModel::File { depth, .. } => depth,
        }
    }
}

/// Whether the directory `path` is open: so are all that nothing was chosen for.
pub open spec fn is_open(choices: Map<Seq<char>, bool>, path: Seq<Seq<char>>) -> bool {
    choices.dom().contains(join(path)) ==> choices[join(path)]
}

/// Whether `dir` is `path`, or an ancestor of it.
pub open spec fn contains_dir(dir: Seq<Seq<char>>, path: Seq<Seq<char>>) -> bool {
    dir.len() <= path.len() && path.take(dir.len() as int) == dir
}

/// Whether the file lies in a directory below `dir`.
pub open spec fn lies_below(file: FileModel, dir: Seq<Seq<char>>) -> bool {
    contains_dir(dir, file.parent()) && dir.len() < file.parent().len()
}

/// The files that lie in `dir` itself.
pub open spec fn files_in(files: Seq<FileModel>, dir: Seq<Seq<char>>) -> Seq<FileModel> {
    files.filter(|file: FileModel| file.parent() == dir)
}

/// Ascending names, with `name` among them.
pub open spec fn insert_name(names: Seq<Seq<char>>, name: Seq<char>) -> Seq<Seq<char>>
    decreases names.len(),
{
    if names.len() == 0 {
        seq![name]
    } else if names.last() == name {
        names
    } else if name_lt(names.last(), name) {
        names.push(name)
    } else {
        insert_name(names.drop_last(), name).push(names.last())
    }
}

/// The names, ascending and each once, of the directories in `dir` that hold a file, however deep.
pub open spec fn child_names(files: Seq<FileModel>, dir: Seq<Seq<char>>) -> Seq<Seq<char>>
    decreases files.len(),
{
    if files.len() == 0 {
        Seq::<Seq<char>>::empty()
    } else {
        let names = child_names(files.drop_last(), dir);
        if lies_below(files.last(), dir) {
            insert_name(names, files.last().parent()[dir.len() as int])
        } else {
            names
        }
    }
}

/// The number of directories above the deepest file.
pub open spec fn deepest(files: Seq<FileModel>) -> nat
    decreases files.len(),
{
    if files.len() == 0 {
        0
    } else {
        let before = deepest(files.drop_last());
        let last = files.last().parent().len();
        if before < last {
            last
        } else {
            before
        }
    }
}

/// How many levels of directories can lie below `dir`.
pub open spec fn levels_below(files: Seq<FileModel>, dir: Seq<Seq<char>>) -> nat {
    if dir.len() < deepest(files) {
        (deepest(files) - dir.len()) as nat
    } else {
        0
    }
}

/// The directory that is shown for `dir`: while a directory holds no file and one directory only,
/// that one is shown in its place.
pub open spec fn shown_for(files: Seq<FileModel>, dir: Seq<Seq<char>>) -> Seq<Seq<char>>
    decreases levels_below(files, dir),
{
    let names = child_names(files, dir);
    if files_in(files, dir).len() == 0 && names.len() == 1 {
        proof {
            lemma_child_means_level(files, dir);
        }
        shown_for(files, dir.push(names[0]))
    } else {
        dir
    }
}

/// The rows for what lies in `dir`: the directories by name, each followed by its own rows where
/// it is open, then the files.
pub open spec fn rows(
    files: Seq<FileModel>,
    dir: Seq<Seq<char>>,
    depth: int,
    choices: Map<Seq<char>, bool>,
) -> Seq<EntryModel>
    decreases levels_below(files, dir), child_names(files, dir).len() + 1,
{
    directory_rows(files, dir, child_names(files, dir).len() as int, depth, choices) + file_rows(
        files_in(files, dir),
        depth,
    )
}

/// The rows for the first `count` of the directories in `dir`.
pub open spec fn directory_rows(
    files: Seq<FileModel>,
    dir: Seq<Seq<char>>,
    count: int,
    depth: int,
    choices: Map<Seq<char>, bool>,
) -> Seq<EntryModel>
    decreases levels_below(files, dir), count,
{
    if count <= 0 || count > child_names(files, dir).len() {
        Seq::<EntryModel>::empty()
    } else {
        let shown = shown_for(files, dir.push(child_names(files, dir)[count - 1]));
        let expanded = is_open(choices, shown);
        proof {
            lemma_child_means_level(files, dir);
            lemma_shown_for_extends(files, dir.push(child_names(files, dir)[count - 1]));
        }
        directory_rows(files, dir, count - 1, depth, choices) + seq![
            EntryModel::Directory {
                path: shown,
                name: join(shown.skip(dir.len() as int)),
                depth,
                expanded,
            },
        ] + if expanded {
            rows(files, shown, depth + 1, choices)
        } else {
            Seq::<EntryModel>::empty()
        }
    }
}

/// The rows for files that lie in one directory.
pub open spec fn file_rows(files: Seq<FileModel>, depth: int) -> Seq<EntryModel> {
    files.map_values(|file: FileModel| EntryModel::File { file, depth })
}

/// The rows of the tree of a list of files.
pub open spec fn tree_rows(
    files: Seq<FileModel>,
    choices: Map<Seq<char>, bool>,
) -> Seq<EntryModel> {
    rows(sorted_by_path(files), Seq::<Seq<char>>::empty(), 0, choices)
}

/// Where a directory has one below it, it has a level below it.
pub proof fn lemma_child_means_level(files: Seq<FileModel>, dir: Seq<Seq<char>>)
    ensures
        child_names(files, dir).len() > 0 ==> dir.len() < deepest(files),
    decreases files.len(),
{
    if files.len() > 0 {
        lemma_child_means_level(files.drop_last(), dir);
    }
}

/// The directory shown for another is that one or lies below it.
pub proof fn lemma_shown_for_extends(files: Seq<FileModel>, dir: Seq<Seq<char>>)
    ensures
        contains_dir(dir, shown_for(files, dir)),
    decreases levels_below(files, dir),
{
    let names = child_names(files, dir);
    let shown = shown_for(files, dir);
    if files_in(files, dir).len() == 0 && names.len() == 1 {
        let below = dir.push(names[0]);
        lemma_child_means_level(files, dir);
        lemma_shown_for_extends(files, below);
        assert(shown.take(dir.len() as int) =~= shown.take(below.len() as int).take(
            dir.len() as int,
        ));
        assert(below.take(dir.len() as int) =~= dir);
    } else {
        assert(dir.take(dir.len() as int) =~= dir);
    }
}

/// Whether each name comes strictly before all that follow it.
pub open spec fn ascending(names: Seq<Seq<char>>) -> bool {
    forall|i: int, j: int|
        0 <= i < j < names.len() ==> name_lt(#[trigger] names[i], #[trigger] names[j])
}

proof fn lemma_insert_name_shape(names: Seq<Seq<char>>, name: Seq<char>)
    requires
        ascending(names),
    ensures
        ascending(insert_name(names, name)),
        forall|other: Seq<char>|
            #![trigger insert_name(names, name).contains(other)]
            insert_name(names, name).contains(other) <==> other == name || names.contains(other),
    decreases names.len(),
{
    let after = insert_name(names, name);
    if names.len() == 0 {
        assert(after =~= seq![name]);
        assert(after[0] == name);
    } else if names.last() == name {
        assert(names.contains(names.last()));
    } else if name_lt(names.last(), name) {
        assert forall|i: int, j: int| 0 <= i < j < after.len() implies name_lt(
            #[trigger] after[i],
            #[trigger] after[j],
        ) by {
            if j == names.len() && i < names.len() - 1 {
                assert(name_lt(names[i], names[names.len() - 1]));
                lemma_name_lt_transitive(names[i], names.last(), name);
            }
        }
        assert forall|other: Seq<char>| #[trigger] after.contains(other) <==> other == name
            || names.contains(other) by {
            assert(after[names.len() as int] == name);
            if names.contains(other) {
                let k = choose|k: int| 0 <= k < names.len() && names[k] == other;
                assert(after[k] == other);
            }
        }
    } else {
        let init = names.drop_last();
        let inner = insert_name(init, name);
        lemma_name_lt_total(names.last(), name);
        lemma_insert_name_shape(init, name);
        assert forall|i: int, j: int| 0 <= i < j < after.len() implies name_lt(
            #[trigger] after[i],
            #[trigger] after[j],
        ) by {
            if j == inner.len() {
                assert(inner.contains(inner[i]));
                if inner[i] != name {
                    let k = choose|k: int| 0 <= k < init.len() && init[k] == inner[i];
                    assert(name_lt(names[k], names[names.len() - 1]));
                }
            }
        }
        assert forall|other: Seq<char>| #[trigger] after.contains(other) <==> other == name
            || names.contains(other) by {
            assert(inner.contains(other) <==> other == name || init.contains(other));
            if inner.contains(other) {
                let k = choose|k: int| 0 <= k < inner.len() && inner[k] == other;
                assert(after[k] == other);
            }
            if init.contains(other) {
                let k = choose|k: int| 0 <= k < init.len() && init[k] == other;
                assert(names[k] == other);
            }
            if names.contains(other) && other != names.last() {
                let k = choose|k: int| 0 <= k < names.len() && names[k] == other;
                assert(init[k] == other);
            }
            assert(after[inner.len() as int] == names.last());
        }
    }
}

/// The names of the directories in `dir` ascend, so that each is there once.
pub proof fn lemma_child_names_ascending(files: Seq<FileModel>, dir: Seq<Seq<char>>)
    ensures
        ascending(child_names(files, dir)),
    decreases files.len(),
{
    if files.len() > 0 {
        lemma_child_names_ascending(files.drop_last(), dir);
        if lies_below(files.last(), dir) {
            lemma_insert_name_shape(
                child_names(files.drop_last(), dir),
                files.last().parent()[dir.len() as int],
            );
        }
    }
}

/// A directory is named in `dir` exactly if some file lies in it or below it.
pub proof fn lemma_child_names_complete(
    files: Seq<FileModel>,
    dir: Seq<Seq<char>>,
    name: Seq<char>,
)
    ensures
        child_names(files, dir).contains(name) <==> exists|i: int|
            0 <= i < files.len() && contains_dir(dir.push(name), (#[trigger] files[i]).parent()),
    decreases files.len(),
{
    if files.len() > 0 {
        let init = files.drop_last();
        let last = files.last();
        lemma_child_names_complete(init, dir, name);
        lemma_child_names_ascending(init, dir);
        let below = dir.push(name);
        assert(contains_dir(below, last.parent()) <==> lies_below(last, dir)
            && last.parent()[dir.len() as int] == name) by {
            if contains_dir(below, last.parent()) {
                assert(last.parent().take(dir.len() as int) =~= last.parent().take(
                    below.len() as int,
                ).take(dir.len() as int));
                assert(below.take(dir.len() as int) =~= dir);
                assert(last.parent().take(below.len() as int)[dir.len() as int] == name);
            }
            if lies_below(last, dir) && last.parent()[dir.len() as int] == name {
                assert(last.parent().take(below.len() as int) =~= last.parent().take(
                    dir.len() as int,
                ).push(name));
            }
        }
        if lies_below(last, dir) {
            lemma_insert_name_shape(child_names(init, dir), last.parent()[dir.len() as int]);
        }
        if child_names(init, dir).contains(name) {
            let i = choose|i: int|
                0 <= i < init.len() && contains_dir(below, (#[trigger] init[i]).parent());
            assert(contains_dir(below, files[i].parent()));
        }
        if contains_dir(below, last.parent()) {
            assert(contains_dir(below, files[files.len() - 1].parent()));
        }
        if exists|i: int|
            0 <= i < files.len() && contains_dir(below, (#[trigger] files[i]).parent()) {
            let i = choose|i: int|
                0 <= i < files.len() && contains_dir(below, (#[trigger] files[i]).parent());
            if i < init.len() {
                assert(contains_dir(below, init[i].parent()));
            }
        }
    }
}

/// A name that is there already is not added.
pub proof fn lemma_insert_name_present(names: Seq<Seq<char>>, i: int)
    requires
        ascending(names),
        0 <= i < names.len(),
    ensures
        insert_name(names, names[i]) == names,
    decreases names.len(),
{
    if i < names.len() - 1 {
        let last = names[names.len() - 1];
        assert(name_lt(names[i], last));
        lemma_name_lt_irreflexive(last);
        if name_lt(last, names[i]) {
            lemma_name_lt_transitive(last, names[i], last);
        }
        let init = names.drop_last();
        lemma_insert_name_present(init, i);
        assert(names =~= init.push(last));
    }
}

/// A new name goes between those that come before it and those that come after it.
pub proof fn lemma_insert_name_at(names: Seq<Seq<char>>, name: Seq<char>, i: int)
    requires
        0 <= i <= names.len(),
        forall|j: int| 0 <= j < i ==> name_lt(#[trigger] names[j], name),
        forall|j: int| i <= j < names.len() ==> name_lt(name, #[trigger] names[j]),
    ensures
        insert_name(names, name) == names.insert(i, name),
    decreases names.len(),
{
    if names.len() == 0 {
        assert(names.insert(i, name) =~= seq![name]);
    } else {
        let last = names[names.len() - 1];
        lemma_name_lt_irreflexive(last);
        if i == names.len() {
            assert(name_lt(names[i - 1], name));
            assert(names.insert(i, name) =~= names.push(name));
        } else {
            assert(name_lt(name, last));
            if name_lt(last, name) {
                lemma_name_lt_transitive(last, name, last);
            }
            let init = names.drop_last();
            lemma_insert_name_at(init, name, i);
            assert(names.insert(i, name) =~= init.insert(i, name).push(last));
        }
    }
}

} // verus!
