//! What holds of the rows of every tree.
use crate::file_entry::FileModel;
use crate::order::{lemma_name_lt_irreflexive, name_lt};
use crate::sort::{
    in_path_order, law_sort_ignores_listing, law_sort_keeps_files, law_sort_of_part,
    law_sort_orders, lemma_occurrences_means_contained, lemma_same_occurrences_same_length,
    occurrences, one_file_per_path, sorted_by_path,
};
use crate::tree_model::{
    child_names, contains_dir, directory_rows, file_rows, files_in, is_open,
    lemma_child_means_level, lemma_child_names_ascending, lemma_child_names_complete,
    lemma_shown_for_extends, levels_below, lies_below, rows, shown_for, tree_rows, EntryModel,
};
use vstd::prelude::*;

verus! {

/// Whether a row for the file can be seen among those for `dir`: the file lies there, and every
/// directory that is shown on the way down to it is open.
pub open spec fn visible(
    files: Seq<FileModel>,
    dir: Seq<Seq<char>>,
    file: FileModel,
    choices: Map<Seq<char>, bool>,
) -> bool
    decreases file.parent().len() - dir.len(),
{
    &&& contains_dir(dir, file.parent())
    &&& dir != file.parent() ==> {
        let shown = shown_for(files, dir.push(file.parent()[dir.len() as int]));
        proof {
            lemma_shown_for_extends(files, dir.push(file.parent()[dir.len() as int]));
        }
        &&& is_open(choices, shown)
        &&& contains_dir(shown, file.parent())
        &&& visible(files, shown, file, choices)
    }
}

/// How many of the rows show the file.
pub open spec fn rows_of_file(entries: Seq<EntryModel>, file: FileModel) -> nat
    decreases entries.len(),
{
    if entries.len() == 0 {
        0
    } else {
        let before = rows_of_file(entries.drop_last(), file);
        match entries.last() {
            EntryModel::File { file: shown, .. } if shown == file => before + 1,
            _ => before,
        }
    }
}

proof fn lemma_rows_of_file_concat(a: Seq<EntryModel>, b: Seq<EntryModel>, file: FileModel)
    ensures
        rows_of_file(a + b, file) == rows_of_file(a, file) + rows_of_file(b, file),
    decreases b.len(),
{
    if b.len() == 0 {
        assert(a + b =~= a);
    } else {
        assert((a + b).drop_last() =~= a + b.drop_last());
        lemma_rows_of_file_concat(a, b.drop_last(), file);
    }
}

proof fn lemma_rows_of_file_in_file_rows(
    files: Seq<FileModel>,
    dir: Seq<Seq<char>>,
    depth: int,
    file: FileModel,
)
    ensures
        rows_of_file(file_rows(files_in(files, dir), depth), file) == if file.parent() == dir {
            occurrences(files, file)
        } else {
            0
        },
    decreases files.len(),
{
    reveal(Seq::filter);
    if files.len() == 0 {
        assert(file_rows(files_in(files, dir), depth) =~= Seq::<EntryModel>::empty());
    } else {
        lemma_rows_of_file_in_file_rows(files.drop_last(), dir, depth, file);
        if files.last().parent() == dir {
            assert(file_rows(files_in(files, dir), depth).drop_last() =~= file_rows(
                files_in(files.drop_last(), dir),
                depth,
            ));
        }
    }
}

pub proof fn lemma_files_in_complete(files: Seq<FileModel>, dir: Seq<Seq<char>>, i: int)
    requires
        0 <= i < files.len(),
        files[i].parent() == dir,
    ensures
        files_in(files, dir).len() > 0,
    decreases files.len(),
{
    reveal(Seq::filter);
    if i < files.len() - 1 {
        lemma_files_in_complete(files.drop_last(), dir, i);
    }
}

/// The directory shown for one on the way to a file is itself on the way to the file.
pub proof fn lemma_shown_on_the_way(files: Seq<FileModel>, dir: Seq<Seq<char>>, i: int)
    requires
        0 <= i < files.len(),
        contains_dir(dir, files[i].parent()),
    ensures
        contains_dir(shown_for(files, dir), files[i].parent()),
    decreases levels_below(files, dir),
{
    let names = child_names(files, dir);
    let parent = files[i].parent();
    if files_in(files, dir).len() == 0 && names.len() == 1 {
        if parent == dir {
            lemma_files_in_complete(files, dir, i);
        }
        assert(parent.len() != dir.len()) by {
            if parent.len() == dir.len() {
                assert(parent.take(dir.len() as int) =~= parent);
            }
        }
        let next = parent[dir.len() as int];
        let below = dir.push(next);
        assert(parent.take(below.len() as int) =~= parent.take(dir.len() as int).push(next));
        lemma_child_names_complete(files, dir, next);
        assert(contains_dir(below, files[i].parent()));
        assert(names.contains(next));
        assert(names[0] == next);
        lemma_child_means_level(files, dir);
        lemma_shown_on_the_way(files, below, i);
    }
}

/// Every file is shown once for each time that it is listed, where every directory on the way to
/// it is open, and not at all where one is closed.
pub proof fn law_files_shown(
    files: Seq<FileModel>,
    dir: Seq<Seq<char>>,
    depth: int,
    choices: Map<Seq<char>, bool>,
    file: FileModel,
)
    ensures
        rows_of_file(rows(files, dir, depth, choices), file) == if visible(
            files,
            dir,
            file,
            choices,
        ) {
            occurrences(files, file)
        } else {
            0
        },
    decreases levels_below(files, dir), child_names(files, dir).len() + 1,
{
    let names = child_names(files, dir);
    let parent = file.parent();
    lemma_files_shown_in_directories(files, dir, names.len() as int, depth, choices, file);
    lemma_rows_of_file_in_file_rows(files, dir, depth, file);
    lemma_rows_of_file_concat(
        directory_rows(files, dir, names.len() as int, depth, choices),
        file_rows(files_in(files, dir), depth),
        file,
    );
    assert(dir.take(dir.len() as int) =~= dir);
    if contains_dir(dir, parent) && parent.len() == dir.len() {
        assert(parent.take(dir.len() as int) =~= parent);
    }
    lemma_occurrences_means_contained(files, file);
    if lies_below(file, dir) && occurrences(files, file) > 0 {
        let next = parent[dir.len() as int];
        let below = dir.push(next);
        let i = choose|i: int| 0 <= i < files.len() && files[i] == file;
        assert(parent.take(below.len() as int) =~= parent.take(dir.len() as int).push(next));
        lemma_child_names_complete(files, dir, next);
        assert(contains_dir(below, files[i].parent()));
        lemma_shown_on_the_way(files, below, i);
        let k = choose|k: int| 0 <= k < names.len() && names[k] == next;
        assert(names[k] == next);
    }
}

/// Whether the file lies below one of the first `count` directories of `dir`, and is visible.
spec fn visible_in_directories(
    files: Seq<FileModel>,
    dir: Seq<Seq<char>>,
    count: int,
    file: FileModel,
    choices: Map<Seq<char>, bool>,
) -> bool {
    &&& lies_below(file, dir)
    &&& exists|k: int|
        0 <= k < count && #[trigger] child_names(files, dir)[k]
            == file.parent()[dir.len() as int]
    &&& visible(files, dir, file, choices)
}

proof fn lemma_files_shown_in_directories(
    files: Seq<FileModel>,
    dir: Seq<Seq<char>>,
    count: int,
    depth: int,
    choices: Map<Seq<char>, bool>,
    file: FileModel,
)
    requires
        0 <= count <= child_names(files, dir).len(),
    ensures
        rows_of_file(directory_rows(files, dir, count, depth, choices), file)
            == if visible_in_directories(files, dir, count, file, choices) {
            occurrences(files, file)
        } else {
            0
        },
    decreases levels_below(files, dir), count,
{
    if count > 0 {
        let names = child_names(files, dir);
        let name = names[count - 1];
        let below = dir.push(name);
        let shown = shown_for(files, below);
        let parent = file.parent();
        let before = directory_rows(files, dir, count - 1, depth, choices);
        let expanded = is_open(choices, shown);
        let row = EntryModel::Directory {
            path: shown,
            name: crate::repo_path::join(shown.skip(dir.len() as int)),
            depth,
            expanded,
        };
        let inside = if expanded {
            rows(files, shown, depth + 1, choices)
        } else {
            Seq::<EntryModel>::empty()
        };
        lemma_child_means_level(files, dir);
        lemma_shown_for_extends(files, below);
        lemma_files_shown_in_directories(files, dir, count - 1, depth, choices, file);
        law_files_shown(files, shown, depth + 1, choices, file);
        lemma_rows_of_file_concat(before + seq![row], inside, file);
        lemma_rows_of_file_concat(before, seq![row], file);
        assert(rows_of_file(seq![row], file) == 0) by {
            assert(seq![row].drop_last() =~= Seq::<EntryModel>::empty());
            assert(rows_of_file(seq![row].drop_last(), file) == 0);
            assert(seq![row].last() == row);
        }
        assert(rows_of_file(inside, file) == if expanded && visible(files, shown, file, choices) {
            occurrences(files, file)
        } else {
            0
        });
        lemma_child_names_ascending(files, dir);
        lemma_name_lt_irreflexive(name);
        if contains_dir(shown, parent) {
            assert(parent.take(below.len() as int) =~= parent.take(shown.len() as int).take(
                below.len() as int,
            ));
            assert(parent.take(dir.len() as int) =~= parent.take(below.len() as int).take(
                dir.len() as int,
            ));
            assert(below.take(dir.len() as int) =~= dir);
            assert(parent.take(below.len() as int)[dir.len() as int] == name);
            assert(lies_below(file, dir) && parent[dir.len() as int] == name);
        }
        if lies_below(file, dir) && parent[dir.len() as int] == name {
            assert(dir != parent);
            assert(names[count - 1] == parent[dir.len() as int]);
            assert(!exists|k: int|
                0 <= k < count - 1 && #[trigger] names[k] == parent[dir.len() as int]);
        } else if lies_below(file, dir) {
            assert(visible_in_directories(files, dir, count, file, choices)
                == visible_in_directories(files, dir, count - 1, file, choices)) by {
                if visible_in_directories(files, dir, count, file, choices) {
                    let k = choose|k: int|
                        0 <= k < count && #[trigger] names[k] == parent[dir.len() as int];
                    assert(k < count - 1);
                }
                if visible_in_directories(files, dir, count - 1, file, choices) {
                    let k = choose|k: int|
                        0 <= k < count - 1 && #[trigger] names[k] == parent[dir.len() as int];
                    assert(names[k] == parent[dir.len() as int]);
                }
            }
        }
    } else {
        assert(directory_rows(files, dir, count, depth, choices) =~= Seq::<EntryModel>::empty());
    }
}

/// Where no directory was closed, every file is shown once for each time that it is listed.
pub proof fn law_all_open_shows_all(
    files: Seq<FileModel>,
    depth: int,
    choices: Map<Seq<char>, bool>,
    file: FileModel,
)
    requires
        forall|path: Seq<char>| #[trigger] choices.dom().contains(path) ==> choices[path],
    ensures
        rows_of_file(rows(files, Seq::<Seq<char>>::empty(), depth, choices), file) == occurrences(
            files,
            file,
        ),
{
    let top = Seq::<Seq<char>>::empty();
    law_files_shown(files, top, depth, choices, file);
    lemma_occurrences_means_contained(files, file);
    if occurrences(files, file) > 0 {
        let i = choose|i: int| 0 <= i < files.len() && files[i] == file;
        assert(file.parent().take(0) =~= top);
        lemma_all_open_is_visible(files, top, i, choices);
    }
}

proof fn lemma_all_open_is_visible(
    files: Seq<FileModel>,
    dir: Seq<Seq<char>>,
    i: int,
    choices: Map<Seq<char>, bool>,
)
    requires
        0 <= i < files.len(),
        contains_dir(dir, files[i].parent()),
        forall|path: Seq<char>| #[trigger] choices.dom().contains(path) ==> choices[path],
    ensures
        visible(files, dir, files[i], choices),
    decreases files[i].parent().len() - dir.len(),
{
    let parent = files[i].parent();
    if dir != parent {
        assert(dir.len() < parent.len()) by {
            if dir.len() == parent.len() {
                assert(parent.take(dir.len() as int) =~= parent);
            }
        }
        let below = dir.push(parent[dir.len() as int]);
        assert(parent.take(below.len() as int) =~= parent.take(dir.len() as int).push(
            parent[dir.len() as int],
        ));
        lemma_shown_on_the_way(files, below, i);
        lemma_shown_for_extends(files, below);
        lemma_all_open_is_visible(files, shown_for(files, below), i, choices);
    }
}

/// The rows of a list are levelled from `depth` on: the first stands at `depth` and none to the
/// left of it; an open directory is followed by a row one level deeper; any other row is followed
/// by none that is deeper.
pub open spec fn levelled(entries: Seq<EntryModel>, depth: int) -> bool {
    &&& entries.len() > 0 ==> entries[0].level() == depth
    &&& forall|i: int| 0 <= i < entries.len() ==> (#[trigger] entries[i]).level() >= depth
    &&& forall|i: int|
        0 <= i < entries.len() ==> {
            if is_open_directory(#[trigger] entries[i]) {
                i + 1 < entries.len() && entries[i + 1].level() == entries[i].level() + 1
            } else {
                i + 1 < entries.len() ==> entries[i + 1].level() <= entries[i].level()
            }
        }
}

/// Whether the row is that of an open directory.
pub open spec fn is_open_directory(entry: EntryModel) -> bool {
    entry matches EntryModel::Directory { expanded, .. } && expanded
}

proof fn lemma_levelled_concat(a: Seq<EntryModel>, b: Seq<EntryModel>, depth: int)
    requires
        levelled(a, depth),
        levelled(b, depth),
    ensures
        levelled(a + b, depth),
{
    let both = a + b;
    assert forall|i: int| 0 <= i < both.len() implies (#[trigger] both[i]).level() >= depth by {
        if i < a.len() {
            assert(both[i] == a[i]);
        } else {
            assert(both[i] == b[i - a.len()]);
        }
    }
    assert forall|i: int| 0 <= i < both.len() implies {
        if is_open_directory(#[trigger] both[i]) {
            i + 1 < both.len() && both[i + 1].level() == both[i].level() + 1
        } else {
            i + 1 < both.len() ==> both[i + 1].level() <= both[i].level()
        }
    } by {
        if i < a.len() {
            assert(both[i] == a[i]);
            assert(a[i].level() >= depth);
            assert(is_open_directory(a[i]) == is_open_directory(both[i]));
            if i + 1 < a.len() {
                assert(both[i + 1] == a[i + 1]);
            } else if i + 1 < both.len() {
                assert(both[i + 1] == b[0]);
            }
        } else {
            let j = i - a.len();
            assert(both[i] == b[j]);
            assert(is_open_directory(b[j]) == is_open_directory(both[i]));
            if i + 1 < both.len() {
                assert(both[i + 1] == b[j + 1]);
            }
        }
    }
    if both.len() > 0 {
        if a.len() > 0 {
            assert(both[0] == a[0]);
        } else {
            assert(both[0] == b[0]);
        }
    }
}

proof fn lemma_levelled_directory(row: EntryModel, inside: Seq<EntryModel>, depth: int)
    requires
        row.level() == depth,
        levelled(inside, depth + 1),
        is_open_directory(row) <==> inside.len() > 0,
    ensures
        levelled(seq![row] + inside, depth),
{
    let last = seq![row] + inside;
    assert forall|j: int| 0 <= j < last.len() implies {
        if is_open_directory(#[trigger] last[j]) {
            j + 1 < last.len() && last[j + 1].level() == last[j].level() + 1
        } else {
            j + 1 < last.len() ==> last[j + 1].level() <= last[j].level()
        }
    } by {
        if j == 0 {
            assert(last[0] == row);
            if inside.len() > 0 {
                assert(last[1] == inside[0]);
            }
        } else {
            assert(last[j] == inside[j - 1]);
            assert(is_open_directory(inside[j - 1]) == is_open_directory(last[j]));
            if j + 1 < last.len() {
                assert(last[j + 1] == inside[j]);
            }
        }
    }
    assert forall|j: int| 0 <= j < last.len() implies (#[trigger] last[j]).level() >= depth by {
        if j > 0 {
            assert(last[j] == inside[j - 1]);
        }
    }
}

/// A directory that holds a file, however deep, has a row.
proof fn lemma_rows_not_empty(
    files: Seq<FileModel>,
    dir: Seq<Seq<char>>,
    depth: int,
    choices: Map<Seq<char>, bool>,
    i: int,
)
    requires
        0 <= i < files.len(),
        contains_dir(dir, files[i].parent()),
    ensures
        rows(files, dir, depth, choices).len() > 0,
{
    let parent = files[i].parent();
    let names = child_names(files, dir);
    if parent == dir {
        lemma_files_in_complete(files, dir, i);
    } else {
        assert(dir.len() < parent.len()) by {
            if dir.len() == parent.len() {
                assert(parent.take(dir.len() as int) =~= parent);
            }
        }
        let next = parent[dir.len() as int];
        assert(parent.take(dir.push(next).len() as int) =~= parent.take(dir.len() as int).push(
            next,
        ));
        lemma_child_names_complete(files, dir, next);
        assert(contains_dir(dir.push(next), files[i].parent()));
        assert(names.contains(next));
        assert(directory_rows(files, dir, names.len() as int, depth, choices).len() > 0);
    }
}

/// The rows of every tree are levelled: the indentation alone tells which directory a row lies in.
pub proof fn law_levelled(
    files: Seq<FileModel>,
    dir: Seq<Seq<char>>,
    depth: int,
    choices: Map<Seq<char>, bool>,
)
    ensures
        levelled(rows(files, dir, depth, choices), depth),
    decreases levels_below(files, dir), child_names(files, dir).len() + 1,
{
    let count = child_names(files, dir).len() as int;
    lemma_directories_levelled(files, dir, count, depth, choices);
    lemma_levelled_concat(
        directory_rows(files, dir, count, depth, choices),
        file_rows(files_in(files, dir), depth),
        depth,
    );
}

proof fn lemma_directories_levelled(
    files: Seq<FileModel>,
    dir: Seq<Seq<char>>,
    count: int,
    depth: int,
    choices: Map<Seq<char>, bool>,
)
    requires
        0 <= count <= child_names(files, dir).len(),
    ensures
        levelled(directory_rows(files, dir, count, depth, choices), depth),
    decreases levels_below(files, dir), count,
{
    if count > 0 {
        let names = child_names(files, dir);
        let name = names[count - 1];
        let below = dir.push(name);
        let shown = shown_for(files, below);
        let before = directory_rows(files, dir, count - 1, depth, choices);
        let expanded = is_open(choices, shown);
        let row = EntryModel::Directory {
            path: shown,
            name: crate::repo_path::join(shown.skip(dir.len() as int)),
            depth,
            expanded,
        };
        let inside = if expanded {
            rows(files, shown, depth + 1, choices)
        } else {
            Seq::<EntryModel>::empty()
        };
        lemma_child_means_level(files, dir);
        lemma_shown_for_extends(files, below);
        lemma_directories_levelled(files, dir, count - 1, depth, choices);
        law_levelled(files, shown, depth + 1, choices);
        assert(names.contains(names[count - 1]));
        lemma_child_names_complete(files, dir, name);
        let i = choose|i: int|
            0 <= i < files.len() && contains_dir(below, (#[trigger] files[i]).parent());
        lemma_shown_on_the_way(files, below, i);
        lemma_rows_not_empty(files, shown, depth + 1, choices, i);
        let last = seq![row] + inside;
        lemma_levelled_directory(row, inside, depth);
        lemma_levelled_concat(before, last, depth);
        assert(before + seq![row] + inside =~= before + last);
    }
}

/// Whether the row is that of the directory `path`.
pub open spec fn is_row_of_directory(entry: EntryModel, path: Seq<Seq<char>>) -> bool {
    entry matches EntryModel::Directory { path: shown, .. } && shown == path
}

/// No directory has two rows.
pub open spec fn directories_once(entries: Seq<EntryModel>) -> bool {
    forall|i: int, j: int, path: Seq<Seq<char>>|
        0 <= i < entries.len() && 0 <= j < entries.len() && #[trigger] is_row_of_directory(
            entries[i],
            path,
        ) && #[trigger] is_row_of_directory(entries[j], path) ==> i == j
}

/// Every directory that has a row lies below `dir`.
spec fn directories_below(entries: Seq<EntryModel>, dir: Seq<Seq<char>>) -> bool {
    forall|i: int, path: Seq<Seq<char>>|
        0 <= i < entries.len() && #[trigger] is_row_of_directory(entries[i], path)
            ==> contains_dir(dir, path) && dir.len() < path.len()
}

/// No tree has two rows for one directory.
pub proof fn law_directories_once(
    files: Seq<FileModel>,
    dir: Seq<Seq<char>>,
    depth: int,
    choices: Map<Seq<char>, bool>,
)
    ensures
        directories_once(rows(files, dir, depth, choices)),
{
    lemma_directories_of_rows(files, dir, depth, choices);
}

proof fn lemma_directories_of_rows(
    files: Seq<FileModel>,
    dir: Seq<Seq<char>>,
    depth: int,
    choices: Map<Seq<char>, bool>,
)
    ensures
        directories_once(rows(files, dir, depth, choices)),
        directories_below(rows(files, dir, depth, choices), dir),
    decreases levels_below(files, dir), child_names(files, dir).len() + 1,
{
    let count = child_names(files, dir).len() as int;
    let directories = directory_rows(files, dir, count, depth, choices);
    let all = rows(files, dir, depth, choices);
    lemma_directories_of_directories(files, dir, count, depth, choices);
    assert forall|i: int, path: Seq<Seq<char>>|
        0 <= i < all.len() && #[trigger] is_row_of_directory(
            all[i],
            path,
        ) implies i < directories.len() && is_row_of_directory(directories[i], path) by {
        if i >= directories.len() {
            assert(all[i] == file_rows(files_in(files, dir), depth)[i - directories.len()]);
        }
    }
}

/// Whether the row is that of a directory that lies in one of the first `count` directories of
/// `dir`, or is one of them.
spec fn within_first(
    files: Seq<FileModel>,
    dir: Seq<Seq<char>>,
    count: int,
    path: Seq<Seq<char>>,
) -> bool {
    exists|k: int|
        0 <= k < count && contains_dir(dir.push(#[trigger] child_names(files, dir)[k]), path)
}

proof fn lemma_directories_of_directories(
    files: Seq<FileModel>,
    dir: Seq<Seq<char>>,
    count: int,
    depth: int,
    choices: Map<Seq<char>, bool>,
)
    requires
        0 <= count <= child_names(files, dir).len(),
    ensures
        directories_once(directory_rows(files, dir, count, depth, choices)),
        directories_below(directory_rows(files, dir, count, depth, choices), dir),
        forall|i: int, path: Seq<Seq<char>>|
            0 <= i < directory_rows(files, dir, count, depth, choices).len()
                && #[trigger] is_row_of_directory(
                directory_rows(files, dir, count, depth, choices)[i],
                path,
            ) ==> within_first(files, dir, count, path),
    decreases levels_below(files, dir), count,
{
    if count > 0 {
        let names = child_names(files, dir);
        let name = names[count - 1];
        let below = dir.push(name);
        let shown = shown_for(files, below);
        let before = directory_rows(files, dir, count - 1, depth, choices);
        let expanded = is_open(choices, shown);
        let row = EntryModel::Directory {
            path: shown,
            name: crate::repo_path::join(shown.skip(dir.len() as int)),
            depth,
            expanded,
        };
        let inside = if expanded {
            rows(files, shown, depth + 1, choices)
        } else {
            Seq::<EntryModel>::empty()
        };
        let all = directory_rows(files, dir, count, depth, choices);
        assert(all == before + seq![row] + inside);
        lemma_child_means_level(files, dir);
        lemma_shown_for_extends(files, below);
        lemma_directories_of_directories(files, dir, count - 1, depth, choices);
        lemma_directories_of_rows(files, shown, depth + 1, choices);
        lemma_child_names_ascending(files, dir);
        let n = before.len() as int;
        // A row from `n` on lies within the last directory, one before it does not.
        assert forall|i: int, path: Seq<Seq<char>>|
            0 <= i < all.len() && #[trigger] is_row_of_directory(all[i], path) implies {
            &&& i < n ==> is_row_of_directory(before[i], path) && !contains_dir(below, path)
            &&& i == n ==> path == shown
            &&& i > n ==> is_row_of_directory(inside[i - n - 1], path) && shown.len() < path.len()
            &&& i >= n ==> contains_dir(below, path)
            &&& contains_dir(dir, path) && dir.len() < path.len()
            &&& within_first(files, dir, count, path)
        } by {
            if i < n {
                assert(all[i] == before[i]);
                assert(is_row_of_directory(before[i], path));
                let k = choose|k: int|
                    0 <= k < count - 1 && contains_dir(dir.push(#[trigger] names[k]), path);
                assert(contains_dir(dir.push(names[k]), path));
                assert(name_lt(names[k], names[count - 1]));
                lemma_name_lt_irreflexive(name);
                assert(path.take(below.len() as int)[dir.len() as int] == names[k]);
            } else {
                if i == n {
                    assert(all[i] == row);
                } else {
                    assert(all[i] == inside[i - n - 1]);
                    assert(is_row_of_directory(inside[i - n - 1], path));
                    assert(contains_dir(shown, path));
                    assert(path.take(below.len() as int) =~= path.take(shown.len() as int).take(
                        below.len() as int,
                    ));
                }
                assert(contains_dir(below, path));
                assert(path.take(dir.len() as int) =~= path.take(below.len() as int).take(
                    dir.len() as int,
                ));
                assert(below.take(dir.len() as int) =~= dir);
                assert(names[count - 1] == name);
            }
        }
        assert forall|i: int, j: int, path: Seq<Seq<char>>|
            0 <= i < all.len() && 0 <= j < all.len() && #[trigger] is_row_of_directory(
                all[i],
                path,
            ) && #[trigger] is_row_of_directory(all[j], path) implies i == j by {
            if i < n && j < n {
                assert(is_row_of_directory(before[i], path));
                assert(is_row_of_directory(before[j], path));
            } else if i > n && j > n {
                assert(is_row_of_directory(inside[i - n - 1], path));
                assert(is_row_of_directory(inside[j - n - 1], path));
            }
        }
    }
}

/// What lies in a closed directory that has a row, or below it, is not shown.
pub proof fn law_closed_hides(
    files: Seq<FileModel>,
    dir: Seq<Seq<char>>,
    depth: int,
    choices: Map<Seq<char>, bool>,
    i: int,
    path: Seq<Seq<char>>,
    file: FileModel,
)
    requires
        0 <= i < rows(files, dir, depth, choices).len(),
        is_row_of_directory(rows(files, dir, depth, choices)[i], path),
        !is_open_directory(rows(files, dir, depth, choices)[i]),
        contains_dir(path, file.parent()),
    ensures
        rows_of_file(rows(files, dir, depth, choices), file) == 0,
{
    law_files_shown(files, dir, depth, choices, file);
    lemma_row_on_the_way(files, dir, depth, choices, i, path, file);
}

/// The row of a directory says whether it is open, and a file in it is visible only if it is.
proof fn lemma_row_on_the_way(
    files: Seq<FileModel>,
    dir: Seq<Seq<char>>,
    depth: int,
    choices: Map<Seq<char>, bool>,
    i: int,
    path: Seq<Seq<char>>,
    file: FileModel,
)
    requires
        0 <= i < rows(files, dir, depth, choices).len(),
        is_row_of_directory(rows(files, dir, depth, choices)[i], path),
        contains_dir(path, file.parent()),
    ensures
        is_open_directory(rows(files, dir, depth, choices)[i]) == is_open(choices, path),
        visible(files, dir, file, choices) ==> is_open(choices, path),
    decreases levels_below(files, dir), child_names(files, dir).len() + 1,
{
    let count = child_names(files, dir).len() as int;
    let directories = directory_rows(files, dir, count, depth, choices);
    if i >= directories.len() {
        assert(rows(files, dir, depth, choices)[i] == file_rows(files_in(files, dir), depth)[i
            - directories.len()]);
    } else {
        assert(rows(files, dir, depth, choices)[i] == directories[i]);
        lemma_row_of_directories_on_the_way(files, dir, count, depth, choices, i, path, file);
    }
}

proof fn lemma_row_of_directories_on_the_way(
    files: Seq<FileModel>,
    dir: Seq<Seq<char>>,
    count: int,
    depth: int,
    choices: Map<Seq<char>, bool>,
    i: int,
    path: Seq<Seq<char>>,
    file: FileModel,
)
    requires
        0 <= count <= child_names(files, dir).len(),
        0 <= i < directory_rows(files, dir, count, depth, choices).len(),
        is_row_of_directory(directory_rows(files, dir, count, depth, choices)[i], path),
        contains_dir(path, file.parent()),
    ensures
        is_open_directory(directory_rows(files, dir, count, depth, choices)[i]) == is_open(
            choices,
            path,
        ),
        visible(files, dir, file, choices) ==> is_open(choices, path),
    decreases levels_below(files, dir), count,
{
    let names = child_names(files, dir);
    let name = names[count - 1];
    let below = dir.push(name);
    let shown = shown_for(files, below);
    let before = directory_rows(files, dir, count - 1, depth, choices);
    let inside = if is_open(choices, shown) {
        rows(files, shown, depth + 1, choices)
    } else {
        Seq::<EntryModel>::empty()
    };
    let all = directory_rows(files, dir, count, depth, choices);
    let n = before.len() as int;
    let parent = file.parent();
    lemma_child_means_level(files, dir);
    lemma_shown_for_extends(files, below);
    if i < n {
        assert(all[i] == before[i]);
        lemma_row_of_directories_on_the_way(
            files,
            dir,
            count - 1,
            depth,
            choices,
            i,
            path,
            file,
        );
    } else {
        if i > n {
            assert(all[i] == inside[i - n - 1]);
            lemma_directories_of_rows(files, shown, depth + 1, choices);
            assert(is_row_of_directory(inside[i - n - 1], path));
            assert(contains_dir(shown, path));
            assert(parent.take(shown.len() as int) =~= parent.take(path.len() as int).take(
                shown.len() as int,
            ));
            lemma_row_on_the_way(files, shown, depth + 1, choices, i - n - 1, path, file);
        } else {
            assert(path == shown);
        }
        assert(contains_dir(shown, parent));
        assert(parent.take(below.len() as int) =~= parent.take(shown.len() as int).take(
            below.len() as int,
        ));
        assert(parent[dir.len() as int] == parent.take(below.len() as int)[dir.len() as int]);
        assert(parent[dir.len() as int] == name);
        assert(dir != parent);
    }
}

/// The rows depend on the choices only through which directories are open.
pub proof fn lemma_rows_depend_on_openness(
    files: Seq<FileModel>,
    dir: Seq<Seq<char>>,
    depth: int,
    a: Map<Seq<char>, bool>,
    b: Map<Seq<char>, bool>,
)
    requires
        forall|path: Seq<Seq<char>>| #[trigger] is_open(a, path) == is_open(b, path),
    ensures
        rows(files, dir, depth, a) == rows(files, dir, depth, b),
    decreases levels_below(files, dir), child_names(files, dir).len() + 1,
{
    lemma_directory_rows_depend_on_openness(
        files,
        dir,
        child_names(files, dir).len() as int,
        depth,
        a,
        b,
    );
}

proof fn lemma_directory_rows_depend_on_openness(
    files: Seq<FileModel>,
    dir: Seq<Seq<char>>,
    count: int,
    depth: int,
    a: Map<Seq<char>, bool>,
    b: Map<Seq<char>, bool>,
)
    requires
        0 <= count <= child_names(files, dir).len(),
        forall|path: Seq<Seq<char>>| #[trigger] is_open(a, path) == is_open(b, path),
    ensures
        directory_rows(files, dir, count, depth, a) == directory_rows(files, dir, count, depth, b),
    decreases levels_below(files, dir), count,
{
    if count > 0 {
        let below = dir.push(child_names(files, dir)[count - 1]);
        let shown = shown_for(files, below);
        lemma_child_means_level(files, dir);
        lemma_shown_for_extends(files, below);
        lemma_directory_rows_depend_on_openness(files, dir, count - 1, depth, a, b);
        lemma_rows_depend_on_openness(files, shown, depth + 1, a, b);
        assert(is_open(a, shown) == is_open(b, shown));
    }
}

/// How many of the rows show files.
pub open spec fn file_row_count(entries: Seq<EntryModel>) -> nat
    decreases entries.len(),
{
    if entries.len() == 0 {
        0
    } else {
        let before = file_row_count(entries.drop_last());
        if entries.last() is File {
            before + 1
        } else {
            before
        }
    }
}

/// The files that the rows show, in their order.
spec fn shown_files(entries: Seq<EntryModel>) -> Seq<FileModel>
    decreases entries.len(),
{
    if entries.len() == 0 {
        Seq::<FileModel>::empty()
    } else {
        let before = shown_files(entries.drop_last());
        match entries.last() {
            EntryModel::File { file, .. } => before.push(file),
            _ => before,
        }
    }
}

proof fn lemma_shown_files(entries: Seq<EntryModel>, file: FileModel)
    ensures
        shown_files(entries).len() == file_row_count(entries),
        occurrences(shown_files(entries), file) == rows_of_file(entries, file),
    decreases entries.len(),
{
    if entries.len() > 0 {
        let init = entries.drop_last();
        lemma_shown_files(init, file);
        if entries.last() is File {
            assert(shown_files(entries).drop_last() =~= shown_files(init));
        }
    }
}

/// Where no directory was closed, the tree shows every file once for each time that it is listed.
pub proof fn law_open_tree_shows_every_file(
    files: Seq<FileModel>,
    choices: Map<Seq<char>, bool>,
    file: FileModel,
)
    requires
        forall|path: Seq<char>| #[trigger] choices.dom().contains(path) ==> choices[path],
    ensures
        rows_of_file(tree_rows(files, choices), file) == occurrences(files, file),
{
    law_all_open_shows_all(sorted_by_path(files), 0, choices, file);
    law_sort_keeps_files(files, file);
}

/// Where no directory was closed, the tree has as many rows for files as files are listed.
pub proof fn law_open_tree_counts(files: Seq<FileModel>, choices: Map<Seq<char>, bool>)
    requires
        forall|path: Seq<char>| #[trigger] choices.dom().contains(path) ==> choices[path],
    ensures
        file_row_count(tree_rows(files, choices)) == files.len(),
{
    let entries = tree_rows(files, choices);
    let shown = shown_files(entries);
    assert forall|file: FileModel| #[trigger] occurrences(shown, file) == occurrences(
        files,
        file,
    ) by {
        lemma_shown_files(entries, file);
        law_open_tree_shows_every_file(files, choices, file);
    }
    lemma_same_occurrences_same_length(shown, files);
    lemma_shown_files(entries, arbitrary());
}

/// Where no path is listed for two files, the tree does not depend on the order of the list.
pub proof fn law_tree_ignores_listing(
    a: Seq<FileModel>,
    b: Seq<FileModel>,
    choices: Map<Seq<char>, bool>,
)
    requires
        one_file_per_path(a),
        forall|file: FileModel| #[trigger] occurrences(a, file) == occurrences(b, file),
    ensures
        tree_rows(a, choices) == tree_rows(b, choices),
{
    law_sort_ignores_listing(a, b);
}

/// The files of a directory are shown in the order of their paths.
pub proof fn law_files_in_path_order(files: Seq<FileModel>, dir: Seq<Seq<char>>)
    ensures
        in_path_order(files_in(sorted_by_path(files), dir)),
        files_in(sorted_by_path(files), dir) == sorted_by_path(files_in(files, dir)),
{
    law_sort_of_part(files, |file: FileModel| file.parent() == dir);
    law_sort_orders(files_in(files, dir));
}

} // verus!
