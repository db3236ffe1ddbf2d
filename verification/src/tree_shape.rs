//! What the rows of a tree are, told by the listed files and the choices alone.
use crate::file_entry::FileModel;
use crate::order::{lemma_name_lt_irreflexive, name_lt, path_lt};
use crate::repo_path::join;
use crate::sort::{
    in_path_order, law_sort_is_stable, law_sort_keeps_files, lemma_occurrences_means_contained,
    sorted_by_path,
};
use crate::tree_laws::{
    law_files_in_path_order, lemma_files_in_complete, lemma_shown_on_the_way,
};
use crate::tree_model::{
    child_names, contains_dir, directory_rows, file_rows, files_in, is_open,
    lemma_child_means_level, lemma_child_names_ascending, lemma_child_names_complete,
    lemma_shown_for_extends, levels_below, lies_below, rows, shown_for, tree_rows, EntryModel,
};
use vstd::prelude::*;

verus! {

/// The directory that a path lies in. The root counts as lying in itself.
pub open spec fn holder(path: Seq<Seq<char>>) -> Seq<Seq<char>> {
    if path.len() == 0 {
        path
    } else {
        path.take(path.len() - 1)
    }
}

/// The directory that a row stands for, or that its file lies in.
pub open spec fn place(entry: EntryModel) -> Seq<Seq<char>> {
    match entry {
        EntryModel::Directory { path, .. } => path,
        EntryModel::File { file, .. } => holder(file.repo_path),
    }
}

/// The directory that the `k`th directory of `dir` is shown as.
spec fn shown_at(files: Seq<FileModel>, dir: Seq<Seq<char>>, k: int) -> Seq<Seq<char>> {
    shown_for(files, dir.push(child_names(files, dir)[k]))
}

/// The row of the `k`th directory of `dir`.
spec fn row_at(
    files: Seq<FileModel>,
    dir: Seq<Seq<char>>,
    k: int,
    depth: int,
    choices: Map<Seq<char>, bool>,
) -> EntryModel {
    let shown = shown_at(files, dir, k);
    EntryModel::Directory {
        path: shown,
        name: join(shown.skip(dir.len() as int)),
        depth,
        expanded: is_open(choices, shown),
    }
}

/// The rows below that of the `k`th directory of `dir`.
spec fn inside_at(
    files: Seq<FileModel>,
    dir: Seq<Seq<char>>,
    k: int,
    depth: int,
    choices: Map<Seq<char>, bool>,
) -> Seq<EntryModel> {
    let shown = shown_at(files, dir, k);
    if is_open(choices, shown) {
        rows(files, shown, depth + 1, choices)
    } else {
        Seq::<EntryModel>::empty()
    }
}

/// How many rows stand before that of the `k`th directory of `dir`.
spec fn start_of(
    files: Seq<FileModel>,
    dir: Seq<Seq<char>>,
    k: int,
    depth: int,
    choices: Map<Seq<char>, bool>,
) -> int {
    directory_rows(files, dir, k, depth, choices).len() as int
}

/// The rows of the first `count` directories are those of each in turn.
proof fn lemma_block(
    files: Seq<FileModel>,
    dir: Seq<Seq<char>>,
    count: int,
    depth: int,
    choices: Map<Seq<char>, bool>,
    k: int,
)
    requires
        0 <= k < count <= child_names(files, dir).len(),
    ensures
        ({
            let all = directory_rows(files, dir, count, depth, choices);
            let inside = inside_at(files, dir, k, depth, choices);
            let start = start_of(files, dir, k, depth, choices);
            &&& start_of(files, dir, k + 1, depth, choices) == start + 1 + inside.len()
            &&& start + 1 + inside.len() <= all.len()
            &&& all[start] == row_at(files, dir, k, depth, choices)
            &&& forall|o: int| 0 <= o < inside.len() ==> all[start + 1 + o] == #[trigger] inside[o]
        }),
    decreases count,
{
    let before = directory_rows(files, dir, count - 1, depth, choices);
    let row = row_at(files, dir, count - 1, depth, choices);
    let last = inside_at(files, dir, count - 1, depth, choices);
    let all = directory_rows(files, dir, count, depth, choices);
    assert(all == before + seq![row] + last);
    if k < count - 1 {
        lemma_block(files, dir, count - 1, depth, choices, k);
        let inside = inside_at(files, dir, k, depth, choices);
        let start = start_of(files, dir, k, depth, choices);
        assert forall|o: int| 0 <= o < inside.len() implies all[start + 1 + o]
            == #[trigger] inside[o] by {
            assert(before[start + 1 + o] == inside[o]);
        }
    }
}

/// The directory whose rows the row `i` is among.
proof fn lemma_block_of(
    files: Seq<FileModel>,
    dir: Seq<Seq<char>>,
    count: int,
    depth: int,
    choices: Map<Seq<char>, bool>,
    i: int,
) -> (k: int)
    requires
        0 <= count <= child_names(files, dir).len(),
        0 <= i < directory_rows(files, dir, count, depth, choices).len(),
    ensures
        0 <= k < count,
        start_of(files, dir, k, depth, choices) <= i < start_of(files, dir, k + 1, depth, choices),
    decreases count,
{
    if i < start_of(files, dir, count - 1, depth, choices) {
        lemma_block_of(files, dir, count - 1, depth, choices, i)
    } else {
        count - 1
    }
}

proof fn lemma_start_grows(
    files: Seq<FileModel>,
    dir: Seq<Seq<char>>,
    depth: int,
    choices: Map<Seq<char>, bool>,
    k: int,
    l: int,
)
    requires
        0 <= k <= l <= child_names(files, dir).len(),
    ensures
        start_of(files, dir, k, depth, choices) <= start_of(files, dir, l, depth, choices),
    decreases l - k,
{
    if k < l {
        lemma_start_grows(files, dir, depth, choices, k, l - 1);
        lemma_block(files, dir, l, depth, choices, l - 1);
    }
}

/// Whether the row `i` of those for `dir` is the row `o` of those that the `k`th directory has,
/// its own the first, or of those for the files where `k` is past the last directory.
spec fn stands_at(
    files: Seq<FileModel>,
    dir: Seq<Seq<char>>,
    depth: int,
    choices: Map<Seq<char>, bool>,
    i: int,
    k: int,
    o: int,
) -> bool {
    let count = child_names(files, dir).len() as int;
    let all = rows(files, dir, depth, choices);
    &&& 0 <= k <= count
    &&& 0 <= o
    &&& i == start_of(files, dir, k, depth, choices) + o
    &&& k < count ==> {
        let inside = inside_at(files, dir, k, depth, choices);
        &&& o <= inside.len()
        &&& i < start_of(files, dir, k + 1, depth, choices)
        &&& o == 0 ==> all[i] == row_at(files, dir, k, depth, choices)
        &&& o > 0 ==> all[i] == inside[o - 1] && is_open(choices, shown_at(files, dir, k))
    }
    &&& k == count ==> {
        &&& o < files_in(files, dir).len()
        &&& all[i] == (EntryModel::File { file: files_in(files, dir)[o], depth })
    }
}

proof fn lemma_stands_at(
    files: Seq<FileModel>,
    dir: Seq<Seq<char>>,
    depth: int,
    choices: Map<Seq<char>, bool>,
    i: int,
) -> (at: (int, int))
    requires
        0 <= i < rows(files, dir, depth, choices).len(),
    ensures
        stands_at(files, dir, depth, choices, i, at.0, at.1),
{
    let count = child_names(files, dir).len() as int;
    let directories = directory_rows(files, dir, count, depth, choices);
    if i < directories.len() {
        let k = lemma_block_of(files, dir, count, depth, choices, i);
        lemma_block(files, dir, count, depth, choices, k);
        let o = i - start_of(files, dir, k, depth, choices);
        let inside = inside_at(files, dir, k, depth, choices);
        if o > 0 {
            assert(directories[start_of(files, dir, k, depth, choices) + 1 + (o - 1)] == inside[o
                - 1]);
        }
        (k, o)
    } else {
        (count, i - directories.len())
    }
}

/// The row `o` of those that the `k`th directory has is a row of those for `dir`.
proof fn lemma_has_row(
    files: Seq<FileModel>,
    dir: Seq<Seq<char>>,
    depth: int,
    choices: Map<Seq<char>, bool>,
    k: int,
    o: int,
)
    requires
        0 <= k < child_names(files, dir).len(),
        0 <= o <= inside_at(files, dir, k, depth, choices).len(),
    ensures
        ({
            let i = start_of(files, dir, k, depth, choices) + o;
            &&& 0 <= i < rows(files, dir, depth, choices).len()
            &&& stands_at(files, dir, depth, choices, i, k, o)
        }),
{
    let count = child_names(files, dir).len() as int;
    let directories = directory_rows(files, dir, count, depth, choices);
    let inside = inside_at(files, dir, k, depth, choices);
    lemma_block(files, dir, count, depth, choices, k);
    if o > 0 {
        assert(directories[start_of(files, dir, k, depth, choices) + 1 + (o - 1)] == inside[o - 1]);
    }
}

/// Rows stand in the order of the directories that they are among.
proof fn lemma_stand_in_order(
    files: Seq<FileModel>,
    dir: Seq<Seq<char>>,
    depth: int,
    choices: Map<Seq<char>, bool>,
    i: int,
    k: int,
    o: int,
    j: int,
    l: int,
    p: int,
)
    requires
        i < j,
        stands_at(files, dir, depth, choices, i, k, o),
        stands_at(files, dir, depth, choices, j, l, p),
    ensures
        k < l || (k == l && o < p),
{
    if l < k {
        lemma_start_grows(files, dir, depth, choices, l + 1, k);
    }
}

/// The `k`th directory of `dir` is shown as one that lies below `dir`, and that some file lies in
/// or below.
proof fn lemma_shown_at(files: Seq<FileModel>, dir: Seq<Seq<char>>, k: int) -> (i: int)
    requires
        0 <= k < child_names(files, dir).len(),
    ensures
        ({
            let shown = shown_at(files, dir, k);
            &&& contains_dir(dir, shown)
            &&& dir.len() < shown.len()
            &&& shown[dir.len() as int] == child_names(files, dir)[k]
            &&& levels_below(files, shown) < levels_below(files, dir)
            &&& 0 <= i < files.len()
            &&& contains_dir(dir.push(child_names(files, dir)[k]), files[i].parent())
            &&& contains_dir(shown, files[i].parent())
        }),
{
    let names = child_names(files, dir);
    let below = dir.push(names[k]);
    let shown = shown_at(files, dir, k);
    lemma_child_means_level(files, dir);
    lemma_shown_for_extends(files, below);
    assert(shown.take(dir.len() as int) =~= shown.take(below.len() as int).take(dir.len() as int));
    assert(below.take(dir.len() as int) =~= dir);
    assert(shown.take(below.len() as int)[dir.len() as int] == names[k]);
    lemma_child_names_complete(files, dir, names[k]);
    assert(names.contains(names[k]));
    let i = choose|i: int|
        0 <= i < files.len() && contains_dir(below, (#[trigger] files[i]).parent());
    lemma_shown_on_the_way(files, below, i);
    i
}

proof fn lemma_file_of_part(files: Seq<FileModel>, dir: Seq<Seq<char>>, o: int)
    requires
        0 <= o < files_in(files, dir).len(),
    ensures
        files.contains(files_in(files, dir)[o]),
        files_in(files, dir)[o].parent() == dir,
    decreases files.len(),
{
    reveal(Seq::filter);
    let init = files.drop_last();
    if o < files_in(init, dir).len() {
        lemma_file_of_part(init, dir, o);
        let i = choose|i: int| 0 <= i < init.len() && init[i] == files_in(init, dir)[o];
        assert(files[i] == files_in(files, dir)[o]);
    } else {
        assert(files[files.len() - 1] == files_in(files, dir)[o]);
    }
}

proof fn lemma_contains_through(a: Seq<Seq<char>>, b: Seq<Seq<char>>, c: Seq<Seq<char>>)
    requires
        contains_dir(a, b),
        contains_dir(b, c),
    ensures
        contains_dir(a, c),
        forall|i: int| 0 <= i < b.len() ==> c[i] == #[trigger] b[i],
{
    assert(c.take(a.len() as int) =~= c.take(b.len() as int).take(a.len() as int));
    assert forall|i: int| 0 <= i < b.len() implies c[i] == #[trigger] b[i] by {
        assert(c.take(b.len() as int)[i] == b[i]);
    }
}

proof fn lemma_contained_starts_alike(dir: Seq<Seq<char>>, path: Seq<Seq<char>>)
    requires
        contains_dir(dir, path),
    ensures
        forall|i: int| 0 <= i < dir.len() ==> path[i] == #[trigger] dir[i],
{
    assert(dir.take(dir.len() as int) =~= dir);
    lemma_contains_through(dir, dir, path);
}

/// Every row for `dir` lies in it. That of a directory is below it, and that of a file shows a
/// listed one.
proof fn lemma_place_within(
    files: Seq<FileModel>,
    dir: Seq<Seq<char>>,
    depth: int,
    choices: Map<Seq<char>, bool>,
    i: int,
)
    requires
        0 <= i < rows(files, dir, depth, choices).len(),
    ensures
        ({
            let entry = rows(files, dir, depth, choices)[i];
            &&& contains_dir(dir, place(entry))
            &&& entry is Directory ==> dir.len() < place(entry).len()
            &&& entry is File ==> files.contains(entry->file)
        }),
    decreases levels_below(files, dir),
{
    let (k, o) = lemma_stands_at(files, dir, depth, choices, i);
    let entry = rows(files, dir, depth, choices)[i];
    if k < child_names(files, dir).len() {
        lemma_shown_at(files, dir, k);
        if o > 0 {
            let shown = shown_at(files, dir, k);
            lemma_place_within(files, shown, depth + 1, choices, o - 1);
            lemma_contains_through(dir, shown, place(entry));
        }
    } else {
        lemma_file_of_part(files, dir, o);
        assert(place(entry) =~= dir);
        assert(dir.take(dir.len() as int) =~= dir);
    }
}

/// A row that the `k`th directory has lies in that directory, as it is shown.
proof fn lemma_place_in_block(
    files: Seq<FileModel>,
    dir: Seq<Seq<char>>,
    depth: int,
    choices: Map<Seq<char>, bool>,
    i: int,
    k: int,
    o: int,
)
    requires
        0 <= i < rows(files, dir, depth, choices).len(),
        stands_at(files, dir, depth, choices, i, k, o),
    ensures
        ({
            let entry = rows(files, dir, depth, choices)[i];
            let names = child_names(files, dir);
            &&& contains_dir(dir, place(entry))
            &&& k < names.len() ==> {
                let shown = shown_at(files, dir, k);
                &&& dir.len() < shown.len() <= place(entry).len()
                &&& contains_dir(shown, place(entry))
                &&& place(entry)[dir.len() as int] == names[k]
                &&& o == 0 ==> place(entry) == shown
                &&& o > 0 && entry is Directory ==> shown.len() < place(entry).len()
            }
            &&& k == names.len() ==> entry is File && place(entry) == dir
        }),
{
    let entry = rows(files, dir, depth, choices)[i];
    if k < child_names(files, dir).len() {
        lemma_shown_at(files, dir, k);
        let shown = shown_at(files, dir, k);
        assert(shown.take(shown.len() as int) =~= shown);
        if o > 0 {
            lemma_place_within(files, shown, depth + 1, choices, o - 1);
        }
        lemma_contains_through(dir, shown, place(entry));
    } else {
        lemma_file_of_part(files, dir, o);
        assert(place(entry) =~= dir);
        assert(dir.take(dir.len() as int) =~= dir);
    }
}

/// Whether the file lies directly in `dir`.
pub open spec fn directly_in(file: FileModel, dir: Seq<Seq<char>>) -> bool {
    dir.is_prefix_of(file.repo_path) && file.repo_path.len() == dir.len() + 1
}

/// Whether the file lies in a directory of `dir`, however deep.
pub open spec fn deeper_in(file: FileModel, dir: Seq<Seq<char>>) -> bool {
    dir.is_prefix_of(file.repo_path) && file.repo_path.len() > dir.len() + 1
}

/// Whether some listed file lies directly in `dir`.
pub open spec fn holds_a_file(files: Seq<FileModel>, dir: Seq<Seq<char>>) -> bool {
    exists|i: int| 0 <= i < files.len() && directly_in(#[trigger] files[i], dir)
}

/// Whether listed files lie in two different directories of `dir`, however deep.
pub open spec fn holds_two_directories(files: Seq<FileModel>, dir: Seq<Seq<char>>) -> bool {
    exists|i: int, j: int|
        0 <= i < files.len() && 0 <= j < files.len() && deeper_in(#[trigger] files[i], dir)
            && deeper_in(#[trigger] files[j], dir) && files[i].repo_path[dir.len() as int]
            != files[j].repo_path[dir.len() as int]
}

proof fn lemma_parent_told_by_path(file: FileModel, dir: Seq<Seq<char>>)
    ensures
        file.parent() == holder(file.repo_path),
        deeper_in(file, dir) <==> lies_below(file, dir),
        deeper_in(file, dir) ==> file.repo_path[dir.len() as int]
            == file.parent()[dir.len() as int],
        directly_in(file, dir) ==> file.parent() == dir,
        file.parent() == dir && dir.len() > 0 ==> directly_in(file, dir),
{
    let path = file.repo_path;
    assert(file.parent() =~= holder(path));
    if path.len() > 0 {
        assert(path.drop_last() =~= path.take(path.len() - 1));
        if dir.len() < path.len() {
            assert(path.take(dir.len() as int) =~= path.drop_last().take(dir.len() as int));
        }
        if directly_in(file, dir) {
            assert(file.parent() =~= dir);
        }
    }
}

/// A directory that something is shown for holds a file itself, or at least two directories.
proof fn lemma_shown_holds_something(files: Seq<FileModel>, dir: Seq<Seq<char>>, i: int)
    requires
        0 <= i < files.len(),
        contains_dir(dir, files[i].parent()),
    ensures
        files_in(files, shown_for(files, dir)).len() > 0 || child_names(
            files,
            shown_for(files, dir),
        ).len() > 1,
    decreases levels_below(files, dir),
{
    let names = child_names(files, dir);
    let parent = files[i].parent();
    if files_in(files, dir).len() == 0 {
        if parent == dir {
            lemma_files_in_complete(files, dir, i);
        }
        assert(parent.len() != dir.len()) by {
            if parent.len() == dir.len() {
                assert(parent.take(dir.len() as int) =~= parent);
            }
        }
        let next = parent[dir.len() as int];
        let below = dir.push(next);
        assert(parent.take(below.len() as int) =~= parent.take(dir.len() as int).push(next));
        lemma_child_names_complete(files, dir, next);
        assert(contains_dir(below, files[i].parent()));
        assert(names.contains(next));
        if names.len() == 1 {
            assert(names[0] == next);
            lemma_child_means_level(files, dir);
            lemma_shown_holds_something(files, below, i);
        }
    }
}

/// What the model says of a directory, told by the paths of the files.
proof fn lemma_holds(files: Seq<FileModel>, dir: Seq<Seq<char>>)
    requires
        dir.len() > 0,
    ensures
        files_in(files, dir).len() > 0 <==> holds_a_file(files, dir),
        child_names(files, dir).len() > 1 <==> holds_two_directories(files, dir),
{
    let names = child_names(files, dir);
    if files_in(files, dir).len() > 0 {
        lemma_file_of_part(files, dir, 0);
        let i = choose|i: int| 0 <= i < files.len() && files[i] == files_in(files, dir)[0];
        lemma_parent_told_by_path(files[i], dir);
        assert(directly_in(files[i], dir));
    }
    if holds_a_file(files, dir) {
        let i = choose|i: int| 0 <= i < files.len() && directly_in(#[trigger] files[i], dir);
        lemma_parent_told_by_path(files[i], dir);
        lemma_files_in_complete(files, dir, i);
    }
    if names.len() > 1 {
        let i = lemma_shown_at(files, dir, 0);
        let j = lemma_shown_at(files, dir, 1);
        lemma_child_names_ascending(files, dir);
        assert(name_lt(names[0], names[1]));
        lemma_name_lt_irreflexive(names[0]);
        lemma_below_told_by_name(files[i], dir, names[0]);
        lemma_below_told_by_name(files[j], dir, names[1]);
        assert(deeper_in(files[i], dir) && deeper_in(files[j], dir));
    }
    if holds_two_directories(files, dir) {
        let (i, j) = choose|i: int, j: int|
            0 <= i < files.len() && 0 <= j < files.len() && deeper_in(#[trigger] files[i], dir)
                && deeper_in(#[trigger] files[j], dir) && files[i].repo_path[dir.len() as int]
                != files[j].repo_path[dir.len() as int];
        lemma_name_of_deeper(files, dir, i);
        lemma_name_of_deeper(files, dir, j);
        let k = choose|k: int|
            0 <= k < names.len() && names[k] == files[i].repo_path[dir.len() as int];
        let l = choose|l: int|
            0 <= l < names.len() && names[l] == files[j].repo_path[dir.len() as int];
        assert(k != l);
    }
}

proof fn lemma_below_told_by_name(file: FileModel, dir: Seq<Seq<char>>, name: Seq<char>)
    requires
        contains_dir(dir.push(name), file.parent()),
    ensures
        deeper_in(file, dir),
        file.repo_path[dir.len() as int] == name,
{
    let below = dir.push(name);
    assert(below.take(dir.len() as int) =~= dir);
    lemma_contains_through(dir, below, file.parent());
    assert(file.parent()[dir.len() as int] == below[dir.len() as int]);
    lemma_parent_told_by_path(file, dir);
}

proof fn lemma_name_of_deeper(files: Seq<FileModel>, dir: Seq<Seq<char>>, i: int)
    requires
        0 <= i < files.len(),
        deeper_in(files[i], dir),
    ensures
        child_names(files, dir).contains(files[i].repo_path[dir.len() as int]),
        contains_dir(
            dir.push(files[i].repo_path[dir.len() as int]),
            files[i].parent(),
        ),
{
    lemma_parent_told_by_path(files[i], dir);
    let parent = files[i].parent();
    let name = parent[dir.len() as int];
    let below = dir.push(name);
    assert(parent.take(below.len() as int) =~= parent.take(dir.len() as int).push(name));
    lemma_child_names_complete(files, dir, name);
    assert(contains_dir(below, files[i].parent()));
}

proof fn lemma_directory_worth_a_row(
    files: Seq<FileModel>,
    dir: Seq<Seq<char>>,
    depth: int,
    choices: Map<Seq<char>, bool>,
    i: int,
)
    requires
        0 <= i < rows(files, dir, depth, choices).len(),
        rows(files, dir, depth, choices)[i] is Directory,
    ensures
        ({
            let path = place(rows(files, dir, depth, choices)[i]);
            holds_a_file(files, path) || holds_two_directories(files, path)
        }),
    decreases levels_below(files, dir),
{
    let (k, o) = lemma_stands_at(files, dir, depth, choices, i);
    lemma_place_in_block(files, dir, depth, choices, i, k, o);
    let f = lemma_shown_at(files, dir, k);
    let shown = shown_at(files, dir, k);
    if o == 0 {
        lemma_shown_holds_something(files, dir.push(child_names(files, dir)[k]), f);
        lemma_holds(files, shown);
    } else {
        lemma_directory_worth_a_row(files, shown, depth + 1, choices, o - 1);
    }
}

proof fn lemma_sorted_lists_the_same(files: Seq<FileModel>, file: FileModel)
    ensures
        sorted_by_path(files).contains(file) <==> files.contains(file),
{
    law_sort_keeps_files(files, file);
    lemma_occurrences_means_contained(files, file);
    lemma_occurrences_means_contained(sorted_by_path(files), file);
}

proof fn lemma_sorted_holds_the_same(files: Seq<FileModel>, dir: Seq<Seq<char>>)
    ensures
        holds_a_file(sorted_by_path(files), dir) <==> holds_a_file(files, dir),
        holds_two_directories(sorted_by_path(files), dir) <==> holds_two_directories(files, dir),
{
    let sorted = sorted_by_path(files);
    assert forall|file: FileModel| #[trigger] sorted.contains(file) <==> files.contains(file) by {
        lemma_sorted_lists_the_same(files, file);
    }
    lemma_holds_as_much(sorted, files, dir);
    lemma_holds_as_much(files, sorted, dir);
}

proof fn lemma_holds_as_much(a: Seq<FileModel>, b: Seq<FileModel>, dir: Seq<Seq<char>>)
    requires
        forall|file: FileModel| #[trigger] a.contains(file) ==> b.contains(file),
    ensures
        holds_a_file(a, dir) ==> holds_a_file(b, dir),
        holds_two_directories(a, dir) ==> holds_two_directories(b, dir),
{
    if holds_a_file(a, dir) {
        let i = choose|i: int| 0 <= i < a.len() && directly_in(#[trigger] a[i], dir);
        assert(a.contains(a[i]));
        let j = choose|j: int| 0 <= j < b.len() && b[j] == a[i];
        assert(directly_in(b[j], dir));
    }
    if holds_two_directories(a, dir) {
        let (i, j) = choose|i: int, j: int|
            0 <= i < a.len() && 0 <= j < a.len() && deeper_in(#[trigger] a[i], dir) && deeper_in(
                #[trigger] a[j],
                dir,
            ) && a[i].repo_path[dir.len() as int] != a[j].repo_path[dir.len() as int];
        assert(a.contains(a[i]) && a.contains(a[j]));
        let k = choose|k: int| 0 <= k < b.len() && b[k] == a[i];
        let l = choose|l: int| 0 <= l < b.len() && b[l] == a[j];
        assert(deeper_in(b[k], dir) && deeper_in(b[l], dir));
    }
}

/// A directory has a row only if it holds a listed file itself, or listed files lie in two
/// different directories of it. One that holds no file and one directory only has none, however
/// deep it lies.
pub proof fn law_directory_worth_a_row(
    files: Seq<FileModel>,
    choices: Map<Seq<char>, bool>,
    i: int,
)
    requires
        0 <= i < tree_rows(files, choices).len(),
    ensures
        tree_rows(files, choices)[i] matches EntryModel::Directory { path, .. } ==> path.len() > 0
            && (holds_a_file(files, path) || holds_two_directories(files, path)),
{
    let top = Seq::<Seq<char>>::empty();
    let sorted = sorted_by_path(files);
    let entry = tree_rows(files, choices)[i];
    if entry is Directory {
        lemma_place_within(sorted, top, 0, choices, i);
        lemma_directory_worth_a_row(sorted, top, 0, choices, i);
        lemma_sorted_holds_the_same(files, place(entry));
    }
}

/// The directory shown for one on the way to a directory that holds a file or two directories is
/// on that way itself.
proof fn lemma_shown_goes_no_further(
    files: Seq<FileModel>,
    dir: Seq<Seq<char>>,
    path: Seq<Seq<char>>,
)
    requires
        dir.len() > 0,
        contains_dir(dir, path),
        holds_a_file(files, path) || holds_two_directories(files, path),
    ensures
        contains_dir(shown_for(files, dir), path),
    decreases levels_below(files, dir),
{
    let names = child_names(files, dir);
    if files_in(files, dir).len() == 0 && names.len() == 1 {
        lemma_holds(files, dir);
        assert(path.len() != dir.len()) by {
            if path.len() == dir.len() {
                assert(path.take(dir.len() as int) =~= path);
            }
        }
        let i = lemma_file_within(files, path);
        let next = path[dir.len() as int];
        let below = dir.push(next);
        assert(path.take(below.len() as int) =~= path.take(dir.len() as int).push(next));
        lemma_contains_through(below, path, files[i].parent());
        lemma_child_names_complete(files, dir, next);
        assert(names.contains(next));
        assert(names[0] == next);
        lemma_child_means_level(files, dir);
        lemma_shown_goes_no_further(files, below, path);
    }
}

/// A file that lies in the directory, however deep.
proof fn lemma_file_within(files: Seq<FileModel>, path: Seq<Seq<char>>) -> (i: int)
    requires
        holds_a_file(files, path) || holds_two_directories(files, path),
    ensures
        0 <= i < files.len(),
        contains_dir(path, files[i].parent()),
{
    let i = choose|i: int|
        0 <= i < files.len() && (directly_in(#[trigger] files[i], path) || deeper_in(
            files[i],
            path,
        ));
    lemma_parent_told_by_path(files[i], path);
    assert(path.take(path.len() as int) =~= path);
    i
}

/// Whether the row is that of `path`, or that of a closed directory that `path` lies in.
pub open spec fn shows_or_hides(entry: EntryModel, path: Seq<Seq<char>>) -> bool {
    entry matches EntryModel::Directory { path: shown, expanded, .. } && shown.is_prefix_of(path)
        && (shown == path || !expanded)
}

proof fn lemma_worthy_directory_has_row(
    files: Seq<FileModel>,
    dir: Seq<Seq<char>>,
    depth: int,
    choices: Map<Seq<char>, bool>,
    path: Seq<Seq<char>>,
) -> (i: int)
    requires
        contains_dir(dir, path),
        dir.len() < path.len(),
        holds_a_file(files, path) || holds_two_directories(files, path),
    ensures
        0 <= i < rows(files, dir, depth, choices).len(),
        shows_or_hides(rows(files, dir, depth, choices)[i], path),
    decreases levels_below(files, dir),
{
    let names = child_names(files, dir);
    let next = path[dir.len() as int];
    let below = dir.push(next);
    let f = lemma_file_within(files, path);
    assert(path.take(below.len() as int) =~= path.take(dir.len() as int).push(next));
    lemma_contains_through(below, path, files[f].parent());
    lemma_child_names_complete(files, dir, next);
    assert(names.contains(next));
    let k = choose|k: int| 0 <= k < names.len() && names[k] == next;
    lemma_shown_goes_no_further(files, below, path);
    lemma_shown_at(files, dir, k);
    let shown = shown_at(files, dir, k);
    lemma_has_row(files, dir, depth, choices, k, 0);
    let start = start_of(files, dir, k, depth, choices);
    if shown.len() == path.len() {
        assert(path.take(shown.len() as int) =~= path);
        start
    } else if !is_open(choices, shown) {
        start
    } else {
        let o = lemma_worthy_directory_has_row(files, shown, depth + 1, choices, path);
        lemma_has_row(files, dir, depth, choices, k, o + 1);
        start + o + 1
    }
}

/// A directory that holds a listed file itself, or in which listed files lie in two different
/// directories, has a row of its own unless one that it lies in has a row and is closed.
pub proof fn law_worthy_directory_has_row(
    files: Seq<FileModel>,
    choices: Map<Seq<char>, bool>,
    path: Seq<Seq<char>>,
)
    requires
        path.len() > 0,
        holds_a_file(files, path) || holds_two_directories(files, path),
    ensures
        exists|i: int|
            0 <= i < tree_rows(files, choices).len() && shows_or_hides(
                #[trigger] tree_rows(files, choices)[i],
                path,
            ),
{
    let top = Seq::<Seq<char>>::empty();
    assert(path.take(0) =~= top);
    lemma_sorted_holds_the_same(files, path);
    let i = lemma_worthy_directory_has_row(sorted_by_path(files), top, 0, choices, path);
    assert(shows_or_hides(tree_rows(files, choices)[i], path));
}

proof fn lemma_row_follows_choice(
    files: Seq<FileModel>,
    dir: Seq<Seq<char>>,
    depth: int,
    choices: Map<Seq<char>, bool>,
    i: int,
)
    requires
        0 <= i < rows(files, dir, depth, choices).len(),
    ensures
        rows(files, dir, depth, choices)[i] matches EntryModel::Directory { path, expanded, .. }
            ==> expanded == is_open(choices, path),
    decreases levels_below(files, dir),
{
    let (k, o) = lemma_stands_at(files, dir, depth, choices, i);
    if k < child_names(files, dir).len() && o > 0 {
        lemma_shown_at(files, dir, k);
        lemma_row_follows_choice(files, shown_at(files, dir, k), depth + 1, choices, o - 1);
    }
}

/// The row of a directory is open exactly as was last chosen for that directory, and open where
/// nothing was chosen.
pub proof fn law_row_follows_choice(
    files: Seq<FileModel>,
    choices: Map<Seq<char>, bool>,
    i: int,
)
    requires
        0 <= i < tree_rows(files, choices).len(),
    ensures
        tree_rows(files, choices)[i] matches EntryModel::Directory { path, expanded, .. } ==> {
            &&& choices.dom().contains(join(path)) ==> expanded == choices[join(path)]
            &&& !choices.dom().contains(join(path)) ==> expanded
        },
{
    lemma_row_follows_choice(
        sorted_by_path(files),
        Seq::<Seq<char>>::empty(),
        0,
        choices,
        i,
    );
}

/// Whether two rows stand in the right order, with `first` ahead of `second`, as far as the `c`th
/// component of their places tells.
spec fn in_order(first: EntryModel, second: EntryModel, c: int) -> bool {
    let a = place(first);
    let b = place(second);
    &&& second is Directory ==> !b.is_prefix_of(a)
    &&& first is File ==> !(a.is_prefix_of(b) && a != b)
    &&& 0 <= c < a.len() && c < b.len() && a.take(c) == b.take(c) && a[c] != b[c] ==> name_lt(
        a[c],
        b[c],
    )
    &&& first is File && second is File && a == b ==> !path_lt(
        second->file.repo_path,
        first->file.repo_path,
    )
}

proof fn lemma_rows_in_order(
    files: Seq<FileModel>,
    dir: Seq<Seq<char>>,
    depth: int,
    choices: Map<Seq<char>, bool>,
    i: int,
    j: int,
    c: int,
)
    requires
        0 <= i < j < rows(files, dir, depth, choices).len(),
        forall|d: Seq<Seq<char>>| in_path_order(#[trigger] files_in(files, d)),
    ensures
        in_order(
            rows(files, dir, depth, choices)[i],
            rows(files, dir, depth, choices)[j],
            c,
        ),
    decreases levels_below(files, dir),
{
    let (k, o) = lemma_stands_at(files, dir, depth, choices, i);
    let (l, p) = lemma_stands_at(files, dir, depth, choices, j);
    lemma_stand_in_order(files, dir, depth, choices, i, k, o, j, l, p);
    lemma_place_in_block(files, dir, depth, choices, i, k, o);
    lemma_place_in_block(files, dir, depth, choices, j, l, p);
    let names = child_names(files, dir);
    let a = place(rows(files, dir, depth, choices)[i]);
    let b = place(rows(files, dir, depth, choices)[j]);
    lemma_contained_starts_alike(dir, a);
    lemma_contained_starts_alike(dir, b);
    if k == l && k < names.len() {
        let shown = shown_at(files, dir, k);
        lemma_shown_at(files, dir, k);
        if o > 0 {
            lemma_rows_in_order(files, shown, depth + 1, choices, o - 1, p - 1, c);
        } else {
            lemma_contained_starts_alike(shown, b);
        }
    } else if k < l && l < names.len() {
        lemma_child_names_ascending(files, dir);
        assert(name_lt(names[k], names[l]));
        lemma_name_lt_irreflexive(names[k]);
        if 0 <= c < a.len() && c < b.len() && a.take(c) == b.take(c) && a[c] != b[c] {
            if c < dir.len() {
                assert(a[c] == dir[c] && b[c] == dir[c]);
            }
            if c > dir.len() {
                assert(a.take(c)[dir.len() as int] == b.take(c)[dir.len() as int]);
            }
        }
    } else if k == l {
        assert(in_path_order(files_in(files, dir)));
    }
}

/// Of two rows, let the first stand ahead of the second. The second is not that of a directory
/// which the first lies in: every directory comes ahead of all that lies in it. If the first is
/// that of a file, the second lies no deeper in the same directory: the files of a directory come
/// behind its directories and all that lies in them. Where the ways to the two part, the first goes
/// on by the lesser name. Two files of one directory stand in the order of their paths.
pub proof fn law_rows_in_order(
    files: Seq<FileModel>,
    choices: Map<Seq<char>, bool>,
    i: int,
    j: int,
    c: int,
)
    requires
        0 <= i < j < tree_rows(files, choices).len(),
    ensures
        ({
            let first = tree_rows(files, choices)[i];
            let second = tree_rows(files, choices)[j];
            let a = place(first);
            let b = place(second);
            &&& second is Directory ==> !b.is_prefix_of(a)
            &&& first is File ==> !(a.is_prefix_of(b) && a != b)
            &&& 0 <= c < a.len() && c < b.len() && a.take(c) == b.take(c) && a[c] != b[c]
                ==> name_lt(a[c], b[c])
            &&& first is File && second is File && a == b ==> !path_lt(
                second->file.repo_path,
                first->file.repo_path,
            )
        }),
{
    let sorted = sorted_by_path(files);
    assert forall|d: Seq<Seq<char>>| in_path_order(#[trigger] files_in(sorted, d)) by {
        law_files_in_path_order(files, d);
    }
    lemma_rows_in_order(sorted, Seq::<Seq<char>>::empty(), 0, choices, i, j, c);
}

/// How far a row is indented.
pub open spec fn indent(entry: EntryModel) -> int {
    match entry {
        EntryModel::Directory { depth, .. } => depth,
        EntryModel::File { depth, .. } => depth,
    }
}

/// Whether `outer` is the row of a directory in which `entry` lies.
pub open spec fn encloses(outer: EntryModel, entry: EntryModel) -> bool {
    outer matches EntryModel::Directory { path, .. } && path.is_prefix_of(place(entry)) && (entry
        is Directory ==> path != place(entry))
}

/// Whether the row `j` is that of the innermost directory that has a row and that `entry` lies in.
pub open spec fn is_innermost(entries: Seq<EntryModel>, j: int, entry: EntryModel) -> bool {
    &&& 0 <= j < entries.len()
    &&& encloses(entries[j], entry)
    &&& forall|k: int|
        0 <= k < entries.len() && encloses(#[trigger] entries[k], entry) ==> place(
            entries[k],
        ).len() <= place(entries[j]).len()
}

/// Whether `entry` stands one level deeper than the row of `dir`, at `depth`: a file lies in `dir`,
/// and a directory is named as from there.
pub open spec fn stands_in(entry: EntryModel, dir: Seq<Seq<char>>, depth: int) -> bool {
    match entry {
        EntryModel::Directory { path, name, depth: at, .. } => at == depth && name == join(
            path.skip(dir.len() as int),
        ),
        EntryModel::File { file, depth: at } => at == depth && holder(file.repo_path) == dir,
    }
}

/// Where no row for `dir` encloses one of them, that one stands in `dir`; else it stands in the
/// innermost that does.
spec fn stands_in_innermost(
    entries: Seq<EntryModel>,
    dir: Seq<Seq<char>>,
    depth: int,
    entry: EntryModel,
) -> bool {
    ||| stands_in(entry, dir, depth) && forall|j: int|
        0 <= j < entries.len() ==> !encloses(#[trigger] entries[j], entry)
    ||| exists|j: int|
        #![trigger entries[j]]
        is_innermost(entries, j, entry) && entries[j]->expanded && stands_in(
            entry,
            place(entries[j]),
            indent(entries[j]) + 1,
        )
}

proof fn lemma_stands_in_innermost(
    files: Seq<FileModel>,
    dir: Seq<Seq<char>>,
    depth: int,
    choices: Map<Seq<char>, bool>,
    i: int,
)
    requires
        0 <= i < rows(files, dir, depth, choices).len(),
    ensures
        stands_in_innermost(
            rows(files, dir, depth, choices),
            dir,
            depth,
            rows(files, dir, depth, choices)[i],
        ),
    decreases levels_below(files, dir),
{
    let all = rows(files, dir, depth, choices);
    let names = child_names(files, dir);
    let (k, o) = lemma_stands_at(files, dir, depth, choices, i);
    let entry = all[i];
    lemma_place_in_block(files, dir, depth, choices, i, k, o);
    // A row that encloses this one is among those of the same directory.
    assert forall|j: int| 0 <= j < all.len() && encloses(#[trigger] all[j], entry) implies {
        &&& k < names.len()
        &&& o > 0
        &&& start_of(files, dir, k, depth, choices) <= j
        &&& j < start_of(files, dir, k + 1, depth, choices)
        &&& j > start_of(files, dir, k, depth, choices) ==> all[j] == inside_at(
            files,
            dir,
            k,
            depth,
            choices,
        )[j - start_of(files, dir, k, depth, choices) - 1]
    } by {
        let (l, p) = lemma_stands_at(files, dir, depth, choices, j);
        lemma_place_in_block(files, dir, depth, choices, j, l, p);
        assert(l < names.len());
        assert(dir.len() < place(all[j]).len());
        assert(place(entry)[dir.len() as int] == place(all[j])[dir.len() as int]) by {
            lemma_contained_starts_alike(place(all[j]), place(entry));
            assert(place(all[j])[dir.len() as int] == names[l]);
        }
        lemma_child_names_ascending(files, dir);
        lemma_name_lt_irreflexive(names[l]);
        assert(k < names.len());
        assert(k == l) by {
            if k < l {
                assert(name_lt(names[k], names[l]));
            } else if l < k {
                assert(name_lt(names[l], names[k]));
            }
        }
    }
    if k < names.len() && o > 0 {
        let shown = shown_at(files, dir, k);
        let inside = inside_at(files, dir, k, depth, choices);
        let start = start_of(files, dir, k, depth, choices);
        lemma_shown_at(files, dir, k);
        lemma_has_row(files, dir, depth, choices, k, 0);
        lemma_stands_in_innermost(files, shown, depth + 1, choices, o - 1);
        assert(encloses(all[start], entry));
        assert forall|p: int| 0 <= p < inside.len() implies all[start + 1 + p]
            == #[trigger] inside[p] by {
            lemma_has_row(files, dir, depth, choices, k, p + 1);
        }
        if exists|j: int| 0 <= j < inside.len() && encloses(#[trigger] inside[j], entry) {
            let j = choose|j: int|
                #![trigger inside[j]]
                is_innermost(inside, j, entry) && inside[j]->expanded && stands_in(
                    entry,
                    place(inside[j]),
                    indent(inside[j]) + 1,
                );
            let at = start + 1 + j;
            lemma_has_row(files, dir, depth, choices, k, j + 1);
            assert(all[at] == inside[j]);
            lemma_place_within(files, shown, depth + 1, choices, j);
            assert(is_innermost(all, at, entry));
        } else {
            assert(is_innermost(all, start, entry));
            assert(all[start]->expanded);
        }
    } else {
        assert(stands_in(entry, dir, depth));
    }
}

/// A row that lies in no directory that has a row is not indented: if it is that of a file, the
/// file lies in the root, and if that of a directory, it is named by its whole path. Any other row
/// stands one level deeper than that of the innermost directory that has a row and that it lies in,
/// which is open: a file lies in that directory itself, and a directory is named by its path from
/// there.
pub proof fn law_row_stands_in_innermost(
    files: Seq<FileModel>,
    choices: Map<Seq<char>, bool>,
    i: int,
)
    requires
        0 <= i < tree_rows(files, choices).len(),
    ensures
        ({
            let entries = tree_rows(files, choices);
            let entry = entries[i];
            ||| stands_in(entry, Seq::<Seq<char>>::empty(), 0) && forall|j: int|
                0 <= j < entries.len() ==> !encloses(#[trigger] entries[j], entry)
            ||| exists|j: int|
                #![trigger entries[j]]
                is_innermost(entries, j, entry) && entries[j]->expanded && stands_in(
                    entry,
                    place(entries[j]),
                    indent(entries[j]) + 1,
                )
        }),
{
    lemma_stands_in_innermost(
        sorted_by_path(files),
        Seq::<Seq<char>>::empty(),
        0,
        choices,
        i,
    );
}

/// The files with the path that the rows show, in the order of the rows.
pub open spec fn shown_at_path(entries: Seq<EntryModel>, path: Seq<Seq<char>>) -> Seq<FileModel> {
    entries.filter(|entry: EntryModel| entry is File && entry->file.repo_path == path).map_values(
        |entry: EntryModel| entry->file,
    )
}

/// The files with the path that are listed, in the order of the list.
pub open spec fn listed_at_path(files: Seq<FileModel>, path: Seq<Seq<char>>) -> Seq<FileModel> {
    files.filter(|file: FileModel| file.repo_path == path)
}

/// Whether the row is that of a closed directory in which the path lies.
pub open spec fn hides(entry: EntryModel, path: Seq<Seq<char>>) -> bool {
    entry matches EntryModel::Directory { path: shown, expanded, .. } && !expanded
        && shown.is_prefix_of(holder(path))
}

proof fn lemma_filter_of_none<A>(s: Seq<A>, wanted: spec_fn(A) -> bool)
    requires
        forall|i: int| 0 <= i < s.len() ==> !wanted(#[trigger] s[i]),
    ensures
        s.filter(wanted) == Seq::<A>::empty(),
    decreases s.len(),
{
    reveal(Seq::filter);
    if s.len() > 0 {
        lemma_filter_of_none(s.drop_last(), wanted);
    } else {
        assert(s.filter(wanted) =~= Seq::<A>::empty());
    }
}

/// Where only some rows in a row can show files with the path, the others do not matter.
proof fn lemma_shown_in_part(
    entries: Seq<EntryModel>,
    path: Seq<Seq<char>>,
    from: int,
    to: int,
)
    requires
        0 <= from <= to <= entries.len(),
        forall|i: int|
            0 <= i < entries.len() && (#[trigger] entries[i]) is File && entries[i]->file.repo_path
                == path ==> from <= i < to,
    ensures
        shown_at_path(entries, path) == shown_at_path(entries.subrange(from, to), path),
{
    let wanted = |entry: EntryModel| entry is File && entry->file.repo_path == path;
    let before = entries.take(from);
    let part = entries.subrange(from, to);
    let after = entries.skip(to);
    assert(entries =~= before + part + after);
    Seq::filter_distributes_over_add(before + part, after, wanted);
    Seq::filter_distributes_over_add(before, part, wanted);
    assert forall|i: int| 0 <= i < before.len() implies !wanted(#[trigger] before[i]) by {
        assert(before[i] == entries[i]);
    }
    assert forall|i: int| 0 <= i < after.len() implies !wanted(#[trigger] after[i]) by {
        assert(after[i] == entries[to + i]);
    }
    lemma_filter_of_none(before, wanted);
    lemma_filter_of_none(after, wanted);
    assert(entries.filter(wanted) =~= part.filter(wanted));
}

proof fn lemma_shown_among_files(
    files: Seq<FileModel>,
    dir: Seq<Seq<char>>,
    depth: int,
    path: Seq<Seq<char>>,
)
    requires
        holder(path) == dir,
    ensures
        shown_at_path(file_rows(files_in(files, dir), depth), path) == listed_at_path(files, path),
    decreases files.len(),
{
    reveal(Seq::filter);
    let wanted = |entry: EntryModel| entry is File && entry->file.repo_path == path;
    let shown = file_rows(files_in(files, dir), depth);
    if files.len() == 0 {
        assert(shown =~= Seq::<EntryModel>::empty());
        assert(shown_at_path(shown, path) =~= listed_at_path(files, path));
    } else {
        let init = files.drop_last();
        let last = files.last();
        lemma_shown_among_files(init, dir, depth, path);
        lemma_parent_told_by_path(last, dir);
        let before = file_rows(files_in(init, dir), depth);
        if last.parent() == dir {
            assert(shown.drop_last() =~= before);
            assert(shown.last() == (EntryModel::File { file: last, depth }));
        } else {
            assert(shown =~= before);
        }
        assert(shown_at_path(shown, path) =~= listed_at_path(files, path));
    }
}

proof fn lemma_listed_at_path(files: Seq<FileModel>, path: Seq<Seq<char>>)
    ensures
        listed_at_path(files, path).len() > 0 <==> exists|i: int|
            0 <= i < files.len() && (#[trigger] files[i]).repo_path == path,
    decreases files.len(),
{
    reveal(Seq::filter);
    if files.len() > 0 {
        let init = files.drop_last();
        lemma_listed_at_path(init, path);
        if exists|i: int| 0 <= i < init.len() && (#[trigger] init[i]).repo_path == path {
            let i = choose|i: int| 0 <= i < init.len() && (#[trigger] init[i]).repo_path == path;
            assert(files[i].repo_path == path);
        }
        if exists|i: int| 0 <= i < files.len() && (#[trigger] files[i]).repo_path == path {
            let i = choose|i: int| 0 <= i < files.len() && (#[trigger] files[i]).repo_path == path;
            if i < init.len() {
                assert(init[i].repo_path == path);
            } else {
                assert(files.last().repo_path == path);
            }
        }
        if files.last().repo_path == path {
            assert(files[files.len() - 1].repo_path == path);
        }
    }
}

/// Whether one of the rows hides the path.
spec fn hidden(entries: Seq<EntryModel>, path: Seq<Seq<char>>) -> bool {
    exists|i: int| 0 <= i < entries.len() && hides(#[trigger] entries[i], path)
}

proof fn lemma_shown_unless_hidden(
    files: Seq<FileModel>,
    dir: Seq<Seq<char>>,
    depth: int,
    choices: Map<Seq<char>, bool>,
    path: Seq<Seq<char>>,
    f: int,
)
    requires
        0 <= f < files.len(),
        files[f].repo_path == path,
        contains_dir(dir, holder(path)),
    ensures
        shown_at_path(rows(files, dir, depth, choices), path) == if hidden(
            rows(files, dir, depth, choices),
            path,
        ) {
            Seq::<FileModel>::empty()
        } else {
            listed_at_path(files, path)
        },
    decreases levels_below(files, dir),
{
    let all = rows(files, dir, depth, choices);
    let names = child_names(files, dir);
    let target = holder(path);
    lemma_parent_told_by_path(files[f], dir);
    if target.len() == dir.len() {
        assert(target.take(dir.len() as int) =~= target);
        let from = directory_rows(files, dir, names.len() as int, depth, choices).len() as int;
        assert forall|i: int|
            0 <= i < all.len() && (#[trigger] all[i]) is File && all[i]->file.repo_path
                == path implies from <= i < all.len() by {
            let (k, o) = lemma_stands_at(files, dir, depth, choices, i);
            lemma_place_in_block(files, dir, depth, choices, i, k, o);
        }
        lemma_shown_in_part(all, path, from, all.len() as int);
        assert(all.subrange(from, all.len() as int) =~= file_rows(files_in(files, dir), depth));
        lemma_shown_among_files(files, dir, depth, path);
        assert forall|i: int| 0 <= i < all.len() implies !hides(#[trigger] all[i], path) by {
            lemma_place_within(files, dir, depth, choices, i);
        }
    } else {
        let next = target[dir.len() as int];
        let below = dir.push(next);
        assert(target.take(below.len() as int) =~= target.take(dir.len() as int).push(next));
        lemma_child_names_complete(files, dir, next);
        assert(contains_dir(below, files[f].parent()));
        assert(names.contains(next));
        let k = choose|k: int| 0 <= k < names.len() && names[k] == next;
        lemma_shown_at(files, dir, k);
        lemma_shown_on_the_way(files, below, f);
        lemma_child_names_ascending(files, dir);
        lemma_has_row(files, dir, depth, choices, k, 0);
        let shown = shown_at(files, dir, k);
        let inside = inside_at(files, dir, k, depth, choices);
        let start = start_of(files, dir, k, depth, choices);
        let end = start + 1 + inside.len();
        lemma_has_row(files, dir, depth, choices, k, inside.len() as int);
        assert forall|o: int| 0 <= o < inside.len() implies all[start + 1 + o]
            == #[trigger] inside[o] by {
            lemma_has_row(files, dir, depth, choices, k, o + 1);
        }
        // What shows or hides the path is among the rows of the directory on the way.
        assert forall|i: int| 0 <= i < all.len() implies {
            &&& (#[trigger] all[i]) is File && all[i]->file.repo_path == path ==> start + 1 <= i
                < end
            &&& hides(all[i], path) ==> start <= i < end
        } by {
            let (l, p) = lemma_stands_at(files, dir, depth, choices, i);
            lemma_place_in_block(files, dir, depth, choices, i, l, p);
            if (all[i] is File && all[i]->file.repo_path == path) || hides(all[i], path) {
                assert(l < names.len());
                assert(target.take(target.len() as int) =~= target);
                lemma_contained_starts_alike(place(all[i]), target);
                assert(target[dir.len() as int] == place(all[i])[dir.len() as int]);
                lemma_name_lt_irreflexive(names[l]);
                if k < l {
                    assert(name_lt(names[k], names[l]));
                } else if l < k {
                    assert(name_lt(names[l], names[k]));
                }
            }
        }
        lemma_shown_in_part(all, path, start + 1, end);
        assert(all.subrange(start + 1, end) =~= inside);
        if is_open(choices, shown) {
            lemma_shown_unless_hidden(files, shown, depth + 1, choices, path, f);
            if hidden(inside, path) {
                let o = choose|o: int| 0 <= o < inside.len() && hides(#[trigger] inside[o], path);
                assert(hides(all[start + 1 + o], path));
            }
            if hidden(all, path) {
                let i = choose|i: int| 0 <= i < all.len() && hides(#[trigger] all[i], path);
                assert(i != start);
                assert(all[start + 1 + (i - start - 1)] == inside[i - start - 1]);
                assert(hides(inside[i - start - 1], path));
            }
        } else {
            assert(hides(all[start], path));
            let wanted = |entry: EntryModel| entry is File && entry->file.repo_path == path;
            lemma_filter_of_none(inside, wanted);
            assert(shown_at_path(inside, path) =~= Seq::<FileModel>::empty());
        }
    }
}

/// Where no file with the path is listed, rows that show listed files show none with it.
proof fn lemma_none_listed_none_shown(
    files: Seq<FileModel>,
    entries: Seq<EntryModel>,
    path: Seq<Seq<char>>,
)
    requires
        forall|f: int| 0 <= f < files.len() ==> (#[trigger] files[f]).repo_path != path,
        forall|i: int|
            0 <= i < entries.len() && (#[trigger] entries[i]) is File ==> files.contains(
                entries[i]->file,
            ),
    ensures
        shown_at_path(entries, path) == Seq::<FileModel>::empty(),
{
    let wanted = |entry: EntryModel| entry is File && entry->file.repo_path == path;
    assert forall|i: int| 0 <= i < entries.len() implies !wanted(#[trigger] entries[i]) by {
        if entries[i] is File {
            let f = choose|f: int| 0 <= f < files.len() && files[f] == entries[i]->file;
            assert(files[f].repo_path != path);
        }
    }
    lemma_filter_of_none(entries, wanted);
    assert(shown_at_path(entries, path) =~= Seq::<FileModel>::empty());
}

/// The files with a path are all shown, in the order in which they are listed, unless a closed
/// directory that has a row holds them: then none is.
pub proof fn law_files_shown_unless_hidden(
    files: Seq<FileModel>,
    choices: Map<Seq<char>, bool>,
    path: Seq<Seq<char>>,
)
    ensures
        (exists|i: int|
            0 <= i < tree_rows(files, choices).len() && hides(
                #[trigger] tree_rows(files, choices)[i],
                path,
            )) ==> shown_at_path(tree_rows(files, choices), path).len() == 0,
        (forall|i: int|
            0 <= i < tree_rows(files, choices).len() ==> !hides(
                #[trigger] tree_rows(files, choices)[i],
                path,
            )) ==> shown_at_path(tree_rows(files, choices), path) == listed_at_path(files, path),
{
    let top = Seq::<Seq<char>>::empty();
    let sorted = sorted_by_path(files);
    assert(listed_at_path(sorted, path) == listed_at_path(files, path)) by {
        law_sort_is_stable(files, path);
    }
    lemma_listed_at_path(sorted, path);
    if listed_at_path(sorted, path).len() > 0 {
        let f = choose|f: int| 0 <= f < sorted.len() && (#[trigger] sorted[f]).repo_path == path;
        assert(holder(path).take(0) =~= top);
        lemma_shown_unless_hidden(sorted, top, 0, choices, path, f);
    } else {
        let entries = tree_rows(files, choices);
        assert forall|i: int|
            0 <= i < entries.len() && (#[trigger] entries[i]) is File implies sorted.contains(
            entries[i]->file,
        ) by {
            lemma_place_within(sorted, top, 0, choices, i);
        }
        lemma_none_listed_none_shown(sorted, entries, path);
        assert(listed_at_path(sorted, path) =~= Seq::<FileModel>::empty());
    }
}

} // verus!
