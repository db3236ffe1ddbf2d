//! What one row of the tree shows, and what a click on it does.
use crate::file_entry::{FileModel, FileStatus, PathKey, PathKeyModel};
use crate::repo_path::{
    components_of, join, law_components_round_trip, valid_components, RepoPath,
};
use crate::tree::{entry_models, BranchDiffTreeEntry};
use crate::tree_model::EntryModel;
use crate::view::BranchDiff;
use vstd::prelude::*;

verus! {

/// The icon of a directory for which the icon theme has none.
#[derive(Clone, Copy, Debug, PartialEq, Eq, Structural)]
pub enum FolderIcon {
    FolderOpen,
    Folder,
}

/// What a row of the tree shows. `ix` is the number of the row and `indent_level` how far it is
/// indented.
#[derive(Debug, PartialEq, Eq)]
pub enum TreeRow {
    /// A click chooses `expand_on_click` for the directory `path`.
    Directory {
        ix: usize,
        indent_level: usize,
        fallback_icon: FolderIcon,
        name: String,
        path: RepoPath,
        expand_on_click: bool,
    },
    /// A click moves the editor to `path_key`. The tooltip holds `full_path`.
    File {
        ix: usize,
        indent_level: usize,
        selected: bool,
        status: FileStatus,
        file_name: String,
        full_path: String,
        path_key: PathKey,
    },
}

/// A [`TreeRow`], with its texts and paths as models.
pub enum RowModel {
    Directory {
        ix: int,
        indent_level: int,
        fallback_icon: FolderIcon,
        name: Seq<char>,
        path: Seq<Seq<char>>,
        expand_on_click: bool,
    },
    File {
        ix: int,
        indent_level: int,
        selected: bool,
        status: FileStatus,
        file_name: Seq<char>,
        full_path: Seq<char>,
        path_key: PathKeyModel,
    },
}

impl View for TreeRow {
    type V = RowModel;

    open spec fn view(&self) -> RowModel {
        match *self {
            TreeRow::Directory { ix, indent_level, fallback_icon, name, path, expand_on_click } =>
                RowModel::Directory {
                ix: ix as int,
                indent_level: indent_level as int,
                fallback_icon,
                name: name@,
                path: path@,
                expand_on_click,
            },
            TreeRow::File {
                ix,
                indent_level,
                selected,
                status,
                file_name,
                full_path,
                path_key,
            } => RowModel::File {
                ix: ix as int,
                indent_level: indent_level as int,
                selected,
                status,
                file_name: file_name@,
                full_path: full_path@,
                path_key: path_key@,
            },
        }
    }
}

/// What the row `ix` of the tree shows for `entry` while the file `active_path` is the one in the
/// editor.
pub open spec fn row_of(
    ix: int,
    entry: EntryModel,
    active_path: Option<Seq<Seq<char>>>,
) -> RowModel {
    match entry {
        EntryModel::Directory { path, name, depth, expanded } => RowModel::Directory {
            ix,
            indent_level: depth,
            fallback_icon: if expanded {
                FolderIcon::FolderOpen
            } else {
                FolderIcon::Folder
            },
            name,
            path,
            expand_on_click: !expanded,
        },
        EntryModel::File { file, depth } => RowModel::File {
            ix,
            indent_level: depth,
            selected: active_path == Some(file.repo_path),
            status: file.status,
            file_name: if file.repo_path.len() > 0 {
                file.repo_path.last()
            } else {
                Seq::<char>::empty()
            },
            full_path: join(file.repo_path),
            path_key: file.path_key,
        },
    }
}

/// The path that an option holds.
pub open spec fn path_of(path: Option<&RepoPath>) -> Option<Seq<Seq<char>>> {
    match path {
        Some(path) => Some(path@),
        None => None,
    }
}

impl BranchDiff {
    /// What the row `ix` of the tree shows for `entry` while the file `active_path` is the one in
    /// the editor.
    pub fn render_tree_entry(
        ix: usize,
        entry: &BranchDiffTreeEntry,
        active_path: Option<&RepoPath>,
    ) -> (row: TreeRow)
        ensures
            row@ == row_of(ix as int, entry@, path_of(active_path)),
            match *entry {
                BranchDiffTreeEntry::Directory(entry) => row matches TreeRow::Directory {
                    ix: number,
                    indent_level,
                    fallback_icon,
                    name,
                    path,
                    expand_on_click,
                } && number == ix && indent_level == entry.depth && fallback_icon == (
                if entry.expanded {
                    FolderIcon::FolderOpen
                } else {
                    FolderIcon::Folder
                }) && name@ == entry.name@ && path@ == entry.path@ && expand_on_click
                    != entry.expanded,
                BranchDiffTreeEntry::File(entry) => row matches TreeRow::File {
                    ix: number,
                    indent_level,
                    selected,
                    status,
                    file_name,
                    full_path,
                    path_key,
                } && number == ix && indent_level == entry.depth && (selected <==> (active_path
                    matches Some(active) && active@ == entry.entry.repo_path@)) && status
                    == entry.entry.status && (if entry.entry.repo_path@.len() > 0 {
                    file_name@ == entry.entry.repo_path@.last()
                } else {
                    file_name@.len() == 0
                }) && full_path@ == join(entry.entry.repo_path@) && path_key.sort_prefix
                    == entry.entry.path_key.sort_prefix && path_key.path@
                    == entry.entry.path_key.path@,
            },
    {
        match entry {
            BranchDiffTreeEntry::Directory(entry) => TreeRow::Directory {
                ix,
                indent_level: entry.depth,
                fallback_icon: if entry.expanded {
                    FolderIcon::FolderOpen
                } else {
                    FolderIcon::Folder
                },
                name: entry.name.clone(),
                path: entry.path.clone(),
                expand_on_click: !entry.expanded,
            },
            BranchDiffTreeEntry::File(entry) => {
                let repo_path = &entry.entry.repo_path;
                let selected = match active_path {
                    Some(path) => path.is_same_as(repo_path),
                    None => false,
                };
                let file_name = match repo_path.file_name() {
                    Some(name) => name.to_owned(),
                    None => String::new(),
                };
                TreeRow::File {
                    ix,
                    indent_level: entry.depth,
                    selected,
                    status: entry.entry.status,
                    file_name,
                    full_path: repo_path.as_unix_str(),
                    path_key: entry.entry.path_key.clone(),
                }
            },
        }
    }
}

/// The views of a list of shown rows.
pub open spec fn row_models(rows: Seq<TreeRow>) -> Seq<RowModel> {
    rows.map_values(|row: TreeRow| row@)
}

/// How many of the numbers from `start` up to `end` are those of rows of a tree of `length` rows.
pub open spec fn rows_in_range(length: int, start: int, end: int) -> nat {
    let stop = if end < length {
        end
    } else {
        length
    };
    if start < stop {
        (stop - start) as nat
    } else {
        0
    }
}

/// What the rows from `start` up to `end` show. There may be fewer rows than that.
pub fn render_rows(
    entries: &Vec<BranchDiffTreeEntry>,
    start: usize,
    end: usize,
    active_path: Option<&RepoPath>,
) -> (rows: Vec<TreeRow>)
    ensures
        row_models(rows@) == Seq::new(
            rows_in_range(entries@.len() as int, start as int, end as int),
            |k: int|
                row_of(start + k, entry_models(entries@)[start + k], path_of(active_path)),
        ),
        rows@.len() == if start < end && start < entries@.len() {
            if end < entries@.len() {
                end - start
            } else {
                entries@.len() - start
            }
        } else {
            0
        },
        forall|k: int|
            0 <= k < rows@.len() ==> (#[trigger] rows@[k])@ == row_of(
                start + k,
                entries@[start + k]@,
                path_of(active_path),
            ),
{
    let ghost wanted = Seq::new(
        rows_in_range(entries@.len() as int, start as int, end as int),
        |k: int| row_of(start + k, entry_models(entries@)[start + k], path_of(active_path)),
    );
    let mut rows: Vec<TreeRow> = Vec::new();
    let mut ix: usize = start;
    assert(row_models(rows@) =~= wanted.take(0));
    while ix < end && ix < entries.len()
        invariant
            start <= ix,
            ix - start <= wanted.len(),
            wanted == Seq::new(
                rows_in_range(entries@.len() as int, start as int, end as int),
                |k: int|
                    row_of(start + k, entry_models(entries@)[start + k], path_of(active_path)),
            ),
            row_models(rows@) == wanted.take(ix - start),
        decreases end - ix,
    {
        let row = BranchDiff::render_tree_entry(ix, &entries[ix], active_path);
        let ghost before = rows@;
        rows.push(row);
        proof {
            let k = ix - start;
            assert(entry_models(entries@)[ix as int] == entries@[ix as int]@);
            assert(wanted[k] == row@);
            assert(row_models(rows@) =~= row_models(before).push(row@));
            assert(wanted.take(k + 1) =~= wanted.take(k).push(wanted[k]));
        }
        ix += 1;
    }
    assert(wanted.take(ix - start) =~= wanted);
    assert forall|k: int| 0 <= k < rows@.len() implies (#[trigger] rows@[k])@ == row_of(
        start + k,
        entries@[start + k]@,
        path_of(active_path),
    ) by {
        assert(row_models(rows@)[k] == rows@[k]@);
        assert(entry_models(entries@)[start + k] == entries@[start + k]@);
    }
    rows
}

/// How far the rows from `start` up to `end` are indented. A number that no row has counts as one
/// that is not.
pub fn compute_indents(
    entries: &Vec<BranchDiffTreeEntry>,
    start: usize,
    end: usize,
) -> (indents: Vec<usize>)
    ensures
        indents@.len() == if start < end {
            end - start
        } else {
            0
        },
        forall|k: int|
            0 <= k < indents@.len() ==> #[trigger] indents@[k] == if start + k < entries@.len() {
                entries@[start + k]@.level()
            } else {
                0
            },
        forall|k: int|
            0 <= k < indents@.len() ==> #[trigger] indents@[k] == if start + k < entries@.len() {
                match entries@[start + k] {
                    BranchDiffTreeEntry::Directory(entry) => entry.depth,
                    BranchDiffTreeEntry::File(entry) => entry.depth,
                }
            } else {
                0
            },
{
    let mut indents: Vec<usize> = Vec::new();
    let mut ix: usize = start;
    while ix < end
        invariant
            start <= ix,
            start < end ==> ix <= end,
            start >= end ==> ix == start,
            indents@.len() == ix - start,
            forall|k: int|
                0 <= k < indents@.len() ==> #[trigger] indents@[k] == if start + k
                    < entries@.len() {
                    entries@[start + k]@.level()
                } else {
                    0
                },
        decreases end - ix,
    {
        if ix < entries.len() {
            indents.push(entries[ix].depth());
        } else {
            indents.push(0);
        }
        ix += 1;
    }
    indents
}

/// Of two rows for files with different paths at most one is selected.
pub proof fn law_one_path_is_selected(
    ix: int,
    file: FileModel,
    depth: int,
    other_ix: int,
    other: FileModel,
    other_depth: int,
    active_path: Option<Seq<Seq<char>>>,
)
    requires
        file.repo_path != other.repo_path,
    ensures
        !(row_of(ix, EntryModel::File { file, depth }, active_path)->selected && row_of(
            other_ix,
            EntryModel::File { file: other, depth: other_depth },
            active_path,
        )->selected),
{
}

/// A row for a file is selected only where the path of the file is the active one in every
/// component, and never where no file is active.
pub proof fn law_selected_agrees_in_every_component(
    ix: int,
    file: FileModel,
    depth: int,
    active_path: Option<Seq<Seq<char>>>,
    k: int,
)
    requires
        row_of(ix, EntryModel::File { file, depth }, active_path)->selected,
    ensures
        active_path matches Some(active) && active.len() == file.repo_path.len() && (0 <= k
            < active.len() ==> active[k] == file.repo_path[k]),
{
}

/// Every row for the active file is selected.
pub proof fn law_active_file_is_selected(ix: int, file: FileModel, depth: int)
    ensures
        row_of(ix, EntryModel::File { file, depth }, Some(file.repo_path))->selected,
{
}

/// A row for a file keeps its number, is indented by its depth, and shows the status and the name
/// of the file. A click leads to the key of the file, and the tooltip spells the path of no other.
pub proof fn law_row_of_file(
    ix: int,
    file: FileModel,
    depth: int,
    active_path: Option<Seq<Seq<char>>>,
)
    requires
        valid_components(file.repo_path),
    ensures
        row_of(ix, EntryModel::File { file, depth }, active_path) matches RowModel::File {
            ix: number,
            indent_level,
            status,
            file_name,
            full_path,
            path_key,
            ..
        } && number == ix && indent_level == depth && status == file.status && path_key
            == file.path_key && components_of(full_path) == file.repo_path && (
        file.repo_path.len() == 0 ==> file_name.len() == 0) && (file.repo_path.len() > 0
            ==> file_name == file.repo_path[file.repo_path.len() - 1]),
{
    law_components_round_trip(file.repo_path);
}

/// A row for a directory keeps its number, is indented by its depth, and shows the name of the
/// directory. Its icon is open exactly if the directory is, and a click turns that round.
pub proof fn law_row_of_directory(
    ix: int,
    path: Seq<Seq<char>>,
    name: Seq<char>,
    depth: int,
    expanded: bool,
    active_path: Option<Seq<Seq<char>>>,
)
    ensures
        row_of(
            ix,
            EntryModel::Directory { path, name, depth, expanded },
            active_path,
        ) matches RowModel::Directory {
            ix: number,
            indent_level,
            fallback_icon,
            name: text,
            path: on_click,
            expand_on_click,
        } && number == ix && indent_level == depth && text == name && on_click == path
            && expand_on_click != expanded && (fallback_icon == FolderIcon::FolderOpen
            <==> expanded),
{
}

} // verus!
