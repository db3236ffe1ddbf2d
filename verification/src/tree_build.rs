//! Building the tree of a list of files.
use crate::file_entry::{models, DiffFileEntry, FileModel};
use crate::order::{
    lemma_name_lt_irreflexive, lemma_name_lt_transitive, name_lt, place_of_name, Place,
};
use crate::repo_path::texts;
use crate::sort::{borrowed_models, sort_by_path};
use crate::tree::{
    entry_models, flatten_branch_diff_tree, forest_height, lemma_chain_end_height,
    lemma_forest_height, BranchDiffTreeEntry, BranchDiffTreeNode, ExpandedDirs,
};
use crate::tree_model::{
    ascending, child_names, contains_dir, deepest, directory_rows, files_in, insert_name,
    lemma_child_means_level, lemma_child_names_ascending, lemma_child_names_complete,
    lemma_insert_name_at, lemma_insert_name_present, lemma_shown_for_extends, levels_below,
    lies_below, rows, shown_for, tree_rows,
};
use vstd::prelude::*;

verus! {

/// The names of the directories of a list.
spec fn node_names(nodes: Seq<BranchDiffTreeNode>) -> Seq<Seq<char>> {
    nodes.map_values(|node: BranchDiffTreeNode| node.name@)
}

/// Whether `node` holds what `files` say lies in the directory `dir`, down to the last level.
spec fn represents(
    node: BranchDiffTreeNode,
    files: Seq<FileModel>,
    dir: Seq<Seq<char>>,
) -> bool
    decreases node,
{
    &&& models(node.files@) == files_in(files, dir)
    &&& node_names(node.children@) == child_names(files, dir)
    &&& forall|i: int|
        0 <= i < node.children@.len() ==> {
            &&& (#[trigger] node.children@[i]).path is Some
            &&& node.children@[i].path->0@ == dir.push(node.children@[i].name@)
            &&& represents(node.children@[i], files, dir.push(node.children@[i].name@))
        }
}

/// A file that does not lie in `dir`, nor below, changes nothing there.
proof fn lemma_represents_without(
    node: BranchDiffTreeNode,
    files: Seq<FileModel>,
    dir: Seq<Seq<char>>,
    file: FileModel,
)
    requires
        represents(node, files, dir),
        !contains_dir(dir, file.parent()),
    ensures
        represents(node, files.push(file), dir),
    decreases node,
{
    lemma_push_file(files, dir, file);
    assert(dir.take(dir.len() as int) =~= dir);
    assert forall|i: int| 0 <= i < node.children@.len() implies {
        &&& (#[trigger] node.children@[i]).path is Some
        &&& node.children@[i].path->0@ == dir.push(node.children@[i].name@)
        &&& represents(
            node.children@[i],
            files.push(file),
            dir.push(node.children@[i].name@),
        )
    } by {
        let below = dir.push(node.children@[i].name@);
        if contains_dir(below, file.parent()) {
            assert(file.parent().take(dir.len() as int) =~= file.parent().take(
                below.len() as int,
            ).take(dir.len() as int));
            assert(below.take(dir.len() as int) =~= dir);
        }
        lemma_represents_without(node.children@[i], files, below, file);
    }
}

/// What one more file adds to a directory.
proof fn lemma_push_file(files: Seq<FileModel>, dir: Seq<Seq<char>>, file: FileModel)
    ensures
        files_in(files.push(file), dir) == if file.parent() == dir {
            files_in(files, dir).push(file)
        } else {
            files_in(files, dir)
        },
        child_names(files.push(file), dir) == if lies_below(file, dir) {
            insert_name(child_names(files, dir), file.parent()[dir.len() as int])
        } else {
            child_names(files, dir)
        },
{
    assert(files.push(file).drop_last() =~= files);
    reveal(Seq::filter);
}

/// An empty directory represents one that no file lies in or below.
proof fn lemma_represents_nothing(
    node: BranchDiffTreeNode,
    files: Seq<FileModel>,
    dir: Seq<Seq<char>>,
)
    requires
        node.files@.len() == 0,
        node.children@.len() == 0,
        forall|i: int| 0 <= i < files.len() ==> !contains_dir(dir, (#[trigger] files[i]).parent()),
    ensures
        represents(node, files, dir),
    decreases files.len(),
{
    if files.len() == 0 {
        reveal(Seq::filter);
        assert(models(node.files@) =~= files_in(files, dir));
        assert(node_names(node.children@) =~= child_names(files, dir));
    } else {
        let init = files.drop_last();
        assert forall|i: int| 0 <= i < init.len() implies !contains_dir(
            dir,
            (#[trigger] init[i]).parent(),
        ) by {
            assert(init[i] == files[i]);
        }
        lemma_represents_nothing(node, init, dir);
        assert(!contains_dir(dir, files[files.len() - 1].parent()));
        lemma_push_file(init, dir, files.last());
        assert(init.push(files.last()) =~= files);
        assert(dir.take(dir.len() as int) =~= dir);
    }
}

/// Where a name stands among ascending names, or where it would.
enum Slot {
    At(usize),
    Between(usize),
}

/// The place of the directory named `name` among those of a list.
fn find_child(children: &Vec<BranchDiffTreeNode>, name: &str) -> (slot: Slot)
    requires
        ascending(node_names(children@)),
    ensures
        match slot {
            Slot::At(i) => i < children@.len() && children@[i as int].name@ == name@,
            Slot::Between(i) => {
                &&& i <= children@.len()
                &&& forall|j: int|
                    0 <= j < i ==> name_lt((#[trigger] children@[j]).name@, name@)
                &&& forall|j: int|
                    i <= j < children@.len() ==> name_lt(
                        name@,
                        (#[trigger] children@[j]).name@,
                    )
            },
        },
{
    let ghost names = node_names(children@);
    let mut low: usize = 0;
    let mut high: usize = children.len();
    while low < high
        invariant
            names == node_names(children@),
            ascending(names),
            low <= high <= children@.len(),
            forall|j: int| 0 <= j < low ==> name_lt((#[trigger] children@[j]).name@, name@),
            forall|j: int|
                high <= j < children@.len() ==> name_lt(name@, (#[trigger] children@[j]).name@),
        decreases high - low,
    {
        let middle: usize = low + (high - low) / 2;
        assert(names[middle as int] == children@[middle as int].name@);
        match place_of_name(children[middle].name.as_str(), name) {
            Place::Same => {
                return Slot::At(middle);
            },
            Place::Before => {
                assert forall|j: int| 0 <= j < middle + 1 implies name_lt(
                    (#[trigger] children@[j]).name@,
                    name@,
                ) by {
                    if low <= j < middle {
                        assert(names[j] == children@[j].name@);
                        assert(name_lt(names[j], names[middle as int]));
                        lemma_name_lt_transitive(names[j], names[middle as int], name@);
                    }
                }
                low = middle + 1;
            },
            Place::After => {
                assert forall|j: int| middle <= j < children@.len() implies name_lt(
                    name@,
                    (#[trigger] children@[j]).name@,
                ) by {
                    if middle < j < high {
                        assert(names[j] == children@[j].name@);
                        assert(name_lt(names[middle as int], names[j]));
                        lemma_name_lt_transitive(name@, names[middle as int], names[j]);
                    }
                }
                high = middle;
            },
        }
    }
    Slot::Between(low)
}

/// Adds a file to the tree at `node`, the directory of the file's first `level` components. The
/// directories on the way that are not there yet are made.
fn insert_file(
    node: &mut BranchDiffTreeNode,
    file: &DiffFileEntry,
    level: usize,
    Ghost(files): Ghost<Seq<FileModel>>,
)
    requires
        level <= file@.parent().len(),
        represents(*old(node), files, file@.parent().take(level as int)),
    ensures
        represents(*final(node), files.push(file@), file@.parent().take(level as int)),
        final(node).name == old(node).name,
        final(node).path == old(node).path,
    decreases file@.parent().len() - level,
{
    let components = file.repo_path.components();
    let ghost parent = file@.parent();
    let ghost dir = parent.take(level as int);
    let ghost old_node = *node;
    let ghost more = files.push(file@);
    proof {
        lemma_push_file(files, dir, file@);
        assert(dir.take(dir.len() as int) =~= dir);
    }
    if components.len() == 0 || level == components.len() - 1 {
        assert(dir =~= parent);
        node.files.push(file.clone());
        proof {
            assert(models(node.files@) =~= models(old_node.files@).push(file@));
            assert forall|i: int| 0 <= i < node.children@.len() implies {
                &&& (#[trigger] node.children@[i]).path is Some
                &&& node.children@[i].path->0@ == dir.push(node.children@[i].name@)
                &&& represents(node.children@[i], more, dir.push(node.children@[i].name@))
            } by {
                assert(node.children@[i] == old_node.children@[i]);
                lemma_represents_without(
                    node.children@[i],
                    files,
                    dir.push(node.children@[i].name@),
                    file@,
                );
            }
        }
    } else {
        let name = &components[level];
        let ghost below = parent.take(level + 1);
        proof {
            lemma_child_names_ascending(files, dir);
            assert(name@ == texts(components@)[level as int]);
            assert(parent[level as int] == name@);
            assert(below =~= dir.push(name@));
        }
        let at: usize = match find_child(&node.children, name.as_str()) {
            Slot::At(i) => {
                proof {
                    assert(node_names(node.children@)[i as int] == name@);
                    lemma_insert_name_present(child_names(files, dir), i as int);
                }
                i
            },
            Slot::Between(i) => {
                let made = BranchDiffTreeNode {
                    name: name.clone(),
                    path: Some(file.repo_path.prefix(level + 1)),
                    children: Vec::new(),
                    files: Vec::new(),
                };
                proof {
                    let names = node_names(node.children@);
                    assert forall|j: int| 0 <= j < i implies name_lt(
                        #[trigger] names[j],
                        name@,
                    ) by {
                        assert(names[j] == node.children@[j].name@);
                    }
                    assert forall|j: int| i <= j < names.len() implies name_lt(
                        name@,
                        #[trigger] names[j],
                    ) by {
                        assert(names[j] == node.children@[j].name@);
                    }
                    lemma_insert_name_at(names, name@, i as int);
                    assert(file.repo_path@.take(level + 1) =~= below);
                    assert forall|j: int| 0 <= j < files.len() implies !contains_dir(
                        below,
                        (#[trigger] files[j]).parent(),
                    ) by {
                        lemma_child_names_complete(files, dir, name@);
                        if contains_dir(below, files[j].parent()) {
                            let k = choose|k: int| 0 <= k < names.len() && names[k] == name@;
                            lemma_name_lt_irreflexive(name@);
                            assert(names[k] == node.children@[k].name@);
                        }
                    }
                    lemma_represents_nothing(made, files, below);
                    assert(node_names(node.children@.insert(i as int, made)) =~= names.insert(
                        i as int,
                        name@,
                    ));
                }
                node.children.insert(i, made);
                i
            },
        };
        let ghost children = node.children@;
        assert(node_names(children) == child_names(more, dir));
        assert(children[at as int].name@ == name@);
        assert forall|i: int| 0 <= i < children.len() implies {
            &&& (#[trigger] children[i]).path is Some
            &&& children[i].path->0@ == dir.push(children[i].name@)
            &&& represents(children[i], files, dir.push(children[i].name@))
        } by {
            if children.len() != old_node.children@.len() && i != at {
                let j = if i < at {
                    i
                } else {
                    i - 1
                };
                assert(children[i] == old_node.children@[j]);
            } else if children.len() == old_node.children@.len() {
                assert(children[i] == old_node.children@[i]);
            }
        }
        insert_file(&mut node.children[at], file, level + 1, Ghost(files));
        proof {
            assert(node_names(node.children@) =~= node_names(children));
            assert forall|i: int| 0 <= i < node.children@.len() implies {
                &&& (#[trigger] node.children@[i]).path is Some
                &&& node.children@[i].path->0@ == dir.push(node.children@[i].name@)
                &&& represents(node.children@[i], more, dir.push(node.children@[i].name@))
            } by {
                assert(represents(children[i], files, dir.push(children[i].name@)));
                if i != at {
                    let other = dir.push(children[i].name@);
                    assert(node.children@[i] == children[i]);
                    lemma_child_names_ascending(more, dir);
                    assert(node_names(children)[i] == children[i].name@);
                    assert(node_names(children)[at as int] == name@);
                    lemma_name_lt_irreflexive(name@);
                    if contains_dir(other, parent) {
                        assert(parent.take(other.len() as int)[level as int] == name@);
                    }
                    lemma_represents_without(children[i], files, other, file@);
                }
            }
        }
    }
}

/// The chain of compacted directories ends at the directory that the files say is shown.
proof fn lemma_chain_shown(
    child: BranchDiffTreeNode,
    files: Seq<FileModel>,
    dir: Seq<Seq<char>>,
)
    requires
        child.path is Some,
        child.path->0@ == dir.push(child.name@),
        represents(child, files, dir.push(child.name@)),
    ensures
        child.chain_end().path is Some,
        child.chain_end().path->0@ == shown_for(files, dir.push(child.name@)),
        represents(child.chain_end(), files, shown_for(files, dir.push(child.name@))),
        child.chain_names() == shown_for(files, dir.push(child.name@)).skip(dir.len() as int),
    decreases child,
{
    let below = dir.push(child.name@);
    let shown = shown_for(files, below);
    assert(models(child.files@).len() == child.files@.len());
    assert(node_names(child.children@).len() == child.children@.len());
    lemma_shown_for_extends(files, below);
    if child.is_compacted() {
        let next = child.children@[0];
        assert(child_names(files, below)[0] == node_names(child.children@)[0]);
        assert(shown == shown_for(files, below.push(next.name@)));
        lemma_chain_shown(next, files, below);
        assert(shown[dir.len() as int] == shown.take(below.len() as int)[dir.len() as int]);
        assert(child.chain_names() =~= shown.skip(dir.len() as int));
    } else {
        assert(child.chain_names() =~= shown.skip(dir.len() as int));
    }
}

/// A tree is no higher than the files lie deep.
proof fn lemma_height(node: BranchDiffTreeNode, files: Seq<FileModel>, dir: Seq<Seq<char>>)
    requires
        represents(node, files, dir),
    ensures
        node.height() <= 1 + levels_below(files, dir),
    decreases node, node.children@.len() + 1,
{
    assert(node_names(node.children@).len() == node.children@.len());
    lemma_child_means_level(files, dir);
    lemma_height_of_first(node, files, dir, node.children@.len() as int);
    assert(node.children@.take(node.children@.len() as int) =~= node.children@);
}

proof fn lemma_height_of_first(
    node: BranchDiffTreeNode,
    files: Seq<FileModel>,
    dir: Seq<Seq<char>>,
    count: int,
)
    requires
        represents(node, files, dir),
        0 <= count <= node.children@.len(),
        node.children@.len() > 0 ==> dir.len() < deepest(files),
    ensures
        forest_height(node.children@.take(count)) <= levels_below(files, dir),
    decreases node, count,
{
    if count > 0 {
        let first = node.children@.take(count);
        lemma_height_of_first(node, files, dir, count - 1);
        assert(first.drop_last() =~= node.children@.take(count - 1));
        let child = node.children@[count - 1];
        lemma_height(child, files, dir.push(child.name@));
    }
}

/// The rows of a tree are those that its files call for.
proof fn lemma_entries_are_rows(
    node: BranchDiffTreeNode,
    files: Seq<FileModel>,
    dir: Seq<Seq<char>>,
    depth: int,
    choices: Map<Seq<char>, bool>,
)
    requires
        represents(node, files, dir),
    ensures
        node.entries(depth, choices) == rows(files, dir, depth, choices),
    decreases node.height(), node.children@.len() + 1,
{
    assert(node_names(node.children@).len() == node.children@.len());
    lemma_child_entries_are_rows(node, files, dir, node.children@.len() as int, depth, choices);
}

proof fn lemma_child_entries_are_rows(
    node: BranchDiffTreeNode,
    files: Seq<FileModel>,
    dir: Seq<Seq<char>>,
    count: int,
    depth: int,
    choices: Map<Seq<char>, bool>,
)
    requires
        represents(node, files, dir),
        0 <= count <= node.children@.len(),
    ensures
        node.child_entries(count, depth, choices) == directory_rows(
            files,
            dir,
            count,
            depth,
            choices,
        ),
    decreases node.height(), count,
{
    assert(node_names(node.children@).len() == node.children@.len());
    if count > 0 {
        lemma_child_entries_are_rows(node, files, dir, count - 1, depth, choices);
        let child = node.children@[count - 1];
        assert(child_names(files, dir)[count - 1] == node_names(node.children@)[count - 1]);
        let shown = shown_for(files, dir.push(child.name@));
        lemma_chain_shown(child, files, dir);
        lemma_forest_height(node.children@, count - 1);
        lemma_chain_end_height(child);
        lemma_entries_are_rows(child.chain_end(), files, shown, depth + 1, choices);
    }
}

/// The rows that show the files of a diff as a tree.
///
/// The directories of one directory come first, by name, and are followed by its files, by name.
/// A directory that holds no file and one directory only is shown by that one. Every directory is
/// open unless `expanded_dirs` says otherwise, and what lies below a closed one is left out.
pub fn build_branch_diff_tree_entries(
    files: Vec<DiffFileEntry>,
    expanded_dirs: &ExpandedDirs,
) -> (entries: Vec<BranchDiffTreeEntry>)
    ensures
        entry_models(entries@) == tree_rows(models(files@), expanded_dirs@),
{
    let sorted = sort_by_path(&files);
    let ghost all = borrowed_models(sorted@);
    let ghost top = Seq::<Seq<char>>::empty();
    let mut root = BranchDiffTreeNode {
        name: String::new(),
        path: None,
        children: Vec::new(),
        files: Vec::new(),
    };
    let mut i: usize = 0;
    proof {
        lemma_represents_nothing(root, all.take(0), top);
    }
    while i < sorted.len()
        invariant
            all == borrowed_models(sorted@),
            top == Seq::<Seq<char>>::empty(),
            i <= sorted@.len(),
            represents(root, all.take(i as int), top),
            deepest(all.take(i as int)) < usize::MAX,
        decreases sorted@.len() - i,
    {
        let file = sorted[i];
        let components = file.repo_path.components();
        let ghost so_far = all.take(i as int);
        proof {
            assert(components.len() == file@.repo_path.len());
            assert(file@.parent().take(0) =~= top);
            assert(all.take(i + 1) =~= so_far.push(file@));
            assert(all.take(i + 1).drop_last() =~= so_far);
        }
        insert_file(&mut root, file, 0, Ghost(so_far));
        i += 1;
    }
    proof {
        assert(all.take(i as int) =~= all);
        lemma_height(root, all, top);
        lemma_entries_are_rows(root, all, top, 0, expanded_dirs@);
    }
    flatten_branch_diff_tree(&root, 0, expanded_dirs)
}

} // verus!
