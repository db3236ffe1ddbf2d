//! The tree of the files of a diff, and the rows that show it.
use crate::file_entry::{models, DiffFileEntry};
use crate::repo_path::{join, join_with_slashes, texts, RepoPath};
use crate::tree_model::{file_rows, is_open, EntryModel};
use vstd::hash_map::StringHashMap;
use vstd::prelude::*;

verus! {

/// The directories that were opened or closed by hand, each with the last choice.
pub struct ExpandedDirs {
    choices: StringHashMap<bool>,
}

impl View for ExpandedDirs {
    type V = Map<Seq<char>, bool>;

    closed spec fn view(&self) -> Map<Seq<char>, bool> {
        self.choices@
    }
}

impl ExpandedDirs {
    /// No choice for any directory.
    pub fn new() -> (dirs: ExpandedDirs)
        ensures
            dirs@ == Map::<Seq<char>, bool>::empty(),
    {
        ExpandedDirs { choices: StringHashMap::new() }
    }

    /// Makes `expanded` the choice for the directory `path`.
    pub fn insert(&mut self, path: &RepoPath, expanded: bool)
        ensures
            final(self)@ == old(self)@.insert(join(path@), expanded),
    {
        self.choices.insert(path.as_unix_str(), expanded);
    }

    /// Whether the directory `path` is open: so are all that nothing was chosen for.
    pub fn is_expanded(&self, path: &RepoPath) -> (expanded: bool)
        ensures
            expanded == is_open(self@, path@),
            self@.dom().contains(join(path@)) ==> expanded == self@[join(path@)],
            !self@.dom().contains(join(path@)) ==> expanded,
    {
        let text = path.as_unix_str();
        match self.choices.get(text.as_str()) {
            Some(expanded) => *expanded,
            None => true,
        }
    }
}

/// A row of the tree for a file.
#[derive(Debug, PartialEq, Eq)]
pub struct BranchDiffTreeFileEntry {
    pub entry: DiffFileEntry,
    pub depth: usize,
}

/// A row of the tree for a directory, or for a chain of directories that hold only each other.
#[derive(Debug, PartialEq, Eq)]
pub struct BranchDiffDirectoryEntry {
    pub path: RepoPath,
    pub name: String,
    pub depth: usize,
    pub expanded: bool,
}

/// A row of the tree.
#[derive(Debug, PartialEq, Eq)]
pub enum BranchDiffTreeEntry {
    Directory(BranchDiffDirectoryEntry),
    File(BranchDiffTreeFileEntry),
}

impl View for BranchDiffTreeEntry {
    type V = EntryModel;

    open spec fn view(&self) -> EntryModel {
        match *self {
            BranchDiffTreeEntry::Directory(entry) => EntryModel::Directory {
                path: entry.path@,
                name: entry.name@,
                depth: entry.depth as int,
                expanded: entry.expanded,
            },
            BranchDiffTreeEntry::File(entry) => EntryModel::File {
                file: entry.entry@,
                depth: entry.depth as int,
            },
        }
    }
}

/// The views of a list of rows.
pub open spec fn entry_models(entries: Seq<BranchDiffTreeEntry>) -> Seq<EntryModel> {
    entries.map_values(|entry: BranchDiffTreeEntry| entry@)
}

impl BranchDiffTreeEntry {
    /// How far the row is indented.
    pub fn depth(&self) -> (depth: usize)
        ensures
            depth == self@.level(),
            match *self {
                BranchDiffTreeEntry::Directory(entry) => depth == entry.depth,
                BranchDiffTreeEntry::File(entry) => depth == entry.depth,
            },
    {
        match self {
            BranchDiffTreeEntry::Directory(entry) => entry.depth,
            BranchDiffTreeEntry::File(entry) => entry.depth,
        }
    }
}

/// A directory with what lies in it. Only the root has no path and an empty name.
pub struct BranchDiffTreeNode {
    pub name: String,
    pub path: Option<RepoPath>,
    pub children: Vec<BranchDiffTreeNode>,
    pub files: Vec<DiffFileEntry>,
}

impl BranchDiffTreeNode {
    /// How many directories lie on the longest way down, this one included.
    pub open spec fn height(self) -> nat
        decreases self,
    {
        1 + forest_height(self.children@)
    }

    /// Whether the directory is shown by the one directory that it holds.
    pub open spec fn is_compacted(self) -> bool {
        &&& self.files@.len() == 0
        &&& self.children@.len() == 1
        &&& self.children@[0].path is Some
    }

    /// The directory at which the chain of compacted directories ends.
    pub open spec fn chain_end(self) -> BranchDiffTreeNode
        decreases self,
    {
        if self.is_compacted() {
            self.children@[0].chain_end()
        } else {
            self
        }
    }

    /// The names along the chain of compacted directories, the end's among them.
    pub open spec fn chain_names(self) -> Seq<Seq<char>>
        decreases self,
    {
        if self.is_compacted() {
            seq![self.name@] + self.children@[0].chain_names()
        } else {
            seq![self.name@]
        }
    }

    /// The path of the row that shows the directory.
    pub open spec fn shown_path(self) -> Option<RepoPath> {
        if self.chain_end().path is Some {
            self.chain_end().path
        } else {
            self.path
        }
    }

    /// The rows for what lies in the directory.
    pub open spec fn entries(self, depth: int, choices: Map<Seq<char>, bool>) -> Seq<EntryModel>
        decreases self.height(), self.children@.len() + 1,
    {
        self.child_entries(self.children@.len() as int, depth, choices) + file_rows(
            models(self.files@),
            depth,
        )
    }

    /// The rows for the first `count` directories of the directory. One that has no path at the
    /// end of its chain nor itself has no row.
    pub open spec fn child_entries(
        self,
        count: int,
        depth: int,
        choices: Map<Seq<char>, bool>,
    ) -> Seq<EntryModel>
        decreases self.height(), count,
    {
        if count <= 0 || count > self.children@.len() {
            Seq::<EntryModel>::empty()
        } else {
            let child = self.children@[count - 1];
            let before = self.child_entries(count - 1, depth, choices);
            match child.shown_path() {
                None => before,
                Some(path) => {
                    let expanded = is_open(choices, path@);
                    proof {
                        lemma_forest_height(self.children@, count - 1);
                        lemma_chain_end_height(child);
                    }
                    before + seq![
                        EntryModel::Directory {
                            path: path@,
                            name: join(child.chain_names()),
                            depth,
                            expanded,
                        },
                    ] + if expanded {
                        child.chain_end().entries(depth + 1, choices)
                    } else {
                        Seq::<EntryModel>::empty()
                    }
                },
            }
        }
    }
}

/// The greatest height of the directories of a list.
pub open spec fn forest_height(nodes: Seq<BranchDiffTreeNode>) -> nat
    decreases nodes,
{
    if nodes.len() == 0 {
        0
    } else {
        let before = forest_height(nodes.drop_last());
        let last = nodes.last().height();
        if before < last {
            last
        } else {
            before
        }
    }
}

/// No directory of a list is higher than the list.
pub proof fn lemma_forest_height(nodes: Seq<BranchDiffTreeNode>, i: int)
    requires
        0 <= i < nodes.len(),
    ensures
        nodes[i].height() <= forest_height(nodes),
    decreases nodes.len(),
{
    if i < nodes.len() - 1 {
        lemma_forest_height(nodes.drop_last(), i);
    }
}

/// The end of a chain is no higher than where the chain starts.
pub proof fn lemma_chain_end_height(node: BranchDiffTreeNode)
    ensures
        node.chain_end().height() <= node.height(),
    decreases node,
{
    if node.is_compacted() {
        lemma_chain_end_height(node.children@[0]);
        lemma_forest_height(node.children@, 0);
    }
}

/// The directory at which the chain of compacted directories from `node` ends, and the name that
/// stands for the chain: the names along it, with a slash between each two.
pub fn compact_branch_diff_directory_chain<'a>(node: &'a BranchDiffTreeNode) -> (compacted: (
    &'a BranchDiffTreeNode,
    String,
))
    ensures
        *compacted.0 == node.chain_end(),
        compacted.1@ == join(node.chain_names()),
        !(compacted.0.files@.len() == 0 && compacted.0.children@.len() == 1
            && compacted.0.children@[0].path is Some),
        node.files@.len() > 0 || node.children@.len() != 1 || node.children@[0].path is None
            ==> *compacted.0 == *node && compacted.1@ == node.name@,
{
    proof {
        law_chain_goes_on(*node);
    }
    let mut current: &'a BranchDiffTreeNode = node;
    let mut parts: Vec<String> = Vec::new();
    parts.push(node.name.clone());
    assert(texts(parts@).drop_last() + current.chain_names() =~= node.chain_names());
    while current.files.len() == 0 && current.children.len() == 1
        invariant
            parts@.len() > 0,
            current.chain_end() == node.chain_end(),
            texts(parts@).drop_last() + current.chain_names() == node.chain_names(),
            texts(parts@).last() == current.name@,
        ensures
            !current.is_compacted(),
        decreases current.height(),
    {
        let child = &current.children[0];
        if child.path.is_none() {
            break;
        }
        let ghost old_parts = parts@;
        proof {
            lemma_forest_height(current.children@, 0);
            assert(current.chain_names() == seq![current.name@] + child.chain_names());
        }
        parts.push(child.name.clone());
        assert(texts(parts@).drop_last() =~= texts(old_parts));
        assert(texts(old_parts) =~= texts(old_parts).drop_last().push(current.name@));
        assert(texts(parts@).drop_last() + child.chain_names() =~= node.chain_names());
        current = child;
    }
    assert(texts(parts@) =~= texts(parts@).drop_last() + seq![current.name@]);
    (current, join_with_slashes(&parts))
}

/// The rows for what lies in the directory `node`, whose own rows are indented by `depth`.
pub(crate) fn flatten_branch_diff_tree(
    node: &BranchDiffTreeNode,
    depth: usize,
    expanded_dirs: &ExpandedDirs,
) -> (entries: Vec<BranchDiffTreeEntry>)
    requires
        depth + node.height() <= usize::MAX,
    ensures
        entry_models(entries@) == node.entries(depth as int, expanded_dirs@),
    decreases node.height(),
{
    let mut entries: Vec<BranchDiffTreeEntry> = Vec::new();
    let mut i: usize = 0;
    assert(entry_models(entries@) =~= Seq::<EntryModel>::empty());
    while i < node.children.len()
        invariant
            depth + node.height() <= usize::MAX,
            i <= node.children@.len(),
            entry_models(entries@) == node.child_entries(
                i as int,
                depth as int,
                expanded_dirs@,
            ),
        decreases node.children@.len() - i,
    {
        let child = &node.children[i];
        let ghost before = entry_models(entries@);
        proof {
            lemma_forest_height(node.children@, i as int);
            lemma_chain_end_height(*child);
        }
        let (terminal, name) = compact_branch_diff_directory_chain(child);
        let shown = match &terminal.path {
            Some(path) => Some(path.clone()),
            None => match &child.path {
                Some(path) => Some(path.clone()),
                None => None,
            },
        };
        if let Some(path) = shown {
            let expanded = expanded_dirs.is_expanded(&path);
            let ghost directory = EntryModel::Directory {
                path: path@,
                name: name@,
                depth: depth as int,
                expanded,
            };
            entries.push(
                BranchDiffTreeEntry::Directory(
                    BranchDiffDirectoryEntry { path, name, depth, expanded },
                ),
            );
            assert(entry_models(entries@) =~= before.push(directory));
            assert(before.push(directory) =~= before + seq![directory]);
            if expanded {
                let mut child_entries = flatten_branch_diff_tree(
                    terminal,
                    depth + 1,
                    expanded_dirs,
                );
                let ghost old_entries = entries@;
                let ghost added = child_entries@;
                entries.append(&mut child_entries);
                assert(entry_models(entries@) =~= entry_models(old_entries) + entry_models(added));
            } else {
                assert(before + seq![directory] + Seq::<EntryModel>::empty() =~= before + seq![
                    directory,
                ]);
            }
        }
        i += 1;
    }
    let mut j: usize = 0;
    let ghost directories = entry_models(entries@);
    let ghost all = file_rows(models(node.files@), depth as int);
    assert(directories + all.take(0) =~= directories);
    while j < node.files.len()
        invariant
            j <= node.files@.len(),
            all == file_rows(models(node.files@), depth as int),
            entry_models(entries@) == directories + all.take(j as int),
        decreases node.files@.len() - j,
    {
        let entry = node.files[j].clone();
        let ghost old_entries = entries@;
        entries.push(BranchDiffTreeEntry::File(BranchDiffTreeFileEntry { entry, depth }));
        assert(entry_models(entries@) =~= entry_models(old_entries).push(all[j as int]));
        assert(all.take(j + 1) =~= all.take(j as int).push(all[j as int]));
        assert(entry_models(entries@) =~= directories + all.take(j + 1));
        j += 1;
    }
    assert(all.take(j as int) =~= all);
    entries
}

/// A chain goes on as long as it can: it never ends at a directory that holds no file and, as its
/// only directory, one that has a path.
pub proof fn law_chain_goes_on(node: BranchDiffTreeNode)
    ensures
        !(node.chain_end().files@.len() == 0 && node.chain_end().children@.len() == 1
            && node.chain_end().children@[0].path is Some),
    decreases node,
{
    if node.is_compacted() {
        law_chain_goes_on(node.children@[0]);
    }
}

/// A chain goes no further than it must: a directory that holds a file, or not exactly one
/// directory, or only one that has no path, is shown for itself and under its own name.
pub proof fn law_chain_stops(node: BranchDiffTreeNode)
    requires
        node.files@.len() > 0 || node.children@.len() != 1 || node.children@[0].path is None,
    ensures
        node.chain_end() == node,
        node.chain_names() == seq![node.name@],
{
}

/// A directory that holds no file and, as its only directory, one that has a path is shown where
/// that one is, with its own name in front.
pub proof fn law_chain_through_one_directory(node: BranchDiffTreeNode)
    requires
        node.files@.len() == 0,
        node.children@.len() == 1,
        node.children@[0].path is Some,
    ensures
        node.chain_end() == node.children@[0].chain_end(),
        node.chain_names() == seq![node.name@] + node.children@[0].chain_names(),
{
}

/// The rows of a list are seen one by one, each with the texts, the depth and the state it has.
pub proof fn law_entries_seen_as_they_are(entries: Seq<BranchDiffTreeEntry>, i: int)
    requires
        0 <= i < entries.len(),
    ensures
        entry_models(entries).len() == entries.len(),
        match entries[i] {
            BranchDiffTreeEntry::Directory(entry) => entry_models(entries)[i] matches
                EntryModel::Directory { path, name, depth, expanded } && path == entry.path@
                && name == entry.name@ && depth == entry.depth && expanded == entry.expanded,
            BranchDiffTreeEntry::File(entry) => entry_models(entries)[i] matches
                EntryModel::File { file, depth } && file == entry.entry@ && depth == entry.depth,
        },
{
}

} // verus!
