# branch_diff

The changes since a branch, as an editor shows them: a view with the tree of the changed files
beside the diff, and its toolbar.

- `src/` is the library. What the view and its toolbar decide and compute stands there, with
  contracts that Verus proves: the tree (`tree`, `tree_build`, stated in `tree_model`, with its laws
  in `tree_laws`), the order of paths and files (`order`, `repo_path`, `sort`), the width of the
  tree (`width`), the state of a view (`view`), its rows (`rows`), how it is opened (`deploy`) and
  its toolbar (`toolbar`).
- `app/` is the workspace item and the toolbar around the library. It reads the editor's entities,
  hands plain values to the library and carries out what comes back.
- `tests/` run the library on concrete inputs.
