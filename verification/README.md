# review_tool

A code review engine, verified with Verus, with a terminal front end.

`src/` is the library. Every function in it carries a contract that Verus
checks:

- `engine` and `session`: the changed files of a review, unified diffs read
  into numbered lines, blocks of changed lines, diff hashes, and the review
  session (selection, navigation, reviewed files and the changes to store).
- `git`: the repository snapshot of the desktop window: `git status`,
  `--numstat` and `--name-status` output, the diff to load for a file, and
  the diff shown for untracked, added or deleted files.
- `analysis`: the data-flow graph of a Rust file from its tree-sitter syntax
  tree, and the layers in which the graph is drawn.
- `file_tree`, `tui`: the file tree of the terminal front end, how keys
  change it and the session, and how dragging a pane separator with the
  mouse resizes the panes.
- `nav_tree`, `snapshot_view`, `views`, `cli`: the desktop file tree, view
  state, labels, colours and command line.
- `laws`, `view_laws`: properties that span several functions, as proof
  functions.
- `text`, `order`, `strset`: text, ordering and string-set helpers.

The calls into `tree-sitter` and a few std conversions are trusted wrappers
whose doc comments say what they claim.

Sets and maps keyed by paths are kept as `Vec`s: the reviewed files and the
expanded or collapsed directories as `Vec<String>`, the per-file line counts
of `git diff --numstat` as `Vec<NumStat>`, each with the invariant that no
path occurs twice. vstd specifies `HashMap`, `HashSet` and `BTreeSet` well
only for keys such as integers; with `String` keys their contracts prove
nothing about what a lookup or an insert does, so a `Vec` whose view is a
`Seq` (and, through the invariant, a `Set`) carries the contracts instead.

`app/` is the terminal program: it runs Git and SQLite, reads files, draws
with ratatui and hands each key to `tui::TuiState::handle_key` and each
mouse event to `tui::TuiState::handle_mouse`. It also holds the Git loading
and the pixel layout that a snapshot window would need; no front end of this
crate draws that window.

`tests/` exercises the library on concrete values.
