# hyper — HyperList outlines, verified

A library for HyperList 2.6 outlines, proved with Verus, and the terminal
viewer around it.

- `src/text.rs` — white space, trimming and line splitting on character
  sequences, with the specifications of `str::trim*` and `str::lines`.
- `src/parser.rs` — `parse` and `serialize` of the text format, the tree
  helpers `children` and `last_descendant`, and the round-trip laws in
  both directions.
- `src/highlight.rs` — cuts an item line into colored spans (operators,
  properties, qualifiers, references, tags, emphasis).
- `src/display.rs` — scrolling, markup and escape stripping, truncation,
  `~` expansion, the `fold_level=` setting, header and footer layout.
- `src/outline.rs` — the outline view: visibility under folding and
  filtering, navigation, folds, highlight, presentation mode, references,
  templates, breadcrumbs, the rows of the main pane and loading a file's
  text, with their laws.
- `src/keys.rs` — the command bound to each key.
- `app/main.rs` — the terminal program: panes, input, files, processes and
  ANSI styling of spans through the `crust` terminal library.
