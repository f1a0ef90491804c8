# Super Tabs

A vertical tab list for Zellij. Its columns are configured; each tab has a row of cells, and the
name of the tab carries the row, so that every session client sees the same list.

- `src/`: the library, verified with Verus. Styled text and markup (`style`, `markup`), column
  layout (`layout`, `share`, `widths`, `align`), tab names (`tab_name`), the schema and the update
  protocol (`schema`, `protocol`, `cli`), and the decisions of the plugin (`identity`,
  `leader`, `reconcile`, `updates`, `render`, `plugin`).
- `app/`: the `super-tabs` command and the plugin around the library. It reads and writes the
  files of a session, talks to Zellij, and turns JSON into values.
- `tests/`: tests of the library.

Two calls leave the verified code: the displayed width of text and of a character come from the
`unicode-width` crate (`src/width.rs`). Besides, `String::push` is taken to do what its
documentation says (`src/text.rs`). Everything else that the library states is proved.
