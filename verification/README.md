# suzuri

The decisions behind a writing environment for markdown: what a live preview hides, draws and
restyles, how tables and frontmatter are edited through their widgets, how citations resolve
against a bibliography, and when a newer release is announced.

- `src/` is the library. It works on text, byte offsets and plain values, and every function in it
  is verified with Verus against the contract it states. What spans several functions stands in the
  `law_…` proof functions beside them.
- `tests/` runs the library on concrete notes, tables, bibliographies and releases.
- `app/` is the editor extension around it: it draws widgets, reads files and asks the network, and
  hands the library what it finds.
