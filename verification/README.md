# editpad

The editing core of a plain-text editor, verified with Verus: the text
buffer with its line structure and dominant line ending, cursor and
selection, undo/redo history, line operations (sort, dedupe, trim,
indent, comment, reverse, merge/split, move, duplicate), bookmarks,
column blocks, multiple cursors, bracket matching, drag-and-drop of the
selection, link detection, number sequences, case conversion, backup
naming and the autosave decision.

## Layout

- `src/` — the verified library. Every public function states in its
  contract what it returns or changes; the `law_*` proof functions state
  properties that span calls (undo restores, sorting orders and permutes,
  toggling twice is the identity, outdent undoes indent, trimming and
  deduplication are idempotent, bracket partners are unique, pruning
  keeps the newest backups, a decimal number reads back as itself,
  moving a line and moving it back restores the text and bookmarks,
  whole-document sort and trim keep the line structure). `linesplit`
  shows that a text determines its lines.
- `tests/` — tests of the library on concrete values.
- `app/` — ordinary Rust around the library: disk I/O for backups and
  autosave, the clock driving caret blink and scrollbar fade, link
  resolution against the file system, and the floating-point geometry of
  the view (scrollbars, menus, zoom steps, drag threshold).

## Checking

Verus verifies `src/`; `tests/` run against the compiled library.
