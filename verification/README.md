# gravitynote

The logic of a single-document note editor, verified with Verus.

One plain-text buffer holds every note. Notes are divided by thematic breaks,
markdown is highlighted a line at a time, and everything saves itself.

## Layout

- `src/note.rs`, `src/note/` — the buffer, its notes, and moving them about;
  what reading the file came to.
- `src/markdown.rs`, `src/markdown/` — the line highlighter, list continuation
  and links.
- `src/lines.rs`, `src/index.rs`, `src/fences.rs` — lines of a text, and the
  line index and fence state that are patched with every edit.
- `src/app.rs`, `src/app/` — the editor: caret and selection, typing, deleting,
  clipboard, lines, lists, find, panels, rows, the clock.
- `src/session.rs` — notices, autosave, and what to do about a file that changed
  on disk.
- `src/palette.rs`, `src/runs.rs`, `src/labels.rs`, `src/shortcuts.rs`,
  `src/reports.rs`, `src/moment.rs`, `src/web.rs`, `src/utf16.rs` — the parts
  around it.
- `src/text.rs`, `src/ascii.rs`, `src/decimal.rs` — text as characters and bytes.
- `tests/` — the library from outside, with concrete values.
- `app/` — a terminal front end: files, the clock, standard input.

Contracts are stated over the bytes of the text (`Seq<u8>`) and, for the editor,
over one value `State` that every command takes to the next. What holds of the
library as a whole is stated by the public proof functions named `law_…`.

Results that only a screen or the system can know — where a visual row ends,
where a word or a drawn character begins, what undo kept — are arguments of the
commands that need them.
