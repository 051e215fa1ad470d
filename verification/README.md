# typshow

The verified core of Typshow, a dual-window Typst presentation tool: a
presenter window with the current and next page and editable notes, and a
full-screen audience window.

- `src/` is the library, checked by Verus:
  - `text.rs`: character-level text helpers (trimming, searching, `str::lines`).
  - `outline.rs`: the outline of a Typst source: title, headings, page breaks, segments.
  - `notes_db.rs`: the table of notes, one per page, and how a deck's outline fills it.
  - `markdown.rs`: Markdown notes folded into blocks; inline styling.
  - `notes.rs`: the notes panel's state and editors.
  - `app.rs`: page navigation, and the labels of the presenter window.
  - `render.rs`: which pages the renderer asks for; package paths; font choice.
  - `theme.rs`: the light and dark palettes.
- `app/` is the program around it: the egui windows, the SQLite file that
  keeps the notes, and the Typst/PDF render worker.
- `tests/` runs the library on concrete decks and notes.
