# stardeck

The note-handling core of STARDECK, an offline-first markdown note-taker whose
notes are plain `.md` files with a small YAML header, verified with Verus.

- `src/` — the library, every function with a contract:
  `frontmatter` (the file format, with the save/reload law), `paths` (slugs,
  folder and file names), `links` (`[[wiki links]]`, backlinks, the rename
  cascade), `tags`, `search` (FTS5 query, palette), `editor` (selection
  formatting, list continuation, tasks, statistics, quick capture), `ident`
  (UUID note ids), `config`, and the text/number helpers they rest on.
- `tests/` — example-based tests of the library.
- `app/` — the egui desktop program: SQLite search index, file I/O, settings,
  theme and UI, calling into the library for every decision.
