# openparts_kicad_plugin

Verified core of a small companion window for OpenParts: it searches the
OpenParts registry and installs a part's symbol, footprint and STEP model into
a KiCad project's local libraries.

- `src/` (Verus, verified)
  - `text.rs` — the model of text as `Seq<char>`: searching, the
    parenthesis-balanced block that starts at a marker, trailing-whitespace
    trimming, and the executable helpers that implement them.
  - `library_sync.rs` — extracting a symbol block, merging it into the
    project's `.kicad_sym`, pointing a footprint at its STEP model, and
    registering libraries in `sym-lib-table` / `fp-lib-table`; with the laws
    (idempotent installs, repatching, balance kept).
  - `search.rs` — debounced type-ahead search and the generation numbers
    that drop replies to superseded searches.
  - `install.rs` — whether an install can start, file names, status lines.
  - `cli.rs` — the `--project-dir` option.
  - `kicad_detect.rs` — project directory from the project file KiCad reports.
- `app/` — the eframe window, registry client calls, threads and file I/O.
- `tests/` — executable tests of the library.
