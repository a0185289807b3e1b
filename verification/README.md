# regolith_configure

Searches, reads and modifies Regolith window manager configurations
(i3 for X11, sway for Wayland), with its logic verified by Verus.

## Layout

- `src/` — the verified library.
  - `text.rs`: text operations (trimming, lines, words, splitting, joining)
    with their specifications, and the facts about them that the proofs use.
  - `string_map.rs`: an insertion-ordered string map whose view is a `Map`.
  - `paths.rs`: std's textual path operations (`parent`, `join`).
  - `cli_args.rs`: argument types and session detection from environment
    variables.
  - `config/`: one configuration file (`partial.rs`), a configuration and
    the loader that follows its `include` lines (`full.rs`), and X resource
    files with their `#include` loader and the rewriting of a user's
    resource file (`xresources.rs`).
  - `search/`: binding normalization and search, keyword search, resource
    search with similar-name suggestions, and how results display.
  - `resources/`: the resource provider interface and the parsing of
    `xrdb -query` output.
  - `commands/`: the search command.
- `tests/` — tests of the library, run against files held in memory.
- `app/` — the program: argument parsing with clap, the file system, the
  environment, the display system (xrdb and the Trawl D-Bus service), and
  printing.

Reading files, globbing include patterns and canonicalizing paths happen in
`app/`: the loaders in `src/config/` say what to read next and decide what
to do with what was read, so the decisions are verified while the I/O is not.
