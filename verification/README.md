# calmake

calmake is a small build system for C and C++ projects. A project is
described by a `build.cal` file of `target NAME { key = value ... }` blocks;
`calmake build` compiles and links the targets in dependency order, rebuilding
only what changed, and refreshes `compile_commands.json`.

Commands: `calmake build`, `calmake compdb`, `calmake graph` (Graphviz DOT),
`calmake init [DIR]`, `calmake clean [DIR]`; `-v`/`--verbose` anywhere.

Layout:

- `src/` — the library, verified with Verus:
  - `text` — trimming, lines, words and pieces of text, as `str` does them;
  - `config` — the `build.cal` parser;
  - `graph` — the target graph, the build order (Kahn's algorithm, proved to
    succeed exactly when the dependencies have no cycle), and scheduling;
  - `cache` — fingerprints (BLAKE3) and the incremental-build decisions;
  - `toolchain` — compiler detection, compile and link command lines, and
    the compilation database;
  - `paths`, `depfile`, `cli`, `util`, `error`.
- `app/` — the program: files, processes, threads, JSON.
- `tests/` — tests of the library.
