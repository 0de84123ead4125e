# bundle_rs

Bundles a Rust program and its local path dependencies into a single source
file: each local crate the program uses becomes a `pub mod` after the
program's own code, its submodule files are inlined, `use` paths and macro
paths are rewritten for their new place, `#[cfg(test)]` items are removed,
and comments in library code can be stripped.

The library under `src/` is written in Verus and verified as a whole; its
public functions carry contracts that state their results exactly:

- `text` — the character-level model of text (lines, trimming, searching).
- `path` — rewriting of `use` lines, macro paths and `crate::` references.
- `strip` — comment removal (a small lexer) and `#[cfg(test)]` removal.
- `expand` — inlining of `mod name;` declarations from a table of files.
- `deps` — dependency resolution (a state machine driven by the caller),
  the set of used crates, and the topological order.
- `manifest` — the `[dependencies]` of a `Cargo.toml`, read with the `toml`
  crate, the merge of registry dependencies, and the manifest of the
  project that compiles the bundle for `--check`.
- `bundle` — the bundled file as a whole.

`app/` is the command-line program: it reads the files, runs the resolver,
calls the library, and runs `rustfmt` and `cargo check`.
