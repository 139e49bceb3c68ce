# Anwesen

A read-only HTTP daemon over a vault of markdown notes, and one-shot commands
that check a vault, query it and merge its notes. Notes are found by their YAML
frontmatter; nothing is ever written to the vault.

- `src/` is the library. It decides everything: what a query means and which
  notes match it, how notes are merged, what is kept of a file, how filesystem
  events become changes, and how each request is answered. Every function in it
  is verified with Verus against its contract.
- `src/outside.rs` holds the calls into other crates. Their contracts are
  believed, not proved, and each says what it claims.
- `app/` is the program: the command line, reading files, the filesystem
  watcher, the supervisor tree, the HTTP listener and the export of telemetry.
- `tests/` runs the library on concrete values.

Laws that relate several functions stand as public proof functions, at the end
of the modules that they are about.
