# muntjac

Generates Buck2 build files for the Python dependencies that `uv` locked:
it reads `muntjac.toml` and each tree's `uv.lock`, projects the dependency
graph on every (platform, Python version) cell, picks one wheel per package
and cell, applies layered fixups (community registry, then local overrides),
and composes what is written to `BUCK` and `muntjac.bzl`. It also vendors
wheels and sdists (with PEP 517 prebake of pure-Python sdists) and manages
the pinned fixup registry (`fixups show`, `fixups update`).

## Layout

- `src/` — the library, verified with Verus. Public functions carry
  contracts (a few private helpers only state what their callers need);
  the laws that relate several functions are public proof functions named
  `law_*`.
  - `config.rs`, `config_toml.rs` — the config model, reading and validation.
  - `lock/` — lockfile parsing, the dependency graph, cycle detection,
    reachability under markers and extras, projection on cells.
  - `wheel/` — wheel tags, filename parsing, compatible-tag lists, picking.
  - `fixup/` — fixup schema, layering, validation, diffs, registries.
  - `buck/` — the emitter's input (`emit_tree`, `build_emit_input`).
  - `sdist/`, `vendor.rs`, `pick_wheels.rs`, `fixups_cmd.rs`, `cli.rs` — the
    decisions of the commands.
  - Calls into outside crates (`toml`, `toml_edit`, `pep508_rs`, `pep440_rs`,
    `url`, `glob`, `sha2`, `hex`) go through small trusted wrappers whose
    contracts are stated next to them.
- `app/` — the command-line program: argument parsing, file and network
  I/O, running `uv` and `git`, serde copies of the library's types.
- `tests/` — tests of the library's public functions.
