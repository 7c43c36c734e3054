# shaka

One config for every shell shortcut: shortcuts defined once in YAML or JSONC
are rendered as aliases (`bash`, `zsh`, `fish`) or functions (PowerShell).

Layout:

- `src/` — the library, verified with Verus:
  - `config.rs` — where configuration files are looked for and in which
    order, the configuration forms, merging in order of precedence (later
    files override earlier ones, a re-defined name moves last), and loading
    a list of files, with the laws of merging.
  - `entries.rs` — `indexmap::IndexMap<String, String>` as a sequence of
    entries, and the specifications of the map operations used.
  - `render/` — the shell code for each shell, with PowerShell commands
    expanded from looked-up environment values first.
  - `utils/env_expand.rs` — `$NAME` / `$env:NAME` references in commands,
    replaced by looked-up values.
  - `text.rs` — string operations of std.
- `app/` — the command: arguments, the environment, reading and parsing
  the files (serde, `serde_yaml_ng`, `jsonc-parser`).
- `tests/` — tests of the library.
