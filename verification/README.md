# cargo-feature-guard

Checks Cargo feature propagation across a workspace: crates that define a
feature an entry point is built with but do not receive it, features that
must never be enabled in a package's tree, and dependencies present in
several versions.

- `src/` is the verified library: reading `cargo tree` output (`tree`,
  `duplicates`), the three checks (`propagation`, `never_enables`,
  `duplicates`), workspace manifests (`workspace`, `toml_doc`), the command
  line and `--init` (`cli`), and text handling (`text`, `order`, `pattern`).
- `app/` is the command: it runs `cargo tree`, reads and writes files,
  reads the configuration (`feature-guard.toml`, else
  `check-features.toml`) with serde and prints the report.
- `tests/` runs the library on concrete inputs.
