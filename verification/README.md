# sysml

Headless tooling for standard SysML v2 textual models, written in Verus: a
syntax check, a bounded requirements-structure validation profile, and a small
element/relationship model with its own validation rules. The library in
`src/` is verified; `app/` holds the `sysml` command line around it.

## Layout

- `src/syntax.rs` reads a tree-sitter parse (grammar `tree-sitter-sysml`) into
  plain node records; `src/check.rs` computes the syntax findings and the
  check report.
- `src/queries.rs`, `src/canonical.rs`, `src/lower.rs` and `src/lowering.rs`
  lower a syntax tree into the project model of `src/project.rs`, grown and
  kept well formed by `src/growth.rs`.
- `src/resolve.rs` resolves names through scopes, imports and inheritance;
  `src/validate.rs` holds the profile's rules and their findings;
  `src/report.rs` merges findings into the validation report, and
  `src/render.rs` writes the human-readable report lines.
- `src/model.rs` and `src/error.rs` are the element/relationship model and its
  validation; `src/strings.rs`, `src/order.rs`, `src/idset.rs` and
  `src/marks.rs` are shared helpers.
- `app/` discovers and reads input files, parses arguments, prints the
  reports (human lines from `src/render.rs`, or JSON), and reads and writes the model's TOML text form.
