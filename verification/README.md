# llm_format

A verified toolchain for `.llm` prompt documents: an indentation-based
surface syntax for prompt and configuration blocks (`agent`, `system`,
`user`, `memory`, `tools`, `output`, `constraints`, `vars`, and the
composition directive). The library lexes, parses, validates, formats and
renders documents, merges composed files and measures token counts; every
function carries a contract, and Verus proves all of them but three. Those
three are trusted: `text::push_char` (std's `String::push`) and the two token
counters in `bench/tokenizer.rs` (`tiktoken-rs`), whose contracts are taken as
given and stated over named results where the count itself cannot be written
down.

## Layout

- `src/` — the verified library.
  - `text.rs` — character classes, trimming, decimal digits, joining.
  - `diagnostics.rs` — diagnostics, their rendering, and bags of them.
  - `ast.rs` — documents and nodes, their models, and the nesting limit.
  - `lexer.rs`, `parser.rs` — source text to line tokens to documents.
  - `validator.rs` — the semantic rules (`E101`–`E114`).
  - `formatter.rs`, `canonical.rs` — the canonical form, and the proof that
    formatting is idempotent and reads back.
  - `transpile/` — the `plain`, `json-ir` and `shadow` targets and variable
    expansion.
  - `merge.rs`, `inclusion.rs`, `composer.rs` — composing documents from
    several files: path resolution, cycle detection, merging.
  - `provider.rs`, `bench/` — provider profiles and the token report.
  - `pipeline.rs`, `commands.rs` — whole runs from source text, and what the
    command-line commands decide and print.
- `tests/` — tests of the library on concrete inputs.
- `app/` — the command-line front end, file reading and browser bindings.
