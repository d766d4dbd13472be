# lib: a small expression language with verified front end

A line-oriented calculator language: numbers, `+ - * / % ^`, parentheses,
`let` bindings, assignments, blocks with lexical scopes, and the builtins
`sin cos tan sqrt pow log exp abs`.

Layout:

- `src/` — the library, verified with Verus:
  - `lexer.rs` — source text to tokens, with byte offsets and line/column
    positions; the token sequence is specified by `lex_from`.
  - `parser.rs` — Pratt parser; the grammar is stated as recursive spec
    functions (`program_at`, `stmt_at`, `prec_at`, ...), and laws about
    precedence, parentheses and progress are proved there.
  - `env.rs` — scoped, generic environment with mutable and immutable
    bindings, modelled as a sequence of maps.
  - `eval.rs` — builtin lookup, call resolution and runtime error texts.
  - `pretty.rs`, `render.rs` — the AST printer and source-line error reports.
  - `token.rs`, `ast.rs`, `span.rs`, `text.rs` — data types and string helpers.
- `app/` — the REPL and the tree-walking evaluator, which computes with `f64`.
- `tests/` — executable tests of the library.
