# emet

The front end of emet, a small total, typed, functional configuration
language with an Elm/Haskell-style surface syntax: top-level declarations,
optional type signatures, the offside layout rule and Hindley-Milner style
type checking.

The library is written in Verus; each public function carries a contract
that Verus proves against its body.

## Layout

- `src/lexer.rs` turns source text into tokens with byte spans, lines and
  columns; `src/text.rs` and `src/strings.rs` hold the character and string
  operations it and the prelude rely on.
- `src/layout.rs` inserts the virtual braces and semicolons of the offside
  rule; `src/header.rs` reads a module header and its imports.
- `src/grammar.rs` parses laid-out tokens into the syntax tree of
  `src/ast.rs`; `src/parser.rs` and `src/operators.rs` hold the pieces it
  shares (reserved words, signature pairing, operator precedence).
- `src/engine.rs`, `src/unify.rs`, `src/schemes.rs` and `src/infer.rs` are
  the type engine: substitutions, unification with the glyph injection rule,
  schemes, and the typing environment; `src/prelude.rs` lists the built-in
  constructors and functions with their types.
- `src/typedecl.rs`, `src/resolve.rs`, `src/names.rs` and `src/depgraph.rs`
  register user types, resolve and qualify constructors across modules, and
  order declarations into dependency groups; `src/exhaust.rs` checks `case`
  coverage.
- `src/secrets.rs`, `src/ir.rs` and `src/manifest.rs` seal secret text for
  the glyph output and find the library search path; `src/query.rs`,
  `src/positions.rs` and `src/render.rs` serve editor queries and error
  rendering.
- `tests/` runs the library on concrete inputs; `app/` is a command-line
  front end that reads files and reports diagnostics.
