# pulzar

Tooling for the Pulzar shell language, written in Verus: the library in
`src/` is verified, the command-line program in `app/` is ordinary Rust
around it.

## Library (`src/`)

- `text` – UTF-8 widths and byte offsets, string building, decimal
  rendering, white space and the order of texts.
- `source`, `diagnostic`, `token`, `ast` – spans, the line index,
  diagnostics, tokens and the syntax tree.
- `lexer` – the lexer, stated as a function over characters, with laws on
  the token stream it produces (ordered, in bounds, one `Eof` at the end,
  positions matching byte offsets).
- `literal` – string, integer and float literals.
- `parser`, `grammar` – the recursive-descent parser and the functions of
  the token stream that say which tree and which diagnostics it produces.
- `sema` – duplicate bindings, assignments to undeclared names and misplaced
  `return`, with laws on what is always reported.
- `builtins` – the registry of builtin commands, longest-path resolution and
  help texts.
- `output` – colored status lines, token listings, diagnostic snippets and
  tables.
- `driver` – input selection, prompt lines and the decisions around a run.

## Program (`app/`)

`main.rs` parses the command line and reads files and the terminal;
`runtime.rs` evaluates programs (floating-point values, shared environments
and child processes); `show.rs` prints what the library renders.
