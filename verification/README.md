# lib: a verified front end for the Lox language

The library reads Lox source text and checks it, with every step proved
against a specification in Verus:

- `src/token.rs`: token kinds and tokens, and the text they are printed as.
- `src/lexer.rs`: the lexer, specified step by step (`scan_step`, `scan`),
  with its laws: only the last token is end-of-file, token texts are pieces of
  the source, lines never go down, lexing resumes from any position.
- `src/ast.rs`: expressions and statements, their views, and the printed form
  of an expression.
- `src/parser.rs`: the recursive-descent parser; the grammar is written as
  spec functions over token sequences (`p_expression`, `p_declaration`, ...).
- `src/environment.rs`: nested variable scopes, generic over the values held.
- `src/resolver.rs`: the scoping checks and the depth of each local variable.
- `src/executor.rs`: running statements one decision at a time (`exec_step`):
  which expression to evaluate next, what to print or define, which branch
  runs, whether a loop goes on, and which scopes to open and close, also when
  an error is carried out of nested blocks.
- `src/text.rs`: character classes and string building.
- `src/numeral.rs`: which texts read as a number (the grammar that
  `str::parse::<f64>` accepts); the parser refuses a number token whose
  literal does not, and a law shows that no number the lexer reads is refused.

`app/` is the command-line program (`tokenize`, `parse`, `evaluate`, `run`).
It holds what works on `f64`: the rendering of number literals and the
evaluation of expressions. Its run loop does what the library's executor asks
and keeps the variables in the library's `Environment`.
