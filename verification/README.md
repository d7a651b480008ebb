# A verified lexer and recursive-descent parser

The library reads a small expression language:

```
program  <- stmt*
stmt     <- let / fn_decl / struct / expr
let      <- 'let' ident '=' expr
expr     <- additive (cmp_op term)*
additive <- term ([+-] term)*
term     <- postfix ([*/] postfix)*
postfix  <- factor ('.' ident)*
factor   <- number / string / list / if / call / ident / '(' expr ')' / lambda
```

(`src/grammar.rs` gives the whole grammar.)

Layout of `src/`:

- `chars.rs`: byte classes (whitespace, digits, Latin-1 letters and digits).
- `token.rs`: tokens and their model.
- `lexer.rs`: `lex_step`, a model of one call of `Lexer::next`, the
  lexer proved to follow it, and `lexes_safely`, which tells whether any
  call of `next` on a source would panic.
- `spacing.rs`: what a call of `next` does not read: the text before its
  position, whitespace that it skips, and what lies after some whitespace
  once its token has ended.
- `ast.rs`: the syntax tree and its model.
- `grammar.rs`: the grammar as total functions on a token stream, and
  progress lemmas.
- `locality.rs`: the grammar reads a stream only up to its first missing
  token.
- `parser.rs`: the parser, proved to follow the grammar on the stream of
  tokens that the lexer gives.
- `laws.rs`: facts relating the lexer and the parser (precedence,
  grouping, whitespace between tokens, a parse depending on the tokens
  alone, reading every token, no panics on ASCII sources).

Number literals keep their text; `app/main.rs` reads them as `f64` when it
prints a program.
