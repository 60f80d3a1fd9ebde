# harpy

Front end of the Harpy language, verified with Verus.

- `src/lexer.rs`: the token grammar as spec functions on bytes (longest match,
  then rule priority), an executable scanner proved equal to it, and laws on
  the lexeme stream (it tiles the input, tokens come in order, each match is
  the longest).
- `src/tokens.rs`: `generate_tokens`, which returns every token and every
  error with its text and line/column, exactly as the grammar gives them.
- `src/cursor.rs`: the parser cursor shared by both parsers, with a spec model
  of each cursor operation.
- `src/parser.rs`: the recovering block parser; `parse_program` returns `Ok`
  exactly when the spec parse records no error.
- `src/grammar.rs`: every token stream derived from the block grammar parses
  without error into the blocks it was derived from.
- `src/compose.rs`: two streams that each parse without error parse, one
  after the other, into both sets of blocks.
- `src/hc/`: the route dialect (its lexer, parser and grammar law).
- `src/cli.rs`, `src/hc/cli.rs`: choice of run mode from the command line.
- `src/diagnostics.rs`: the text `file:line:column: kind: message`.
- `app/`: the command-line programs (argument parsing with clap, file I/O,
  printing, invoking `rustc`).
