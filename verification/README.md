# lualex

A lexer for Lua source text, written in Verus.

- `src/grammar.rs` states the lexical grammar as spec functions over the
  bytes of the text: identifiers and keywords, decimal and hexadecimal
  numerals, quoted and long-bracket strings, symbols, white space and
  comments, one lexer step (`lex_step`) and the whole token stream
  (`lex_all`).
- `src/lexer.rs` holds `Lexer`, whose operations are proved to follow
  the grammar.
- `src/laws.rs` proves properties of the token stream as a whole: tokens are
  in-order pieces of the source with only white space and comments between
  them, each token agrees with its text, leading white space changes nothing.
- `src/bytes.rs`, `src/keyword.rs`, `src/symbol.rs`, `src/token.rs` and
  `src/lexer_errors.rs` hold byte classes, reserved words, symbols, token
  types and error messages.
- String literals are handed out as the raw text between their delimiters:
  escape sequences (`\n`, `\x41`, `\u{..}`, `\65`, ...) are not decoded.
  The `LexerError` variants that describe malformed escapes are kept with
  their messages for code that decodes them.
- `Lexer::iter_mut_tokens` hands out std's mutable slice iterator; its
  contract states, over the iterator's `remaining()` sequence, that it hands
  out one reference per token in lexing order and that each token ends as
  written through its reference. `Lexer::token_mut` changes one token in
  place.
- `app/main.rs` is the command-line program; it turns floating-point
  numerals into `f64` values, which the library keeps as normalized text.
