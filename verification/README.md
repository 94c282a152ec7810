# from_md

A small markdown to HTML converter whose lexer, parser and renderer are
verified with Verus.

Layout:

- `src/text.rs`: character-sequence helpers (trimming, prefixes, digits) with
  their specifications.
- `src/lexer.rs`: tokens, the lexer, and `spec_lex`, the token stream of a
  source text.
- `src/grammar.rs`: the document grammar as spec functions over a token
  cursor (`PState`), and the laws proved of it.
- `src/parser.rs`: the executable parser, each method proved to follow its
  grammar rule.
- `src/ast.rs`: the document tree and its mathematical values.
- `src/converter.rs`: HTML escaping and rendering, specified by `page_html`.
- `src/lib.rs`: `to_html` and `try_to_html`, from source text to HTML page.
- `app/main.rs`: the command-line demo and the file writer.
