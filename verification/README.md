# m6parserkit

A small lexing and parsing toolkit whose logic is proved with Verus.

- `src/lexer/` — the lexer side:
  - `interner.rs`: token names and values interned as symbols (a
    `string_interner` behind a few trusted wrappers);
  - `text.rs`: byte and character views of strings, UTF-8 facts;
  - `srcfile.rs`: source files with their line tables, locations of
    character and byte offsets;
  - `token.rs`: tokens and their accessors;
  - `tokenize.rs`: the matcher-driven tokenizer and its error report;
  - `pattern.rs`: regular-expression token and character matchers (the
    `regex` crate behind trusted wrappers);
  - `prelude.rs`: ready-made matchers (quoted strings, regex literals,
    heredocs through `fancy_regex`) and the layout filter;
  - `dfa.rs`: a character automaton, a token recognizer and the tokenizer
    that runs them.
- `src/data.rs`: token trees and cursors.
- `src/infix_expr.rs`: building infix-expression trees by precedence.
- `src/spec.rs`: BNF grammars, their self-check, the check of token
  trees against them, and how syntax kinds are named and shown.
- `src/spec_parse.rs`: the text form of a grammar and its parse.
- `src/grammer.rs`: grammars written as Rust tokens (identifier characters
  from `unicode_ident`).
- `app/`: reading files, a process-wide interner, `Display` for reports.
- `tests/`: tests of the library through its public interface.
