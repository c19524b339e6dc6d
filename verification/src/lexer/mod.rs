//! Lexing: interned symbols, source files, tokens and tokenizers.
pub mod dfa;
pub mod interner;
pub mod text;
pub mod srcfile;
pub mod token;
pub mod tokenize;
pub mod prelude;
pub mod pattern;

