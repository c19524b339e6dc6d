//! A small lexing and parsing toolkit: source files with line tables, an
//! interner of token names and values, matcher-driven tokenizers, a
//! precedence-driven infix-expression builder, and BNF grammars that validate token trees.
pub mod data;
pub mod grammer;
pub mod infix_expr;
pub mod lexer;
pub mod spec;
pub mod spec_parse;
