//! A small lexer and recursive-descent parser for an expression language
//! with `let` bindings, functions, structs, lists, calls, field access and
//! `if` expressions. The lexer works on the UTF-8 bytes of the source; the
//! parser pulls tokens from the lexer one at a time.

pub mod chars;
pub mod token;
pub mod lexer;
pub mod spacing;
pub mod ast;
pub mod grammar;
pub mod locality;
pub mod parser;
pub mod laws;
pub mod syntax_laws;
