//! Lexical analysis of Clojure source and results.
//!
//! The lexer turns text into a flat list of lexemes.  Every lexeme knows the
//! index of the form it belongs to and the index of the form that contains
//! that form, so that the nesting can be recovered without building a tree.

pub mod types;
pub mod scanner;
pub mod atoms;
pub mod grammar;
pub mod lexer;
pub mod lexing;

pub use self::types::{
    CharSyntax, Error, Ix, Lexeme, NumberClass, NumericValue, ParserLoc, Source, StringFragment, SymbolicValue, Token,
};
pub use self::lexer::lex;
