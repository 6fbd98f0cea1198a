//! Lexical front end of a small interpreted language: a character-cursor
//! scanning primitive plus a keyword/literal classification layer that turn
//! raw source text into a stream of typed tokens.

pub mod lexer;
pub mod scan;
pub mod token;
