//! A formatter for Lisp-family source text: a lossless lexer and parser, a
//! layout builder over a document algebra, and the entry point that ties them
//! together.

pub mod doc;
pub mod error;
pub mod format;
pub mod kind;
pub mod layout;
pub mod lexer;
pub mod node;
pub mod parser;
pub mod token;
