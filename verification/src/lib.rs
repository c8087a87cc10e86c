//! A front end for a small expression language: a lexer that covers its
//! input without gaps, an event-driven parser that records the shape of the
//! tree as a flat log of structural events, and a sink that replays the log
//! into a lossless concrete syntax tree in which every piece of the input,
//! whitespace and comments included, appears as a leaf.

pub mod binding_def;
pub mod block;
pub mod env;
pub mod expr;
pub mod stmt;
pub mod interp;
pub mod lexer;
pub mod parser;
pub mod syntax;
pub mod tree;
pub mod utils;
pub mod val;
