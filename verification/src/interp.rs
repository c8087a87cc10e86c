//! The tree-walking side of the toolchain: a small combinator-style reader
//! that turns source text straight into an abstract syntax tree, and the
//! evaluator that runs such trees against an environment.

pub mod expr;
pub mod stmt;
pub mod utils;
