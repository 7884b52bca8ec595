//! A small backtracking regular-expression engine: a scanner turns a pattern
//! into tokens, a recursive-descent parser builds a syntax tree, and a matcher
//! walks the tree against a target to produce successive match ranges.

pub mod tokens;
pub mod scanner;
pub mod syntax_tree;
pub mod parser;
pub mod language;
pub mod matcher;
mod text;
