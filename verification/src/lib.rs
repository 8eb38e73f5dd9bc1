//! A small expression language: a recursive-descent parser producing an
//! abstract syntax tree, and a tree-walking evaluator running that tree
//! against a mutable binding environment with variables, functions,
//! conditionals, loops and sequencing.
pub mod environment;
pub mod evaluator;
pub mod lex;
pub mod parser;
