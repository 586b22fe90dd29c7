//! A small regular-expression engine: a pattern is parsed into a syntax tree,
//! the tree is compiled into a program for a backtracking virtual machine, and
//! the machine runs the program against an input.

pub mod language;
pub mod parser;
pub mod compiler;
pub mod evaluator;
pub mod correctness;
pub mod identities;
pub mod matcher;
