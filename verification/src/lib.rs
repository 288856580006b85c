//! A verified calculator core: a lexer, a recursive-descent parser and an
//! exact evaluator for arithmetic expressions over integers, `+`, `-`, `*`,
//! parentheses and unary minus.
//!
//! Parsing and evaluation recurse as deep as the line nests its parentheses;
//! no explicit depth cap is imposed, so extremely deep nesting is bounded by
//! the call stack.  That boundary aside, every function either returns the
//! value its contract states or one of the structured errors, exactly on the
//! inputs the contracts name.

pub mod evaluate;
pub mod lexer;
pub mod parser;
