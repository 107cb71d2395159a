//! A small Lisp-like language: a scanner that turns source text into tokens,
//! a recursive-descent parser that builds expression trees, and a
//! tree-walking evaluator over a chain of lexical scopes.
//!
//! The binding form is spelled `set`: `(set x 5)`. Numbers are decimals
//! with six places. Native functions (printing, clocks, processes) are run
//! by a `Host` that the surrounding program supplies.
pub mod position;
pub mod text;
pub mod token;
pub mod lexer;
pub mod number;
pub mod expr;
pub mod parser;
pub mod env;
pub mod interpreter;
