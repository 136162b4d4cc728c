//! A small dynamically typed scripting language: a parser from source text to
//! a syntax tree, and an evaluator from a syntax tree to the final bindings of
//! its top-level variables.
//!
//! Source text, identifiers and text values are handled as UTF-8 bytes, and a
//! number is the bit pattern of an IEEE 754 double.

pub mod ast;
pub mod interpreter;
pub mod number;
pub mod parser;
