//! An interpreter core for the untyped lambda calculus: de Bruijn terms,
//! capture-avoiding substitution, normal-order reduction, Church encodings,
//! and a bracket-abstraction translator to SKI combinators.

pub mod ast;
pub mod cst;
pub mod lexer;
pub mod expression;
pub mod parser;
pub mod render;
pub mod translator;
pub mod token;
