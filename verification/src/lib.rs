//! A verified front end and interpreter for the classic eight-symbol tape
//! language: a lexer that turns source text into located tokens and collects
//! loop-delimiter errors, a parser that builds a run-length-encoded
//! instruction tree, and a step-budgeted interpreter over a circular byte
//! tape with wrapping cell arithmetic.

pub mod balance;
pub mod cli;
pub mod error;
pub mod interpreter;
pub mod preprocessor;
