//! A verified evaluator for arithmetic expressions over integer literals.
//!
//! The pipeline is a lexical scanner that turns text into tokens on demand,
//! and a recursive-descent parser that folds the running result as it goes,
//! giving `*` and `/` tighter binding than `+` and `-`.

pub mod interpreter;
pub mod laws;
pub mod numeral;
pub mod token;
