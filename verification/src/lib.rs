//! A small stack-based, Forth-like language runtime built on exact rational
//! arithmetic: a tokenizer, a tagged value model, a word dictionary with
//! dependency tracking that vetoes unsafe deletion and redefinition, and a
//! re-entrant stack evaluator with quotation-based control flow.
//!
//! Programs are plain text in a whitespace-separated token grammar. Vectors
//! written `[ ... ]` are quotations: inert data until a control word expands
//! them back into tokens and evaluates them.

pub mod builtins;
pub mod dict;
pub mod errors;
pub mod fraction;
pub mod interp;
pub mod laws;
pub mod ops;
pub mod roundtrip;
pub mod text;
pub mod tokenizer;
pub mod value;
