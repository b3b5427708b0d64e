//! Probabilistic context-free grammars for constituent parsing: trees and
//! their text form, binarisation with Markov annotations, rule counting and
//! a weighted CYK decoder.

pub mod binarized;
pub mod grammar;
pub mod pipeline;
pub mod sentence;
pub mod sexp;
pub mod signature;
pub mod text;
pub mod tree;
pub mod unk;
