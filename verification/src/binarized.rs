//! Binarised trees: annotated labels, Markovization and its inverse.

pub mod debinarize;
pub mod markovize;
pub mod node;
