//! Grammars: rules with weights, their text form, and the CYK decoder.

pub mod cell;
pub mod chart;
pub mod closure;
pub mod complete;
pub mod decode;
pub mod derivation;
pub mod history;
pub mod intified;
pub mod lines;
pub mod parse;
pub mod queue;
pub mod rule;
pub mod symbols;
pub mod tables;
pub mod weight;
pub mod weighted;
