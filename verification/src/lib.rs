//! A generic Viterbi-style decoder over a pluggable state model, together
//! with a dynamic window buffer for reading ahead into a forward-only input.

pub mod models;
pub mod viterbi;
pub mod windowiter;
