//! Selects contiguous ranges of lines from a text log according to a set of
//! pattern rules, then renders the union of the selected ranges with gap
//! markers between disjoint stretches.

pub mod config;
pub mod pattern;
pub mod render;
pub mod resolve;
pub mod rule;
pub mod select;
