//! An in-memory positional index over whitespace-separated words, with exact
//! phrase search.

pub mod index;
pub mod postings;
pub mod tokens;
