//! Search for words in which an archaic or damaged letter was replaced by a placeholder symbol.

pub mod candidates;
pub mod corpus;
pub mod dictionary;
pub mod filter;
pub mod laws;
pub mod morphology;
pub mod ranges;
pub mod search;
pub mod symbols;
pub mod text;
