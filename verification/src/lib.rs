//! A small lexical search core: it normalizes and stems words into tokens,
//! builds and reloads a token index over short titled records, and ranks the
//! index against a free-text query by weighted token overlap with numeral
//! expansion, with room for an optional query-correction pass.

pub mod helpers;
pub mod indexing;
pub mod search;
