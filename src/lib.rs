//! Tools for word puzzles: letter and word predicates, code tables, a
//! frequency-weighted word list with exact slug lookup, pair search over
//! it, and ranking of scored results.

pub mod code;
pub mod corpus;
pub mod data;
pub mod iter;
pub mod letter;
pub mod search;
pub mod word;
pub mod wordlist;
