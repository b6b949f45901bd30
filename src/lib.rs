//! Fuzzy lookup of names against a fixed corpus: normalisation, tokenising,
//! an inverted token index, and exact string-similarity scores.
pub mod score;
pub mod text;
pub mod string_sim;
pub mod util;
pub mod quicksearch;
