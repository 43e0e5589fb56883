//! Restores German umlauts and sharp s in text where they were typed as the
//! ASCII digraphs `ae`, `oe`, `ue` and `ss`.
//!
//! Text is cut into runs of letters. For each run, the candidate spellings
//! that replace some of its digraphs are tried in a fixed order against a
//! sorted word list, with casing normalisation and compound splitting; the
//! first valid one is taken, and the run is kept as it is otherwise.
pub mod cache;
pub mod candidates;
pub mod casing;
pub mod dictionary;
pub mod driver;
pub mod guarantees;
pub mod letters;
mod text;
pub mod typescript;
pub mod validity;
pub mod words;
