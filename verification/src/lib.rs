//! Verified core of a Vietnamese table-based input method: keystroke
//! classification, word-shape helpers, dictionary line parsing and the
//! dictionary engine that turns typed keys into candidate words.

pub mod unicode;
pub mod keystroke;
pub mod text;
pub mod strings;
pub mod parser;
pub mod sorted_map;
pub mod engine;
pub mod candidates;
pub mod engine_laws;
