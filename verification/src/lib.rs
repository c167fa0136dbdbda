//! Splits identifier-like tokens into space-separated, speakable words.
//!
//! `aTestCase` becomes `a Test Case`, `module_aTestCase` becomes
//! `module a Test Case`, and `0_A1B2` becomes `zero A one B two` when digits
//! are spoken or `0 A 1 B 2` when they are not.
//!
//! [`splitter`] holds the scanner and its entry points, [`words`] says what
//! the output of a split is, and [`laws`], [`spans`] and [`resplit`] prove
//! what holds of it for every token and every configuration.

pub mod charset;
pub mod config;
pub mod words;
pub mod laws;
pub mod spans;
pub mod resplit;
pub mod splitter;

pub use config::Configuration;
pub use splitter::{_split_list, _split_symbol, split, split_all, split_symbol, split_symbols};
