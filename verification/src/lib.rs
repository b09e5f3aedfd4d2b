//! Markov-chain text generation over Cyrillic word tokens.
//!
//! The pipeline runs strictly forward: bytes are resolved to text lines
//! ([`encoding`]), lines are cut into filtered tokens ([`tokens`]), adjacent
//! token pairs are counted ([`chain`]) and a weighted random walk over those
//! counts produces the output ([`generator`]).

pub mod letters;
pub mod text;
pub mod encoding;
pub mod tokens;
pub mod chain;
pub mod generator;
pub mod options;
pub mod timing;
