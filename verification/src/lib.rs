//! In-memory full-text lookup over a bilingual Chinese dictionary.
//!
//! The crate parses dictionary corpus files into entries (`cedict`), stages
//! them for a relational store (`import`, `models`), and answers
//! pronunciation and character queries — with `?` wildcards — through two
//! in-memory inverted indices (`token`, `search`). `results` shapes a word
//! for serving and `error` is how failures surface on the wire.

pub mod cedict;
pub mod chars;
pub mod error;
pub mod import;
pub mod models;
pub mod results;
pub mod token;
pub mod search;
