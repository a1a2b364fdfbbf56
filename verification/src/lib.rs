//! A single-file text inspection library.
//!
//! The library classifies a file by its extension into one of a fixed set of
//! content kinds (plain text, markdown, log, Rust source code, unknown) and
//! produces a structured summary: universal line/word/character statistics
//! together with kind-specific insights (word-frequency highlights, document
//! structure, log-level histograms, code symbol tables).

pub mod analyzer;
pub mod freq;
pub mod numfmt;
pub mod summary;
pub mod textops;
pub mod unicode;
