//! Ranked full-text retrieval over the path listings of archives.
//!
//! A document is an archive named by a stable identifier; its terms are the
//! path components of the files it holds. The crate builds the postings of a
//! collection, keeps the exact integer statistics from which the BM25 weights
//! are derived, and lays out, ranks and selects the results of a query.

pub mod builder;
pub mod group;
pub mod index;
pub mod parts;
pub mod rank;
pub mod scorer;
pub mod serving;
pub mod stats;
pub mod tokenizer;
