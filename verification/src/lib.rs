//! Verified core of a redundant-file analysis pipeline.
//!
//! The library groups files by normalized name, confirms exact duplicates by
//! content hash, and scores near-duplicate pairs with a shingle pre-filter and
//! a local-alignment comparison.  All logic works on plain values (byte
//! strings, integers); enumeration and reading of real files is left to the
//! surrounding application.

pub mod aging;
pub mod archives;
pub mod cli;
pub mod duplicates;
pub mod grouping;
pub mod hashing;
pub mod network;
pub mod platform;
pub mod retry;
pub mod similarity;
pub mod sums;
pub mod text;
