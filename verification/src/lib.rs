//! A bilingual lexical index between English and Toki Pona.
//!
//! The crate mines weighted cross-language word associations from aligned
//! bilingual corpora, merges translation records from several trust tiers
//! into one deduplicated dictionary, and serves ranked prefix lookups with a
//! heuristic "similar term" expansion.

pub mod analysis;
pub mod compound;
pub mod dictionary;
pub mod index;
pub mod parsing;
pub mod pu;
pub mod search;
pub mod text;
pub mod translation;
