//! Extraction of named subsequences from an indexed sequence collection.
//!
//! The collection is held in memory together with its index. Regions are
//! parsed from text, looked up in the index, optionally reverse-complemented,
//! accumulated under ordered keys and finally rendered, either one record per
//! key or merged into a single padded contig.

pub mod bytes;
pub mod cli;
pub mod complement;
pub mod error;
pub mod extraction;
pub mod index;
pub mod layout;
pub mod record;
pub mod region;
pub mod scan;
pub mod sequences;
pub mod store;
