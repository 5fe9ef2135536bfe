//! A namespaced key-value bucket with one secondary index, kept consistent
//! with the primary data across every insert, update and delete.
//!
//! Keys are partitioned with an unambiguous length-prefixed encoding, so the
//! primary space and the index space can never collide, and prefix scans are
//! bounded with a correct byte-string successor.

pub mod bytes;
pub mod store;
pub mod record;
pub mod bucket;
pub mod laws;
pub mod deps;
