//! Bounded, conditionally filtered top-K collection over a segmented
//! search index, with keyset ("search after") pagination, and a small
//! append-only record store keyed by numeric ids.

pub mod collector;
pub mod condition;
pub mod database;
pub mod order;
pub mod topk;
