//! An embedded, single-file key-value storage engine.
//!
//! The core is a paged storage layer: a fixed-size binary page format with
//! an in-page sorted index, a buffer pool that keeps a bounded number of
//! pages in memory under a least-recently-used eviction policy, and the
//! page accounting of the backing file. Every function carries a contract
//! that is proved against its body.

pub mod store;
