//! Helpers for the bytes of one row.

pub mod btree_row;
