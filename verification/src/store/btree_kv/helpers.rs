//! Helpers of the page layout.

pub mod byte_ordering;
pub mod byte_ops;
pub mod row_helper;
