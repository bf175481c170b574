//! Constants of the page layout.

pub mod page_constants;
