//! The paged storage layer.

pub mod commons;
pub mod error;
pub mod linked_set;
pub mod cache_policy_engine;
pub mod cache_manager;
pub mod frame;
pub mod buffer_pool_manager;
pub mod helpers;
pub mod constants;
pub mod page_layout;
pub mod page;
pub mod page_model;
pub mod disk_manager;
pub mod pager;
pub mod buffer_pool;
