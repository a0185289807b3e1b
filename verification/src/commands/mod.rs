//! High-level operations.

pub mod search;

pub use search::{execute_search, SearchResult};
