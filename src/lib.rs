//! Row-level and table-level operators that turn raw country indicator
//! tables into normalized tables restricted to a region of interest.

pub mod text;
pub mod filters;
pub mod render;
pub mod laws;


pub use filters::{FilterError, Record, RecordFilter};
