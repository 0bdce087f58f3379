//! Line-oriented text search: the lines of a text that contain a query,
//! compared exactly or with case folded on both sides, and the
//! configuration of one search run.

pub mod config;
pub mod encoding;
pub mod fold;
pub mod lines;
pub mod pattern;
pub mod search;
pub mod subsequence;

pub use config::{run, Config, ConfigError, IGNORE_CASE_VARIABLE};
pub use lines::lines;
pub use pattern::contains;
pub use search::{search, search_case_insensitive};
