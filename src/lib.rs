//! A small line-oriented text search library: split text into lines and keep
//! those that contain a query, either exactly or after lowercasing.
pub mod config;
pub mod lines;
pub mod search;
pub mod text;

pub use config::{select_lines, Config};
pub use search::{search, search_case_insensitive};
