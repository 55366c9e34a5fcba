//! `a3s_vec`: the verified core of an in-process vector and full-text search
//! library.
//!
//! The modules hold the integer, byte and string logic of the index layer:
//! the little-endian sector codec, direct-address ordinal maps, persistent
//! full-text posting and length tables, character-trigram pruning, wildcard
//! matching, compact bit-packed codes, and the query payload controls.

pub mod config;
pub mod error;
pub mod index;
pub mod iterator;
pub mod multi_query;
pub mod query;
pub mod text;
pub mod types;

pub use config::version;
pub use error::{Error, ErrorCode, Result};
