//! Maintains env-style configuration files (`KEY=value` lines with comments
//! and blank lines) as structured documents that can be re-serialized
//! byte-identically, merged with other key/value mappings, and re-rendered
//! with selected values substituted.

pub mod bytes;
pub mod row;
pub mod env_map;
pub mod env_file;
pub mod update;
pub mod laws;
