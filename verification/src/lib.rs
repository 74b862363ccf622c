//! Verified core of a set of small file-import and utility programs.

pub mod fruits;
pub mod text;
pub mod paths;
pub mod file_scanner;
pub mod error;
pub mod json;
pub mod imports;
pub mod schema;
pub mod encoding;
pub mod text_io;
pub mod csv_io;
pub mod fetch_param;
pub mod fetch_exec;
pub mod pattern;
pub mod digest;
pub mod config;
pub mod processing;
