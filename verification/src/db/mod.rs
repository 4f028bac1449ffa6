//! The path-keyed store of the command-line tool.
pub mod database;
pub mod laws;
pub mod types;

pub use database::{Database, DbError};
pub use types::{FileWithTags, FilesOrderBy};
