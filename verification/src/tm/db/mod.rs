pub mod database;
pub mod error;
pub mod laws;
pub mod state;
pub mod types;

pub use database::Database;
pub use error::DbError;
pub use types::{DBFile, DBTag};
