//! The tagging system: the store of files and tags, and the manager that keeps
//! it in step with a directory.
pub mod db;
pub mod kinds;
pub mod manager;
pub mod roothash;
pub mod sync;
pub mod sync_laws;
pub mod timecmp;

pub use kinds::{get_entry_type, EntryType};
