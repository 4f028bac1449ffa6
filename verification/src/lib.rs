//! A file tagging library: a relational store of files, tags and the links
//! between them, the synchronisation of that store with a directory snapshot,
//! and the queries and listings built on top of it.
pub mod cli;
pub mod db;
pub mod desktop;
pub mod hashing;
pub mod paths;
pub mod ranking;
pub mod tager_manager;
pub mod text;
pub mod times;
pub mod tm;

pub use times::{i64_to_system_time, system_time_to_i64, TimePoint};
pub use tm::timecmp::compare_system_times;
