//! The desktop file browser: the requests of its front end and the listings of
//! directories and media it shows.
pub mod commands;
pub mod listing;
pub mod media;
