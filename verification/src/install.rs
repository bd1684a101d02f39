//! The domain: install targets, how they are found in a folder, and how a
//! tracked target follows the run of its update script.
pub mod discover;
pub mod store;
pub mod target;
pub mod tracking;
