//! The screen side: keys, what the panels show, and the application state
//! that the keys and the running scripts drive.
pub mod app;
pub mod keys;
pub mod layout;
pub mod view;
