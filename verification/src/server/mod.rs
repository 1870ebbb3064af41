//! Data shapes and error decisions of the web interface.

pub mod api;
pub mod handlers;
pub mod cache;
