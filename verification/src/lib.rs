//! The model behind a terminal disk-usage browser: directory entries, the
//! scanner that holds them and orders them by size, and the application state
//! that the user moves through.

pub mod entry;
pub mod listing;
pub mod scanner;
pub mod decimal;
pub mod paths;
pub mod sizes;
pub mod events;
pub mod app;
