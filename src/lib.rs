pub mod command;
pub mod error;
pub mod names;
pub mod store;
