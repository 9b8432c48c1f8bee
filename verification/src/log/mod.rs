pub mod config;
pub mod error;
pub mod index;
pub mod log;
pub mod names;
pub mod record;
pub mod recovery;
pub mod segment;
pub mod store;
pub mod wire;
