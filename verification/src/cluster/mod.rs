pub mod config;
pub mod discovery;
pub mod election;
pub mod protocol;
pub mod replication;
pub mod state;
pub mod table;
