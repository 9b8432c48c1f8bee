//! A replicated write-ahead log: a segmented, offset-addressed record store
//! and the leader-based protocol that replicates it across a small cluster.
//!
//! The storage engine works on in-memory images of its files. Reading the
//! images from disk when a log is opened and writing them back after an
//! append is the caller's job; the engine itself performs no I/O. In the
//! same way the protocol decides and the caller sends: each handler takes a
//! message and the time of its arrival and returns the reply.

pub mod cluster;
pub mod log;
pub mod server;
