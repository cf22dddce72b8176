//! A minimal network key-value store library: a byte-exact wire-protocol
//! codec, a command layer for GET and SET, an in-memory store with
//! per-key expiration, and the pure decision logic of the connection
//! handler, listener and shutdown coordination.

pub mod client;
pub mod cmd;
pub mod connection;
pub mod frame;
pub mod parse;
pub mod server;
pub mod shutdown;
pub mod store;
