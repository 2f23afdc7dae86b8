//! A small in-memory key-value server engine: wire codec, keyspace store with
//! lazy expiration, command dispatcher and snapshot text format.
pub mod types;
pub mod decimal;
pub mod text;
pub mod parser;
pub mod db;
pub mod command;
pub mod snapshot;
pub mod network;
pub mod cli;
pub mod laws;
