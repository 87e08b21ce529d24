//! An in-memory key/value server core: the RESP wire codec, the command
//! layer, the store with its expiration rules, and the decisions of a
//! connection, each with a machine-checked contract.

pub mod cmd;
pub mod connection;
pub mod db;
pub mod decimal;
pub mod frame;
pub mod persistence;
pub mod server;
pub mod store_laws;
pub mod wire_laws;
