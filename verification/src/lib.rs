//! A RESP (REdis Serialization Protocol) codec and an in-memory key/value
//! store with list values, together with the request handlers that connect
//! the two.

pub mod commands;
pub mod resp;
pub mod server;
pub mod store;
