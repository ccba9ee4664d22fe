//! A read-only memcached front end for immutable key/value stores: the text
//! and binary wire protocols, the per-connection request handlers and the
//! protocol dispatcher, with their contracts.
pub mod binary_protocol;
pub mod binary_server;
pub mod config;
pub mod decimal;
pub mod error;
pub mod kvstore;
pub mod opcodes;
pub mod response_status;
pub mod server;
pub mod text_protocol;
pub mod text_server;
