//! An in-memory key-value store speaking a Redis-style wire protocol:
//! a value model with its exact byte encoding, an incremental decoder
//! that never consumes bytes it cannot fully parse, a command
//! dispatcher for PING / ECHO / SET (with optional millisecond expiry)
//! / GET, and a shared store with race-free expiry cancellation.
pub mod buffer;
pub mod codec_laws;
pub mod command;
pub mod connection;
pub mod database;
pub mod decode;
pub mod num;
pub mod resp;
