//! A single-node in-memory key-value server core: the wire codec, the
//! per-connection framing rules and the single-owner data engine.

pub mod engine;
pub mod parser;
pub mod protocol;
pub mod round_trip;
pub mod session;
pub mod store;
pub mod table;
