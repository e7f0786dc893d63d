//! A small DNS message codec with the two roles built on it: a stub resolver
//! that asks one question, and an authoritative server that answers address
//! queries from a fixed table of names.
//!
//! Every function here works on byte buffers and plain values; sockets and
//! printing are left to the caller.

pub mod client;
pub mod error;
pub mod exchange;
pub mod header;
pub mod name;
pub mod question;
pub mod reader;
pub mod record;
pub mod server;
pub mod wire;
pub mod zone;
