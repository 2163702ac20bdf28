//! A line-delimited chat relay: many peers connect to one server, register a
//! name with their first line, and every later line is fanned out to all other
//! peers as `name: text` frames.
//!
//! The library holds the whole protocol core — line framing over a byte
//! stream, the per-connection registration state machine, the broadcast
//! router, and capacity enforcement — as verified code over plain byte
//! values. The socket and readiness plumbing around it hands byte chunks in
//! and takes queued bytes out.

pub mod framing;
pub mod server;
