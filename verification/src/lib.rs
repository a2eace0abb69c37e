//! QUIC transport for SSH: the decisions of the session layer.
//!
//! A session carries the SSH byte stream over QUIC and outlives any single
//! connection. This crate holds what the two ends decide and compute; sockets,
//! timers and processes stay with the program that drives it.

pub mod cert;
pub mod client;
pub mod error;
pub mod hexdigits;
pub mod link;
pub mod payload;
pub mod proto;
pub mod server;
pub mod session;
pub mod stream;
pub mod text;
pub mod tls;
pub mod wire;
