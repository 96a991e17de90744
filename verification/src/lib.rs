//! An encrypted proxy over WebTransport with an HTTPS fallback: the wire
//! protocol, the session rules of both ends and the configuration grammar.

pub mod client;
pub mod clock;
pub mod config;
pub mod health;
pub mod net;
pub mod proto;
pub mod quic_tune;
pub mod server;
pub mod tables;
pub mod text;
pub mod wire;
