//! Client side: transport selection, the connection pool and the local proxy
//! protocols.

pub mod ech;
pub mod fallback;
pub mod handshake;
pub mod http_proxy;
pub mod masquerade;
pub mod outbound;
pub mod socks5;
pub mod tls;
pub mod wt;
