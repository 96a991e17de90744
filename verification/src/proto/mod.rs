//! Shared wire protocol: framing, crypto, authentication, addressing and the
//! single-stream multiplexer used by the HTTP fallback.

use vstd::prelude::*;

pub mod addr;
pub mod crypto;
pub mod frame;
pub mod mux;
pub mod stream;

verus! {

/// Browser-like default User-Agent (avoids proxy-specific fingerprints).
pub const USER_AGENT: &'static str =
    "Mozilla/5.0 (Windows NT 10.0; Win64; x64) AppleWebKit/537.36 (KHTML, like Gecko) Chrome/131.0.0.0 Safari/537.36";

} // verus!
