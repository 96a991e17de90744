//! Client TLS identity: what is trusted, and certificate pinning.
//!
//! A pinned fingerprint replaces CA verification: the server's identity is
//! exactly the pinned certificate.

use vstd::prelude::*;

use crate::proto::crypto::{same_mac, sha256, sha32};

verus! {

/// What the client takes for the server's identity.
#[derive(Debug, Clone, Copy, PartialEq, Eq)]
pub enum Trust {
    /// The one certificate with this fingerprint.
    Pinned([u8; 32]),
    /// Anything (development only).
    Anyone,
    /// What the platform's certificate authorities vouch for.
    NativeRoots,
}

/// A pin comes before everything else.
pub fn trust(skip_verify: bool, pin: Option<[u8; 32]>) -> (r: Trust)
    ensures
        r == match pin {
            Some(fp) => Trust::Pinned(fp),
            None => if skip_verify {
                Trust::Anyone
            } else {
                Trust::NativeRoots
            },
        },
{
    match pin {
        Some(fp) => Trust::Pinned(fp),
        None => if skip_verify {
            Trust::Anyone
        } else {
            Trust::NativeRoots
        },
    }
}

/// Accepts exactly one certificate: the SHA-256 of its DER encoding must equal
/// the pinned fingerprint.
#[derive(Debug, Clone, Copy)]
pub struct PinVerifier {
    fingerprint: [u8; 32],
}

impl PinVerifier {
    pub closed spec fn pinned(self) -> Seq<u8> {
        self.fingerprint@
    }

    pub fn new(fingerprint: [u8; 32]) -> (r: Self)
        ensures
            r.pinned() == fingerprint@,
    {
        PinVerifier { fingerprint }
    }

    /// Whether the certificate is the pinned one. The comparison takes the
    /// same time wherever the two differ.
    pub fn verify_server_cert(&self, end_entity: &[u8]) -> (r: bool)
        ensures
            r == (sha32(end_entity@) == self.pinned()),
    {
        let digest = sha256(end_entity);
        same_mac(&digest, &self.fingerprint)
    }
}

} // verus!
