//! The authentication that opens a channel, for both transports.

use std::sync::Arc;

use bytes::Bytes;
use vstd::prelude::*;
use vstd::utf8::encode_utf8;

use super::outbound::ClientError;
use crate::clock::{is_reading, Clock};
use crate::proto::crypto::{
    auth_encoding, auth_mac, auth_mac_spec, derive_session_key, fresh, now_unix, random_salt,
    session_key_spec, AuthFields, AuthPayload, CounterGen, FrameCipher, AUTH_WINDOW, STREAM_BASE,
};
use crate::proto::frame::{
    frozen, is_frame, random_padding, Frame, FrameEncoder, FrameError, FrameType, MAX_PADDING,
    MAX_PLAINTEXT, PROTO_VERSION,
};
use crate::proto::mux::OutFrame;
use crate::server::state::ServerState;
use crate::server::wt::{
    is_established, law_limit_echo_is_understood, law_sealed_auth_is_recognised, raw_auth_frame,
    Established,
};
use crate::server::{auth_try, AuthTry};
use crate::text;
use crate::wire;

verus! {

/// What a client sends first, and what it goes on with.
pub struct Handshake {
    pub session_key: [u8; 32],
    /// The AUTH frame, sealed with the user's own key.
    pub auth_wire: Bytes,
    /// Encoder for everything that follows, under the session key.
    pub encoder: FrameEncoder,
}

/// The AUTH payload of a user who takes frames up to `max_plaintext`.
pub open spec fn auth_fields(
    key: Seq<u8>,
    uid: Seq<char>,
    salt: Seq<u8>,
    nonce: Seq<u8>,
    ts: u64,
    max_plaintext: u32,
) -> AuthFields {
    AuthFields {
        proto_version: PROTO_VERSION,
        max_plaintext,
        salt,
        ts,
        nonce,
        uid,
        mac: auth_mac_spec(key, uid, ts, nonce),
    }
}

/// `h` opens a channel for the user with this key, with these random parts at
/// this time. Where the AUTH frame shares the stream with what follows, its
/// counter is used up.
pub open spec fn is_handshake(
    h: Handshake,
    key: Seq<u8>,
    uid: Seq<char>,
    salt: Seq<u8>,
    nonce: Seq<u8>,
    ts: u64,
    padding: Seq<u8>,
    one_stream: bool,
    max_plaintext: u32,
) -> bool {
    &&& h.session_key@ == session_key_spec(key, salt)
    &&& auth_mac_spec(key, uid, ts, nonce).len() == 32
    &&& is_frame(
        key,
        FrameType::Auth,
        0,
        0,
        STREAM_BASE,
        auth_encoding(auth_fields(key, uid, salt, nonce, ts, max_plaintext)) + padding,
        frozen(h.auth_wire),
    )
    &&& h.encoder.wf()
    &&& h.encoder.key() == h.session_key@
    &&& h.encoder.limit() == MAX_PLAINTEXT
    &&& h.encoder.counters().base() == STREAM_BASE
    &&& h.encoder.counters().issued() == if one_stream {
        1nat
    } else {
        0nat
    }
}

/// Open a channel with the given random parts at the given time. The largest
/// frame payload that this end takes is advertised to the server. An id that
/// does not fit into a frame is refused.
pub fn begin_at(
    key: &[u8; 32],
    uid: &str,
    salt: [u8; 16],
    nonce: [u8; 16],
    ts: u64,
    padding: &[u8],
    one_stream: bool,
    max_plaintext: u32,
) -> (r: Result<Handshake, FrameError>)
    ensures
        ({
            let n = 78 + encode_utf8(uid@).len() + padding@.len();
            match r {
                Ok(h) => n <= MAX_PLAINTEXT && is_handshake(
                    h,
                    key@,
                    uid@,
                    salt@,
                    nonce@,
                    ts,
                    padding@,
                    one_stream,
                    max_plaintext,
                ),
                Err(e) => n > MAX_PLAINTEXT && e == FrameError::TooLarge,
            }
        }),
{
    let mac = auth_mac(key, uid, ts, &nonce);
    let auth = AuthPayload {
        proto_version: PROTO_VERSION,
        max_plaintext,
        salt,
        ts,
        nonce,
        uid: text::own(uid),
        mac,
    };
    proof {
        assert(auth.fields() =~= auth_fields(key@, uid@, salt@, nonce@, ts, max_plaintext));
        wire::lemma_le_len(ts as nat, 8);
        wire::lemma_le_len(max_plaintext as nat, 4);
    }
    let session_key = derive_session_key(key, &salt);
    let cipher = Arc::new(FrameCipher::new(&session_key));
    let mut payload = auth.encode();
    let ghost plain = payload@;
    wire::push_bytes(&mut payload, padding);
    assert(payload@ =~= plain + padding@);
    let mut enc = FrameEncoder::new(Arc::new(FrameCipher::new(key)), CounterGen::stream());
    match enc.encode(FrameType::Auth, 0, 0, payload.as_slice()) {
        Ok(auth_wire) => {
            if one_stream {
                enc.set_cipher(cipher);
                Ok(Handshake { session_key, auth_wire, encoder: enc })
            } else {
                let encoder = FrameEncoder::new(cipher, CounterGen::stream());
                Ok(Handshake { session_key, auth_wire, encoder })
            }
        },
        Err(e) => Err(e),
    }
}

/// Open a channel now, with random parts of its own.
pub fn begin(
    key: &[u8; 32],
    uid: &str,
    one_stream: bool,
    max_plaintext: u32,
    clock: &Clock,
) -> (r: Result<Handshake, FrameError>)
    ensures
        match r {
            Ok(h) => exists|salt: Seq<u8>, nonce: Seq<u8>, ts: u64, padding: Seq<u8>|
                salt.len() == 16 && nonce.len() == 16 && padding.len() <= MAX_PADDING && is_reading(
                    *clock,
                    ts,
                ) && #[trigger] is_handshake(
                    h,
                    key@,
                    uid@,
                    salt,
                    nonce,
                    ts,
                    padding,
                    one_stream,
                    max_plaintext,
                ),
            Err(e) => e == FrameError::TooLarge && 78 + encode_utf8(uid@).len()
                + MAX_PADDING > MAX_PLAINTEXT,
        },
{
    let salt = random_salt();
    let nonce = random_salt();
    let ts = now_unix(clock);
    let padding = random_padding();
    match begin_at(key, uid, salt, nonce, ts, padding.as_slice(), one_stream, max_plaintext) {
        Ok(h) => {
            assert(is_handshake(
                h,
                key@,
                uid@,
                salt@,
                nonce@,
                ts,
                padding@,
                one_stream,
                max_plaintext,
            ));
            Ok(h)
        },
        Err(e) => Err(e),
    }
}

/// The server recognises the AUTH frame of a client that holds the user's key,
/// as long as the times of the two agree within the window, and derives the
/// session key that the client goes on with.
pub proof fn law_handshake_is_recognised(
    h: Handshake,
    key: Seq<u8>,
    uid: Seq<char>,
    salt: Seq<u8>,
    nonce: Seq<u8>,
    ts: u64,
    padding: Seq<u8>,
    one_stream: bool,
    max_plaintext: u32,
    now: u64,
)
    requires
        is_handshake(h, key, uid, salt, nonce, ts, padding, one_stream, max_plaintext),
        salt.len() == 16,
        nonce.len() == 16,
        encode_utf8(uid).len() <= 255,
        fresh(now, ts, AUTH_WINDOW),
    ensures
        match auth_try(uid, key, raw_auth_frame(STREAM_BASE, frozen(h.auth_wire)), now) {
            AuthTry::Theirs(p) => p == auth_fields(key, uid, salt, nonce, ts, max_plaintext)
                && h.encoder.key() == session_key_spec(key, p.salt),
            _ => false,
        },
{
    law_sealed_auth_is_recognised(
        auth_fields(key, uid, salt, nonce, ts, max_plaintext),
        padding,
        uid,
        key,
        STREAM_BASE,
        frozen(h.auth_wire),
        now,
    );
}

/// The frame limit that the server's answer to the AUTH frame brings.
pub open spec fn reply_limit(payload: Seq<u8>) -> nat {
    if payload.len() >= 4 {
        wire::le_value(payload.take(4))
    } else {
        MAX_PLAINTEXT as nat
    }
}

/// The two ends agree on the largest frame: the smaller of what the client
/// advertised in its AUTH frame and what the server takes, which is also what
/// the client reads from the server's answer.
pub proof fn law_smaller_limit_is_used(
    m: ServerState,
    key: Seq<u8>,
    uid: Seq<char>,
    salt: Seq<u8>,
    nonce: Seq<u8>,
    ts: u64,
    max_plaintext: u32,
    now: i64,
    e: Established,
    b: ServerState,
    answer: OutFrame,
)
    requires
        is_established(
            m,
            uid,
            key,
            auth_fields(key, uid, salt, nonce, ts, max_plaintext),
            now,
            e,
            b,
        ),
        answer.is(FrameType::AuthOk, 0, 0, wire::le(e.limit as nat, 4)),
    ensures
        e.limit <= max_plaintext,
        e.limit <= m.max_plaintext,
        e.limit == max_plaintext || e.limit == m.max_plaintext,
        reply_limit(answer.payload@) == e.limit,
{
    law_limit_echo_is_understood(e.limit as nat);
    assert(answer.payload@.take(4) =~= answer.payload@);
}

/// Read the server's answer: the frame limit of the session, unless the answer
/// is anything but an AuthOk.
pub fn auth_reply(reply: Option<&Frame>) -> (r: Result<u32, ClientError>)
    ensures
        match r {
            Ok(limit) => reply matches Some(f) && f.ftype == FrameType::AuthOk && limit
                == reply_limit(f.payload@),
            Err(e) => !(reply matches Some(f) && f.ftype == FrameType::AuthOk) && (
            e matches ClientError::Transport(m) && m@ == "server rejected authentication"@),
        },
{
    match reply {
        Some(f) => {
            if f.ftype != FrameType::AuthOk {
                return Err(ClientError::Transport(text::own("server rejected authentication")));
            }
            let p = f.payload.as_slice();
            if p.len() >= 4 {
                let first = wire::slice(p, 0, 4);
                proof {
                    assert(first@ =~= p@.take(4));
                    wire::lemma_le_value_bound(first@);
                    wire::lemma_pow256();
                }
                Ok(wire::read_le(first) as u32)
            } else {
                Ok(MAX_PLAINTEXT as u32)
            }
        },
        None => Err(ClientError::Transport(text::own("server rejected authentication"))),
    }
}

/// The limit that a reply announces is its first four bytes, the low one first;
/// a shorter reply announces 16 KiB.
pub proof fn law_limit_in_a_reply(a: u8, b: u8, c: u8, d: u8, rest: Seq<u8>, short: Seq<u8>)
    ensures
        reply_limit(seq![a, b, c, d] + rest) == a + b * 0x100 + c * 0x1_0000 + d * 0x100_0000,
        short.len() < 4 ==> reply_limit(short) == 16 * 1024,
{
    let p = seq![a, b, c, d] + rest;
    assert(p.take(4) =~= seq![a, b, c, d]);
    wire::law_short_numbers(a, b, c, d);
}

/// What a client says of itself: version 1, its limit and its name, and a code
/// over name, time and nonce that its key makes.
pub proof fn law_what_a_login_says(
    key: Seq<u8>,
    uid: Seq<char>,
    salt: Seq<u8>,
    nonce: Seq<u8>,
    ts: u64,
    max_plaintext: u32,
)
    ensures
        ({
            let f = auth_fields(key, uid, salt, nonce, ts, max_plaintext);
            &&& f.proto_version == 1
            &&& f.uid == uid && f.salt == salt && f.nonce == nonce && f.ts == ts
            &&& f.max_plaintext == max_plaintext
            &&& f.mac == crate::proto::crypto::hmac32(
                key,
                crate::proto::crypto::mac_message(uid, ts, nonce),
            )
        }),
{
}

} // verus!
