//! Frame protocol.
//!
//! Wire layout (20-byte header, little-endian):
//!
//! ```text
//! 0        1        2        4        8        12       20
//! +--------+--------+--------+--------+--------+--------+
//! |  ver   |  type  | flags  |  sid   | ct_len |counter |
//! +--------+--------+--------+--------+--------+--------+
//! |                  ciphertext || tag                  |
//! +-----------------------------------------------------+
//! ```
//!
//! The associated data is header[0..12]. The payload is encrypted with the
//! session key (the Auth frame is sealed with the user's static key instead).

use std::sync::Arc;

use bytes::{Bytes, BytesMut};
use vstd::prelude::*;
use vstd::utf8::{decode_utf8, encode_utf8, valid_utf8};

pub use super::crypto::{CounterGen, FrameCipher, ReplayWindow, TAG_LEN};

use super::crypto::{
    law_window_never_reopens, open_spec, random_bytes, seal_spec, window_step, CipherError,
};
use super::mux::random_u32;
use crate::wire;

verus! {

pub const PROTO_VERSION: u8 = 1;

pub const HEADER_LEN: usize = 20;

pub const MAX_PLAINTEXT: usize = 16384;

pub const MAX_CIPHERTEXT: usize = 16400;

/// The largest payload whose sealed length still fits the header's field.
pub const LIMIT_CEILING: usize = 0xffff_ffef;

pub const FLAG_FIN: u16 = 0x0001;

pub const FLAG_RST: u16 = 0x0002;

// ---------------------------------------------------------------------------
// Byte buffers of the `bytes` crate
// ---------------------------------------------------------------------------
#[verifier::external_type_specification]
#[verifier::external_body]
pub struct ExBytesMut(BytesMut);

#[verifier::external_type_specification]
#[verifier::external_body]
pub struct ExBytes(Bytes);

/// The bytes that a growable buffer holds.
pub uninterp spec fn buffered(b: BytesMut) -> Seq<u8>;

/// The bytes that a frozen buffer holds.
pub uninterp spec fn frozen(b: Bytes) -> Seq<u8>;

/// `BytesMut::new`: an empty buffer.
#[verifier::external_body]
pub(crate) fn buf_new() -> (r: BytesMut)
    ensures
        buffered(r) == Seq::<u8>::empty(),
{
    BytesMut::new()
}

/// `BytesMut::len`: the number of bytes held.
#[verifier::external_body]
pub(crate) fn buf_len(b: &BytesMut) -> (r: usize)
    ensures
        r == buffered(*b).len(),
{
    b.len()
}

/// `BytesMut::extend_from_slice`: the bytes are appended.
#[verifier::external_body]
pub(crate) fn buf_append(b: &mut BytesMut, data: &[u8])
    ensures
        buffered(*final(b)) == buffered(*old(b)) + data@,
{
    b.extend_from_slice(data)
}

/// `BytesMut::clear`: nothing is held any more.
#[verifier::external_body]
fn buf_clear(b: &mut BytesMut)
    ensures
        buffered(*final(b)) == Seq::<u8>::empty(),
{
    b.clear()
}

/// `BytesMut::split_to`: the first `at` bytes move into a buffer of their own.
#[verifier::external_body]
pub(crate) fn buf_split_to(b: &mut BytesMut, at: usize) -> (r: BytesMut)
    requires
        at <= buffered(*old(b)).len(),
    ensures
        buffered(r) == buffered(*old(b)).take(at as int),
        buffered(*final(b)) == buffered(*old(b)).skip(at as int),
{
    b.split_to(at)
}

/// `BytesMut::deref`: the bytes held, as a slice.
#[verifier::external_body]
pub(crate) fn buf_slice(b: &BytesMut) -> (r: &[u8])
    ensures
        r@ == buffered(*b),
{
    b
}

/// `BytesMut::freeze`: the same bytes, no longer growable.
#[verifier::external_body]
fn buf_freeze(b: BytesMut) -> (r: Bytes)
    ensures
        frozen(r) == buffered(b),
{
    b.freeze()
}

// ---------------------------------------------------------------------------
// Types
// ---------------------------------------------------------------------------
#[derive(Clone, Copy, Debug, PartialEq, Eq, Hash, Structural)]
pub enum FrameType {
    Auth,
    AuthOk,
    Open,
    OpenOk,
    OpenErr,
    Data,
    Close,
    Ping,
    Pong,
    UdpAssociate,
    UdpOk,
    UdpData,
    Error,
}

/// The wire code of a frame type.
pub open spec fn type_code(t: FrameType) -> u8 {
    match t {
        FrameType::Auth => 1,
        FrameType::AuthOk => 2,
        FrameType::Open => 3,
        FrameType::OpenOk => 4,
        FrameType::OpenErr => 5,
        FrameType::Data => 6,
        FrameType::Close => 7,
        FrameType::Ping => 8,
        FrameType::Pong => 9,
        FrameType::UdpAssociate => 10,
        FrameType::UdpOk => 11,
        FrameType::UdpData => 12,
        FrameType::Error => 13,
    }
}

impl FrameType {
    /// The type with wire code `v`: there is one for 1 to 13.
    pub fn from_u8(v: u8) -> (r: Option<Self>)
        ensures
            r matches Some(t) ==> type_code(t) == v,
            r is Some <==> 1 <= v <= 13,
    {
        match v {
            1 => Some(FrameType::Auth),
            2 => Some(FrameType::AuthOk),
            3 => Some(FrameType::Open),
            4 => Some(FrameType::OpenOk),
            5 => Some(FrameType::OpenErr),
            6 => Some(FrameType::Data),
            7 => Some(FrameType::Close),
            8 => Some(FrameType::Ping),
            9 => Some(FrameType::Pong),
            10 => Some(FrameType::UdpAssociate),
            11 => Some(FrameType::UdpOk),
            12 => Some(FrameType::UdpData),
            13 => Some(FrameType::Error),
            _ => None,
        }
    }

    pub fn to_u8(self) -> (r: u8)
        ensures
            r == type_code(self),
    {
        match self {
            FrameType::Auth => 1,
            FrameType::AuthOk => 2,
            FrameType::Open => 3,
            FrameType::OpenOk => 4,
            FrameType::OpenErr => 5,
            FrameType::Data => 6,
            FrameType::Close => 7,
            FrameType::Ping => 8,
            FrameType::Pong => 9,
            FrameType::UdpAssociate => 10,
            FrameType::UdpOk => 11,
            FrameType::UdpData => 12,
            FrameType::Error => 13,
        }
    }
}

#[derive(Clone, Copy, Debug, PartialEq, Eq, Structural)]
pub enum FrameError {
    /// The header names another protocol version.
    BadVersion(u8),
    /// The header names no frame type.
    BadType(u8),
    /// The announced length is shorter than a tag or over the limit.
    BadLength(usize),
    /// The payload to encode is over the limit.
    TooLarge,
    /// The counter was seen before, or is too old to tell.
    Replayed,
    Cipher(CipherError),
    /// The stream ended in the middle of a frame.
    TruncatedAtEof,
}

#[derive(Clone, Debug)]
pub struct Frame {
    pub ftype: FrameType,
    pub flags: u16,
    pub sid: u32,
    pub counter: u64,
    /// AEAD additional data (header[0..12]) needed for out-of-band decryption
    /// (e.g. the initial Auth frame on the server).
    pub aad: [u8; 12],
    pub payload: Vec<u8>,
}

/// The content of a frame.
#[verifier::ext_equal]
pub ghost struct FrameFields {
    pub ftype: FrameType,
    pub flags: u16,
    pub sid: u32,
    pub counter: u64,
    pub aad: Seq<u8>,
    pub payload: Seq<u8>,
}

impl Frame {
    pub open spec fn fields(self) -> FrameFields {
        FrameFields {
            ftype: self.ftype,
            flags: self.flags,
            sid: self.sid,
            counter: self.counter,
            aad: self.aad@,
            payload: self.payload@,
        }
    }
}

pub struct HeaderInfo {
    pub ftype: FrameType,
    pub flags: u16,
    pub sid: u32,
    pub ct_len: usize,
    pub counter: u64,
    /// first 12 bytes of the header (used as AEAD additional data)
    pub aad: [u8; 12],
}

/// The content of a header.
#[verifier::ext_equal]
pub ghost struct HeaderFields {
    pub ftype: FrameType,
    pub flags: u16,
    pub sid: u32,
    pub ct_len: nat,
    pub counter: u64,
    pub aad: Seq<u8>,
}

impl HeaderInfo {
    pub open spec fn fields(self) -> HeaderFields {
        HeaderFields {
            ftype: self.ftype,
            flags: self.flags,
            sid: self.sid,
            ct_len: self.ct_len as nat,
            counter: self.counter,
            aad: self.aad@,
        }
    }
}

// ---------------------------------------------------------------------------
// Header
// ---------------------------------------------------------------------------
pub open spec fn header_spec(
    ftype: FrameType,
    flags: u16,
    sid: u32,
    ct_len: nat,
    counter: u64,
) -> Seq<u8> {
    seq![PROTO_VERSION, type_code(ftype)] + wire::le(flags as nat, 2) + wire::le(sid as nat, 4)
        + wire::le(ct_len, 4) + wire::le(counter as nat, 8)
}

/// What a header says.
pub open spec fn header_parse(h: Seq<u8>) -> Result<HeaderFields, FrameError> {
    if h[0] != PROTO_VERSION {
        Err(FrameError::BadVersion(h[0]))
    } else if !(1 <= h[1] <= 13) {
        Err(FrameError::BadType(h[1]))
    } else {
        Ok(
            HeaderFields {
                ftype: choose|t: FrameType| type_code(t) == h[1],
                flags: wire::le_value(h.subrange(2, 4)) as u16,
                sid: wire::le_value(h.subrange(4, 8)) as u32,
                ct_len: wire::le_value(h.subrange(8, 12)),
                counter: wire::le_value(h.subrange(12, 20)) as u64,
                aad: h.subrange(0, 12),
            },
        )
    }
}

/// Two types with one code are the same type.
pub proof fn lemma_type_code(t: FrameType)
    ensures
        1 <= type_code(t) <= 13,
        (choose|x: FrameType| type_code(x) == type_code(t)) == t,
{
    let x = choose|x: FrameType| type_code(x) == type_code(t);
    assert(type_code(x) == type_code(t));
}

/// A header reads back as what it was built from (a length of 2^32 or more
/// does not fit its field).
pub proof fn law_header_roundtrip(
    ftype: FrameType,
    flags: u16,
    sid: u32,
    ct_len: nat,
    counter: u64,
)
    requires
        ct_len < 0x1_0000_0000,
    ensures
        header_spec(ftype, flags, sid, ct_len, counter).len() == HEADER_LEN,
        header_parse(header_spec(ftype, flags, sid, ct_len, counter)) == Ok::<
            HeaderFields,
            FrameError,
        >(
            HeaderFields {
                ftype,
                flags,
                sid,
                ct_len,
                counter,
                aad: header_spec(ftype, flags, sid, ct_len, counter).take(12),
            },
        ),
{
    let h = header_spec(ftype, flags, sid, ct_len, counter);
    wire::lemma_pow256();
    wire::lemma_le_roundtrip(flags as nat, 2);
    wire::lemma_le_roundtrip(sid as nat, 4);
    wire::lemma_le_roundtrip(ct_len, 4);
    wire::lemma_le_roundtrip(counter as nat, 8);
    lemma_type_code(ftype);
    assert(h.subrange(2, 4) =~= wire::le(flags as nat, 2));
    assert(h.subrange(4, 8) =~= wire::le(sid as nat, 4));
    assert(h.subrange(8, 12) =~= wire::le(ct_len, 4));
    assert(h.subrange(12, 20) =~= wire::le(counter as nat, 8));
    assert(h.subrange(0, 12) =~= h.take(12));
}

/// Twenty bytes as an array.
fn take20(b: &[u8]) -> (r: [u8; 20])
    requires
        b@.len() == 20,
    ensures
        r@ == b@,
{
    let mut r = [0u8; 20];
    let mut i: usize = 0;
    while i < 20
        invariant
            i <= 20,
            b@.len() == 20,
            forall|j: int| 0 <= j < i ==> r@[j] == b@[j],
        decreases 20 - i,
    {
        r[i] = b[i];
        i += 1;
    }
    assert(r@ =~= b@);
    r
}

/// Twelve bytes as an array.
fn take12(b: &[u8]) -> (r: [u8; 12])
    requires
        b@.len() == 12,
    ensures
        r@ == b@,
{
    let r = [b[0], b[1], b[2], b[3], b[4], b[5], b[6], b[7], b[8], b[9], b[10], b[11]];
    assert(r@ =~= b@);
    r
}

pub fn build_header(ftype: FrameType, flags: u16, sid: u32, ct_len: usize, counter: u64) -> (r:
    [u8; 20])
    ensures
        r@ == header_spec(ftype, flags, sid, ct_len as nat, counter),
{
    let mut v: Vec<u8> = Vec::new();
    v.push(PROTO_VERSION);
    v.push(ftype.to_u8());
    wire::push_le(&mut v, flags as u64, 2);
    wire::push_le(&mut v, sid as u64, 4);
    wire::push_le(&mut v, ct_len as u64, 4);
    wire::push_le(&mut v, counter, 8);
    proof {
        wire::lemma_le_len(flags as nat, 2);
        wire::lemma_le_len(sid as nat, 4);
        wire::lemma_le_len(ct_len as nat, 4);
        wire::lemma_le_len(counter as nat, 8);
        assert(v@ =~= header_spec(ftype, flags, sid, ct_len as nat, counter));
    }
    take20(v.as_slice())
}

pub fn parse_header(h: &[u8; 20]) -> (r: Result<HeaderInfo, FrameError>)
    ensures
        match r {
            Ok(i) => header_parse(h@) == Ok::<HeaderFields, FrameError>(i.fields()) && i.ct_len
                < 0x1_0000_0000,
            Err(e) => header_parse(h@) == Err::<HeaderFields, FrameError>(e),
        },
{
    let b = h.as_slice();
    if b[0] != PROTO_VERSION {
        return Err(FrameError::BadVersion(b[0]));
    }
    let ftype = match FrameType::from_u8(b[1]) {
        Some(t) => t,
        None => {
            return Err(FrameError::BadType(b[1]));
        },
    };
    proof {
        lemma_type_code(ftype);
        wire::lemma_pow256();
        wire::lemma_le_value_bound(h@.subrange(2, 4));
        wire::lemma_le_value_bound(h@.subrange(4, 8));
        wire::lemma_le_value_bound(h@.subrange(8, 12));
    }
    let i = HeaderInfo {
        ftype,
        flags: wire::read_le(wire::slice(b, 2, 4)) as u16,
        sid: wire::read_le(wire::slice(b, 4, 8)) as u32,
        ct_len: wire::read_le(wire::slice(b, 8, 12)) as usize,
        counter: wire::read_le(wire::slice(b, 12, 20)),
        aad: take12(wire::slice(b, 0, 12)),
    };
    assert(header_parse(h@)->Ok_0 =~= i.fields());
    Ok(i)
}

// ---------------------------------------------------------------------------
// Frame size limit
// ---------------------------------------------------------------------------
/// The largest payload of one frame, as the two ends agreed on it.
#[derive(Clone, Copy, Debug, PartialEq, Eq, Structural)]
pub struct FrameLimit {
    max: usize,
}

/// `max`, held to what the header's length field can express.
pub open spec fn limit_spec(max: nat) -> nat {
    if max > LIMIT_CEILING {
        LIMIT_CEILING as nat
    } else {
        max
    }
}

impl FrameLimit {
    pub closed spec fn max(self) -> nat {
        self.max as nat
    }

    pub closed spec fn wf(self) -> bool {
        self.max <= LIMIT_CEILING
    }

    pub fn new(max: usize) -> (r: Self)
        ensures
            r.wf(),
            r.max() == limit_spec(max as nat),
    {
        if max > LIMIT_CEILING {
            FrameLimit { max: LIMIT_CEILING }
        } else {
            FrameLimit { max }
        }
    }

    pub fn get(&self) -> (r: usize)
        ensures
            r == self.max(),
    {
        self.max
    }

    pub fn set(&mut self, max: usize)
        ensures
            final(self).wf(),
            final(self).max() == limit_spec(max as nat),
    {
        *self = FrameLimit::new(max);
    }
}

/// The session uses the smaller of both advertised limits.
pub fn negotiate(client: u32, server: u32) -> (r: usize)
    ensures
        r == if client < server {
            client
        } else {
            server
        },
{
    if client < server {
        client as usize
    } else {
        server as usize
    }
}

// ---------------------------------------------------------------------------
// Encoder
// ---------------------------------------------------------------------------
/// `w` is the encoding of a frame under `key`: a header that announces the
/// sealed payload, then that payload, which opens to `payload`.
pub open spec fn is_frame(
    key: Seq<u8>,
    ftype: FrameType,
    flags: u16,
    sid: u32,
    counter: u64,
    payload: Seq<u8>,
    w: Seq<u8>,
) -> bool {
    let h = header_spec(ftype, flags, sid, (payload.len() + TAG_LEN) as nat, counter);
    let ct = seal_spec(key, counter, h.take(12), payload);
    &&& w == h + ct
    &&& ct.len() == payload.len() + TAG_LEN
    &&& open_spec(key, counter, h.take(12), ct) == Ok::<Seq<u8>, CipherError>(payload)
}

/// The encoding of a frame under `key`.
pub open spec fn frame_bytes(
    key: Seq<u8>,
    ftype: FrameType,
    flags: u16,
    sid: u32,
    counter: u64,
    payload: Seq<u8>,
) -> Seq<u8> {
    let h = header_spec(ftype, flags, sid, (payload.len() + TAG_LEN) as nat, counter);
    h + seal_spec(key, counter, h.take(12), payload)
}

/// Frame encoder. It owns its counters, so that every frame has a nonce of its
/// own.
pub struct FrameEncoder {
    cipher: Arc<FrameCipher>,
    counters: CounterGen,
    limit: FrameLimit,
}

impl FrameEncoder {
    pub closed spec fn key(self) -> Seq<u8> {
        self.cipher.key()
    }

    pub closed spec fn counters(self) -> CounterGen {
        self.counters
    }

    /// The largest payload it takes.
    pub closed spec fn limit(self) -> nat {
        self.limit.max()
    }

    pub closed spec fn wf(self) -> bool {
        self.limit.wf()
    }

    /// Another counter is left.
    pub open spec fn can_encode(self) -> bool {
        self.counters().base() + self.counters().issued() <= u64::MAX && self.counters().issued()
            < u64::MAX
    }

    pub fn new(cipher: Arc<FrameCipher>, counters: CounterGen) -> (r: Self)
        ensures
            r.wf(),
            r.key() == cipher.key(),
            r.counters() == counters,
            r.limit() == MAX_PLAINTEXT,
    {
        FrameEncoder { cipher, counters, limit: FrameLimit::new(MAX_PLAINTEXT) }
    }

    pub fn with_limit(cipher: Arc<FrameCipher>, counters: CounterGen, limit: FrameLimit) -> (r: Self)
        requires
            limit.wf(),
        ensures
            r.wf(),
            r.key() == cipher.key(),
            r.counters() == counters,
            r.limit() == limit.max(),
    {
        FrameEncoder { cipher, counters, limit }
    }

    /// Use another key from now on; the counters go on.
    pub fn set_cipher(&mut self, cipher: Arc<FrameCipher>)
        requires
            old(self).wf(),
        ensures
            final(self).wf(),
            final(self).key() == cipher.key(),
            final(self).counters() == old(self).counters(),
            final(self).limit() == old(self).limit(),
    {
        self.cipher = cipher;
    }

    /// Take payloads of up to `max` bytes from now on.
    pub fn set_limit(&mut self, max: usize)
        ensures
            final(self).wf(),
            final(self).key() == old(self).key(),
            final(self).counters() == old(self).counters(),
            final(self).limit() == limit_spec(max as nat),
    {
        self.limit.set(max);
    }

    /// Whether another counter is left.
    pub fn has_counter(&self) -> (r: bool)
        ensures
            r == self.can_encode(),
    {
        self.counters.has_next()
    }

    /// Append one encoded frame to `out`. A payload over the limit is refused
    /// before a counter is used; `out` is then as it was.
    pub fn encode_into(
        &mut self,
        ftype: FrameType,
        flags: u16,
        sid: u32,
        payload: &[u8],
        out: &mut BytesMut,
    ) -> (r: Result<(), FrameError>)
        requires
            old(self).wf(),
            old(self).can_encode(),
        ensures
            final(self).wf(),
            final(self).key() == old(self).key(),
            final(self).limit() == old(self).limit(),
            final(self).counters().base() == old(self).counters().base(),
            match r {
                Ok(_) => {
                    let counter = (old(self).counters().base() + old(self).counters().issued()) as u64;
                    let w = frame_bytes(old(self).key(), ftype, flags, sid, counter, payload@);
                    &&& payload@.len() <= old(self).limit()
                    &&& final(self).counters().issued() == old(self).counters().issued() + 1
                    &&& buffered(*final(out)) == buffered(*old(out)) + w
                    &&& is_frame(old(self).key(), ftype, flags, sid, counter, payload@, w)
                    &&& w.len() == HEADER_LEN + payload@.len() + TAG_LEN
                },
                Err(e) => {
                    &&& payload@.len() > old(self).limit()
                    &&& e == FrameError::TooLarge
                    &&& final(self).counters() == old(self).counters()
                    &&& *final(out) == *old(out)
                },
            },
    {
        if payload.len() > self.limit.get() {
            return Err(FrameError::TooLarge);
        }
        let counter = self.counters.next();
        let header = build_header(ftype, flags, sid, payload.len() + TAG_LEN, counter);
        let aad = wire::slice(header.as_slice(), 0, 12);
        assert(aad@ =~= header@.take(12));
        match self.cipher.seal(counter, aad, payload) {
            Ok(ct) => {
                buf_append(out, header.as_slice());
                buf_append(out, ct.as_slice());
                proof {
                    let w = frame_bytes(self.key(), ftype, flags, sid, counter, payload@);
                    assert(w == header@ + ct@);
                    assert(buffered(*out) =~= buffered(*old(out)) + w);
                }
                Ok(())
            },
            Err(e) => {
                assert(false);
                Err(FrameError::Cipher(e))
            },
        }
    }

    /// One encoded frame.
    pub fn encode(&mut self, ftype: FrameType, flags: u16, sid: u32, payload: &[u8]) -> (r: Result<
        Bytes,
        FrameError,
    >)
        requires
            old(self).wf(),
            old(self).can_encode(),
        ensures
            final(self).wf(),
            final(self).key() == old(self).key(),
            final(self).limit() == old(self).limit(),
            final(self).counters().base() == old(self).counters().base(),
            match r {
                Ok(w) => {
                    let counter = (old(self).counters().base() + old(self).counters().issued()) as u64;
                    &&& payload@.len() <= old(self).limit()
                    &&& final(self).counters().issued() == old(self).counters().issued() + 1
                    &&& is_frame(old(self).key(), ftype, flags, sid, counter, payload@, frozen(w))
                },
                Err(e) => {
                    &&& payload@.len() > old(self).limit()
                    &&& e == FrameError::TooLarge
                    &&& final(self).counters() == old(self).counters()
                },
            },
    {
        let mut out = buf_new();
        match self.encode_into(ftype, flags, sid, payload, &mut out) {
            Ok(_) => {
                assert(buffered(out) =~= frame_bytes(
                    old(self).key(),
                    ftype,
                    flags,
                    sid,
                    (old(self).counters().base() + old(self).counters().issued()) as u64,
                    payload@,
                ));
                Ok(buf_freeze(out))
            },
            Err(e) => Err(e),
        }
    }
}

// ---------------------------------------------------------------------------
// Decoder
// ---------------------------------------------------------------------------
/// What the head of a buffer holds.
pub ghost enum Peek {
    /// Not a whole frame yet.
    Wait,
    /// No frame, and more bytes will not make it one.
    Bad(FrameError),
    /// A frame with this header and this sealed payload.
    Ready(HeaderFields, Seq<u8>),
}

pub open spec fn peek(buf: Seq<u8>, limit: nat) -> Peek {
    if buf.len() < HEADER_LEN {
        Peek::Wait
    } else {
        match header_parse(buf.take(HEADER_LEN as int)) {
            Err(e) => Peek::Bad(e),
            Ok(h) => if h.ct_len < TAG_LEN || h.ct_len > limit + TAG_LEN {
                Peek::Bad(FrameError::BadLength(h.ct_len as usize))
            } else if buf.len() < HEADER_LEN + h.ct_len {
                Peek::Wait
            } else {
                Peek::Ready(
                    h,
                    buf.subrange(HEADER_LEN as int, HEADER_LEN as int + h.ct_len as int),
                )
            },
        }
    }
}

/// The frame that header and payload make.
pub open spec fn frame_of(h: HeaderFields, payload: Seq<u8>) -> FrameFields {
    FrameFields {
        ftype: h.ftype,
        flags: h.flags,
        sid: h.sid,
        counter: h.counter,
        aad: h.aad,
        payload,
    }
}

/// Whatever follows it, an encoded frame within the limit is read as the frame
/// it was made from, and no proper part of it is taken for a frame: feeding it
/// in pieces gives the same frame.
pub proof fn law_frame_roundtrip(
    key: Seq<u8>,
    ftype: FrameType,
    flags: u16,
    sid: u32,
    counter: u64,
    payload: Seq<u8>,
    w: Seq<u8>,
    rest: Seq<u8>,
    limit: nat,
    cut: int,
)
    requires
        is_frame(key, ftype, flags, sid, counter, payload, w),
        payload.len() <= limit <= LIMIT_CEILING,
        0 <= cut < w.len(),
    ensures
        match peek(w + rest, limit) {
            Peek::Ready(h, ct) => {
                &&& HEADER_LEN + ct.len() == w.len()
                &&& open_spec(key, h.counter, h.aad, ct) == Ok::<Seq<u8>, CipherError>(payload)
                &&& frame_of(h, payload) == (FrameFields {
                    ftype,
                    flags,
                    sid,
                    counter,
                    aad: w.take(12),
                    payload,
                })
            },
            _ => false,
        },
        peek(w.take(cut), limit) is Wait,
{
    let n = (payload.len() + TAG_LEN) as nat;
    let h = header_spec(ftype, flags, sid, n, counter);
    law_header_roundtrip(ftype, flags, sid, n, counter);
    let b = w + rest;
    assert(b.take(HEADER_LEN as int) =~= h);
    assert(b.subrange(HEADER_LEN as int, HEADER_LEN as int + n as int) =~= w.skip(
        HEADER_LEN as int,
    ));
    assert(w.skip(HEADER_LEN as int) =~= seal_spec(key, counter, h.take(12), payload));
    assert(w.take(12) =~= h.take(12));
    let p = w.take(cut);
    if cut >= HEADER_LEN {
        assert(p.take(HEADER_LEN as int) =~= h);
    }
}

/// A decoder that waits for more holds less than one frame of the largest
/// size.
pub proof fn law_waiting_buffer_is_bounded(buf: Seq<u8>, limit: nat)
    requires
        peek(buf, limit) is Wait,
    ensures
        buf.len() < HEADER_LEN + limit + TAG_LEN,
{
}

/// Buffered frame decoder. `raw = true` yields undecrypted payloads (used by
/// the server for the very first Auth frame).
pub struct FrameDecoder {
    cipher: Option<Arc<FrameCipher>>,
    window: Option<ReplayWindow>,
    buf: BytesMut,
    limit: FrameLimit,
    raw: bool,
}

impl FrameDecoder {
    /// The key it opens payloads with.
    pub closed spec fn key(self) -> Option<Seq<u8>> {
        match self.cipher {
            Some(c) => Some(c.key()),
            None => None,
        }
    }

    pub closed spec fn window(self) -> Option<ReplayWindow> {
        self.window
    }

    /// The bytes fed and not yet consumed.
    pub closed spec fn pending(self) -> Seq<u8> {
        buffered(self.buf)
    }

    /// The largest payload it takes.
    pub closed spec fn limit(self) -> nat {
        self.limit.max()
    }

    pub closed spec fn wf(self) -> bool {
        self.limit.wf()
    }

    /// It was told to leave payloads as they are on the wire.
    pub closed spec fn raw(self) -> bool {
        self.raw
    }

    /// Payloads come out as they are on the wire.
    pub open spec fn passes_raw(self) -> bool {
        self.raw() || self.key() is None
    }

    pub fn new(cipher: Option<Arc<FrameCipher>>, window: Option<ReplayWindow>) -> (r: Self)
        ensures
            r.wf(),
            r.key() == match cipher {
                Some(c) => Some(c.key()),
                None => None,
            },
            r.window() == window,
            r.pending() == Seq::<u8>::empty(),
            r.limit() == MAX_PLAINTEXT,
            !r.raw(),
    {
        FrameDecoder {
            cipher,
            window,
            buf: buf_new(),
            limit: FrameLimit::new(MAX_PLAINTEXT),
            raw: false,
        }
    }

    pub fn with_limit(
        cipher: Option<Arc<FrameCipher>>,
        window: Option<ReplayWindow>,
        limit: FrameLimit,
    ) -> (r: Self)
        requires
            limit.wf(),
        ensures
            r.wf(),
            r.key() == match cipher {
                Some(c) => Some(c.key()),
                None => None,
            },
            r.window() == window,
            r.pending() == Seq::<u8>::empty(),
            r.limit() == limit.max(),
            !r.raw(),
    {
        FrameDecoder { cipher, window, buf: buf_new(), limit, raw: false }
    }

    pub fn set_cipher(&mut self, cipher: Arc<FrameCipher>)
        requires
            old(self).wf(),
        ensures
            final(self).wf(),
            final(self).key() == Some(cipher.key()),
            !final(self).raw(),
            final(self).window() == old(self).window(),
            final(self).pending() == old(self).pending(),
            final(self).limit() == old(self).limit(),
    {
        self.cipher = Some(cipher);
        self.raw = false;
    }

    /// Whether payloads come out undecrypted.
    pub fn set_raw(&mut self, raw: bool)
        requires
            old(self).wf(),
        ensures
            final(self).wf(),
            final(self).raw() == raw,
            final(self).key() == old(self).key(),
            final(self).window() == old(self).window(),
            final(self).pending() == old(self).pending(),
            final(self).limit() == old(self).limit(),
    {
        self.raw = raw;
    }

    /// Take payloads of up to `max` bytes from now on.
    pub fn set_limit(&mut self, max: usize)
        ensures
            final(self).wf(),
            final(self).limit() == limit_spec(max as nat),
            final(self).key() == old(self).key(),
            final(self).raw() == old(self).raw(),
            final(self).window() == old(self).window(),
            final(self).pending() == old(self).pending(),
    {
        self.limit.set(max);
    }

    pub fn feed(&mut self, data: &[u8])
        requires
            old(self).wf(),
        ensures
            final(self).wf(),
            final(self).pending() == old(self).pending() + data@,
            final(self).key() == old(self).key(),
            final(self).raw() == old(self).raw(),
            final(self).window() == old(self).window(),
            final(self).limit() == old(self).limit(),
    {
        buf_append(&mut self.buf, data);
    }

    /// Drop all buffered bytes (e.g. after a decode error on an unreliable
    /// channel) while keeping the cipher and replay window intact.
    pub fn clear(&mut self)
        requires
            old(self).wf(),
        ensures
            final(self).wf(),
            final(self).pending() == Seq::<u8>::empty(),
            final(self).key() == old(self).key(),
            final(self).raw() == old(self).raw(),
            final(self).window() == old(self).window(),
            final(self).limit() == old(self).limit(),
    {
        buf_clear(&mut self.buf);
    }

    pub fn is_empty(&self) -> (r: bool)
        ensures
            r == (self.pending().len() == 0),
    {
        buf_len(&self.buf) == 0
    }

    /// The next whole frame, when one has arrived. A header that cannot begin
    /// a frame is an error and leaves the buffer as it is; a whole frame is
    /// consumed even when its counter or its tag is refused.
    pub fn next_frame(&mut self) -> (r: Result<Option<Frame>, FrameError>)
        requires
            old(self).wf(),
        ensures
            final(self).wf(),
            decode_step(*old(self), r, *final(self)),
    {
        if buf_len(&self.buf) < HEADER_LEN {
            return Ok(None);
        }
        let head = wire::slice(buf_slice(&self.buf), 0, HEADER_LEN);
        assert(head@ =~= self.pending().take(HEADER_LEN as int));
        let header = take20(head);
        let info = match parse_header(&header) {
            Ok(i) => i,
            Err(e) => {
                return Err(e);
            },
        };
        if info.ct_len < TAG_LEN || info.ct_len - TAG_LEN > self.limit.get() {
            return Err(FrameError::BadLength(info.ct_len));
        }
        if buf_len(&self.buf) < HEADER_LEN || buf_len(&self.buf) - HEADER_LEN < info.ct_len {
            return Ok(None);
        }
        let ghost pending = self.pending();
        let _ = buf_split_to(&mut self.buf, HEADER_LEN);
        let sealed = buf_split_to(&mut self.buf, info.ct_len);
        let ct = wire::copy_bytes(buf_slice(&sealed));
        proof {
            assert(ct@ =~= pending.subrange(
                HEADER_LEN as int,
                HEADER_LEN as int + info.ct_len as int,
            ));
            assert(self.pending() =~= pending.skip(HEADER_LEN as int + info.ct_len as int));
        }
        let mut known = false;
        let payload = if self.raw {
            ct
        } else {
            match &self.cipher {
                Some(cipher) => {
                    let cipher = cipher.clone();
                    if let Some(w) = &mut self.window {
                        known = !w.check(info.counter);
                    }
                    if known {
                        return Err(FrameError::Replayed);
                    }
                    match cipher.open(info.counter, info.aad.as_slice(), ct.as_slice()) {
                        Ok(p) => p,
                        Err(e) => {
                            return Err(FrameError::Cipher(e));
                        },
                    }
                },
                None => ct,
            }
        };
        Ok(
            Some(
                Frame {
                    ftype: info.ftype,
                    flags: info.flags,
                    sid: info.sid,
                    counter: info.counter,
                    aad: info.aad,
                    payload,
                },
            ),
        )
    }
}

/// `b` is what a look for the next frame makes of the decoder `a`, with
/// outcome `r`. Keys, mode and limit stay as they are.
pub open spec fn decode_step(
    a: FrameDecoder,
    r: Result<Option<Frame>, FrameError>,
    b: FrameDecoder,
) -> bool {
    &&& b.key() == a.key()
    &&& b.raw() == a.raw()
    &&& b.limit() == a.limit()
    &&& match peek(a.pending(), a.limit()) {
        Peek::Wait => r == Ok::<Option<Frame>, FrameError>(None) && b == a,
        Peek::Bad(e) => r == Err::<Option<Frame>, FrameError>(e) && b == a,
        Peek::Ready(h, ct) => {
            &&& b.pending() == a.pending().skip(HEADER_LEN as int + ct.len() as int)
            &&& if a.passes_raw() {
                &&& b.window() == a.window()
                &&& match r {
                    Ok(Some(f)) => f.fields() == frame_of(h, ct),
                    _ => false,
                }
            } else {
                let known = match a.window() {
                    Some(w) => w.blocked(h.counter),
                    None => false,
                };
                &&& match (a.window(), b.window()) {
                    (Some(w), Some(v)) => window_step(w, h.counter, !known, v),
                    (None, None) => true,
                    _ => false,
                }
                &&& if known {
                    r == Err::<Option<Frame>, FrameError>(FrameError::Replayed)
                } else {
                    match (r, open_spec(a.key()->0, h.counter, h.aad, ct)) {
                        (Ok(Some(f)), Ok(p)) => f.fields() == frame_of(h, p),
                        (Err(x), Err(e)) => x == FrameError::Cipher(e),
                        _ => false,
                    }
                }
            }
        },
    }
}

/// `b` is `a` with the buffered bytes dropped.
pub open spec fn cleared(a: FrameDecoder, b: FrameDecoder) -> bool {
    &&& b.pending() == Seq::<u8>::empty()
    &&& b.key() == a.key()
    &&& b.raw() == a.raw()
    &&& b.window() == a.window()
    &&& b.limit() == a.limit()
}

/// `fs` are the frames that the decoder `a` holds, in order, up to the first
/// that is incomplete or bad, and `b` is the decoder behind them. A bad frame
/// takes the buffered bytes with it.
pub open spec fn drains(a: FrameDecoder, fs: Seq<Frame>, b: FrameDecoder) -> bool
    decreases fs.len(),
{
    if fs.len() == 0 {
        exists|r: Result<Option<Frame>, FrameError>, m: FrameDecoder| #[trigger]
            decode_step(a, r, m) && match r {
                Ok(None) => b == m,
                Err(_) => cleared(m, b),
                _ => false,
            }
    } else {
        exists|m: FrameDecoder| #[trigger]
            decode_step(a, Ok(Some(fs[0])), m) && drains(m, fs.drop_first(), b)
    }
}

/// What one end encodes the other decodes: a decoder with the key, which is
/// not told to leave payloads alone and has not seen the counter, takes an
/// encoded frame from the head of its buffer and hands out what was sent.
pub proof fn law_sent_frame_is_received(
    key: Seq<u8>,
    ftype: FrameType,
    flags: u16,
    sid: u32,
    counter: u64,
    payload: Seq<u8>,
    w: Seq<u8>,
    rest: Seq<u8>,
    a: FrameDecoder,
    r: Result<Option<Frame>, FrameError>,
    b: FrameDecoder,
)
    requires
        is_frame(key, ftype, flags, sid, counter, payload, w),
        payload.len() <= a.limit() <= LIMIT_CEILING,
        a.pending() == w + rest,
        a.key() == Some(key),
        !a.raw(),
        a.window() matches Some(v) ==> !v.blocked(counter),
        decode_step(a, r, b),
    ensures
        r matches Ok(Some(f)) && f.ftype == ftype && f.flags == flags && f.sid == sid && f.counter
            == counter && f.payload@ == payload,
        b.pending() == rest,
{
    wire::lemma_le_len(flags as nat, 2);
    wire::lemma_le_len(sid as nat, 4);
    wire::lemma_le_len((payload.len() + TAG_LEN) as nat, 4);
    wire::lemma_le_len(counter as nat, 8);
    law_frame_roundtrip(key, ftype, flags, sid, counter, payload, w, rest, a.limit(), 0);
    assert((w + rest).skip(w.len() as int) =~= rest);
    if let Peek::Ready(h, ct) = peek(w + rest, a.limit()) {
        assert(frame_of(h, payload).counter == counter);
        let known = match a.window() {
            Some(v) => v.blocked(h.counter),
            None => false,
        };
        assert(!known);
        if let Ok(Some(f)) = r {
            assert(f.fields() == frame_of(h, payload));
            assert(f.fields().ftype == ftype && f.fields().payload == payload);
        }
    }
}

/// The bytes of the chunks, one after the other.
pub open spec fn joined(chunks: Seq<Seq<u8>>) -> Seq<u8>
    decreases chunks.len(),
{
    if chunks.len() == 0 {
        Seq::empty()
    } else {
        joined(chunks.drop_last()) + chunks.last()
    }
}

proof fn lemma_joined(chunks: Seq<Seq<u8>>, i: int)
    requires
        0 <= i <= chunks.len(),
    ensures
        joined(chunks.take(i)).len() <= joined(chunks).len(),
        joined(chunks.take(i)) == joined(chunks).take(joined(chunks.take(i)).len() as int),
    decreases chunks.len(),
{
    if i == chunks.len() {
        assert(chunks.take(i) =~= chunks);
        assert(joined(chunks).take(joined(chunks).len() as int) =~= joined(chunks));
    } else {
        let d = chunks.drop_last();
        lemma_joined(d, i);
        assert(d.take(i) =~= chunks.take(i));
        let n = joined(chunks.take(i)).len() as int;
        assert(joined(chunks).take(n) =~= joined(d).take(n));
    }
}

/// Bytes are fed to the decoder `a` and a look for the next frame follows: it
/// gives `r` and leaves `b`.
pub open spec fn feed_step(
    a: FrameDecoder,
    data: Seq<u8>,
    r: Result<Option<Frame>, FrameError>,
    b: FrameDecoder,
) -> bool {
    exists|fed: FrameDecoder|
        fed.pending() == a.pending() + data && fed.key() == a.key() && fed.raw() == a.raw()
            && fed.window() == a.window() && fed.limit() == a.limit() && #[trigger] decode_step(
            fed,
            r,
            b,
        )
}

/// Chunk after chunk is fed to a decoder, each followed by a look: the outcomes
/// are `rs`, and `ds` are the decoders before, between and after.
pub open spec fn feed_run(
    ds: Seq<FrameDecoder>,
    chunks: Seq<Seq<u8>>,
    rs: Seq<Result<Option<Frame>, FrameError>>,
) -> bool {
    &&& ds.len() == chunks.len() + 1
    &&& rs.len() == chunks.len()
    &&& forall|i: int|
        0 <= i < chunks.len() ==> #[trigger] feed_step(ds[i], chunks[i], rs[i], ds[i + 1])
}

/// The decoder, with nothing buffered, can take the frame with this counter.
pub open spec fn ready_for(a: FrameDecoder, key: Seq<u8>, counter: u64, len: nat) -> bool {
    &&& a.pending().len() == 0
    &&& a.key() == Some(key)
    &&& !a.raw()
    &&& len <= a.limit() <= LIMIT_CEILING
    &&& a.window() matches Some(v) ==> !v.blocked(counter)
}

/// After `i` chunks: what came so far is buffered, until the frame is complete
/// and the buffer empty.
proof fn lemma_feed_run(
    ds: Seq<FrameDecoder>,
    chunks: Seq<Seq<u8>>,
    rs: Seq<Result<Option<Frame>, FrameError>>,
    key: Seq<u8>,
    f: FrameFields,
    w: Seq<u8>,
    i: int,
)
    requires
        feed_run(ds, chunks, rs),
        joined(chunks) == w,
        is_frame(key, f.ftype, f.flags, f.sid, f.counter, f.payload, w),
        ready_for(ds[0], key, f.counter, f.payload.len()),
        0 <= i <= chunks.len(),
    ensures
        ds[i].key() == ds[0].key(),
        ds[i].raw() == ds[0].raw(),
        ds[i].limit() == ds[0].limit(),
        joined(chunks.take(i)).len() < w.len() ==> ds[i].pending() == joined(chunks.take(i))
            && ds[i].window() == ds[0].window(),
        joined(chunks.take(i)).len() >= w.len() ==> ds[i].pending().len() == 0,
        i > 0 ==> match rs[i - 1] {
            Ok(None) => joined(chunks.take(i)).len() < w.len() || joined(chunks.take(i - 1)).len()
                >= w.len(),
            Ok(Some(g)) => joined(chunks.take(i - 1)).len() < w.len() && joined(
                chunks.take(i),
            ).len() == w.len() && g.ftype == f.ftype && g.flags == f.flags && g.sid == f.sid
                && g.counter == f.counter && g.payload@ == f.payload,
            Err(_) => false,
        },
    decreases i,
{
    wire::lemma_le_len(f.flags as nat, 2);
    wire::lemma_le_len(f.sid as nat, 4);
    wire::lemma_le_len((f.payload.len() + TAG_LEN) as nat, 4);
    wire::lemma_le_len(f.counter as nat, 8);
    lemma_joined(chunks, i);
    if i == 0 {
        assert(chunks.take(0) =~= Seq::<Seq<u8>>::empty());
        assert(ds[0].pending() =~= joined(chunks.take(0)));
    } else {
        let j = i - 1;
        lemma_feed_run(ds, chunks, rs, key, f, w, j);
        lemma_joined(chunks, j);
        assert(chunks.take(i).drop_last() =~= chunks.take(j));
        assert(chunks.take(i).last() == chunks[j]);
        assert(feed_step(ds[j], chunks[j], rs[j], ds[j + 1]));
        let fed = choose|fed: FrameDecoder|
            fed.pending() == ds[j].pending() + chunks[j] && fed.key() == ds[j].key() && fed.raw()
                == ds[j].raw() && fed.window() == ds[j].window() && fed.limit() == ds[j].limit()
                && #[trigger] decode_step(fed, rs[j], ds[i]);
        let n = joined(chunks.take(i)).len() as int;
        if joined(chunks.take(j)).len() >= w.len() {
            assert(chunks[j].len() == 0);
            assert(fed.pending().len() == 0);
            assert(peek(fed.pending(), fed.limit()) is Wait);
        } else if n < w.len() {
            assert(fed.pending() =~= w.take(n));
            law_frame_roundtrip(
                key,
                f.ftype,
                f.flags,
                f.sid,
                f.counter,
                f.payload,
                w,
                Seq::empty(),
                fed.limit(),
                n,
            );
            assert(peek(fed.pending(), fed.limit()) is Wait);
        } else {
            assert(fed.pending() =~= w + Seq::<u8>::empty());
            law_sent_frame_is_received(
                key,
                f.ftype,
                f.flags,
                f.sid,
                f.counter,
                f.payload,
                w,
                Seq::empty(),
                fed,
                rs[j],
                ds[i],
            );
        }
    }
}

/// A frame arrives the same in whatever chunks its bytes come: a look after
/// each chunk finds nothing until the one that completes the frame, which gives
/// what was sent; the buffer is empty then, and every further look finds
/// nothing.
pub proof fn law_frame_arrives_in_any_chunks(
    ds: Seq<FrameDecoder>,
    chunks: Seq<Seq<u8>>,
    rs: Seq<Result<Option<Frame>, FrameError>>,
    key: Seq<u8>,
    f: FrameFields,
    w: Seq<u8>,
    i: int,
    r: Result<Option<Frame>, FrameError>,
    b: FrameDecoder,
)
    requires
        feed_run(ds, chunks, rs),
        joined(chunks) == w,
        is_frame(key, f.ftype, f.flags, f.sid, f.counter, f.payload, w),
        ready_for(ds[0], key, f.counter, f.payload.len()),
        0 <= i < chunks.len(),
        decode_step(ds[chunks.len() as int], r, b),
    ensures
        if joined(chunks.take(i)).len() < w.len() <= joined(chunks.take(i + 1)).len() {
            &&& rs[i] matches Ok(Some(g)) && g.ftype == f.ftype && g.flags == f.flags && g.sid
                == f.sid && g.counter == f.counter && g.payload@ == f.payload
            &&& ds[i + 1].pending().len() == 0
        } else {
            rs[i] == Ok::<Option<Frame>, FrameError>(None)
        },
        ds[chunks.len() as int].pending().len() == 0,
        r == Ok::<Option<Frame>, FrameError>(None),
{
    lemma_feed_run(ds, chunks, rs, key, f, w, i + 1);
    lemma_feed_run(ds, chunks, rs, key, f, w, chunks.len() as int);
    assert(chunks.take(chunks.len() as int) =~= chunks);
    lemma_joined(chunks, i + 1);
}

/// Behind a replay window a counter is taken at most once: after a look that
/// handed out a frame, the same counter is refused.
pub proof fn law_replayed_frame_is_refused(
    a: FrameDecoder,
    r: Result<Option<Frame>, FrameError>,
    b: FrameDecoder,
    c: FrameDecoder,
    again: Result<Option<Frame>, FrameError>,
    d: FrameDecoder,
)
    requires
        a.window() is Some,
        !a.passes_raw(),
        decode_step(a, r, b),
        r matches Ok(Some(_)),
        c.window() == b.window(),
        !c.passes_raw(),
        decode_step(c, again, d),
        peek(c.pending(), c.limit()) matches Peek::Ready(h, _) && h.counter == r->Ok_0->0.counter,
    ensures
        again == Err::<Option<Frame>, FrameError>(FrameError::Replayed),
{
    if let Peek::Ready(h, ct) = peek(a.pending(), a.limit()) {
        let f = r->Ok_0->0;
        assert(f.fields().counter == h.counter);
        law_window_never_reopens(a.window()->0, h.counter, true, b.window()->0, h.counter);
    }
}

impl FrameDecoder {
    /// A datagram has arrived: the frames in it. A corrupt one must not desync
    /// the decoder for the rest of the connection, so the buffered bytes are
    /// dropped with it; the replay window is kept.
    pub fn receive_datagram(&mut self, data: &[u8]) -> (r: Vec<Frame>)
        requires
            old(self).wf(),
        ensures
            final(self).wf(),
            exists|fed: FrameDecoder|
                fed.pending() == old(self).pending() + data@ && fed.key() == old(self).key()
                    && fed.raw() == old(self).raw() && fed.window() == old(self).window()
                    && fed.limit() == old(self).limit() && #[trigger] drains(fed, r@, *final(self)),
    {
        self.feed(data);
        let ghost fed = *self;
        let mut out: Vec<Frame> = Vec::new();
        assert(forall|fs: Seq<Frame>, b: FrameDecoder|
            drains(*self, fs, b) ==> #[trigger] drains(fed, out@ + fs, b)) by {
            assert forall|fs: Seq<Frame>, b: FrameDecoder| drains(*self, fs, b) implies #[trigger]
                drains(fed, out@ + fs, b) by {
                assert(out@ + fs =~= fs);
            }
        }
        loop
            invariant
                self.wf(),
                forall|fs: Seq<Frame>, b: FrameDecoder|
                    drains(*self, fs, b) ==> #[trigger] drains(fed, out@ + fs, b),
                fed.pending() == old(self).pending() + data@,
                fed.key() == old(self).key(),
                fed.raw() == old(self).raw(),
                fed.window() == old(self).window(),
                fed.limit() == old(self).limit(),
            decreases self.pending().len(),
        {
            let ghost before = *self;
            let ghost had = out@;
            match self.next_frame() {
                Ok(Some(f)) => {
                    out.push(f);
                    proof {
                        assert(self.pending().len() < before.pending().len());
                        assert forall|fs: Seq<Frame>, b: FrameDecoder|
                            drains(*self, fs, b) implies #[trigger] drains(fed, out@ + fs, b) by {
                            let more = seq![f] + fs;
                            assert(more.drop_first() =~= fs);
                            assert(decode_step(before, Ok(Some(more[0])), *self));
                            assert(drains(before, more, b));
                            assert(drains(fed, had + more, b));
                            assert(had + more =~= out@ + fs);
                        }
                    }
                },
                Ok(None) => {
                    proof {
                        let none = Seq::<Frame>::empty();
                        assert(decode_step(before, Ok(None), *self));
                        assert(drains(before, none, *self));
                        assert(drains(fed, had + none, *self));
                        assert(had + none =~= out@);
                    }
                    return out;
                },
                Err(e) => {
                    let ghost m = *self;
                    self.clear();
                    proof {
                        let none = Seq::<Frame>::empty();
                        assert(decode_step(before, Err(e), m));
                        assert(cleared(m, *self));
                        assert(drains(before, none, *self));
                        assert(drains(fed, had + none, *self));
                        assert(had + none =~= out@);
                    }
                    return out;
                },
            }
        }
    }

    /// The stream has ended: a frame that has only begun is an error.
    pub fn finish(&self) -> (r: Result<(), FrameError>)
        ensures
            r == if self.pending().len() == 0 {
                Ok::<(), FrameError>(())
            } else {
                Err::<(), FrameError>(FrameError::TruncatedAtEof)
            },
    {
        if self.is_empty() {
            Ok(())
        } else {
            Err(FrameError::TruncatedAtEof)
        }
    }
}

// ---------------------------------------------------------------------------
// Open payload
// ---------------------------------------------------------------------------
#[derive(Clone, Copy, Debug, PartialEq, Eq, Structural)]
pub enum OpenPayloadError {
    Truncated,
    BadHost,
    NotUtf8,
}

/// Length of the host (2, low byte first), host, port (2, low byte first).
pub open spec fn open_encoding(host: Seq<char>, port: u16) -> Seq<u8> {
    wire::le(encode_utf8(host).len(), 2) + encode_utf8(host) + wire::le(port as nat, 2)
}

/// What an Open payload asks for. Bytes behind it are padding.
pub open spec fn open_decoding(b: Seq<u8>) -> Result<(Seq<char>, u16), OpenPayloadError> {
    let hl = wire::le_value(b.subrange(0, 2)) as int;
    if b.len() < 4 {
        Err(OpenPayloadError::Truncated)
    } else if !(b.len() >= 4 + hl && 0 < hl <= 255) {
        Err(OpenPayloadError::BadHost)
    } else if !valid_utf8(b.subrange(2, 2 + hl)) {
        Err(OpenPayloadError::NotUtf8)
    } else {
        Ok(
            (
                decode_utf8(b.subrange(2, 2 + hl)),
                wire::le_value(b.subrange(2 + hl, 4 + hl)) as u16,
            ),
        )
    }
}

/// Decoding an encoded target gives it back, whatever padding follows (the
/// host must have 1 to 255 bytes).
pub proof fn law_open_roundtrip(host: Seq<char>, port: u16, padding: Seq<u8>)
    requires
        0 < encode_utf8(host).len() <= 255,
    ensures
        open_decoding(open_encoding(host, port) + padding) == Ok::<
            (Seq<char>, u16),
            OpenPayloadError,
        >((host, port)),
{
    let u = encode_utf8(host);
    let b = open_encoding(host, port) + padding;
    wire::lemma_pow256();
    wire::lemma_le_roundtrip(u.len(), 2);
    wire::lemma_le_roundtrip(port as nat, 2);
    wire::lemma_utf8_roundtrip(host);
    assert(b.subrange(0, 2) =~= wire::le(u.len(), 2));
    let hl = u.len() as int;
    assert(b.subrange(2, 2 + hl) =~= u);
    assert(b.subrange(2 + hl, 4 + hl) =~= wire::le(port as nat, 2));
}

/// Encode an Open/OpenOk target.
pub fn encode_open(host: &str, port: u16) -> (r: Vec<u8>)
    ensures
        r@ == open_encoding(host@, port),
{
    let h = host.as_bytes();
    let mut v: Vec<u8> = Vec::new();
    wire::push_le(&mut v, h.len() as u64, 2);
    wire::push_bytes(&mut v, h);
    wire::push_le(&mut v, port as u64, 2);
    assert(v@ =~= open_encoding(host@, port));
    v
}

pub fn decode_open(payload: &[u8]) -> (r: Result<(String, u16), OpenPayloadError>)
    ensures
        match r {
            Ok((h, p)) => open_decoding(payload@) == Ok::<(Seq<char>, u16), OpenPayloadError>(
                (h@, p),
            ),
            Err(e) => open_decoding(payload@) == Err::<(Seq<char>, u16), OpenPayloadError>(e),
        },
{
    if payload.len() < 4 {
        return Err(OpenPayloadError::Truncated);
    }
    proof {
        wire::lemma_pow256();
        wire::lemma_le_value_bound(payload@.subrange(0, 2));
    }
    let hl: usize = wire::read_le(wire::slice(payload, 0, 2)) as usize;
    if payload.len() - 4 < hl || hl == 0 || hl > 255 {
        return Err(OpenPayloadError::BadHost);
    }
    let host = match wire::utf8_text(wire::slice(payload, 2, 2 + hl)) {
        Some(s) => s,
        None => {
            return Err(OpenPayloadError::NotUtf8);
        },
    };
    let p = wire::slice(payload, 2 + hl, 4 + hl);
    proof {
        wire::lemma_le_value_bound(p@);
    }
    Ok((host, wire::read_le(p) as u16))
}

/// OpenErr reason codes.
pub const OPEN_ERR_DIAL: u8 = 1;

pub const OPEN_ERR_LIMIT: u8 = 2;

pub const OPEN_ERR_BAD_TARGET: u8 = 3;

pub const OPEN_ERR_DENIED: u8 = 4;

// ---------------------------------------------------------------------------
// Padding
// ---------------------------------------------------------------------------
/// Longest random tail of a handshake payload, in bytes.
pub const MAX_PADDING: usize = 63;

/// A random tail for handshake payloads: it keeps their length from being a
/// fixed signature. The other end decodes by field prefix and ignores it.
pub fn random_padding() -> (r: Vec<u8>)
    ensures
        r@.len() <= MAX_PADDING,
        exists|v: u32| r@.len() == #[trigger] padding_len_spec(v),
{
    let v = random_u32();
    random_bytes(padding_len(v))
}

/// The length of the tail for a random number: every length up to the longest,
/// each for as many numbers.
pub open spec fn padding_len_spec(v: u32) -> nat {
    (v as nat) % (MAX_PADDING as nat + 1)
}

/// The length of the tail for a random number.
pub fn padding_len(v: u32) -> (r: usize)
    ensures
        r == padding_len_spec(v),
{
    (v % 64) as usize
}

// ---------------------------------------------------------------------------
// Laws of the wire format
// ---------------------------------------------------------------------------
/// The numbers of the frame types, of the flags and of the reasons for which a
/// stream is not opened.
pub proof fn law_numbers_on_the_wire(t: FrameType)
    ensures
        type_code(t) == (match t {
            FrameType::Auth => 1u8,
            FrameType::AuthOk => 2u8,
            FrameType::Open => 3u8,
            FrameType::OpenOk => 4u8,
            FrameType::OpenErr => 5u8,
            FrameType::Data => 6u8,
            FrameType::Close => 7u8,
            FrameType::Ping => 8u8,
            FrameType::Pong => 9u8,
            FrameType::UdpAssociate => 10u8,
            FrameType::UdpOk => 11u8,
            FrameType::UdpData => 12u8,
            FrameType::Error => 13u8,
        }),
        FLAG_FIN == 1 && FLAG_RST == 2,
        OPEN_ERR_DIAL == 1 && OPEN_ERR_LIMIT == 2 && OPEN_ERR_BAD_TARGET == 3 && OPEN_ERR_DENIED
            == 4,
{
}

/// Twenty bytes make a header: the version, the type, and behind them the flags,
/// the session, the length of what follows and the counter, each with its low
/// byte first.
pub proof fn law_header_on_the_wire(
    ftype: FrameType,
    flags: u16,
    sid: u32,
    ct_len: nat,
    counter: u64,
)
    requires
        ct_len < 0x1_0000_0000,
    ensures
        ({
            let h = header_spec(ftype, flags, sid, ct_len, counter);
            &&& h.len() == 20
            &&& h[0] == 1
            &&& h[1] == type_code(ftype)
            &&& h[2] == flags % 256
            &&& h[4] == sid % 256
            &&& h[8] == ct_len % 256
            &&& h[12] == counter % 256
            &&& wire::le_value(h.subrange(2, 4)) == flags
            &&& wire::le_value(h.subrange(4, 8)) == sid
            &&& wire::le_value(h.subrange(8, 12)) == ct_len
            &&& wire::le_value(h.subrange(12, 20)) == counter
        }),
{
    let h = header_spec(ftype, flags, sid, ct_len, counter);
    wire::lemma_pow256();
    wire::lemma_le_roundtrip(flags as nat, 2);
    wire::lemma_le_roundtrip(sid as nat, 4);
    wire::lemma_le_roundtrip(ct_len, 4);
    wire::lemma_le_roundtrip(counter as nat, 8);
    wire::law_byte_order(flags as nat, 2, 0, Seq::empty());
    wire::law_byte_order(sid as nat, 4, 0, Seq::empty());
    wire::law_byte_order(ct_len, 4, 0, Seq::empty());
    wire::law_byte_order(counter as nat, 8, 0, Seq::empty());
    assert(h.subrange(2, 4) =~= wire::le(flags as nat, 2));
    assert(h.subrange(4, 8) =~= wire::le(sid as nat, 4));
    assert(h.subrange(8, 12) =~= wire::le(ct_len, 4));
    assert(h.subrange(12, 20) =~= wire::le(counter as nat, 8));
}

/// A header is refused for another version than 1 and for a type that there is
/// not, and for nothing else. What is read from it is what its bytes say.
pub proof fn law_headers_are_read_by_their_bytes(h: Seq<u8>)
    requires
        h.len() == 20,
    ensures
        h[0] != 1 ==> header_parse(h) == Err::<HeaderFields, FrameError>(
            FrameError::BadVersion(h[0]),
        ),
        h[0] == 1 && (h[1] == 0 || h[1] > 13) ==> header_parse(h) == Err::<
            HeaderFields,
            FrameError,
        >(FrameError::BadType(h[1])),
        h[0] == 1 && 1 <= h[1] <= 13 ==> (header_parse(h) matches Ok(f) && {
            &&& type_code(f.ftype) == h[1]
            &&& f.flags == wire::le_value(seq![h[2], h[3]])
            &&& f.sid == wire::le_value(h.subrange(4, 8))
            &&& f.ct_len == wire::le_value(h.subrange(8, 12))
            &&& f.counter == wire::le_value(h.subrange(12, 20))
            &&& f.aad == h.take(12)
        }),
{
    wire::lemma_pow256();
    wire::lemma_le_value_bound(h.subrange(2, 4));
    wire::lemma_le_value_bound(h.subrange(4, 8));
    wire::lemma_le_value_bound(h.subrange(12, 20));
    assert(h.subrange(2, 4) =~= seq![h[2], h[3]]);
    assert(h.subrange(0, 12) =~= h.take(12));
    if 1 <= h[1] <= 13 {
        lemma_every_number_has_its_type(h[1]);
    }
}

proof fn lemma_every_number_has_its_type(n: u8)
    requires
        1 <= n <= 13,
    ensures
        exists|t: FrameType| type_code(t) == n,
{
    assert(type_code(FrameType::Auth) == 1 && type_code(FrameType::AuthOk) == 2);
    assert(type_code(FrameType::Open) == 3 && type_code(FrameType::OpenOk) == 4);
    assert(type_code(FrameType::OpenErr) == 5 && type_code(FrameType::Data) == 6);
    assert(type_code(FrameType::Close) == 7 && type_code(FrameType::Ping) == 8);
    assert(type_code(FrameType::Pong) == 9 && type_code(FrameType::UdpAssociate) == 10);
    assert(type_code(FrameType::UdpOk) == 11 && type_code(FrameType::UdpData) == 12);
    assert(type_code(FrameType::Error) == 13);
}

/// A buffer with the header of a frame is ready exactly when what the header
/// announces has arrived: at least a tag of 16 bytes, at most the limit and a
/// tag. Other announcements are refused at once.
pub proof fn law_when_a_frame_is_ready(buf: Seq<u8>, limit: nat)
    ensures
        buf.len() < 20 ==> peek(buf, limit) is Wait,
        buf.len() >= 20 && buf[0] != 1 ==> peek(buf, limit) == Peek::Bad(
            FrameError::BadVersion(buf[0]),
        ),
        buf.len() >= 20 && buf[0] == 1 && (buf[1] == 0 || buf[1] > 13) ==> peek(buf, limit)
            == Peek::Bad(FrameError::BadType(buf[1])),
        buf.len() >= 20 && buf[0] == 1 && 1 <= buf[1] <= 13 ==> {
            let n = wire::le_value(buf.subrange(8, 12)) as int;
            if n < 16 || n > limit + 16 {
                peek(buf, limit) == Peek::Bad(FrameError::BadLength(n as usize))
            } else if buf.len() < 20 + n {
                peek(buf, limit) is Wait
            } else {
                peek(buf, limit) matches Peek::Ready(h, ct) && {
                    &&& ct == buf.subrange(20, 20 + n)
                    &&& type_code(h.ftype) == buf[1]
                    &&& h.aad == buf.take(12)
                    &&& h.flags == wire::le_value(buf.subrange(2, 4))
                    &&& h.sid == wire::le_value(buf.subrange(4, 8))
                    &&& h.counter == wire::le_value(buf.subrange(12, 20))
                }
            }
        },
{
    if buf.len() >= 20 {
        let h = buf.take(20);
        law_headers_are_read_by_their_bytes(h);
        assert(h[0] == buf[0] && h[1] == buf[1]);
        assert(h.subrange(2, 4) =~= buf.subrange(2, 4));
        assert(seq![h[2], h[3]] =~= buf.subrange(2, 4));
        assert(h.subrange(4, 8) =~= buf.subrange(4, 8));
        assert(h.subrange(8, 12) =~= buf.subrange(8, 12));
        assert(h.subrange(12, 20) =~= buf.subrange(12, 20));
        assert(h.take(12) =~= buf.take(12));
    }
}

/// A frame is its header and the sealed payload, under the counter that the
/// header names; the first twelve bytes are what the seal also covers.
pub proof fn law_frame_on_the_wire(
    key: Seq<u8>,
    ftype: FrameType,
    flags: u16,
    sid: u32,
    counter: u64,
    payload: Seq<u8>,
)
    requires
        payload.len() + 16 < 0x1_0000_0000,
    ensures
        ({
            let w = frame_bytes(key, ftype, flags, sid, counter, payload);
            &&& w.skip(20) == seal_spec(key, counter, w.take(12), payload)
            &&& w[0] == 1
            &&& w[1] == type_code(ftype)
            &&& wire::le_value(w.subrange(2, 4)) == flags
            &&& wire::le_value(w.subrange(4, 8)) == sid
            &&& wire::le_value(w.subrange(8, 12)) == payload.len() + 16
            &&& wire::le_value(w.subrange(12, 20)) == counter
        }),
{
    let n = (payload.len() + 16) as nat;
    let h = header_spec(ftype, flags, sid, n, counter);
    let w = frame_bytes(key, ftype, flags, sid, counter, payload);
    law_header_on_the_wire(ftype, flags, sid, n, counter);
    assert(w.take(12) =~= h.take(12));
    assert(w.skip(20) =~= seal_spec(key, counter, h.take(12), payload));
    assert(w.subrange(2, 4) =~= h.subrange(2, 4));
    assert(w.subrange(4, 8) =~= h.subrange(4, 8));
    assert(w.subrange(8, 12) =~= h.subrange(8, 12));
    assert(w.subrange(12, 20) =~= h.subrange(12, 20));
}

/// A decoder that has no key hands the sealed bytes of a frame on as they are,
/// and takes them and the header from the front of its buffer; what it does not
/// take stays.
pub proof fn law_raw_frames_are_handed_on(
    a: FrameDecoder,
    r: Result<Option<Frame>, FrameError>,
    b: FrameDecoder,
)
    requires
        decode_step(a, r, b),
        a.key() is None || a.raw(),
        a.pending().len() >= 20,
        a.pending()[0] == 1,
        1 <= a.pending()[1] <= 13,
        16 <= wire::le_value(a.pending().subrange(8, 12)) <= a.limit() + 16,
        a.pending().len() >= 20 + wire::le_value(a.pending().subrange(8, 12)),
    ensures
        ({
            let n = wire::le_value(a.pending().subrange(8, 12)) as int;
            &&& b.pending() == a.pending().subrange(20 + n, a.pending().len() as int)
            &&& r matches Ok(Some(f)) && f.payload@ == a.pending().subrange(20, 20 + n) && f.aad@
                == a.pending().take(12)
            &&& b.window() == a.window()
        }),
{
    law_when_a_frame_is_ready(a.pending(), a.limit());
    let n = wire::le_value(a.pending().subrange(8, 12)) as int;
    assert(a.pending().skip(20 + n) =~= a.pending().subrange(20 + n, a.pending().len() as int));
}

/// A frame under a counter that was not seen is what its seal opens to, and is
/// refused where it does not open; either way it leaves the buffer.
pub proof fn law_sealed_frames_are_opened(
    a: FrameDecoder,
    r: Result<Option<Frame>, FrameError>,
    b: FrameDecoder,
)
    requires
        decode_step(a, r, b),
        a.key() is Some && !a.raw(),
        a.pending().len() >= 20,
        a.pending()[0] == 1,
        1 <= a.pending()[1] <= 13,
        16 <= wire::le_value(a.pending().subrange(8, 12)) <= a.limit() + 16,
        a.pending().len() >= 20 + wire::le_value(a.pending().subrange(8, 12)),
        a.window() matches Some(w) ==> !w.blocked(
            wire::le_value(a.pending().subrange(12, 20)) as u64,
        ),
    ensures
        ({
            let p = a.pending();
            let n = wire::le_value(p.subrange(8, 12)) as int;
            &&& b.pending() == p.subrange(20 + n, p.len() as int)
            &&& match open_spec(
                a.key()->0,
                wire::le_value(p.subrange(12, 20)) as u64,
                p.take(12),
                p.subrange(20, 20 + n),
            ) {
                Ok(plain) => r matches Ok(Some(f)) && f.payload@ == plain && type_code(f.ftype)
                    == p[1],
                Err(e) => r == Err::<Option<Frame>, FrameError>(FrameError::Cipher(e)),
            }
        }),
{
    let p = a.pending();
    law_when_a_frame_is_ready(p, a.limit());
    let n = wire::le_value(p.subrange(8, 12)) as int;
    assert(p.skip(20 + n) =~= p.subrange(20 + n, p.len() as int));
    wire::lemma_pow256();
    wire::lemma_le_value_bound(p.subrange(12, 20));
}

/// The limit of a frame is what was asked for, up to what the length field of a
/// header can announce; without a wish it is 16 KiB. Padding has fewer than 64
/// bytes, every number of them as often as another.
pub proof fn law_sizes(max: nat, v: u32)
    ensures
        max <= 0xffff_ffef ==> limit_spec(max) == max,
        max > 0xffff_ffef ==> limit_spec(max) == 0xffff_ffef,
        MAX_PLAINTEXT == 16 * 1024,
        HEADER_LEN == 20,
        MAX_CIPHERTEXT == MAX_PLAINTEXT + 16,
        padding_len_spec(v) < 64,
        v < 64 ==> padding_len_spec(v) == v,
        v >= 64 ==> padding_len_spec(v) == padding_len_spec((v - 64) as u32),
{
    assert(padding_len_spec(v) == (v as nat) % 64);
    if v >= 64 {
        assert(padding_len_spec((v - 64) as u32) == ((v - 64) as nat) % 64);
    }
}

/// The target of a stream on the wire: the length of the host with its low byte
/// first, the host, and the port with its low byte first; padding follows. Hosts
/// of 1 to 255 bytes of well-formed text are taken.
pub proof fn law_target_of_a_stream(
    low: u8,
    high: u8,
    host: Seq<u8>,
    port_low: u8,
    port_high: u8,
    padding: Seq<u8>,
)
    requires
        host.len() == low + 256 * high,
    ensures
        ({
            let r = open_decoding(
                seq![low, high] + host + seq![port_low, port_high] + padding,
            );
            &&& r is Ok <==> 1 <= host.len() <= 255 && valid_utf8(host)
            &&& r is Ok ==> r->Ok_0 == (decode_utf8(host), (port_low + 256 * port_high) as u16)
            &&& host.len() == 0 || host.len() > 255 ==> r == Err::<
                (Seq<char>, u16),
                OpenPayloadError,
            >(OpenPayloadError::BadHost)
        }),
{
    let b = seq![low, high] + host + seq![port_low, port_high] + padding;
    let n = host.len() as int;
    assert(b.subrange(0, 2) =~= seq![low, high]);
    assert(b.subrange(2, 2 + n) =~= host);
    assert(b.subrange(2 + n, 4 + n) =~= seq![port_low, port_high]);
    wire::law_short_numbers(low, high, 0, 0);
    wire::law_short_numbers(port_low, port_high, 0, 0);
}

/// Truncated targets are refused.
pub proof fn law_truncated_targets(b: Seq<u8>)
    ensures
        b.len() < 4 ==> open_decoding(b) == Err::<(Seq<char>, u16), OpenPayloadError>(
            OpenPayloadError::Truncated,
        ),
        b.len() >= 4 && b.len() < 4 + b[0] + 256 * b[1] ==> open_decoding(b) == Err::<
            (Seq<char>, u16),
            OpenPayloadError,
        >(OpenPayloadError::BadHost),
{
    if b.len() >= 4 {
        assert(b.subrange(0, 2) =~= seq![b[0], b[1]]);
        wire::law_short_numbers(b[0], b[1], 0, 0);
    }
}

/// A datagram that holds one frame gives that frame, and leaves nothing behind.
pub proof fn law_datagram_with_one_frame(
    key: Seq<u8>,
    ftype: FrameType,
    flags: u16,
    sid: u32,
    counter: u64,
    payload: Seq<u8>,
    a: FrameDecoder,
    fs: Seq<Frame>,
    b: FrameDecoder,
)
    requires
        is_frame(key, ftype, flags, sid, counter, payload, a.pending()),
        payload.len() <= a.limit() <= LIMIT_CEILING,
        a.key() == Some(key),
        !a.raw(),
        a.window() matches Some(v) ==> !v.blocked(counter),
        drains(a, fs, b),
    ensures
        fs.len() == 1,
        fs[0].ftype == ftype && fs[0].flags == flags && fs[0].sid == sid && fs[0].counter == counter,
        fs[0].payload@ == payload,
        b.pending().len() == 0,
{
    let w = a.pending();
    let none = Seq::<u8>::empty();
    assert(w + none =~= w);
    if fs.len() == 0 {
        let (r, m) = choose|r: Result<Option<Frame>, FrameError>, m: FrameDecoder| #[trigger]
            decode_step(a, r, m) && match r {
                Ok(None) => b == m,
                Err(_) => cleared(m, b),
                _ => false,
            };
        law_sent_frame_is_received(key, ftype, flags, sid, counter, payload, w, none, a, r, m);
    } else {
        let m = choose|m: FrameDecoder| #[trigger]
            decode_step(a, Ok(Some(fs[0])), m) && drains(m, fs.drop_first(), b);
        law_sent_frame_is_received(
            key,
            ftype,
            flags,
            sid,
            counter,
            payload,
            w,
            none,
            a,
            Ok(Some(fs[0])),
            m,
        );
        let rest = fs.drop_first();
        if rest.len() > 0 {
            let k = choose|k: FrameDecoder| #[trigger]
                decode_step(m, Ok(Some(rest[0])), k) && drains(k, rest.drop_first(), b);
            assert(peek(m.pending(), m.limit()) is Wait);
        } else {
            let (r, k) = choose|r: Result<Option<Frame>, FrameError>, k: FrameDecoder| #[trigger]
                decode_step(m, r, k) && match r {
                    Ok(None) => b == k,
                    Err(_) => cleared(k, b),
                    _ => false,
                };
            assert(peek(m.pending(), m.limit()) is Wait);
        }
    }
}

/// After a frame that cannot be read the rest of a datagram is thrown away; the
/// decoder is otherwise as it was.
pub proof fn law_bad_datagram_is_thrown_away(a: FrameDecoder, fs: Seq<Frame>, b: FrameDecoder)
    requires
        drains(a, fs, b),
        a.pending().len() >= 20,
        a.pending()[0] != 1,
    ensures
        fs.len() == 0,
        b.pending().len() == 0,
        b.key() == a.key() && b.window() == a.window() && b.limit() == a.limit() && b.raw()
            == a.raw(),
{
    law_when_a_frame_is_ready(a.pending(), a.limit());
    if fs.len() > 0 {
        let m = choose|m: FrameDecoder| #[trigger]
            decode_step(a, Ok(Some(fs[0])), m) && drains(m, fs.drop_first(), b);
    }
}

/// Frames can be made while counters are left.
pub proof fn law_counters_run_out(e: FrameEncoder)
    ensures
        e.can_encode() <==> e.counters().base() + e.counters().issued() < 0x1_0000_0000_0000_0000
            && e.counters().issued() < 0xffff_ffff_ffff_ffff,
{
}

} // verus!
