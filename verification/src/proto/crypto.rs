//! Inner end-to-end crypto layer.
//!
//! * Static per-user key: HKDF-SHA256(password, salt = "newppp-v1",
//!   info = "newppp/auth/<uid>")
//! * Session key: HKDF-SHA256(static key, salt = client random salt,
//!   info = "newppp/session")
//! * Frame protection: ChaCha20-Poly1305, nonce = 32 zero bits followed by the
//!   big-endian 64-bit counter
//! * Counter spaces: stream frames use counters below 2^63, datagrams the ones
//!   from 2^63 on, and the server's half of either starts 2^62 higher, so that
//!   no two channels of one session share a nonce.

use chacha20poly1305::aead::{AeadInPlace, KeyInit};
use chacha20poly1305::{ChaCha20Poly1305, Key, Nonce, Tag};
use hkdf::Hkdf;
use hmac::{Hmac, Mac};
use rand::RngCore;
use sha2::{Digest, Sha256};
use vstd::prelude::*;
use vstd::utf8::encode_utf8;

use crate::clock::{is_reading, Clock};
use crate::proto::frame::{MAX_PLAINTEXT, PROTO_VERSION};
use crate::text;
use crate::wire;

verus! {

pub const SALT_LEN: usize = 16;

pub const KEY_LEN: usize = 32;

pub const MAC_LEN: usize = 32;

pub const TAG_LEN: usize = 16;

/// Bearer token timestamp tolerance (seconds, either way).
pub const AUTH_WINDOW: u64 = 60;

/// The longest text one nonce can protect.
pub const MAX_SEAL: u64 = 0x3f_ffff_ff80;

// ---------------------------------------------------------------------------
// What the outside crates compute
// ---------------------------------------------------------------------------
/// HKDF-SHA256 (RFC 5869): the first 32 bytes expanded from `ikm`, `salt` and
/// `info`.
pub uninterp spec fn hkdf32(ikm: Seq<u8>, salt: Seq<u8>, info: Seq<u8>) -> Seq<u8>;

/// HMAC-SHA256 of `msg` under `key`.
pub uninterp spec fn hmac32(key: Seq<u8>, msg: Seq<u8>) -> Seq<u8>;

/// SHA-256 of `data`.
pub uninterp spec fn sha32(data: Seq<u8>) -> Seq<u8>;

/// ChaCha20-Poly1305 encryption: ciphertext and tag.
pub uninterp spec fn aead_encrypt(key: Seq<u8>, nonce: Seq<u8>, aad: Seq<u8>, text: Seq<u8>) -> (
    Seq<u8>,
    Seq<u8>,
);

/// ChaCha20-Poly1305 decryption: the text, when the tag verifies.
pub uninterp spec fn aead_decrypt(
    key: Seq<u8>,
    nonce: Seq<u8>,
    aad: Seq<u8>,
    body: Seq<u8>,
    tag: Seq<u8>,
) -> Option<Seq<u8>>;

/// `hkdf::Hkdf::<Sha256>::new` and `expand` for 32 bytes: a function of the
/// three inputs. A request for 32 bytes is always within the length limit.
#[verifier::external_body]
fn hkdf_sha256(ikm: &[u8], salt: &[u8], info: &[u8]) -> (r: [u8; 32])
    ensures
        r@ == hkdf32(ikm@, salt@, info@),
{
    let hk = Hkdf::<Sha256>::new(Some(salt), ikm);
    let mut okm = [0u8; 32];
    hk.expand(info, &mut okm).expect("32 bytes is a valid length");
    okm
}

/// `hmac::Hmac::<Sha256>`: the code of the whole message under the key. Every
/// key length is accepted.
#[verifier::external_body]
fn hmac_sha256(key: &[u8], msg: &[u8]) -> (r: [u8; 32])
    ensures
        r@ == hmac32(key@, msg@),
{
    let mut mac = <Hmac<Sha256> as Mac>::new_from_slice(key).expect("hmac accepts any key length");
    mac.update(msg);
    mac.finalize().into_bytes().into()
}

/// `sha2::Sha256::digest`: the hash of the data.
#[verifier::external_body]
pub(crate) fn sha256(data: &[u8]) -> (r: [u8; 32])
    ensures
        r@ == sha32(data@),
{
    Sha256::digest(data).into()
}

/// `ChaCha20Poly1305::encrypt_in_place_detached`: the text is replaced by its
/// ciphertext of the same length and the tag is returned. Decrypting with the
/// same key, nonce and associated data gives the text back.
#[verifier::external_body]
fn chacha_encrypt(key: &[u8; 32], nonce: &[u8; 12], aad: &[u8], buf: &mut Vec<u8>) -> (r: [u8; 16])
    requires
        old(buf)@.len() <= MAX_SEAL,
    ensures
        (final(buf)@, r@) == aead_encrypt(key@, nonce@, aad@, old(buf)@),
        final(buf)@.len() == old(buf)@.len(),
        aead_decrypt(key@, nonce@, aad@, final(buf)@, r@) == Some(old(buf)@),
{
    ChaCha20Poly1305::new(Key::from_slice(key))
        .encrypt_in_place_detached(Nonce::from_slice(nonce), aad, buf)
        .expect("length is within the cipher's limit")
        .into()
}

/// `ChaCha20Poly1305::decrypt_in_place_detached`: when the tag verifies the
/// ciphertext is replaced by a text of the same length; otherwise it is left
/// as it was.
#[verifier::external_body]
fn chacha_decrypt(
    key: &[u8; 32],
    nonce: &[u8; 12],
    aad: &[u8],
    buf: &mut Vec<u8>,
    tag: &[u8; 16],
) -> (r: bool)
    requires
        old(buf)@.len() <= MAX_SEAL,
    ensures
        r == (aead_decrypt(key@, nonce@, aad@, old(buf)@, tag@) is Some),
        r ==> Some(final(buf)@) == aead_decrypt(key@, nonce@, aad@, old(buf)@, tag@),
        final(buf)@.len() == old(buf)@.len(),
{
    ChaCha20Poly1305::new(Key::from_slice(key))
        .decrypt_in_place_detached(Nonce::from_slice(nonce), aad, buf, Tag::from_slice(tag))
        .is_ok()
}

/// `rand::rngs::OsRng::fill_bytes`: as many bytes as asked for. Nothing is
/// promised of their value.
#[verifier::external_body]
pub(crate) fn random_bytes(n: usize) -> (r: Vec<u8>)
    ensures
        r@.len() == n,
{
    let mut v = vec![0u8; n];
    rand::rngs::OsRng.fill_bytes(&mut v);
    v
}

/// Sixteen random bytes.
pub(crate) fn random_salt() -> (r: [u8; 16]) {
    take16(random_bytes(SALT_LEN).as_slice())
}

// ---------------------------------------------------------------------------
// Keys
// ---------------------------------------------------------------------------
/// The per-user static key.
pub open spec fn static_key_spec(password: Seq<char>, uid: Seq<char>) -> Seq<u8> {
    hkdf32(encode_utf8(password), encode_utf8("newppp-v1"@), encode_utf8("newppp/auth/"@ + uid))
}

/// The key of one session.
pub open spec fn session_key_spec(static_key: Seq<u8>, salt: Seq<u8>) -> Seq<u8> {
    hkdf32(static_key, salt, encode_utf8("newppp/session"@))
}

pub fn derive_static_key(password: &str, uid: &str) -> (r: [u8; 32])
    ensures
        r@ == static_key_spec(password@, uid@),
{
    let info = text::own("newppp/auth/").concat(uid);
    hkdf_sha256(password.as_bytes(), "newppp-v1".as_bytes(), info.as_str().as_bytes())
}

pub fn derive_session_key(static_key: &[u8; 32], salt: &[u8; 16]) -> (r: [u8; 32])
    ensures
        r@ == session_key_spec(static_key@, salt@),
{
    hkdf_sha256(static_key.as_slice(), salt.as_slice(), "newppp/session".as_bytes())
}

// ---------------------------------------------------------------------------
// Frame cipher
// ---------------------------------------------------------------------------
/// Nonce of a counter: four zero bytes, then the counter, high byte first.
pub open spec fn nonce_spec(counter: u64) -> Seq<u8> {
    seq![0u8, 0u8, 0u8, 0u8] + wire::be(counter as nat, 8)
}

/// Distinct counters have distinct nonces.
pub proof fn law_nonce_injective(a: u64, b: u64)
    requires
        nonce_spec(a) == nonce_spec(b),
    ensures
        a == b,
{
    wire::lemma_pow256();
    wire::lemma_be_roundtrip(a as nat, 8);
    wire::lemma_be_roundtrip(b as nat, 8);
    assert(nonce_spec(a).skip(4) =~= wire::be(a as nat, 8));
    assert(nonce_spec(b).skip(4) =~= wire::be(b as nat, 8));
}

fn nonce_for(counter: u64) -> (r: [u8; 12])
    ensures
        r@ == nonce_spec(counter),
{
    let mut v: Vec<u8> = Vec::new();
    wire::push_be(&mut v, counter, 8);
    proof {
        wire::lemma_be_len(counter as nat, 8);
    }
    let r = [0u8, 0u8, 0u8, 0u8, v[0], v[1], v[2], v[3], v[4], v[5], v[6], v[7]];
    assert(r@ =~= nonce_spec(counter));
    r
}

#[derive(Clone, Copy, Debug, PartialEq, Eq, Structural)]
pub enum CipherError {
    SealFailed,
    TooShort,
    OpenFailed,
}

impl CipherError {
    /// What went wrong, in words.
    pub fn message(&self) -> (r: &'static str)
        ensures
            r@ == match *self {
                CipherError::SealFailed => "aead seal failed"@,
                CipherError::TooShort => "ciphertext too short"@,
                CipherError::OpenFailed => "aead open failed"@,
            },
    {
        match self {
            CipherError::SealFailed => "aead seal failed",
            CipherError::TooShort => "ciphertext too short",
            CipherError::OpenFailed => "aead open failed",
        }
    }
}

/// Ciphertext followed by its tag.
pub open spec fn seal_spec(key: Seq<u8>, counter: u64, aad: Seq<u8>, plaintext: Seq<u8>) -> Seq<u8> {
    let (ct, tag) = aead_encrypt(key, nonce_spec(counter), aad, plaintext);
    ct + tag
}

/// The text of a ciphertext that carries its tag at the end.
pub open spec fn open_spec(key: Seq<u8>, counter: u64, aad: Seq<u8>, ciphertext: Seq<u8>) -> Result<
    Seq<u8>,
    CipherError,
> {
    if ciphertext.len() < TAG_LEN {
        Err(CipherError::TooShort)
    } else if ciphertext.len() - TAG_LEN > MAX_SEAL {
        Err(CipherError::OpenFailed)
    } else {
        let n = ciphertext.len() - TAG_LEN;
        match aead_decrypt(key, nonce_spec(counter), aad, ciphertext.take(n), ciphertext.skip(n)) {
            Some(p) => Ok(p),
            None => Err(CipherError::OpenFailed),
        }
    }
}

/// Frame protection under one key.
pub struct FrameCipher {
    key: [u8; 32],
}

impl FrameCipher {
    pub closed spec fn key(self) -> Seq<u8> {
        self.key@
    }

    pub fn new(key: &[u8; 32]) -> (r: Self)
        ensures
            r.key() == key@,
    {
        FrameCipher { key: *key }
    }

    /// Encrypt `plaintext`; the result is the ciphertext followed by a 16-byte
    /// tag. Opening it with the same counter and associated data gives the
    /// plaintext back.
    pub fn seal(&self, counter: u64, aad: &[u8], plaintext: &[u8]) -> (r: Result<
        Vec<u8>,
        CipherError,
    >)
        ensures
            match r {
                Ok(ct) => {
                    &&& plaintext@.len() <= MAX_SEAL
                    &&& ct@ == seal_spec(self.key(), counter, aad@, plaintext@)
                    &&& ct@.len() == plaintext@.len() + TAG_LEN
                    &&& open_spec(self.key(), counter, aad@, ct@) == Ok::<Seq<u8>, CipherError>(
                        plaintext@,
                    )
                },
                Err(e) => plaintext@.len() > MAX_SEAL && e == CipherError::SealFailed,
            },
    {
        if plaintext.len() as u64 > MAX_SEAL {
            return Err(CipherError::SealFailed);
        }
        let mut buf = wire::copy_bytes(plaintext);
        let tag = chacha_encrypt(&self.key, &nonce_for(counter), aad, &mut buf);
        let ghost body = buf@;
        wire::push_bytes(&mut buf, tag.as_slice());
        assert(buf@.take(body.len() as int) =~= body);
        assert(buf@.skip(body.len() as int) =~= tag@);
        Ok(buf)
    }

    /// Decrypt `ciphertext` (text and tag).
    pub fn open(&self, counter: u64, aad: &[u8], ciphertext: &[u8]) -> (r: Result<
        Vec<u8>,
        CipherError,
    >)
        ensures
            match r {
                Ok(p) => {
                    &&& open_spec(self.key(), counter, aad@, ciphertext@) == Ok::<
                        Seq<u8>,
                        CipherError,
                    >(p@)
                    &&& p@.len() + TAG_LEN == ciphertext@.len()
                },
                Err(e) => open_spec(self.key(), counter, aad@, ciphertext@) == Err::<
                    Seq<u8>,
                    CipherError,
                >(e),
            },
    {
        if ciphertext.len() < TAG_LEN {
            return Err(CipherError::TooShort);
        }
        let n: usize = ciphertext.len() - TAG_LEN;
        if n as u64 > MAX_SEAL {
            return Err(CipherError::OpenFailed);
        }
        let mut buf = wire::copy_bytes(wire::slice(ciphertext, 0, n));
        let tag = take16(wire::slice(ciphertext, n, ciphertext.len()));
        assert(buf@ =~= ciphertext@.take(n as int));
        assert(tag@ =~= ciphertext@.skip(n as int));
        if chacha_decrypt(&self.key, &nonce_for(counter), aad, &mut buf, &tag) {
            Ok(buf)
        } else {
            Err(CipherError::OpenFailed)
        }
    }
}

/// Sixteen bytes as an array.
pub(crate) fn take16(b: &[u8]) -> (r: [u8; 16])
    requires
        b@.len() == 16,
    ensures
        r@ == b@,
{
    let r = [
        b[0],
        b[1],
        b[2],
        b[3],
        b[4],
        b[5],
        b[6],
        b[7],
        b[8],
        b[9],
        b[10],
        b[11],
        b[12],
        b[13],
        b[14],
        b[15],
    ];
    assert(r@ =~= b@);
    r
}

/// Thirty-two bytes as an array.
pub(crate) fn take32(b: &[u8]) -> (r: [u8; 32])
    requires
        b@.len() == 32,
    ensures
        r@ == b@,
{
    let mut r = [0u8; 32];
    let mut i: usize = 0;
    while i < 32
        invariant
            i <= 32,
            b@.len() == 32,
            forall|j: int| 0 <= j < i ==> r@[j] == b@[j],
        decreases 32 - i,
    {
        r[i] = b[i];
        i += 1;
    }
    assert(r@ =~= b@);
    r
}

// ---------------------------------------------------------------------------
// Counters
// ---------------------------------------------------------------------------
/// First counter of each channel of a session.
pub const STREAM_BASE: u64 = 1;

pub const STREAM_SERVER_BASE: u64 = 0x4000_0000_0000_0000;

pub const DATAGRAM_BASE: u64 = 0x8000_0000_0000_0000;

pub const DATAGRAM_SERVER_BASE: u64 = 0xc000_0000_0000_0000;

/// Monotonic nonce counter generator. Stream frames and datagrams use disjoint
/// generators (high bit set for datagrams), and so do the two ends. There is
/// no copy of a generator: two copies would hand out one counter twice.
pub struct CounterGen {
    base: u64,
    next: u64,
}

impl CounterGen {
    /// The first counter.
    pub closed spec fn base(self) -> u64 {
        self.base
    }

    /// How many counters were handed out.
    pub closed spec fn issued(self) -> nat {
        self.next as nat
    }

    pub fn stream() -> (r: Self)
        ensures
            r.base() == STREAM_BASE,
            r.issued() == 0,
    {
        CounterGen { base: STREAM_BASE, next: 0 }
    }

    pub fn datagram() -> (r: Self)
        ensures
            r.base() == DATAGRAM_BASE,
            r.issued() == 0,
    {
        CounterGen { base: DATAGRAM_BASE, next: 0 }
    }

    pub fn stream_server() -> (r: Self)
        ensures
            r.base() == STREAM_SERVER_BASE,
            r.issued() == 0,
    {
        CounterGen { base: STREAM_SERVER_BASE, next: 0 }
    }

    pub fn datagram_server() -> (r: Self)
        ensures
            r.base() == DATAGRAM_SERVER_BASE,
            r.issued() == 0,
    {
        CounterGen { base: DATAGRAM_SERVER_BASE, next: 0 }
    }

    /// Whether another counter is left.
    pub fn has_next(&self) -> (r: bool)
        ensures
            r == (self.base() + self.issued() <= u64::MAX && self.issued() < u64::MAX),
    {
        self.next <= u64::MAX - self.base && self.next < u64::MAX
    }

    /// The next counter, one higher than the last.
    pub fn next(&mut self) -> (r: u64)
        requires
            old(self).base() + old(self).issued() <= u64::MAX,
            old(self).issued() < u64::MAX,
        ensures
            r == old(self).base() + old(self).issued(),
            final(self).base() == old(self).base(),
            final(self).issued() == old(self).issued() + 1,
    {
        let r = self.base + self.next;
        self.next = self.next + 1;
        r
    }
}

/// The counters of the four channels of a session never meet: the `i`-th
/// counter of one channel and the `j`-th of another differ, stream counters
/// stay below 2^63 and datagram counters do not, as long as no channel hands
/// out 2^62 - 1 counters.
pub proof fn law_counter_spaces_disjoint(a: u64, i: nat, b: u64, j: nat)
    requires
        a == STREAM_BASE || a == STREAM_SERVER_BASE || a == DATAGRAM_BASE || a
            == DATAGRAM_SERVER_BASE,
        b == STREAM_BASE || b == STREAM_SERVER_BASE || b == DATAGRAM_BASE || b
            == DATAGRAM_SERVER_BASE,
        i < 0x3fff_ffff_ffff_ffff,
        j < 0x3fff_ffff_ffff_ffff,
    ensures
        a + i == b + j ==> a == b && i == j,
        (a == STREAM_BASE || a == STREAM_SERVER_BASE) ==> a + i < 0x8000_0000_0000_0000,
        (a == DATAGRAM_BASE || a == DATAGRAM_SERVER_BASE) ==> 0x8000_0000_0000_0000 <= a + i
            <= u64::MAX,
{
}

// ---------------------------------------------------------------------------
// Replay window
// ---------------------------------------------------------------------------
/// Sliding-window replay filter for the unreliable datagram channel: the
/// highest counter seen and the ones seen among the 64 up to it.
pub struct ReplayWindow {
    highest: u64,
    mask: u64,
}

pub open spec fn bit_set(mask: u64, k: u64) -> bool {
    mask & (1u64 << k) != 0
}

proof fn lemma_shifted_bits(mask: u64, shift: u64, k: u64)
    requires
        0 < shift < 64,
        k < 64,
    ensures
        bit_set((mask << shift) | 1, k) <==> (k == 0 || (k >= shift && bit_set(
            mask,
            (k - shift) as u64,
        ))),
{
    let e: u64 = if k >= shift {
        (k - shift) as u64
    } else {
        0
    };
    assert((((mask << shift) | 1) & (1u64 << k) != 0) <==> (k == 0 || (k >= shift && (mask & (1u64
        << e) != 0)))) by (bit_vector)
        requires
            0 < shift < 64,
            k < 64,
            k >= shift ==> e + shift == k,
    ;
}

proof fn lemma_added_bit(mask: u64, d: u64, k: u64)
    requires
        d < 64,
        k < 64,
    ensures
        bit_set(mask | (1u64 << d), k) <==> (k == d || bit_set(mask, k)),
{
    assert(((mask | (1u64 << d)) & (1u64 << k) != 0) <==> (k == d || (mask & (1u64 << k) != 0)))
        by (bit_vector)
        requires
            d < 64,
            k < 64,
    ;
}

proof fn lemma_one_bit(k: u64)
    requires
        k < 64,
    ensures
        bit_set(1, k) <==> k == 0,
{
    assert((1u64 & (1u64 << k) != 0) <==> k == 0) by (bit_vector)
        requires
            k < 64,
    ;
}

impl ReplayWindow {
    /// The highest counter accepted so far; 0 before the first.
    pub closed spec fn highest(self) -> u64 {
        self.highest
    }

    /// `c` lies in the window and was accepted.
    pub closed spec fn seen(self, c: u64) -> bool {
        self.highest > 0 && c <= self.highest && self.highest - c < 64 && bit_set(
            self.mask,
            (self.highest - c) as u64,
        )
    }

    /// `c` will not be accepted: it is zero, was accepted before, or has
    /// fallen out of the window.
    pub open spec fn blocked(self, c: u64) -> bool {
        c == 0 || self.seen(c) || (self.highest() > 0 && c + 64 <= self.highest())
    }

    pub fn new() -> (r: Self)
        ensures
            r.highest() == 0,
            forall|c: u64| !r.seen(c),
    {
        ReplayWindow { highest: 0, mask: 0 }
    }

    /// Returns false if the counter was already seen (or is out of window).
    pub fn check(&mut self, counter: u64) -> (r: bool)
        ensures
            r == !old(self).blocked(counter),
            r ==> final(self).highest() == if counter > old(self).highest() {
                counter
            } else {
                old(self).highest()
            },
            r ==> forall|c: u64| #[trigger]
                final(self).seen(c) <==> (c == counter || old(self).seen(c)) && c + 64
                    > final(self).highest(),
            !r ==> *final(self) == *old(self),
    {
        if counter == 0 {
            return false;
        }
        if self.highest == 0 {
            self.highest = counter;
            self.mask = 1;
            proof {
                assert forall|c: u64| #[trigger]
                    self.seen(c) <==> (c == counter || old(self).seen(c)) && c + 64
                        > self.highest() by {
                    if c <= counter && counter - c < 64 {
                        lemma_one_bit((counter - c) as u64);
                    }
                }
            }
            return true;
        }
        if counter > self.highest {
            let gap = counter - self.highest;
            if gap >= 64 {
                self.mask = 1;
            } else {
                self.mask = (self.mask << gap) | 1;
            }
            self.highest = counter;
            proof {
                assert forall|c: u64| #[trigger]
                    self.seen(c) <==> (c == counter || old(self).seen(c)) && c + 64
                        > self.highest() by {
                    if c <= counter && counter - c < 64 {
                        if gap >= 64 {
                            lemma_one_bit((counter - c) as u64);
                        } else {
                            lemma_shifted_bits(old(self).mask, gap, (counter - c) as u64);
                        }
                    }
                }
            }
            true
        } else {
            let d = self.highest - counter;
            if d >= 64 || self.mask & (1u64 << d) != 0 {
                false
            } else {
                self.mask = self.mask | (1u64 << d);
                proof {
                    assert forall|c: u64| #[trigger]
                        self.seen(c) <==> (c == counter || old(self).seen(c)) && c + 64
                            > self.highest() by {
                        if c <= self.highest && self.highest - c < 64 {
                            lemma_added_bit(old(self).mask, d, (self.highest - c) as u64);
                        }
                    }
                }
                true
            }
        }
    }
}

/// `b` is what one check of `c` can make of the window `a`, with verdict `ok`.
pub open spec fn window_step(a: ReplayWindow, c: u64, ok: bool, b: ReplayWindow) -> bool {
    &&& ok == !a.blocked(c)
    &&& ok ==> b.highest() == if c > a.highest() {
        c
    } else {
        a.highest()
    }
    &&& ok ==> forall|x: u64| #[trigger]
        b.seen(x) <==> (x == c || a.seen(x)) && x + 64 > b.highest()
    &&& !ok ==> b == a
}

/// A counter that was accepted, or refused once, is refused from then on.
pub proof fn law_window_never_reopens(a: ReplayWindow, c: u64, ok: bool, b: ReplayWindow, x: u64)
    requires
        window_step(a, c, ok, b),
    ensures
        b.blocked(c),
        a.blocked(x) ==> b.blocked(x),
{
}

/// In any run of checks a counter is accepted at most once: when the `i`-th
/// and a later check are of the same counter, the later one is refused.
pub proof fn law_window_accepts_once(
    w: Seq<ReplayWindow>,
    counters: Seq<u64>,
    verdicts: Seq<bool>,
    i: int,
    j: int,
)
    requires
        w.len() == counters.len() + 1,
        verdicts.len() == counters.len(),
        forall|k: int|
            0 <= k < counters.len() ==> window_step(
                #[trigger] w[k],
                counters[k],
                verdicts[k],
                w[k + 1],
            ),
        0 <= i < j < counters.len(),
        counters[i] == counters[j],
    ensures
        !verdicts[j],
{
    let c = counters[i];
    assert(window_step(w[i], c, verdicts[i], w[i + 1]));
    law_window_never_reopens(w[i], c, verdicts[i], w[i + 1], c);
    lemma_blocked_stays(w, counters, verdicts, c, i + 1, j);
    assert(window_step(w[j], c, verdicts[j], w[j + 1]));
}

proof fn lemma_blocked_stays(
    w: Seq<ReplayWindow>,
    counters: Seq<u64>,
    verdicts: Seq<bool>,
    c: u64,
    from: int,
    to: int,
)
    requires
        w.len() == counters.len() + 1,
        verdicts.len() == counters.len(),
        forall|k: int|
            0 <= k < counters.len() ==> window_step(
                #[trigger] w[k],
                counters[k],
                verdicts[k],
                w[k + 1],
            ),
        0 <= from <= to <= counters.len(),
        w[from].blocked(c),
    ensures
        w[to].blocked(c),
    decreases to - from,
{
    if from < to {
        assert(window_step(w[from], counters[from], verdicts[from], w[from + 1]));
        law_window_never_reopens(w[from], counters[from], verdicts[from], w[from + 1], c);
        lemma_blocked_stays(w, counters, verdicts, c, from + 1, to);
    }
}

// ---------------------------------------------------------------------------
// Hexadecimal
// ---------------------------------------------------------------------------
pub open spec fn hex_digit(d: nat) -> char {
    if d < 10 {
        ('0' as nat + d) as char
    } else {
        ('a' as nat + d - 10) as char
    }
}

/// The value of a hexadecimal digit, in either case.
pub open spec fn hex_value(c: char) -> Option<nat> {
    if '0' <= c <= '9' {
        Some((c as nat - '0' as nat) as nat)
    } else if 'a' <= c <= 'f' {
        Some((c as nat - 'a' as nat + 10) as nat)
    } else if 'A' <= c <= 'F' {
        Some((c as nat - 'A' as nat + 10) as nat)
    } else {
        None
    }
}

/// Two lower-case digits for every byte.
pub open spec fn hex_spec(b: Seq<u8>) -> Seq<char> {
    Seq::new(
        2 * b.len(),
        |i: int|
            if i % 2 == 0 {
                hex_digit((b[i / 2] / 16) as nat)
            } else {
                hex_digit((b[i / 2] % 16) as nat)
            },
    )
}

pub open spec fn all_hex(s: Seq<char>) -> bool {
    forall|i: int| 0 <= i < s.len() ==> hex_value(#[trigger] s[i]) is Some
}

/// The bytes that pairs of digits spell.
pub open spec fn unhex_spec(s: Seq<char>) -> Option<Seq<u8>> {
    if s.len() % 2 == 0 && all_hex(s) {
        Some(
            Seq::new(
                s.len() / 2,
                |i: int| (hex_value(s[2 * i])->0 * 16 + hex_value(s[2 * i + 1])->0) as u8,
            ),
        )
    } else {
        None
    }
}

/// Bytes written in hexadecimal read back as themselves.
pub proof fn law_hex_roundtrip(b: Seq<u8>)
    ensures
        unhex_spec(hex_spec(b)) == Some(b),
{
    let s = hex_spec(b);
    assert forall|i: int| 0 <= i < s.len() implies hex_value(#[trigger] s[i]) is Some by {
        let x = b[i / 2];
        assert(x / 16 < 16 && x % 16 < 16);
    }
    let r = unhex_spec(s)->0;
    assert forall|i: int| 0 <= i < b.len() implies r[i] == b[i] by {
        assert((2 * i) / 2 == i && (2 * i) % 2 == 0 && (2 * i + 1) / 2 == i && (2 * i + 1) % 2
            == 1);
        let x = b[i];
        assert(hex_value(s[2 * i])->0 == x / 16);
        assert(hex_value(s[2 * i + 1])->0 == x % 16);
        assert((x / 16) * 16 + x % 16 == x);
    }
    assert(r =~= b);
}

fn digit_of(d: u8) -> (r: char)
    requires
        d < 16,
    ensures
        r == hex_digit(d as nat),
{
    if d < 10 {
        (48u8 + d) as char
    } else {
        (87u8 + d) as char
    }
}

/// The value of a hexadecimal digit.
pub(crate) fn value_of(c: char) -> (r: Option<u8>)
    ensures
        match r {
            Some(d) => hex_value(c) == Some(d as nat) && d < 16,
            None => hex_value(c) is None,
        },
{
    if '0' <= c && c <= '9' {
        Some((c as u32 - 48) as u8)
    } else if 'a' <= c && c <= 'f' {
        Some((c as u32 - 87) as u8)
    } else if 'A' <= c && c <= 'F' {
        Some((c as u32 - 55) as u8)
    } else {
        None
    }
}

pub fn hex(b: &[u8]) -> (r: String)
    ensures
        r@ == hex_spec(b@),
{
    let mut s = String::new();
    let mut i: usize = 0;
    while i < b.len()
        invariant
            i <= b.len(),
            s@ =~= hex_spec(b@.take(i as int)),
        decreases b.len() - i,
    {
        let x = b[i];
        let ghost before = s@;
        s.push(digit_of(x / 16));
        s.push(digit_of(x % 16));
        proof {
            let next = hex_spec(b@.take(i + 1));
            assert(before.len() == 2 * i);
            assert forall|k: int| 0 <= k < next.len() implies s@[k] == next[k] by {
                if k < 2 * i {
                    assert(k / 2 < i);
                    assert(before[k] == hex_spec(b@.take(i as int))[k]);
                }
            }
            assert(s@ =~= next);
        }
        i += 1;
    }
    assert(b@.take(i as int) =~= b@);
    s
}

pub fn unhex(s: &str) -> (r: Option<Vec<u8>>)
    ensures
        match r {
            Some(v) => unhex_spec(s@) == Some(v@),
            None => unhex_spec(s@) is None,
        },
{
    unhex_chars(text::chars_of(s).as_slice())
}

/// `unhex` on characters.
pub(crate) fn unhex_chars(c: &[char]) -> (r: Option<Vec<u8>>)
    ensures
        match r {
            Some(v) => unhex_spec(c@) == Some(v@),
            None => unhex_spec(c@) is None,
        },
{
    if c.len() % 2 != 0 {
        return None;
    }
    let mut out: Vec<u8> = Vec::new();
    let mut i: usize = 0;
    while i < c.len()
        invariant
            i <= c.len(),
            i % 2 == 0,
            c.len() % 2 == 0,
            out@.len() == i / 2,
            forall|j: int| 0 <= j < i ==> hex_value(#[trigger] c@[j]) is Some,
            forall|j: int|
                0 <= j < out@.len() ==> #[trigger] out@[j] == (hex_value(c@[2 * j])->0 * 16
                    + hex_value(c@[2 * j + 1])->0) as u8,
        decreases c.len() - i,
    {
        let hi = match value_of(c[i]) {
            Some(d) => d,
            None => {
                return None;
            },
        };
        let lo = match value_of(c[i + 1]) {
            Some(d) => d,
            None => {
                return None;
            },
        };
        out.push(hi * 16 + lo);
        i += 2;
    }
    assert(out@ =~= unhex_spec(c@)->0);
    Some(out)
}

// ---------------------------------------------------------------------------
// Authentication codes
// ---------------------------------------------------------------------------
/// What an authentication code covers: `newppp-auth|uid|ts|nonce`.
pub open spec fn mac_message(uid: Seq<char>, ts: u64, nonce: Seq<u8>) -> Seq<u8> {
    encode_utf8("newppp-auth|"@) + encode_utf8(uid) + encode_utf8("|"@) + wire::le(ts as nat, 8)
        + encode_utf8("|"@) + nonce
}

pub open spec fn auth_mac_spec(key: Seq<u8>, uid: Seq<char>, ts: u64, nonce: Seq<u8>) -> Seq<u8> {
    hmac32(key, mac_message(uid, ts, nonce))
}

/// The covered message determines user, time and nonce.
pub proof fn law_mac_message_injective(
    uid1: Seq<char>,
    ts1: u64,
    nonce1: Seq<u8>,
    uid2: Seq<char>,
    ts2: u64,
    nonce2: Seq<u8>,
)
    requires
        nonce1.len() == SALT_LEN,
        nonce2.len() == SALT_LEN,
        mac_message(uid1, ts1, nonce1) == mac_message(uid2, ts2, nonce2),
    ensures
        uid1 == uid2,
        ts1 == ts2,
        nonce1 == nonce2,
{
    wire::lemma_pow256();
    wire::lemma_le_roundtrip(ts1 as nat, 8);
    wire::lemma_le_roundtrip(ts2 as nat, 8);
    let m1 = mac_message(uid1, ts1, nonce1);
    let m2 = mac_message(uid2, ts2, nonce2);
    let head = encode_utf8("newppp-auth|"@).len() as int;
    let bar = encode_utf8("|"@).len() as int;
    let n = m1.len() as int;
    assert(m1.skip(n - 16) =~= nonce1);
    assert(m2.skip(n - 16) =~= nonce2);
    let t = n - 16 - bar - 8;
    assert(m1.subrange(t, t + 8) =~= wire::le(ts1 as nat, 8));
    assert(m2.subrange(t, t + 8) =~= wire::le(ts2 as nat, 8));
    assert(m1.subrange(head, t - bar) =~= encode_utf8(uid1));
    assert(m2.subrange(head, t - bar) =~= encode_utf8(uid2));
    wire::lemma_utf8_roundtrip(uid1);
    wire::lemma_utf8_roundtrip(uid2);
}

/// HMAC-SHA256 over uid, time and nonce with the user's static key.
pub fn auth_mac(key: &[u8; 32], uid: &str, ts: u64, nonce: &[u8; 16]) -> (r: [u8; 32])
    ensures
        r@ == auth_mac_spec(key@, uid@, ts, nonce@),
{
    let mut m: Vec<u8> = Vec::new();
    wire::push_bytes(&mut m, "newppp-auth|".as_bytes());
    wire::push_bytes(&mut m, uid.as_bytes());
    wire::push_bytes(&mut m, "|".as_bytes());
    wire::push_le(&mut m, ts, 8);
    wire::push_bytes(&mut m, "|".as_bytes());
    wire::push_bytes(&mut m, nonce.as_slice());
    assert(m@ =~= mac_message(uid@, ts, nonce@));
    hmac_sha256(key.as_slice(), m.as_slice())
}

/// Seconds since the Unix epoch by the calibrated clock.
pub fn now_unix(clock: &Clock) -> (r: u64)
    ensures
        is_reading(*clock, r),
{
    crate::clock::now_unix(clock)
}

/// `ts` is at most `window` seconds away from `now`.
pub open spec fn fresh(now: u64, ts: u64, window: u64) -> bool {
    now - ts <= window && ts - now <= window
}

/// Authentication material is good for a minute before and after its time.
pub proof fn law_material_is_fresh_for_a_minute(now: u64, ts: u64, window: u64)
    ensures
        fresh(now, ts, AUTH_WINDOW) <==> ts <= now + 60 && now <= ts + 60,
        fresh(now, ts, window) <==> ts <= now + window && now <= ts + window,
        fresh(now, now, window),
{
}

fn is_fresh(now: u64, ts: u64, window: u64) -> (r: bool)
    ensures
        r == fresh(now, ts, window),
{
    now.saturating_sub(ts) <= window && ts.saturating_sub(now) <= window
}

/// Comparison that looks at every byte whatever the first ones hold.
pub(crate) fn same_mac(a: &[u8; 32], b: &[u8; 32]) -> (r: bool)
    ensures
        r == (a@ == b@),
{
    let mut diff: u8 = 0;
    let mut i: usize = 0;
    while i < 32
        invariant
            i <= 32,
            diff == 0 <==> forall|j: int| 0 <= j < i ==> a@[j] == b@[j],
        decreases 32 - i,
    {
        let x = a[i];
        let y = b[i];
        let d = diff;
        diff = d | (x ^ y);
        assert((d | (x ^ y)) == 0 <==> d == 0 && x == y) by (bit_vector);
        i += 1;
    }
    if diff == 0 {
        assert(a@ =~= b@);
    }
    diff == 0
}

// ---------------------------------------------------------------------------
// Bearer tokens
// ---------------------------------------------------------------------------
/// Bearer token: `uid.ts.nonce.mac`, nonce and code in hexadecimal.
pub open spec fn bearer_text(key: Seq<u8>, uid: Seq<char>, ts: u64, nonce: Seq<u8>) -> Seq<char> {
    uid + "."@ + text::decimal(ts as nat) + "."@ + hex_spec(nonce) + "."@ + hex_spec(
        auth_mac_spec(key, uid, ts, nonce),
    )
}

/// Time, nonce and code that a token of `uid` carries.
pub open spec fn bearer_claim(token: Seq<char>, uid: Seq<char>) -> Option<(u64, Seq<u8>, Seq<u8>)> {
    let p = text::split(token, '.');
    if p.len() != 4 || p[0] != uid {
        None
    } else {
        match (text::parse_unsigned(p[1], u64::MAX as nat), unhex_spec(p[2]), unhex_spec(p[3])) {
            (Some(ts), Some(nonce), Some(mac)) => if nonce.len() == SALT_LEN && mac.len()
                == MAC_LEN {
                Some((ts as u64, nonce, mac))
            } else {
                None
            },
            _ => None,
        }
    }
}

/// Time and nonce of a token that is good for `uid` at `now`.
pub open spec fn bearer_verdict(
    token: Seq<char>,
    key: Seq<u8>,
    uid: Seq<char>,
    window: u64,
    now: u64,
) -> Option<(u64, Seq<u8>)> {
    match bearer_claim(token, uid) {
        Some((ts, nonce, mac)) => if fresh(now, ts, window) && mac == auth_mac_spec(
            key,
            uid,
            ts,
            nonce,
        ) {
            Some((ts, nonce))
        } else {
            None
        },
        None => None,
    }
}

proof fn lemma_split_part(a: Seq<char>, b: Seq<char>)
    requires
        !a.contains('.'),
    ensures
        text::split(a + "."@ + b, '.') == seq![a] + text::split(b, '.'),
{
    reveal_strlit(".");
    let s = a + "."@ + b;
    assert forall|j: int| 0 <= j < a.len() implies s[j] != '.' by {
        assert(s[j] == a[j]);
        assert(a.contains(a[j]));
    }
    assert(s[a.len() as int] == '.');
    text::lemma_find_is(s, '.', a.len() as int);
    assert(s.take(a.len() as int) =~= a);
    assert(s.skip(a.len() as int + 1) =~= b);
}

proof fn lemma_split_whole(a: Seq<char>)
    requires
        !a.contains('.'),
    ensures
        text::split(a, '.') == seq![a],
{
    text::lemma_find(a, '.');
}

/// Four parts without dots, joined by dots, come apart again.
proof fn lemma_split_four(a: Seq<char>, b: Seq<char>, c: Seq<char>, d: Seq<char>)
    requires
        !a.contains('.'),
        !b.contains('.'),
        !c.contains('.'),
        !d.contains('.'),
    ensures
        text::split(a + "."@ + b + "."@ + c + "."@ + d, '.') == seq![a, b, c, d],
{
    let t2 = c + "."@ + d;
    let t1 = b + "."@ + t2;
    lemma_split_part(a, t1);
    lemma_split_part(b, t2);
    lemma_split_part(c, d);
    lemma_split_whole(d);
    assert(a + "."@ + b + "."@ + c + "."@ + d =~= a + "."@ + t1);
    assert(seq![a] + (seq![b] + (seq![c] + seq![d])) =~= seq![a, b, c, d]);
}

proof fn lemma_hex_has_no_dot(b: Seq<u8>)
    ensures
        !hex_spec(b).contains('.'),
{
    law_hex_roundtrip(b);
    assert(all_hex(hex_spec(b)));
    assert forall|i: int| 0 <= i < hex_spec(b).len() implies hex_spec(b)[i] != '.' by {
        assert(hex_value(hex_spec(b)[i]) is Some);
    }
}

/// A token made for `uid` at `ts` is good for that user while `ts` is fresh,
/// and carries its time and nonce.
pub proof fn law_bearer_roundtrip(
    key: Seq<u8>,
    uid: Seq<char>,
    ts: u64,
    nonce: Seq<u8>,
    window: u64,
    now: u64,
)
    requires
        nonce.len() == SALT_LEN,
        auth_mac_spec(key, uid, ts, nonce).len() == MAC_LEN,
        !uid.contains('.'),
    ensures
        bearer_verdict(bearer_text(key, uid, ts, nonce), key, uid, window, now) == if fresh(
            now,
            ts,
            window,
        ) {
            Some((ts, nonce))
        } else {
            None
        },
{
    let mac = auth_mac_spec(key, uid, ts, nonce);
    let d = text::decimal(ts as nat);
    let hn = hex_spec(nonce);
    let hm = hex_spec(mac);
    text::lemma_decimal(ts as nat);
    text::lemma_decimal_roundtrip(ts as nat, u64::MAX as nat);
    assert(!d.contains('.')) by {
        assert forall|i: int| 0 <= i < d.len() implies d[i] != '.' by {
            assert(text::is_digit(d[i]));
        }
    }
    lemma_hex_has_no_dot(nonce);
    lemma_hex_has_no_dot(mac);
    law_hex_roundtrip(nonce);
    law_hex_roundtrip(mac);
    lemma_split_four(uid, d, hn, hm);
}

/// The token of `uid` for the given time and nonce. It is good for that user
/// whenever the time is fresh (an id with a dot in it has no usable token).
pub fn make_bearer_at(key: &[u8; 32], uid: &str, ts: u64, nonce: &[u8; 16]) -> (r: String)
    ensures
        r@ == bearer_text(key@, uid@, ts, nonce@),
        !uid@.contains('.') ==> forall|window: u64, now: u64| #[trigger]
            bearer_verdict(r@, key@, uid@, window, now) == if fresh(now, ts, window) {
                Some((ts, nonce@))
            } else {
                None
            },
{
    let mac = auth_mac(key, uid, ts, nonce);
    let mut s = text::own(uid);
    s.append(".");
    text::push_decimal(&mut s, ts);
    s.append(".");
    s.append(hex(nonce.as_slice()).as_str());
    s.append(".");
    s.append(hex(mac.as_slice()).as_str());
    proof {
        if !uid@.contains('.') {
            assert forall|window: u64, now: u64| #[trigger]
                bearer_verdict(s@, key@, uid@, window, now) == if fresh(now, ts, window) {
                    Some((ts, nonce@))
                } else {
                    None
                } by {
                law_bearer_roundtrip(key@, uid@, ts, nonce@, window, now);
            }
        }
    }
    s
}

/// A fresh bearer token (standard Authorization header only).
pub fn make_bearer(key: &[u8; 32], uid: &str, clock: &Clock) -> (r: String)
    ensures
        exists|ts: u64, nonce: Seq<u8>|
            is_reading(*clock, ts) && nonce.len() == SALT_LEN && r@ == #[trigger] bearer_text(
                key@,
                uid@,
                ts,
                nonce,
            ),
{
    let ts = now_unix(clock);
    let nonce = random_salt();
    let s = make_bearer_at(key, uid, ts, &nonce);
    assert(nonce@.len() == SALT_LEN && s@ == bearer_text(key@, uid@, ts, nonce@));
    s
}

/// Time and nonce of a token that is good for `expected_uid` at `now`.
pub fn verify_bearer_parts_at(
    token: &str,
    key: &[u8; 32],
    expected_uid: &str,
    window: u64,
    now: u64,
) -> (r: Option<(u64, [u8; 16])>)
    ensures
        match r {
            Some((ts, nonce)) => bearer_verdict(token@, key@, expected_uid@, window, now) == Some(
                (ts, nonce@),
            ),
            None => bearer_verdict(token@, key@, expected_uid@, window, now) is None,
        },
{
    let chars = text::chars_of(token);
    let parts = text::split_chars(chars.as_slice(), '.');
    let ghost p = text::split(token@, '.');
    assert(parts@.len() == p.len()) by {
        assert(parts@.map_values(|p: Vec<char>| p@).len() == p.len());
    }
    if parts.len() != 4 {
        return None;
    }
    assert(forall|i: int| 0 <= i < 4 ==> #[trigger] parts@[i]@ == p[i]) by {
        assert forall|i: int| 0 <= i < 4 implies #[trigger] parts@[i]@ == p[i] by {
            assert(parts@.map_values(|p: Vec<char>| p@)[i] == parts@[i]@);
        }
    }
    if !text::is_text(parts[0].as_slice(), expected_uid) {
        return None;
    }
    let ts = match text::parse_number(parts[1].as_slice(), u64::MAX) {
        Some(v) => v,
        None => {
            return None;
        },
    };
    let nonce = match unhex_chars(parts[2].as_slice()) {
        Some(v) => {
            if v.len() != SALT_LEN {
                return None;
            }
            take16(v.as_slice())
        },
        None => {
            return None;
        },
    };
    let mac = match unhex_chars(parts[3].as_slice()) {
        Some(v) => {
            if v.len() != MAC_LEN {
                return None;
            }
            take32(v.as_slice())
        },
        None => {
            return None;
        },
    };
    assert(bearer_claim(token@, expected_uid@) == Some((ts, nonce@, mac@)));
    if !is_fresh(now, ts, window) {
        return None;
    }
    let expect = auth_mac(key, expected_uid, ts, &nonce);
    if same_mac(&expect, &mac) {
        Some((ts, nonce))
    } else {
        None
    }
}

/// Time and nonce of a token that is good for `expected_uid` now.
pub fn verify_bearer_parts(
    token: &str,
    key: &[u8; 32],
    expected_uid: &str,
    window: u64,
    clock: &Clock,
) -> (r: Option<(u64, [u8; 16])>)
    ensures
        exists|now: u64|
            is_reading(*clock, now) && match r {
                Some((ts, nonce)) => (#[trigger] bearer_verdict(
                    token@,
                    key@,
                    expected_uid@,
                    window,
                    now,
                )) == Some((ts, nonce@)),
                None => bearer_verdict(token@, key@, expected_uid@, window, now) is None,
            },
{
    let now = now_unix(clock);
    verify_bearer_parts_at(token, key, expected_uid, window, now)
}

/// Parse and verify a bearer token for `expected_uid` at `now`.
pub fn verify_bearer_at(
    token: &str,
    key: &[u8; 32],
    expected_uid: &str,
    window: u64,
    now: u64,
) -> (r: bool)
    ensures
        r == bearer_verdict(token@, key@, expected_uid@, window, now) is Some,
{
    verify_bearer_parts_at(token, key, expected_uid, window, now).is_some()
}

/// Parse and verify a bearer token for `expected_uid`.
pub fn verify_bearer(
    token: &str,
    key: &[u8; 32],
    expected_uid: &str,
    window: u64,
    clock: &Clock,
) -> (r: bool)
    ensures
        exists|now: u64|
            is_reading(*clock, now) && r == (#[trigger] bearer_verdict(
                token@,
                key@,
                expected_uid@,
                window,
                now,
            )) is Some,
{
    let now = now_unix(clock);
    verify_bearer_at(token, key, expected_uid, window, now)
}

/// The user id that a token claims: what stands before its first dot.
pub open spec fn bearer_uid_spec(token: Seq<char>) -> Option<Seq<char>> {
    let uid = token.take(text::find(token, '.'));
    if uid.len() > 0 {
        Some(uid)
    } else {
        None
    }
}

/// Extract the uid from a bearer token without verifying it.
pub fn bearer_uid(token: &str) -> (r: Option<&str>)
    ensures
        match r {
            Some(u) => bearer_uid_spec(token@) == Some(u@),
            None => bearer_uid_spec(token@) is None,
        },
{
    let chars = text::chars_of(token);
    let i = text::find_char(chars.as_slice(), '.');
    if i == 0 {
        return None;
    }
    let u = token.substring_char(0, i);
    assert(u@ =~= token@.take(i as int));
    Some(u)
}

// ---------------------------------------------------------------------------
// AUTH frame payload
// ---------------------------------------------------------------------------
/// AUTH frame payload (carried as the encrypted payload of an Auth frame,
/// sealed with the user's *static* key).
#[derive(Clone, Debug)]
pub struct AuthPayload {
    /// Protocol version of the sender.
    pub proto_version: u8,
    /// The largest frame payload that the sender is ready to take.
    pub max_plaintext: u32,
    pub salt: [u8; 16],
    pub ts: u64,
    pub nonce: [u8; 16],
    pub uid: String,
    pub mac: [u8; 32],
}

#[derive(Clone, Copy, Debug, PartialEq, Eq, Structural)]
pub enum AuthPayloadError {
    Truncated,
    BadUid,
}

/// The content of an AUTH payload.
#[verifier::ext_equal]
pub ghost struct AuthFields {
    pub proto_version: u8,
    pub max_plaintext: u32,
    pub salt: Seq<u8>,
    pub ts: u64,
    pub nonce: Seq<u8>,
    pub uid: Seq<char>,
    pub mac: Seq<u8>,
}

/// Layout: salt, time (8, low byte first), nonce, length of the id (1), id,
/// code, protocol version (1), largest frame payload (4, low byte first).
pub open spec fn auth_encoding(f: AuthFields) -> Seq<u8> {
    f.salt + wire::le(f.ts as nat, 8) + f.nonce + seq![(encode_utf8(f.uid).len() % 256) as u8]
        + encode_utf8(f.uid) + f.mac + seq![f.proto_version] + wire::le(f.max_plaintext as nat, 4)
}

/// What an AUTH payload says. Bytes behind it are padding. A sender that stops
/// after the code speaks the current version at the default frame size.
pub open spec fn auth_decoding(b: Seq<u8>) -> Result<AuthFields, AuthPayloadError> {
    let ul = b[40] as int;
    let end = 73 + ul;
    if b.len() < 73 || b.len() < end {
        Err(AuthPayloadError::Truncated)
    } else if !vstd::utf8::valid_utf8(b.subrange(41, 41 + ul)) {
        Err(AuthPayloadError::BadUid)
    } else {
        Ok(
            AuthFields {
                proto_version: if b.len() > end {
                    b[end]
                } else {
                    PROTO_VERSION
                },
                max_plaintext: if b.len() >= end + 5 {
                    wire::le_value(b.subrange(end + 1, end + 5)) as u32
                } else {
                    MAX_PLAINTEXT as u32
                },
                salt: b.subrange(0, 16),
                ts: wire::le_value(b.subrange(16, 24)) as u64,
                nonce: b.subrange(24, 40),
                uid: vstd::utf8::decode_utf8(b.subrange(41, 41 + ul)),
                mac: b.subrange(41 + ul, end),
            },
        )
    }
}

/// Decoding an encoded payload gives it back, whatever padding follows (an id
/// of more than 255 bytes does not fit the length byte).
pub proof fn law_auth_payload_roundtrip(f: AuthFields, padding: Seq<u8>)
    requires
        f.salt.len() == SALT_LEN,
        f.nonce.len() == SALT_LEN,
        f.mac.len() == MAC_LEN,
        encode_utf8(f.uid).len() <= 255,
    ensures
        auth_decoding(auth_encoding(f) + padding) == Ok::<AuthFields, AuthPayloadError>(f),
{
    let u = encode_utf8(f.uid);
    let b = auth_encoding(f) + padding;
    wire::lemma_pow256();
    wire::lemma_le_roundtrip(f.ts as nat, 8);
    wire::lemma_le_roundtrip(f.max_plaintext as nat, 4);
    wire::lemma_utf8_roundtrip(f.uid);
    let ul = u.len() as int;
    let end = 73 + ul;
    assert(b[40] == u.len());
    assert(b.subrange(0, 16) =~= f.salt);
    assert(b.subrange(16, 24) =~= wire::le(f.ts as nat, 8));
    assert(b.subrange(24, 40) =~= f.nonce);
    assert(b.subrange(41, 41 + ul) =~= u);
    assert(b.subrange(41 + ul, end) =~= f.mac);
    assert(b[end] == f.proto_version);
    assert(b.subrange(end + 1, end + 5) =~= wire::le(f.max_plaintext as nat, 4));
}

/// An AUTH payload is accepted at `now`: fresh, and its code is the user's.
pub open spec fn auth_accepted(f: AuthFields, static_key: Seq<u8>, window: u64, now: u64) -> bool {
    fresh(now, f.ts, window) && f.mac == auth_mac_spec(static_key, f.uid, f.ts, f.nonce)
}

impl AuthPayload {
    pub open spec fn fields(self) -> AuthFields {
        AuthFields {
            proto_version: self.proto_version,
            max_plaintext: self.max_plaintext,
            salt: self.salt@,
            ts: self.ts,
            nonce: self.nonce@,
            uid: self.uid@,
            mac: self.mac@,
        }
    }

    pub fn encode(&self) -> (r: Vec<u8>)
        ensures
            r@ == auth_encoding(self.fields()),
    {
        let uid = self.uid.as_str().as_bytes();
        let mut v: Vec<u8> = Vec::new();
        wire::push_bytes(&mut v, self.salt.as_slice());
        wire::push_le(&mut v, self.ts, 8);
        wire::push_bytes(&mut v, self.nonce.as_slice());
        v.push((uid.len() % 256) as u8);
        wire::push_bytes(&mut v, uid);
        wire::push_bytes(&mut v, self.mac.as_slice());
        v.push(self.proto_version);
        wire::push_le(&mut v, self.max_plaintext as u64, 4);
        assert(v@ =~= auth_encoding(self.fields()));
        v
    }

    pub fn decode(b: &[u8]) -> (r: Result<Self, AuthPayloadError>)
        ensures
            match r {
                Ok(p) => auth_decoding(b@) == Ok::<AuthFields, AuthPayloadError>(p.fields()),
                Err(e) => auth_decoding(b@) == Err::<AuthFields, AuthPayloadError>(e),
            },
    {
        if b.len() < 73 {
            return Err(AuthPayloadError::Truncated);
        }
        let salt = take16(wire::slice(b, 0, 16));
        let ts = wire::read_le(wire::slice(b, 16, 24));
        let nonce = take16(wire::slice(b, 24, 40));
        let ul: usize = b[40] as usize;
        let end: usize = 73 + ul;
        if b.len() < end {
            return Err(AuthPayloadError::Truncated);
        }
        let uid = match wire::utf8_text(wire::slice(b, 41, 41 + ul)) {
            Some(s) => s,
            None => {
                return Err(AuthPayloadError::BadUid);
            },
        };
        let mac = take32(wire::slice(b, 41 + ul, end));
        let proto_version: u8 = if b.len() > end {
            b[end]
        } else {
            PROTO_VERSION
        };
        let max_plaintext: u32 = if b.len() >= end + 5 {
            let w = wire::slice(b, end + 1, end + 5);
            proof {
                wire::lemma_le_value_bound(w@);
                wire::lemma_pow256();
            }
            wire::read_le(w) as u32
        } else {
            MAX_PLAINTEXT as u32
        };
        let p = AuthPayload { proto_version, max_plaintext, salt, ts, nonce, uid, mac };
        assert(auth_decoding(b@)->Ok_0 =~= p.fields());
        Ok(p)
    }

    /// Whether the sender speaks this build's protocol version.
    pub fn proto_version_compatible(&self) -> (r: bool)
        ensures
            r == (self.proto_version == PROTO_VERSION),
    {
        self.proto_version == PROTO_VERSION
    }

    /// Whether the payload is fresh at `now` and carries the user's code.
    pub fn verify_at(&self, static_key: &[u8; 32], window: u64, now: u64) -> (r: bool)
        ensures
            r == auth_accepted(self.fields(), static_key@, window, now),
    {
        if !is_fresh(now, self.ts, window) {
            return false;
        }
        let expect = auth_mac(static_key, self.uid.as_str(), self.ts, &self.nonce);
        same_mac(&expect, &self.mac)
    }

    /// Whether the payload is fresh now and carries the user's code.
    pub fn verify(&self, static_key: &[u8; 32], window: u64, clock: &Clock) -> (r: bool)
        ensures
            exists|now: u64|
                is_reading(*clock, now) && r == #[trigger] auth_accepted(
                    self.fields(),
                    static_key@,
                    window,
                    now,
                ),
    {
        let now = now_unix(clock);
        self.verify_at(static_key, window, now)
    }
}

// ---------------------------------------------------------------------------
// Laws
// ---------------------------------------------------------------------------
/// A user's key is made of the password and of the user's own id, and a session
/// key of the user's key and of the salt of that session; the labels in front
/// keep them apart from one another.
pub proof fn law_keys_depend_on_user_and_session(
    password: Seq<char>,
    uid: Seq<char>,
    static_key: Seq<u8>,
    salt: Seq<u8>,
)
    ensures
        static_key_spec(password, uid) == hkdf32(
            encode_utf8(password),
            encode_utf8("newppp-v1"@),
            encode_utf8("newppp/auth/"@ + uid),
        ),
        session_key_spec(static_key, salt) == hkdf32(
            static_key,
            salt,
            encode_utf8("newppp/session"@),
        ),
{
}

/// The nonce of a frame is its counter in twelve bytes, high byte first.
pub proof fn law_nonce_is_the_counter(counter: u64)
    ensures
        nonce_spec(counter).len() == 12,
        wire::be_value(nonce_spec(counter).skip(4)) == counter,
        forall|i: int| 0 <= i < 4 ==> #[trigger] nonce_spec(counter)[i] == 0,
{
    wire::lemma_pow256();
    wire::lemma_be_roundtrip(counter as nat, 8);
    assert(nonce_spec(counter).skip(4) =~= wire::be(counter as nat, 8));
}

/// A ciphertext ends in a tag of sixteen bytes: a shorter one is refused as
/// such, and of the others exactly those open whose tag verifies under the key,
/// the counter and the associated data.
pub proof fn law_opening_needs_the_tag(
    key: Seq<u8>,
    counter: u64,
    aad: Seq<u8>,
    body: Seq<u8>,
    tag: Seq<u8>,
    short: Seq<u8>,
)
    requires
        tag.len() == 16,
        body.len() <= 0x3f_ffff_ff80,
        short.len() < 16,
    ensures
        open_spec(key, counter, aad, short) == Err::<Seq<u8>, CipherError>(CipherError::TooShort),
        match open_spec(key, counter, aad, body + tag) {
            Ok(p) => aead_decrypt(key, nonce_spec(counter), aad, body, tag) == Some(p),
            Err(e) => aead_decrypt(key, nonce_spec(counter), aad, body, tag) is None && e
                == CipherError::OpenFailed,
        },
{
    let c = body + tag;
    let n = body.len() as int;
    assert(c.take(n) =~= body);
    assert(c.skip(n) =~= tag);
}

/// A counter that was not seen is accepted when it is above all others, or less
/// than 64 below the highest; 0 and what is further back never is.
pub proof fn law_new_counters_are_accepted(w: ReplayWindow, c: u64)
    ensures
        c > w.highest() ==> !w.blocked(c),
        0 < c && c <= w.highest() && w.highest() - c < 64 ==> (w.blocked(c) <==> w.seen(c)),
        c <= w.highest() && w.highest() - c >= 64 ==> w.blocked(c),
        w.blocked(0),
{
}

/// A counter that was let through is seen from then on, as long as it is within
/// reach, and it hides no other within reach.
pub proof fn law_window_remembers(a: ReplayWindow, c: u64, ok: bool, b: ReplayWindow, x: u64)
    requires
        window_step(a, c, ok, b),
    ensures
        ok ==> b.seen(c),
        ok && a.seen(x) && b.highest() - x < 64 ==> b.seen(x),
        ok && b.seen(x) ==> x == c || a.seen(x),
        ok ==> b.highest() >= a.highest() && b.highest() >= c,
        ok ==> b.highest() == a.highest() || b.highest() == c,
        ok <==> !a.blocked(c),
        !ok ==> b == a,
{
}

/// Hexadecimal digits: small letters are written, capitals are read too.
pub proof fn law_hex_digits(d: nat, c: char, b: Seq<u8>, i: int)
    requires
        d < 16,
        0 <= i < b.len(),
    ensures
        d < 10 ==> hex_digit(d) as u32 == 48 + d,
        d >= 10 ==> hex_digit(d) as u32 == 97 + d - 10,
        48 <= c as u32 <= 57 ==> hex_value(c) == Some((c as u32 - 48) as nat),
        97 <= c as u32 <= 102 ==> hex_value(c) == Some((c as u32 - 87) as nat),
        65 <= c as u32 <= 70 ==> hex_value(c) == Some((c as u32 - 55) as nat),
        hex_value(c) is Some ==> hex_value(c)->0 < 16,
        hex_spec(b).len() == 2 * b.len(),
        hex_value(hex_spec(b)[2 * i]) == Some((b[i] / 16) as nat),
        hex_value(hex_spec(b)[2 * i + 1]) == Some((b[i] % 16) as nat),
{
}

/// Only an even number of hexadecimal digits reads as bytes.
pub proof fn law_unhex_wants_pairs(s: Seq<char>, i: int)
    requires
        0 <= i < s.len(),
    ensures
        s.len() % 2 != 0 ==> unhex_spec(s) is None,
        hex_value(s[i]) is None ==> unhex_spec(s) is None,
        unhex_spec(s) matches Some(b) ==> b.len() * 2 == s.len(),
{
}

/// A token is good for a user exactly when it has four parts, names the user,
/// is of the last or next minute, carries a nonce of sixteen bytes, and ends in
/// the code that the user's key gives for all of that.
pub proof fn law_good_tokens(token: Seq<char>, key: Seq<u8>, uid: Seq<char>, now: u64)
    ensures
        ({
            let p = text::split(token, '.');
            match bearer_verdict(token, key, uid, 60, now) {
                Some((ts, nonce)) => {
                    &&& p.len() == 4 && p[0] == uid
                    &&& text::parse_unsigned(p[1], 0xffff_ffff_ffff_ffff) == Some(ts as nat)
                    &&& unhex_spec(p[2]) == Some(nonce) && nonce.len() == 16
                    &&& unhex_spec(p[3]) == Some(hmac32(key, mac_message(uid, ts, nonce)))
                    &&& ts <= now + 60 && now <= ts + 60
                },
                None => forall|ts: u64, nonce: Seq<u8>|
                    #![trigger mac_message(uid, ts, nonce)]
                    !{
                        &&& p.len() == 4 && p[0] == uid
                        &&& text::parse_unsigned(p[1], 0xffff_ffff_ffff_ffff) == Some(ts as nat)
                        &&& unhex_spec(p[2]) == Some(nonce) && nonce.len() == 16
                        &&& unhex_spec(p[3]) == Some(hmac32(key, mac_message(uid, ts, nonce)))
                        &&& hmac32(key, mac_message(uid, ts, nonce)).len() == 32
                        &&& ts <= now + 60 && now <= ts + 60
                    },
            }
        }),
{
}

/// The user that a token names is what stands before its first dot.
pub proof fn law_token_names_its_user(uid: Seq<char>, rest: Seq<char>)
    requires
        !uid.contains('.'),
        uid.len() > 0,
    ensures
        bearer_uid_spec(uid + "."@ + rest) == Some(uid),
        bearer_uid_spec("."@ + rest) is None,
{
    reveal_strlit(".");
    let s = uid + "."@ + rest;
    let n = uid.len() as int;
    assert forall|j: int| 0 <= j < n implies s[j] != '.' by {
        assert(s[j] == uid[j]);
        assert(uid.contains(uid[j]));
    }
    assert(s[n] == '.');
    text::lemma_find_is(s, '.', n);
    assert(s.take(n) =~= uid);
    let t = "."@ + rest;
    assert(t[0] == '.');
    text::lemma_find_is(t, '.', 0);
}

/// An AUTH payload is laid out byte by byte: salt, time, nonce, the id behind
/// its length, the code, then version and frame limit. Where the last two are
/// missing, they are version 1 and 16384.
pub proof fn law_auth_payload_on_the_wire(
    salt: Seq<u8>,
    ts: Seq<u8>,
    nonce: Seq<u8>,
    uid: Seq<char>,
    mac: Seq<u8>,
    version: u8,
    limit: Seq<u8>,
    tail: Seq<u8>,
)
    requires
        salt.len() == 16,
        ts.len() == 8,
        nonce.len() == 16,
        encode_utf8(uid).len() <= 255,
        mac.len() == 32,
        limit.len() == 4,
    ensures
        ({
            let b = salt + ts + nonce + seq![encode_utf8(uid).len() as u8] + encode_utf8(uid) + mac;
            let f = AuthFields {
                proto_version: 1,
                max_plaintext: 16384,
                salt,
                ts: wire::le_value(ts) as u64,
                nonce,
                uid,
                mac,
            };
            &&& auth_decoding(b) == Ok::<AuthFields, AuthPayloadError>(f)
            &&& auth_decoding(b + seq![version] + limit + tail) == Ok::<
                AuthFields,
                AuthPayloadError,
            >(
                AuthFields {
                    proto_version: version,
                    max_plaintext: wire::le_value(limit) as u32,
                    ..f
                },
            )
            &&& auth_decoding(b.drop_last()) == Err::<AuthFields, AuthPayloadError>(
                AuthPayloadError::Truncated,
            )
        }),
{
    let e = encode_utf8(uid);
    let n = e.len() as int;
    let b = salt + ts + nonce + seq![n as u8] + e + mac;
    let c = b + seq![version] + limit + tail;
    wire::lemma_utf8_roundtrip(uid);
    assert(b[40] == n && c[40] == n);
    assert(b.len() == 73 + n);
    assert(b.subrange(0, 16) =~= salt && c.subrange(0, 16) =~= salt);
    assert(b.subrange(16, 24) =~= ts && c.subrange(16, 24) =~= ts);
    assert(b.subrange(24, 40) =~= nonce && c.subrange(24, 40) =~= nonce);
    assert(b.subrange(41, 41 + n) =~= e && c.subrange(41, 41 + n) =~= e);
    assert(b.subrange(41 + n, 73 + n) =~= mac && c.subrange(41 + n, 73 + n) =~= mac);
    assert(c[73 + n] == version);
    assert(c.subrange(74 + n, 78 + n) =~= limit);
    let d = b.drop_last();
    assert(d[40] == n);
}

/// Counters of streams begin at 1 on the client's side; the other three kinds
/// begin a quarter of all numbers apart. Keys have 32 bytes.
pub proof fn law_where_counters_begin()
    ensures
        STREAM_BASE == 1,
        STREAM_SERVER_BASE == 0x4000_0000_0000_0000,
        DATAGRAM_BASE == 2 * STREAM_SERVER_BASE,
        DATAGRAM_SERVER_BASE == 3 * STREAM_SERVER_BASE,
        KEY_LEN == 32 && SALT_LEN == 16 && MAC_LEN == 32 && TAG_LEN == 16,
        MAX_SEAL == 64 * 0xffff_fffe,
{
}

/// The hexadecimal digits are those from 0 to 9 and from a to f, small or
/// capital; nothing else is one.
pub proof fn law_what_is_a_hex_digit(c: char)
    ensures
        48 <= c as u32 <= 57 ==> hex_value(c) == Some((c as u32 - 48) as nat),
        97 <= c as u32 <= 102 ==> hex_value(c) == Some((c as u32 - 87) as nat),
        65 <= c as u32 <= 70 ==> hex_value(c) == Some((c as u32 - 55) as nat),
        hex_value(c) is Some ==> 48 <= c as u32 <= 57 || 97 <= c as u32 <= 102 || 65 <= c as u32
            <= 70,
{
}

/// A login is accepted where its time is near enough and its code is the one that
/// the user's key makes over name, time and nonce.
pub proof fn law_accepted_logins(f: AuthFields, key: Seq<u8>, window: u64, now: u64)
    ensures
        auth_accepted(f, key, window, now) <==> f.ts <= now + window && now <= f.ts + window
            && f.mac == hmac32(key, mac_message(f.uid, f.ts, f.nonce)),
{
}

} // verus!
