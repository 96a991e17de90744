//! HPKE (RFC 9180, base mode) for the Encrypted Client Hello extension.
//!
//! Suite: DHKEM(X25519, HKDF-SHA256), HKDF-SHA256, ChaCha20-Poly1305.

use hpke::kem::Kem;
use hpke::{Deserializable, Serializable};
use vstd::prelude::*;

use crate::proto::crypto::{MAX_SEAL, TAG_LEN};

verus! {

/// The HPKE suite that browsers use for the extension.
#[derive(Debug)]
pub struct HpkeX25519Sha256ChaCha20;

/// Length of an encapsulated key, in bytes.
pub const ENC_LEN: usize = 32;

/// Length of public and private keys, in bytes.
pub const KEY_LEN: usize = 32;

/// The numbers of a suite on the wire.
#[derive(Debug, Clone, Copy, PartialEq, Eq, Structural)]
pub struct SuiteIds {
    pub kem: u16,
    pub kdf: u16,
    pub aead: u16,
}

/// Why a sealing or opening failed.
#[derive(Debug, Clone, Copy, PartialEq, Eq, Structural)]
pub enum EchError {
    /// A key has the wrong length.
    BadKey,
    /// The key exchange or the cipher failed.
    Failed,
}

/// A text of this length is within the cipher's reach, and its ciphertext has
/// room in memory.
pub open spec fn in_reach(n: nat) -> bool {
    n <= MAX_SEAL && n + TAG_LEN <= isize::MAX
}

fn is_in_reach(n: usize) -> (r: bool)
    ensures
        r == in_reach(n as nat),
{
    n as u64 <= MAX_SEAL && n <= isize::MAX as usize - TAG_LEN
}

/// The X25519 public key of a private key.
pub uninterp spec fn public_key(sk: Seq<u8>) -> Seq<u8>;

/// The bytes are the public key of some private key.
pub open spec fn is_public_key(pk: Seq<u8>) -> bool {
    exists|sk: Seq<u8>| sk.len() == KEY_LEN && pk == #[trigger] public_key(sk)
}

/// HPKE single-shot opening in base mode under the suite.
pub uninterp spec fn hpke_open(
    sk: Seq<u8>,
    enc: Seq<u8>,
    info: Seq<u8>,
    aad: Seq<u8>,
    ct: Seq<u8>,
) -> Option<Seq<u8>>;

/// `hpke::kem::Kem::gen_keypair`: a fresh private key and its public key, both
/// of 32 bytes. Nothing is promised of the private key's value.
#[verifier::external_body]
fn gen_keypair() -> (r: (Vec<u8>, Vec<u8>))
    ensures
        r.0@.len() == KEY_LEN,
        r.1@.len() == KEY_LEN,
        r.1@ == public_key(r.0@),
{
    let (sk, pk) = hpke::kem::X25519HkdfSha256::gen_keypair(&mut rand::rngs::OsRng);
    (sk.to_bytes().to_vec(), pk.to_bytes().to_vec())
}

/// `hpke::single_shot_seal` in base mode: the encapsulated key of 32 bytes and
/// the ciphertext, which is the text's length and a tag of 16 bytes. Whoever
/// holds the private key of the recipient opens it to the text. Sealing for the
/// public key of some private key succeeds; other keys may be refused, such as
/// one of small order. Both outputs depend on chance.
#[verifier::external_body]
fn hpke_seal(pk: &[u8], info: &[u8], aad: &[u8], text: &[u8]) -> (r: Option<(Vec<u8>, Vec<u8>)>)
    requires
        pk@.len() == KEY_LEN,
        in_reach(text@.len()),
    ensures
        is_public_key(pk@) ==> r is Some,
        r matches Some((enc, ct)) ==> enc@.len() == ENC_LEN && ct@.len() == text@.len() + 16 && (
        forall|sk: Seq<u8>|
            sk.len() == KEY_LEN && pk@ == public_key(sk) ==> #[trigger] hpke_open(
                sk,
                enc@,
                info@,
                aad@,
                ct@,
            ) == Some(text@)),
{
    let key = <hpke::kem::X25519HkdfSha256 as Kem>::PublicKey::from_bytes(pk).ok()?;
    hpke::single_shot_seal::<
        hpke::aead::ChaCha20Poly1305,
        hpke::kdf::HkdfSha256,
        hpke::kem::X25519HkdfSha256,
        rand::rngs::OsRng,
    >(&hpke::OpModeS::Base, &key, info, text, aad, &mut rand::rngs::OsRng)
        .ok()
        .map(|(enc, ct)| (enc.to_bytes().to_vec(), ct))
}

/// `hpke::single_shot_open` in base mode: the text, when the ciphertext is
/// sound. What it gives depends on the five inputs alone.
#[verifier::external_body]
fn hpke_open_once(sk: &[u8], enc: &[u8], info: &[u8], aad: &[u8], ct: &[u8]) -> (r: Option<Vec<u8>>)
    requires
        sk@.len() == KEY_LEN,
        enc@.len() == ENC_LEN,
        ct@.len() <= MAX_SEAL + TAG_LEN,
    ensures
        hpke_open(sk@, enc@, info@, aad@, ct@) == match r {
            Some(t) => Some(t@),
            None => None,
        },
{
    let key = <hpke::kem::X25519HkdfSha256 as Kem>::PrivateKey::from_bytes(sk).ok()?;
    let point = <hpke::kem::X25519HkdfSha256 as Kem>::EncappedKey::from_bytes(enc).ok()?;
    hpke::single_shot_open::<
        hpke::aead::ChaCha20Poly1305,
        hpke::kdf::HkdfSha256,
        hpke::kem::X25519HkdfSha256,
    >(&hpke::OpModeR::Base, &key, &point, info, ct, aad).ok()
}

/// What sealing `text` for the holder of `pub_key` gives: a key of the wrong
/// length and a text beyond the cipher's reach are refused, a public key of some
/// private key is served, and the private key opens what comes out to the text.
pub open spec fn is_sealing(
    r: Result<(Vec<u8>, Vec<u8>), EchError>,
    info: Seq<u8>,
    aad: Seq<u8>,
    text: Seq<u8>,
    pub_key: Seq<u8>,
) -> bool {
    if pub_key.len() != KEY_LEN {
        r == Err::<(Vec<u8>, Vec<u8>), EchError>(EchError::BadKey)
    } else if !in_reach(text.len()) {
        r == Err::<(Vec<u8>, Vec<u8>), EchError>(EchError::Failed)
    } else {
        match r {
            Ok((enc, ct)) => enc@.len() == ENC_LEN && ct@.len() == text.len() + 16 && (forall|
                sk: Seq<u8>,
            |
                sk.len() == KEY_LEN && pub_key == public_key(sk) ==> #[trigger] hpke_open(
                    sk,
                    enc@,
                    info,
                    aad,
                    ct@,
                ) == Some(text)),
            Err(e) => e == EchError::Failed && !is_public_key(pub_key),
        }
    }
}

/// What opening a ciphertext with a private key gives. One beyond the cipher's
/// reach is refused.
pub open spec fn is_opening(
    r: Result<Vec<u8>, EchError>,
    enc: Seq<u8>,
    info: Seq<u8>,
    aad: Seq<u8>,
    ct: Seq<u8>,
    secret_key: Seq<u8>,
) -> bool {
    if secret_key.len() != KEY_LEN || enc.len() != ENC_LEN {
        r == Err::<Vec<u8>, EchError>(EchError::BadKey)
    } else if ct.len() > MAX_SEAL + TAG_LEN {
        r == Err::<Vec<u8>, EchError>(EchError::Failed)
    } else {
        match hpke_open(secret_key, enc, info, aad, ct) {
            Some(t) => r matches Ok(text) && text@ == t,
            None => r == Err::<Vec<u8>, EchError>(EchError::Failed),
        }
    }
}

/// What is sealed for a generated key pair opens to the text again.
pub proof fn law_sealed_text_opens(
    pub_key: Seq<u8>,
    secret_key: Seq<u8>,
    info: Seq<u8>,
    aad: Seq<u8>,
    text: Seq<u8>,
    sealed: Result<(Vec<u8>, Vec<u8>), EchError>,
    opened: Result<Vec<u8>, EchError>,
)
    requires
        secret_key.len() == KEY_LEN,
        pub_key.len() == KEY_LEN,
        pub_key == public_key(secret_key),
        in_reach(text.len()),
        is_sealing(sealed, info, aad, text, pub_key),
        sealed matches Ok((enc, ct)) ==> is_opening(opened, enc@, info, aad, ct@, secret_key),
    ensures
        sealed is Ok,
        opened matches Ok(t) && t@ == text,
{
}

impl HpkeX25519Sha256ChaCha20 {
    pub fn suite_static() -> (r: SuiteIds)
        ensures
            r == (SuiteIds { kem: 0x0020, kdf: 0x0001, aead: 0x0003 }),
    {
        SuiteIds { kem: 0x0020, kdf: 0x0001, aead: 0x0003 }
    }

    /// Seal a text for the holder of a public key: the encapsulated key and
    /// the ciphertext.
    pub fn seal(&self, info: &[u8], aad: &[u8], plaintext: &[u8], pub_key: &[u8]) -> (r: Result<
        (Vec<u8>, Vec<u8>),
        EchError,
    >)
        ensures
            is_sealing(r, info@, aad@, plaintext@, pub_key@),
    {
        if pub_key.len() != KEY_LEN {
            return Err(EchError::BadKey);
        }
        if !is_in_reach(plaintext.len()) {
            return Err(EchError::Failed);
        }
        match hpke_seal(pub_key, info, aad, plaintext) {
            Some(sealed) => Ok(sealed),
            None => Err(EchError::Failed),
        }
    }

    /// Open a ciphertext with a private key.
    pub fn open(
        &self,
        enc: &[u8],
        info: &[u8],
        aad: &[u8],
        ciphertext: &[u8],
        secret_key: &[u8],
    ) -> (r: Result<Vec<u8>, EchError>)
        ensures
            is_opening(r, enc@, info@, aad@, ciphertext@, secret_key@),
    {
        if secret_key.len() != KEY_LEN || enc.len() != ENC_LEN {
            return Err(EchError::BadKey);
        }
        if ciphertext.len() as u64 > MAX_SEAL + TAG_LEN as u64 {
            return Err(EchError::Failed);
        }
        match hpke_open_once(secret_key, enc, info, aad, ciphertext) {
            Some(t) => Ok(t),
            None => Err(EchError::Failed),
        }
    }

    /// A fresh key pair: public and private key.
    pub fn generate_key_pair(&self) -> (r: (Vec<u8>, Vec<u8>))
        ensures
            r.0@.len() == KEY_LEN,
            r.1@.len() == KEY_LEN,
            r.0@ == public_key(r.1@),
    {
        let (sk, pk) = gen_keypair();
        (pk, sk)
    }
}

/// Keys have 32 bytes; others are refused. What is sealed is 16 bytes longer than
/// the text, with 32 bytes beside it, and opens to that text and no other.
pub proof fn law_sealing_by_length(
    r: Result<(Vec<u8>, Vec<u8>), EchError>,
    o: Result<Vec<u8>, EchError>,
    info: Seq<u8>,
    aad: Seq<u8>,
    text: Seq<u8>,
    key: Seq<u8>,
    enc: Seq<u8>,
    ct: Seq<u8>,
)
    ensures
        key.len() != 32 && is_sealing(r, info, aad, text, key) ==> r == Err::<
            (Vec<u8>, Vec<u8>),
            EchError,
        >(EchError::BadKey),
        (is_sealing(r, info, aad, text, key) && r is Ok) ==> r->Ok_0.0@.len() == 32 && r->Ok_0.1@.len()
            == text.len() + 16,
        (key.len() != 32 || enc.len() != 32) && is_opening(o, enc, info, aad, ct, key) ==> o
            == Err::<Vec<u8>, EchError>(EchError::BadKey),
        is_opening(o, enc, info, aad, ct, key) && o is Ok ==> hpke_open(key, enc, info, aad, ct)
            == Some(o->Ok_0@),
{
}

} // verus!
