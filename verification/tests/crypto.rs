//! Keys, ciphers, counters, replay windows and authentication material.

use newppp::clock::Clock;
use newppp::proto::crypto::{
    auth_mac, bearer_uid, derive_session_key, derive_static_key, hex, make_bearer, make_bearer_at,
    now_unix, unhex, verify_bearer, verify_bearer_at, verify_bearer_parts_at, AuthPayload,
    AuthPayloadError, CipherError, CounterGen, FrameCipher, ReplayWindow, AUTH_WINDOW, SALT_LEN,
};
use newppp::proto::frame::{MAX_PLAINTEXT, PROTO_VERSION};

#[test]
fn seal_open_roundtrip() {
    let key = [7u8; 32];
    let c = FrameCipher::new(&key);
    let ct = c.seal(42, b"aad", b"hello world").unwrap();
    assert_ne!(ct[..11], *b"hello world");
    let pt = c.open(42, b"aad", &ct).unwrap();
    assert_eq!(pt, b"hello world");
    assert!(c.open(43, b"aad", &ct).is_err());
    assert!(c.open(42, b"other", &ct).is_err());
}

#[test]
fn short_and_forged_ciphertexts_are_told_apart() {
    let c = FrameCipher::new(&[7u8; 32]);
    assert_eq!(c.open(1, b"", &[0u8; 15]).unwrap_err(), CipherError::TooShort);
    assert_eq!(c.open(1, b"", &[0u8; 16]).unwrap_err(), CipherError::OpenFailed);
}

#[test]
fn replay_window() {
    let mut w = ReplayWindow::new();
    assert!(w.check(1));
    assert!(!w.check(1));
    assert!(w.check(100));
    assert!(w.check(99));
    assert!(!w.check(99));
    assert!(!w.check(20)); // out of window (100-79)
    assert!(w.check(101));
}

#[test]
fn replay_window_edges() {
    let mut w = ReplayWindow::new();
    assert!(!w.check(0));
    assert!(w.check(64));
    assert!(w.check(1)); // 63 behind
    assert!(w.check(65));
    assert!(!w.check(1)); // 64 behind now
    assert!(w.check(u64::MAX));
    assert!(!w.check(u64::MAX));
    assert!(!w.check(65));
}

#[test]
fn counter_spaces_are_disjoint() {
    let mut s = CounterGen::stream();
    let mut d = CounterGen::datagram();
    let s0 = s.next();
    let d0 = d.next();
    assert!(s0 < (1u64 << 63));
    assert!(d0 >= (1u64 << 63));
}

#[test]
fn counters_go_up_from_their_base() {
    let mut s = CounterGen::stream();
    assert_eq!((s.next(), s.next(), s.next()), (1, 2, 3));
    assert_eq!(CounterGen::stream_server().next(), 1 << 62);
    assert_eq!(CounterGen::datagram().next(), 1 << 63);
    assert_eq!(CounterGen::datagram_server().next(), 3 << 62);
    assert!(s.has_next());
}

#[test]
fn keys_depend_on_password_user_and_salt() {
    let a = derive_static_key("pw", "alice");
    assert_eq!(a, derive_static_key("pw", "alice"));
    assert_ne!(a, derive_static_key("pw2", "alice"));
    assert_ne!(a, derive_static_key("pw", "bob"));
    let s = derive_session_key(&a, &[1u8; 16]);
    assert_ne!(s, a);
    assert_ne!(s, derive_session_key(&a, &[2u8; 16]));
}

#[test]
fn bearer_roundtrip() {
    let key = derive_static_key("pw", "alice");
    let tok = make_bearer(&key, "alice", &Clock::new());
    assert!(verify_bearer(&tok, &key, "alice", AUTH_WINDOW, &Clock::new()));
    assert!(!verify_bearer(&tok, &key, "bob", AUTH_WINDOW, &Clock::new()));
    let key2 = derive_static_key("pw2", "alice");
    assert!(!verify_bearer(&tok, &key2, "alice", AUTH_WINDOW, &Clock::new()));
}

#[test]
fn bearer_rejects_huge_timestamp_without_overflow() {
    let key = derive_static_key("pw", "alice");
    let nonce = [0u8; SALT_LEN];
    let mac = auth_mac(&key, "alice", u64::MAX, &nonce);
    let tok = format!("alice.{}.{}.{}", u64::MAX, hex(&nonce), hex(&mac));
    assert!(!verify_bearer(&tok, &key, "alice", AUTH_WINDOW, &Clock::new()));
}

#[test]
fn bearer_window_has_two_sides() {
    let key = derive_static_key("pw", "alice");
    let nonce = [5u8; 16];
    let tok = make_bearer_at(&key, "alice", 1000, &nonce);
    assert!(verify_bearer_at(&tok, &key, "alice", 60, 1060));
    assert!(!verify_bearer_at(&tok, &key, "alice", 60, 1061));
    assert!(verify_bearer_at(&tok, &key, "alice", 60, 940));
    assert!(!verify_bearer_at(&tok, &key, "alice", 60, 939));
    let (ts, n) = verify_bearer_parts_at(&tok, &key, "alice", 60, 1000).unwrap();
    assert_eq!((ts, n.as_slice()), (1000, &nonce[..]));
    assert_eq!(bearer_uid(&tok), Some("alice"));
    assert_eq!(bearer_uid("no-dot"), Some("no-dot"));
}

#[test]
fn auth_payload_rejects_huge_timestamp_without_overflow() {
    let key = derive_static_key("pw", "u1");
    let nonce = [0u8; SALT_LEN];
    let ap = AuthPayload {
        proto_version: PROTO_VERSION,
        max_plaintext: MAX_PLAINTEXT as u32,
        salt: [0u8; SALT_LEN],
        ts: u64::MAX,
        nonce,
        uid: "u1".into(),
        mac: auth_mac(&key, "u1", u64::MAX, &nonce),
    };
    assert!(!ap.verify(&key, AUTH_WINDOW, &Clock::new()));
}

#[test]
fn auth_payload_roundtrip() {
    let key = derive_static_key("pw", "u1");
    let mut nonce = [0u8; 16];
    nonce[..4].copy_from_slice(b"abcd");
    let ts = now_unix(&Clock::new());
    let mac = auth_mac(&key, "u1", ts, &nonce);
    let ap = AuthPayload {
        proto_version: PROTO_VERSION,
        max_plaintext: MAX_PLAINTEXT as u32,
        salt: [9u8; 16],
        ts,
        nonce,
        uid: "u1".into(),
        mac,
    };
    let enc = ap.encode();
    let dec = AuthPayload::decode(&enc).unwrap();
    assert!(dec.verify(&key, AUTH_WINDOW, &Clock::new()));
    assert_eq!(dec.salt, [9u8; 16]);

    // stale timestamp must be rejected
    let old = AuthPayload {
        ts: ts - AUTH_WINDOW - 10,
        mac: auth_mac(&key, "u1", ts - AUTH_WINDOW - 10, &nonce),
        ..ap.clone()
    };
    assert!(!old.verify(&key, AUTH_WINDOW, &Clock::new()));
}

#[test]
fn auth_payload_layout_and_padding() {
    let ap = AuthPayload {
        proto_version: 1,
        max_plaintext: 0x0102_0304,
        salt: [9u8; 16],
        ts: 7,
        nonce: [8u8; 16],
        uid: "u1".into(),
        mac: [6u8; 32],
    };
    let mut enc = ap.encode();
    assert_eq!(enc.len(), 80);
    assert_eq!(&enc[16..24], &[7, 0, 0, 0, 0, 0, 0, 0]);
    assert_eq!(enc[40], 2);
    assert_eq!(&enc[75..80], &[1, 4, 3, 2, 1]);
    enc.extend_from_slice(b"random tail");
    let dec = AuthPayload::decode(&enc).unwrap();
    assert_eq!((dec.uid.as_str(), dec.max_plaintext, dec.proto_version), ("u1", 0x0102_0304, 1));
    // a payload that ends behind the code speaks the current version
    let dec = AuthPayload::decode(&enc[..75]).unwrap();
    assert_eq!((dec.max_plaintext, dec.proto_version), (MAX_PLAINTEXT as u32, PROTO_VERSION));
    assert_eq!(AuthPayload::decode(&enc[..74]).unwrap_err(), AuthPayloadError::Truncated);
    enc[41] = 0xff;
    assert_eq!(AuthPayload::decode(&enc).unwrap_err(), AuthPayloadError::BadUid);
}

#[test]
fn hex_roundtrip() {
    assert_eq!(hex(&[0x00, 0xab, 0xff]), "00abff");
    assert_eq!(unhex("00aBFf").unwrap(), vec![0x00, 0xab, 0xff]);
    assert_eq!(unhex("abc"), None);
    assert_eq!(unhex("zz"), None);
}

/// Exact values of the key schedule, the codes and the cipher.
#[test]
fn known_answers() {
    let key = derive_static_key("pw", "alice");
    assert_eq!(hex(&key), "e9b6efebcda84d7b2222e8c7bcfd446daa5b185830d1f015612be34adada54fa");
    let session = derive_session_key(&key, &[1u8; 16]);
    assert_eq!(hex(&session), "df8a6c05d4a1c52b6ee88f84e1a380cf88c48044b93a71e86e97ba4dc86e5cd8");
    let mac = auth_mac(&key, "alice", 1_700_000_000, &[5u8; 16]);
    assert_eq!(hex(&mac), "96b76968a204d166030e96de06fc9b4d96b93abd8cc30775cd34c2a364b542a8");
    let token = make_bearer_at(&key, "alice", 1_700_000_000, &[5u8; 16]);
    assert_eq!(token, format!("alice.1700000000.{}.{}", "05".repeat(16), hex(&mac)));
    let sealed = FrameCipher::new(&[7u8; 32]).seal(42, b"aad", b"hello").unwrap();
    assert_eq!(hex(&sealed), "d2fe0edd6534636b2a64c7602eb8827f38f64f50c5");
}
