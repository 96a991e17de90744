//! Framing: encoder, decoder, limits, open payloads and stream bridging.

use std::sync::Arc;

use newppp::proto::crypto::{CounterGen, FrameCipher, ReplayWindow};
use newppp::proto::frame::{
    build_header, decode_open, encode_open, negotiate, padding_len, parse_header, random_padding, FrameDecoder,
    FrameEncoder, FrameError, FrameLimit, FrameType, OpenPayloadError, MAX_PADDING, MAX_PLAINTEXT,
};
use newppp::proto::stream::{ReadStep, StreamAsRead};

fn roundtrip(cipher: Arc<FrameCipher>) {
    let mut enc = FrameEncoder::new(cipher.clone(), CounterGen::stream());
    let mut dec = FrameDecoder::new(Some(cipher), None);
    let payloads: Vec<Vec<u8>> = vec![vec![], b"x".to_vec(), vec![42u8; MAX_PLAINTEXT]];
    for (i, p) in payloads.iter().enumerate() {
        let wire = enc.encode(FrameType::Data, 0, i as u32, p).unwrap();
        dec.feed(&wire);
        let f = dec.next_frame().unwrap().unwrap();
        assert_eq!(f.ftype, FrameType::Data);
        assert_eq!(f.sid, i as u32);
        assert_eq!(&f.payload, p);
    }
    assert!(dec.next_frame().unwrap().is_none());
}

#[test]
fn frame_roundtrip() {
    roundtrip(Arc::new(FrameCipher::new(&[1u8; 32])));
}

#[test]
fn frame_corrupt_rejected() {
    let cipher = Arc::new(FrameCipher::new(&[2u8; 32]));
    let mut enc = FrameEncoder::new(cipher.clone(), CounterGen::stream());
    let mut dec = FrameDecoder::new(Some(cipher), None);
    let mut wire = enc
        .encode(FrameType::Data, 0, 1, b"payload")
        .unwrap()
        .to_vec();
    let last = wire.len() - 1;
    wire[last] ^= 0xff;
    dec.feed(&wire);
    assert!(dec.next_frame().is_err());
}

#[test]
fn fragmented_feed() {
    let cipher = Arc::new(FrameCipher::new(&[3u8; 32]));
    let mut enc = FrameEncoder::new(cipher.clone(), CounterGen::stream());
    let mut dec = FrameDecoder::new(Some(cipher), None);
    let wire = enc.encode(FrameType::Ping, 0, 7, b"12345678").unwrap();
    for chunk in wire.chunks(3) {
        dec.feed(chunk);
        if let Some(f) = dec.next_frame().unwrap() {
            assert_eq!(f.payload, b"12345678");
            return;
        }
    }
    panic!("frame never completed");
}

#[test]
fn decoder_clear_recovers_after_corruption() {
    let cipher = Arc::new(FrameCipher::new(&[4u8; 32]));
    let mut enc = FrameEncoder::new(cipher.clone(), CounterGen::stream());
    let mut dec = FrameDecoder::new(Some(cipher), None);
    let wire = enc.encode(FrameType::Ping, 0, 1, b"abcdef").unwrap();
    // truncated frame + garbage: an unrecoverable buffer state
    dec.feed(&wire[..wire.len() - 2]);
    assert!(dec.next_frame().unwrap().is_none());
    dec.feed(&[0xff; 8]);
    // clearing the buffer lets the next datagram parse cleanly
    dec.clear();
    dec.feed(&wire);
    let f = dec.next_frame().unwrap().unwrap();
    assert_eq!(f.payload, b"abcdef");
}

#[test]
fn open_roundtrip() {
    let p = encode_open("example.com", 443);
    let (h, po) = decode_open(&p).unwrap();
    assert_eq!(h, "example.com");
    assert_eq!(po, 443);
}

/// Pseudo-random bytes for the tests that want arbitrary input.
fn noise(seed: u64, len: usize) -> Vec<u8> {
    let mut x = seed.wrapping_mul(0x9e37_79b9_7f4a_7c15) | 1;
    let mut out = Vec::with_capacity(len);
    for _ in 0..len {
        x ^= x << 13;
        x ^= x >> 7;
        x ^= x << 17;
        out.push((x >> 24) as u8);
    }
    out
}

/// Arbitrary chunked input must never panic; on a decode error the decoder is
/// cleared and remains usable.
#[test]
fn decoder_never_panics_on_arbitrary_input() {
    for seed in 0..40u64 {
        let cipher = Arc::new(FrameCipher::new(&[0x5a; 32]));
        let mut dec = FrameDecoder::new(Some(cipher), None);
        for k in 0..32u64 {
            let c = noise(seed * 100 + k, ((seed + k) % 64) as usize);
            dec.feed(&c);
            loop {
                match dec.next_frame() {
                    Ok(Some(_)) => {}
                    Ok(None) => break,
                    Err(_) => {
                        dec.clear();
                        break;
                    }
                }
            }
        }
    }
}

/// After arbitrary garbage and a `clear()`, a well-formed frame must still
/// decode (state is recoverable, buffer is not poisoned).
#[test]
fn decoder_recovers_after_clear() {
    for seed in 0..40u64 {
        let garbage = noise(seed, (seed * 6) as usize);
        let payload = noise(seed + 1000, (seed * 100) as usize);
        let cipher = Arc::new(FrameCipher::new(&[0x33; 32]));
        let mut enc = FrameEncoder::new(cipher.clone(), CounterGen::stream());
        let wire = enc.encode(FrameType::Data, 0, 5, &payload).unwrap();

        let mut dec = FrameDecoder::new(Some(cipher), None);
        dec.feed(&garbage);
        while let Ok(Some(_)) = dec.next_frame() {}
        dec.clear();
        dec.feed(&wire);
        let f = dec.next_frame().expect("no error").expect("frame");
        assert_eq!(f.payload, payload);
    }
}

#[test]
fn open_encode_decode_roundtrip() {
    for (host, port) in [("a", 0u16), ("z9.example", 65535), ("0.0", 80), ("abcdefghijklmnopqrstuvwxyz.0123456789.abcdefghijkl", 1)] {
        let p = encode_open(host, port);
        let (h, po) = decode_open(&p).unwrap();
        assert_eq!(h, host);
        assert_eq!(po, port);
    }
}

#[test]
fn decode_open_never_panics() {
    for seed in 0..300u64 {
        let _ = decode_open(&noise(seed, seed as usize));
    }
}

#[test]
fn open_payload_layout_and_errors() {
    let mut p = encode_open("ab", 0x1234);
    assert_eq!(p, vec![2, 0, b'a', b'b', 0x34, 0x12]);
    p.extend_from_slice(&[9, 9, 9]); // padding is ignored
    assert_eq!(decode_open(&p).unwrap(), ("ab".to_string(), 0x1234));
    assert_eq!(decode_open(&[]).unwrap_err(), OpenPayloadError::Truncated);
    assert_eq!(decode_open(&[0, 0, 0, 0]).unwrap_err(), OpenPayloadError::BadHost);
    assert_eq!(decode_open(&[3, 0, b'a', 0, 0]).unwrap_err(), OpenPayloadError::BadHost);
    assert_eq!(decode_open(&[1, 0, 0xff, 0, 0]).unwrap_err(), OpenPayloadError::NotUtf8);
}

#[test]
fn header_layout() {
    let h = build_header(FrameType::Data, 0x0201, 0x0605_0403, 0x0a09_0807, 0x1211_100f_0e0d_0c0b);
    assert_eq!(h[0], 1);
    assert_eq!(&h[2..20], &(1u8..=18).collect::<Vec<u8>>()[..]);
    let p = parse_header(&h).unwrap();
    assert_eq!(p.sid, 0x0605_0403);
    assert_eq!(p.counter, 0x1211_100f_0e0d_0c0b);
    let mut bad = h;
    bad[0] = 9;
    assert_eq!(parse_header(&bad).err(), Some(FrameError::BadVersion(9)));
    bad = h;
    bad[1] = 200;
    assert_eq!(parse_header(&bad).err(), Some(FrameError::BadType(200)));
}

#[test]
fn frame_limits_are_enforced_on_both_sides() {
    let cipher = Arc::new(FrameCipher::new(&[5u8; 32]));
    let mut enc = FrameEncoder::new(cipher.clone(), CounterGen::stream());
    assert_eq!(
        enc.encode(FrameType::Data, 0, 1, &vec![0u8; MAX_PLAINTEXT + 1]).unwrap_err(),
        FrameError::TooLarge
    );
    enc.set_limit(40_000);
    let wire = enc.encode(FrameType::Data, 0, 1, &vec![7u8; 40_000]).unwrap();
    let mut small = FrameDecoder::new(Some(cipher.clone()), None);
    small.feed(&wire);
    assert!(small.next_frame().is_err());
    let mut large = FrameDecoder::with_limit(Some(cipher), None, FrameLimit::new(40_000));
    large.feed(&wire);
    assert_eq!(large.next_frame().unwrap().unwrap().payload.len(), 40_000);
    assert_eq!(negotiate(1000, 70_000), 1000);
    assert_eq!(negotiate(70_000, 1000), 1000);
}

#[test]
fn replayed_datagrams_are_refused() {
    let cipher = Arc::new(FrameCipher::new(&[6u8; 32]));
    let mut enc = FrameEncoder::new(cipher.clone(), CounterGen::datagram());
    let wire = enc.encode(FrameType::UdpData, 0, 1, b"once").unwrap();
    let mut dec = FrameDecoder::new(Some(cipher), Some(ReplayWindow::new()));
    dec.feed(&wire);
    assert_eq!(dec.next_frame().unwrap().unwrap().payload, b"once");
    dec.feed(&wire);
    assert_eq!(dec.next_frame().unwrap_err(), FrameError::Replayed);
}

#[test]
fn padding_stays_within_its_bound() {
    for _ in 0..200 {
        assert!(random_padding().len() <= MAX_PADDING);
    }
    assert_eq!(padding_len(0), 0);
    assert_eq!(padding_len(63), MAX_PADDING);
    assert_eq!(padding_len(64), 0);
    assert_eq!(padding_len(u32::MAX), 63);
}

#[test]
fn messages_are_read_in_pieces() {
    let mut s = StreamAsRead::new();
    assert!(matches!(s.read(4), ReadStep::NeedMore));
    s.feed(b"hello");
    s.feed(b" world");
    assert!(matches!(s.read(4), ReadStep::Bytes(b) if b == b"hell"));
    assert!(matches!(s.read(100), ReadStep::Bytes(b) if b == b"o world"));
    s.feed(b"!");
    s.end();
    assert!(matches!(s.read(1), ReadStep::Bytes(b) if b == b"!"));
    assert!(matches!(s.read(1), ReadStep::Eof));
}

/// A datagram carries whole frames: a copy of one is dropped, and a corrupt
/// one leaves nothing behind for the next.
#[test]
fn datagrams_are_received_once_and_independently() {
    let cipher = Arc::new(FrameCipher::new(&[9u8; 32]));
    let mut enc = FrameEncoder::new(cipher.clone(), CounterGen::datagram());
    let mut dec = FrameDecoder::new(Some(cipher), Some(ReplayWindow::new()));
    let a = enc.encode(FrameType::UdpData, 0, 3, b"first").unwrap().to_vec();
    let b = enc.encode(FrameType::UdpData, 0, 4, b"second").unwrap().to_vec();
    let c = enc.encode(FrameType::UdpData, 0, 5, b"third").unwrap().to_vec();

    let mut both = a.clone();
    both.extend_from_slice(&b);
    let got = dec.receive_datagram(&both);
    assert_eq!(got.len(), 2);
    assert_eq!((got[0].sid, got[0].payload.as_slice()), (3, &b"first"[..]));
    assert_eq!((got[1].sid, got[1].payload.as_slice()), (4, &b"second"[..]));

    assert!(dec.receive_datagram(&a).is_empty());
    let mut corrupt = c.clone();
    let last = corrupt.len() - 1;
    corrupt[last] ^= 1;
    assert!(dec.receive_datagram(&corrupt).is_empty());
    let d = enc.encode(FrameType::UdpData, 0, 6, b"fourth").unwrap();
    let after = dec.receive_datagram(&d);
    assert_eq!(after.len(), 1);
    assert_eq!((after[0].sid, after[0].payload.as_slice()), (6, &b"fourth"[..]));
}
