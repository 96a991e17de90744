//! UDP addresses and the SOCKS5 UDP header.

use newppp::proto::addr::{build_socks5_udp, parse_socks5_udp, AddrError, Reader, UdpAddr};

#[test]
fn addr_roundtrip() {
    for a in [
        UdpAddr::V4([8, 8, 8, 8], 53),
        UdpAddr::Domain("dns.google".into(), 853),
    ] {
        let mut v = Vec::new();
        a.encode(&mut v);
        let mut r = Reader::new(&v);
        let d = UdpAddr::decode(&mut r).unwrap();
        assert_eq!(a, d);
    }
}

#[test]
fn socks5_udp_port_is_big_endian() {
    // RFC 1928: ports in the SOCKS5 UDP header are network byte order.
    let target = UdpAddr::V4([1, 2, 3, 4], 0xE450); // 58448
    let pkt = build_socks5_udp(&target, b"hi");
    // header: RSV(2) FRAG(1) ATYP(1) ADDR(4) PORT(2)
    assert_eq!(&pkt[8..10], &[0xE4, 0x50]);
    let (t2, p2) = parse_socks5_udp(&pkt).unwrap();
    assert_eq!(target, t2);
    assert_eq!(p2, b"hi");
}

#[test]
fn socks5_udp_roundtrip() {
    let target = UdpAddr::V4([1, 2, 3, 4], 9999);
    let pkt = build_socks5_udp(&target, b"payload");
    let (t2, p2) = parse_socks5_udp(&pkt).unwrap();
    assert_eq!(target, t2);
    assert_eq!(p2, b"payload");
}

/// RFC 1928 numbers IPv6 addresses 4; the frames of the tunnel use 2.
#[test]
fn socks5_udp_numbers_ipv6_as_the_standard_does() {
    let ip = [0x20, 1, 0xd, 0xb8, 0, 0, 0, 0, 0, 0, 0, 0, 0, 0, 0, 1];
    let target = UdpAddr::V6(ip, 0x1151);
    let mut pkt = build_socks5_udp(&target, b"hi");
    assert_eq!(pkt[3], 4);
    assert_eq!(&pkt[4..20], &ip);
    assert_eq!(&pkt[20..], &[0x11, 0x51, b'h', b'i']);
    let (t2, p2) = parse_socks5_udp(&pkt).unwrap();
    assert_eq!((t2, p2), (target.clone(), b"hi".to_vec()));
    pkt[3] = 2;
    assert_eq!(parse_socks5_udp(&pkt).unwrap_err(), AddrError::BadType(2));
    let mut v = Vec::new();
    target.encode(&mut v);
    assert_eq!(v[0], 2);
}

#[test]
fn v6_roundtrip_and_tail() {
    let a = UdpAddr::V6([0x20, 1, 0xd, 0xb8, 0, 0, 0, 0, 0, 0, 0, 0, 0, 0, 0, 1], 4433);
    let mut v = Vec::new();
    a.encode(&mut v);
    v.extend_from_slice(b"rest");
    let mut r = Reader::new(&v);
    assert_eq!(UdpAddr::decode(&mut r).unwrap(), a);
    assert_eq!(r.rest(), b"rest");
}

#[test]
fn malformed_addresses_are_told_apart() {
    let mut r = Reader::new(&[]);
    assert_eq!(UdpAddr::decode(&mut r).unwrap_err(), AddrError::PastEnd);
    let mut r = Reader::new(&[77, 0, 0]);
    assert_eq!(UdpAddr::decode(&mut r).unwrap_err(), AddrError::BadType(77));
    let mut r = Reader::new(&[3, 1, 0xff, 0, 0]);
    assert_eq!(UdpAddr::decode(&mut r).unwrap_err(), AddrError::NotUtf8);
    assert_eq!(parse_socks5_udp(&[0, 0, 1, 1, 1, 2, 3, 4, 0, 1]).unwrap_err(), AddrError::Fragmented);
}
