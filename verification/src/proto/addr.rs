//! UDP target/source address encoding (SOCKS5-style but compact).
//!
//! Layout: `type(1) | addr | port(2)`
//! * type 1: IPv4 (4 bytes)
//! * type 2: IPv6 (16 bytes)
//! * type 3: domain (length byte, then that many bytes)
//!
//! Ports are little-endian inside frames and big-endian in the SOCKS5 header.

use vstd::prelude::*;
use vstd::utf8::{decode_utf8, encode_utf8, valid_utf8};

use super::crypto::take16;
use crate::wire;

verus! {

#[derive(Clone, Debug, PartialEq, Eq, Hash)]
pub enum UdpAddr {
    V4([u8; 4], u16),
    V6([u8; 16], u16),
    Domain(String, u16),
}

/// An address as plain values.
#[verifier::ext_equal]
pub ghost enum AddrView {
    V4(Seq<u8>, u16),
    V6(Seq<u8>, u16),
    Domain(Seq<char>, u16),
}

#[derive(Clone, Copy, Debug, PartialEq, Eq, Structural)]
pub enum AddrError {
    PastEnd,
    BadType(u8),
    NotUtf8,
    /// The datagram is a fragment.
    Fragmented,
}

/// The two bytes of a port.
pub open spec fn port_bytes(port: u16, be_ports: bool) -> Seq<u8> {
    if be_ports {
        wire::be(port as nat, 2)
    } else {
        wire::le(port as nat, 2)
    }
}

pub open spec fn port_value(b: Seq<u8>, be_ports: bool) -> u16 {
    if be_ports {
        wire::be_value(b) as u16
    } else {
        wire::le_value(b) as u16
    }
}

/// The type byte of an IPv6 address: that of RFC 1928 in the SOCKS5 header, one
/// of its own in frames.
pub open spec fn v6_code(be_ports: bool) -> u8 {
    if be_ports {
        4
    } else {
        2
    }
}

pub open spec fn addr_encoding(a: AddrView, be_ports: bool) -> Seq<u8> {
    match a {
        AddrView::V4(ip, p) => seq![1u8] + ip + port_bytes(p, be_ports),
        AddrView::V6(ip, p) => seq![v6_code(be_ports)] + ip + port_bytes(p, be_ports),
        AddrView::Domain(h, p) => seq![3u8, (encode_utf8(h).len() % 256) as u8] + encode_utf8(h)
            + port_bytes(p, be_ports),
    }
}

/// The address at the head of `b`, and how many bytes were read for it.
pub open spec fn addr_decoding(b: Seq<u8>, be_ports: bool) -> (Result<AddrView, AddrError>, nat) {
    if b.len() == 0 {
        (Err(AddrError::PastEnd), 0)
    } else if b[0] == 1 || b[0] == v6_code(be_ports) {
        let n: int = if b[0] == 1 {
            4
        } else {
            16
        };
        if b.len() < 1 + n {
            (Err(AddrError::PastEnd), 1)
        } else if b.len() < 3 + n {
            (Err(AddrError::PastEnd), (1 + n) as nat)
        } else {
            let ip = b.subrange(1, 1 + n);
            let p = port_value(b.subrange(1 + n, 3 + n), be_ports);
            (
                Ok(
                    if b[0] == 1 {
                        AddrView::V4(ip, p)
                    } else {
                        AddrView::V6(ip, p)
                    },
                ),
                (3 + n) as nat,
            )
        }
    } else if b[0] == 3 {
        let n = b[1] as int;
        if b.len() < 2 {
            (Err(AddrError::PastEnd), 1)
        } else if b.len() < 2 + n {
            (Err(AddrError::PastEnd), 2)
        } else if b.len() < 4 + n {
            (Err(AddrError::PastEnd), (2 + n) as nat)
        } else if !valid_utf8(b.subrange(2, 2 + n)) {
            (Err(AddrError::NotUtf8), (4 + n) as nat)
        } else {
            (
                Ok(
                    AddrView::Domain(
                        decode_utf8(b.subrange(2, 2 + n)),
                        port_value(b.subrange(2 + n, 4 + n), be_ports),
                    ),
                ),
                (4 + n) as nat,
            )
        }
    } else {
        (Err(AddrError::BadType(b[0])), 1)
    }
}

/// The address fits its encoding: IP addresses have their length, a domain has
/// at most 255 bytes.
pub open spec fn addr_fits(a: AddrView) -> bool {
    match a {
        AddrView::V4(ip, _) => ip.len() == 4,
        AddrView::V6(ip, _) => ip.len() == 16,
        AddrView::Domain(h, _) => encode_utf8(h).len() <= 255,
    }
}

proof fn lemma_port_roundtrip(port: u16, be_ports: bool)
    ensures
        port_bytes(port, be_ports).len() == 2,
        port_value(port_bytes(port, be_ports), be_ports) == port,
{
    wire::lemma_pow256();
    wire::lemma_le_roundtrip(port as nat, 2);
    wire::lemma_be_roundtrip(port as nat, 2);
}

/// Decoding an encoded address gives it back and stops where it ends, in
/// either byte order (a domain of more than 255 bytes does not fit its length
/// byte).
pub proof fn law_addr_roundtrip(a: AddrView, be_ports: bool, rest: Seq<u8>)
    requires
        addr_fits(a),
    ensures
        addr_decoding(addr_encoding(a, be_ports) + rest, be_ports) == (
            Ok::<AddrView, AddrError>(a),
            addr_encoding(a, be_ports).len(),
        ),
{
    let e = addr_encoding(a, be_ports);
    let b = e + rest;
    match a {
        AddrView::V4(ip, p) => {
            lemma_port_roundtrip(p, be_ports);
            assert(b.subrange(1, 5) =~= ip);
            assert(b.subrange(5, 7) =~= port_bytes(p, be_ports));
        },
        AddrView::V6(ip, p) => {
            lemma_port_roundtrip(p, be_ports);
            assert(b.subrange(1, 17) =~= ip);
            assert(b.subrange(17, 19) =~= port_bytes(p, be_ports));
        },
        AddrView::Domain(h, p) => {
            lemma_port_roundtrip(p, be_ports);
            wire::lemma_utf8_roundtrip(h);
            let n = encode_utf8(h).len() as int;
            assert(b.subrange(2, 2 + n) =~= encode_utf8(h));
            assert(b.subrange(2 + n, 4 + n) =~= port_bytes(p, be_ports));
        },
    }
}

fn put_port(out: &mut Vec<u8>, port: u16, be_ports: bool)
    ensures
        final(out)@ == old(out)@ + port_bytes(port, be_ports),
{
    if be_ports {
        wire::push_be(out, port as u64, 2);
    } else {
        wire::push_le(out, port as u64, 2);
    }
}

fn take4(b: &[u8]) -> (r: [u8; 4])
    requires
        b@.len() == 4,
    ensures
        r@ == b@,
{
    let r = [b[0], b[1], b[2], b[3]];
    assert(r@ =~= b@);
    r
}

impl UdpAddr {
    pub open spec fn view(self) -> AddrView {
        match self {
            UdpAddr::V4(ip, p) => AddrView::V4(ip@, p),
            UdpAddr::V6(ip, p) => AddrView::V6(ip@, p),
            UdpAddr::Domain(h, p) => AddrView::Domain(h@, p),
        }
    }

    pub fn encode(&self, out: &mut Vec<u8>)
        ensures
            final(out)@ == old(out)@ + addr_encoding(self.view(), false),
    {
        self.encode_with(out, false)
    }

    /// `be_ports = true` is the SOCKS5 wire format: ports in network byte
    /// order, address types of RFC 1928. The encoding inside frames has ports
    /// low byte first and its own type for IPv6.
    pub fn encode_with(&self, out: &mut Vec<u8>, be_ports: bool)
        ensures
            final(out)@ == old(out)@ + addr_encoding(self.view(), be_ports),
    {
        match self {
            UdpAddr::V4(ip, p) => {
                out.push(1);
                wire::push_bytes(out, ip.as_slice());
                put_port(out, *p, be_ports);
            },
            UdpAddr::V6(ip, p) => {
                out.push(
                    if be_ports {
                        4
                    } else {
                        2
                    },
                );
                wire::push_bytes(out, ip.as_slice());
                put_port(out, *p, be_ports);
            },
            UdpAddr::Domain(h, p) => {
                let b = h.as_str().as_bytes();
                out.push(3);
                out.push((b.len() % 256) as u8);
                wire::push_bytes(out, b);
                put_port(out, *p, be_ports);
            },
        }
        assert(out@ =~= old(out)@ + addr_encoding(self.view(), be_ports));
    }

    pub fn decode(r: &mut Reader<'_>) -> (res: Result<Self, AddrError>)
        requires
            old(r).wf(),
        ensures
            final(r).wf(),
            final(r).remaining() == old(r).remaining().skip(
                addr_decoding(old(r).remaining(), false).1 as int,
            ),
            match res {
                Ok(a) => addr_decoding(old(r).remaining(), false).0 == Ok::<AddrView, AddrError>(
                    a.view(),
                ),
                Err(e) => addr_decoding(old(r).remaining(), false).0 == Err::<AddrView, AddrError>(
                    e,
                ),
            },
    {
        Self::decode_with(r, false)
    }

    /// Read an address; the bytes looked at are consumed.
    pub fn decode_with(r: &mut Reader<'_>, be_ports: bool) -> (res: Result<Self, AddrError>)
        requires
            old(r).wf(),
        ensures
            final(r).wf(),
            final(r).remaining() == old(r).remaining().skip(
                addr_decoding(old(r).remaining(), be_ports).1 as int,
            ),
            match res {
                Ok(a) => addr_decoding(old(r).remaining(), be_ports).0 == Ok::<
                    AddrView,
                    AddrError,
                >(a.view()),
                Err(e) => addr_decoding(old(r).remaining(), be_ports).0 == Err::<
                    AddrView,
                    AddrError,
                >(e),
            },
    {
        let ghost b = r.remaining();
        assert(b.skip(0) =~= b);
        let t = match r.read_u8() {
            Ok(t) => t,
            Err(e) => {
                return Err(e);
            },
        };
        let v6: u8 = if be_ports {
            4
        } else {
            2
        };
        if t == 1 || t == v6 {
            let n: usize = if t == 1 {
                4
            } else {
                16
            };
            let ip = match r.read_bytes(n) {
                Ok(x) => x,
                Err(e) => {
                    return Err(e);
                },
            };
            assert(ip@ =~= b.subrange(1, 1 + n));
            assert(r.remaining() =~= b.skip(1 + n));
            let port = match r.read_port(be_ports) {
                Ok(p) => p,
                Err(e) => {
                    return Err(e);
                },
            };
            proof {
                assert(r.remaining() =~= b.skip(3 + n));
                assert(b.skip(1 + n).take(2) =~= b.subrange(1 + n, 3 + n));
            }
            if t == 1 {
                Ok(UdpAddr::V4(take4(ip), port))
            } else {
                Ok(UdpAddr::V6(take16(ip), port))
            }
        } else if t == 3 {
            let n: usize = match r.read_u8() {
                Ok(n) => n as usize,
                Err(e) => {
                    return Err(e);
                },
            };
            assert(r.remaining() =~= b.skip(2));
            let d = match r.read_bytes(n) {
                Ok(x) => x,
                Err(e) => {
                    return Err(e);
                },
            };
            assert(d@ =~= b.subrange(2, 2 + n));
            assert(r.remaining() =~= b.skip(2 + n));
            let port = match r.read_port(be_ports) {
                Ok(p) => p,
                Err(e) => {
                    return Err(e);
                },
            };
            proof {
                assert(r.remaining() =~= b.skip(4 + n));
                assert(b.skip(2 + n).take(2) =~= b.subrange(2 + n, 4 + n));
            }
            match wire::utf8_text(d) {
                Some(h) => Ok(UdpAddr::Domain(h, port)),
                None => Err(AddrError::NotUtf8),
            }
        } else {
            Err(AddrError::BadType(t))
        }
    }
}

/// A cursor over bytes.
pub struct Reader<'a> {
    b: &'a [u8],
    pos: usize,
}

impl<'a> Reader<'a> {
    pub closed spec fn wf(self) -> bool {
        self.pos <= self.b@.len()
    }

    /// The bytes not read yet.
    pub closed spec fn remaining(self) -> Seq<u8> {
        self.b@.skip(self.pos as int)
    }

    pub fn new(b: &'a [u8]) -> (r: Self)
        ensures
            r.wf(),
            r.remaining() == b@,
    {
        assert(b@.skip(0) =~= b@);
        Reader { b, pos: 0 }
    }

    pub fn read_u8(&mut self) -> (r: Result<u8, AddrError>)
        requires
            old(self).wf(),
        ensures
            final(self).wf(),
            match r {
                Ok(v) => old(self).remaining().len() > 0 && v == old(self).remaining()[0] && final(self).remaining() == old(self).remaining().skip(1),
                Err(e) => old(self).remaining().len() == 0 && e == AddrError::PastEnd && *final(self) == *old(self),
            },
    {
        if self.pos >= self.b.len() {
            return Err(AddrError::PastEnd);
        }
        let v = self.b[self.pos];
        self.pos = self.pos + 1;
        assert(self.remaining() =~= old(self).remaining().skip(1));
        Ok(v)
    }

    pub fn read_u16(&mut self) -> (r: Result<u16, AddrError>)
        requires
            old(self).wf(),
        ensures
            final(self).wf(),
            match r {
                Ok(v) => old(self).remaining().len() >= 2 && v == wire::le_value(
                    old(self).remaining().take(2),
                ) && final(self).remaining() == old(self).remaining().skip(2),
                Err(e) => old(self).remaining().len() < 2 && e == AddrError::PastEnd && *final(self)
                    == *old(self),
            },
    {
        match self.read_bytes(2) {
            Ok(b) => {
                proof {
                    wire::lemma_pow256();
                    wire::lemma_le_value_bound(b@);
                }
                Ok(wire::read_le(b) as u16)
            },
            Err(e) => Err(e),
        }
    }

    pub fn read_u16_be(&mut self) -> (r: Result<u16, AddrError>)
        requires
            old(self).wf(),
        ensures
            final(self).wf(),
            match r {
                Ok(v) => old(self).remaining().len() >= 2 && v == wire::be_value(
                    old(self).remaining().take(2),
                ) && final(self).remaining() == old(self).remaining().skip(2),
                Err(e) => old(self).remaining().len() < 2 && e == AddrError::PastEnd && *final(self)
                    == *old(self),
            },
    {
        match self.read_bytes(2) {
            Ok(b) => {
                proof {
                    wire::lemma_pow256();
                    wire::lemma_be_value_bound(b@);
                }
                Ok(wire::read_be(b) as u16)
            },
            Err(e) => Err(e),
        }
    }

    fn read_port(&mut self, be_ports: bool) -> (r: Result<u16, AddrError>)
        requires
            old(self).wf(),
        ensures
            final(self).wf(),
            match r {
                Ok(v) => old(self).remaining().len() >= 2 && v == port_value(
                    old(self).remaining().take(2),
                    be_ports,
                ) && final(self).remaining() == old(self).remaining().skip(2),
                Err(e) => old(self).remaining().len() < 2 && e == AddrError::PastEnd && *final(self)
                    == *old(self),
            },
    {
        if be_ports {
            self.read_u16_be()
        } else {
            self.read_u16()
        }
    }

    pub fn read_bytes(&mut self, n: usize) -> (r: Result<&'a [u8], AddrError>)
        requires
            old(self).wf(),
        ensures
            final(self).wf(),
            match r {
                Ok(s) => old(self).remaining().len() >= n && s@ == old(self).remaining().take(
                    n as int,
                ) && final(self).remaining() == old(self).remaining().skip(n as int),
                Err(e) => old(self).remaining().len() < n && e == AddrError::PastEnd && *final(self)
                    == *old(self),
            },
    {
        if self.b.len() - self.pos < n {
            return Err(AddrError::PastEnd);
        }
        let s = wire::slice(self.b, self.pos, self.pos + n);
        self.pos = self.pos + n;
        proof {
            assert(s@ =~= old(self).remaining().take(n as int));
            assert(self.remaining() =~= old(self).remaining().skip(n as int));
        }
        Ok(s)
    }

    pub fn rest(&mut self) -> (r: &'a [u8])
        requires
            old(self).wf(),
        ensures
            final(self).wf(),
            r@ == old(self).remaining(),
            final(self).remaining() == Seq::<u8>::empty(),
    {
        let s = wire::slice(self.b, self.pos, self.b.len());
        self.pos = self.b.len();
        proof {
            assert(s@ =~= old(self).remaining());
            assert(self.remaining() =~= Seq::<u8>::empty());
        }
        s
    }
}

/// What a SOCKS5 UDP datagram holds: RSV(2) FRAG(1) ATYP(1) ADDR PORT DATA,
/// ports in network byte order; a fragment is refused.
pub open spec fn socks5_udp_decoding(packet: Seq<u8>) -> Result<(AddrView, Seq<u8>), AddrError> {
    if packet.len() < 3 {
        Err(AddrError::PastEnd)
    } else if packet[2] != 0 {
        Err(AddrError::Fragmented)
    } else {
        match addr_decoding(packet.skip(3), true) {
            (Ok(a), n) => Ok((a, packet.skip(3 + n as int))),
            (Err(e), _) => Err(e),
        }
    }
}

pub open spec fn socks5_udp_encoding(a: AddrView, payload: Seq<u8>) -> Seq<u8> {
    seq![0u8, 0u8, 0u8] + addr_encoding(a, true) + payload
}

/// A datagram built for an address parses to that address and its payload (a
/// domain of more than 255 bytes does not fit its length byte).
pub proof fn law_socks5_udp_roundtrip(a: AddrView, payload: Seq<u8>)
    requires
        addr_fits(a),
    ensures
        socks5_udp_decoding(socks5_udp_encoding(a, payload)) == Ok::<
            (AddrView, Seq<u8>),
            AddrError,
        >((a, payload)),
{
    let p = socks5_udp_encoding(a, payload);
    law_addr_roundtrip(a, true, payload);
    assert(p.skip(3) =~= addr_encoding(a, true) + payload);
    assert(p.skip(3 + addr_encoding(a, true).len() as int) =~= payload);
}

/// Parse a SOCKS5 UDP request header: RSV(2) FRAG(1) ATYP(1) ADDR PORT.
/// Ports are network byte order (RFC 1928). Fragmented datagrams rejected.
pub fn parse_socks5_udp(packet: &[u8]) -> (r: Result<(UdpAddr, Vec<u8>), AddrError>)
    ensures
        match r {
            Ok((a, p)) => socks5_udp_decoding(packet@) == Ok::<(AddrView, Seq<u8>), AddrError>(
                (a.view(), p@),
            ),
            Err(e) => socks5_udp_decoding(packet@) == Err::<(AddrView, Seq<u8>), AddrError>(e),
        },
{
    let mut r = Reader::new(packet);
    match r.read_u16() {
        Ok(_) => {},
        Err(e) => {
            return Err(e);
        },
    }
    let frag = match r.read_u8() {
        Ok(v) => v,
        Err(e) => {
            return Err(e);
        },
    };
    if frag != 0 {
        return Err(AddrError::Fragmented);
    }
    assert(r.remaining() =~= packet@.skip(3));
    let addr = match UdpAddr::decode_with(&mut r, true) {
        Ok(a) => a,
        Err(e) => {
            return Err(e);
        },
    };
    let p = wire::copy_bytes(r.rest());
    proof {
        let n = addr_decoding(packet@.skip(3), true).1 as int;
        assert(packet@.skip(3).skip(n) =~= packet@.skip(3 + n));
    }
    Ok((addr, p))
}

/// Build a SOCKS5 UDP reply header for `addr` (network byte order ports).
pub fn build_socks5_udp(addr: &UdpAddr, payload: &[u8]) -> (r: Vec<u8>)
    ensures
        r@ == socks5_udp_encoding(addr.view(), payload@),
{
    let mut v: Vec<u8> = Vec::new();
    v.push(0);
    v.push(0);
    v.push(0);
    addr.encode_with(&mut v, true);
    wire::push_bytes(&mut v, payload);
    assert(v@ =~= socks5_udp_encoding(addr.view(), payload@));
    v
}

/// An address on the wire, byte by byte. In frames IPv6 is type 2 and the port
/// has its low byte first; in SOCKS5 datagrams IPv6 is type 4 and the high byte
/// comes first.
pub proof fn law_addr_on_the_wire(
    v4: Seq<u8>,
    v6: Seq<u8>,
    name: Seq<char>,
    x: u8,
    y: u8,
    tail: Seq<u8>,
    be_ports: bool,
)
    requires
        v4.len() == 4,
        v6.len() == 16,
        encode_utf8(name).len() <= 255,
    ensures
        ({
            let port = (if be_ports {
                x * 256 + y
            } else {
                y * 256 + x
            }) as u16;
            let six = if be_ports {
                4u8
            } else {
                2u8
            };
            let n = encode_utf8(name).len();
            &&& addr_decoding(seq![1u8] + v4 + seq![x, y] + tail, be_ports) == (
                Ok::<AddrView, AddrError>(AddrView::V4(v4, port)),
                7nat,
            )
            &&& addr_decoding(seq![six] + v6 + seq![x, y] + tail, be_ports) == (
                Ok::<AddrView, AddrError>(AddrView::V6(v6, port)),
                19nat,
            )
            &&& addr_decoding(
                seq![3u8, n as u8] + encode_utf8(name) + seq![x, y] + tail,
                be_ports,
            ) == (Ok::<AddrView, AddrError>(AddrView::Domain(name, port)), 4 + n)
            &&& tail.len() > 0 && tail[0] != 1 && tail[0] != six && tail[0] != 3 ==> addr_decoding(
                tail,
                be_ports,
            ).0 == Err::<AddrView, AddrError>(AddrError::BadType(tail[0]))
            &&& addr_decoding(seq![1u8] + v4 + seq![x], be_ports).0 == Err::<AddrView, AddrError>(
                AddrError::PastEnd,
            )
            &&& addr_decoding(Seq::empty(), be_ports).0 == Err::<AddrView, AddrError>(
                AddrError::PastEnd,
            )
        }),
{
    wire::law_short_numbers(x, y, 0, 0);
    wire::lemma_utf8_roundtrip(name);
    let a = seq![1u8] + v4 + seq![x, y] + tail;
    assert(a.subrange(1, 5) =~= v4);
    assert(a.subrange(5, 7) =~= seq![x, y]);
    let six = v6_code(be_ports);
    let b = seq![six] + v6 + seq![x, y] + tail;
    assert(b.subrange(1, 17) =~= v6);
    assert(b.subrange(17, 19) =~= seq![x, y]);
    let e = encode_utf8(name);
    let n = e.len() as int;
    let c = seq![3u8, n as u8] + e + seq![x, y] + tail;
    assert(c[0] == 3 && c[1] == n);
    assert(c.subrange(2, 2 + n) =~= e);
    assert(c.subrange(2 + n, 4 + n) =~= seq![x, y]);
}

/// The header of a SOCKS5 datagram: two reserved bytes, no fragment, the target;
/// the payload is everything behind it. Fragments are refused.
pub proof fn law_socks5_datagrams(
    v4: Seq<u8>,
    x: u8,
    y: u8,
    r1: u8,
    r2: u8,
    frag: u8,
    payload: Seq<u8>,
)
    requires
        v4.len() == 4,
    ensures
        ({
            let p = seq![r1, r2, frag] + seq![1u8] + v4 + seq![x, y] + payload;
            socks5_udp_decoding(p) == if frag == 0 {
                Ok::<(AddrView, Seq<u8>), AddrError>(
                    (AddrView::V4(v4, (x * 256 + y) as u16), payload),
                )
            } else {
                Err(AddrError::Fragmented)
            }
        }),
        socks5_udp_encoding(AddrView::V4(v4, (x * 256 + y) as u16), payload) == seq![
            0u8,
            0,
            0,
            1,
        ] + v4 + seq![x, y] + payload,
{
    let p = seq![r1, r2, frag] + seq![1u8] + v4 + seq![x, y] + payload;
    assert(p.skip(3) =~= seq![1u8] + v4 + seq![x, y] + payload);
    assert(p.skip(10) =~= payload);
    wire::law_short_numbers(x, y, 0, 0);
    let a = p.skip(3);
    assert(a.subrange(1, 5) =~= v4);
    assert(a.subrange(5, 7) =~= seq![x, y]);
    reveal_with_fuel(wire::be, 3);
    let n = (x * 256 + y) as nat;
    assert(n % 256 == y && n / 256 % 256 == x);
    assert(wire::be(n, 2) =~= seq![x, y]);
    assert(socks5_udp_encoding(AddrView::V4(v4, n as u16), payload) =~= seq![0u8, 0, 0, 1] + v4
        + seq![x, y] + payload);
}

/// Every address fits on the wire, and every name of up to 255 bytes.
pub proof fn law_what_fits_on_the_wire(b: Seq<u8>, host: Seq<char>, port: u16)
    ensures
        b.len() == 4 ==> addr_fits(AddrView::V4(b, port)),
        b.len() == 16 ==> addr_fits(AddrView::V6(b, port)),
        addr_fits(AddrView::Domain(host, port)) <==> encode_utf8(host).len() <= 255,
{
}

/// An address that is cut off is refused; the whole fields before the cut count
/// as read.
pub proof fn law_cut_off_addresses(b: Seq<u8>, be_ports: bool)
    ensures
        b.len() >= 1 && b[0] == 1 && b.len() < 7 ==> addr_decoding(b, be_ports) == (
            Err::<AddrView, AddrError>(AddrError::PastEnd),
            if b.len() < 5 {
                1nat
            } else {
                5nat
            },
        ),
        b.len() == 1 && b[0] == 3 ==> addr_decoding(b, be_ports) == (
            Err::<AddrView, AddrError>(AddrError::PastEnd),
            1nat,
        ),
        b.len() >= 2 && b[0] == 3 && b.len() < 4 + b[1] ==> addr_decoding(b, be_ports) == (
            Err::<AddrView, AddrError>(AddrError::PastEnd),
            if b.len() < 2 + b[1] {
                2nat
            } else {
                (2 + b[1]) as nat
            },
        ),
        b.len() >= 1 && b.len() < 19 && b[0] == (if be_ports {
            4u8
        } else {
            2u8
        }) ==> addr_decoding(b, be_ports) == (
            Err::<AddrView, AddrError>(AddrError::PastEnd),
            if b.len() < 17 {
                1nat
            } else {
                17nat
            },
        ),
{
}

} // verus!
