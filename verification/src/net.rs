//! IP addresses as plain numbers, and which of them are public.

use vstd::prelude::*;

verus! {

/// An IP address: its bits, most significant first.
#[derive(Clone, Copy, Debug, PartialEq, Eq, Structural)]
pub enum Ip {
    V4(u32),
    V6(u128),
}

/// Not a public IPv4 address: this host (0/8), private (10/8, 172.16/12,
/// 192.168/16), carrier-grade NAT and cloud-internal (100.64/10), loopback
/// (127/8), link-local (169.254/16), protocol assignments (192.0.0/24),
/// documentation (192.0.2/24, 198.51.100/24, 203.0.113/24), benchmarking
/// (198.18/15), multicast and reserved (224/3).
pub open spec fn v4_special(b: u32) -> bool {
    ||| b <= 0x00ff_ffff
    ||| 0x0a00_0000 <= b <= 0x0aff_ffff
    ||| 0x6440_0000 <= b <= 0x647f_ffff
    ||| 0x7f00_0000 <= b <= 0x7fff_ffff
    ||| 0xa9fe_0000 <= b <= 0xa9fe_ffff
    ||| 0xac10_0000 <= b <= 0xac1f_ffff
    ||| 0xc000_0000 <= b <= 0xc000_00ff
    ||| 0xc000_0200 <= b <= 0xc000_02ff
    ||| 0xc0a8_0000 <= b <= 0xc0a8_ffff
    ||| 0xc612_0000 <= b <= 0xc613_ffff
    ||| 0xc633_6400 <= b <= 0xc633_64ff
    ||| 0xcb00_7100 <= b <= 0xcb00_71ff
    ||| 0xe000_0000 <= b
}

/// Not a public IPv6 address of its own: unspecified and loopback (::/127),
/// local-use translation (64:ff9b:1::/48), discard (100::/64), documentation
/// (2001:db8::/32), unique local (fc00::/7), link-local and site-local
/// (fe80::/9), multicast (ff00::/8).
pub open spec fn v6_special(b: u128) -> bool {
    ||| b <= 1
    ||| 0x0064_ff9b_0001_0000_0000_0000_0000_0000 <= b
        <= 0x0064_ff9b_0001_ffff_ffff_ffff_ffff_ffff
    ||| 0x0100_0000_0000_0000_0000_0000_0000_0000 <= b
        <= 0x0100_0000_0000_0000_ffff_ffff_ffff_ffff
    ||| 0x2001_0db8_0000_0000_0000_0000_0000_0000 <= b
        <= 0x2001_0db8_ffff_ffff_ffff_ffff_ffff_ffff
    ||| 0xfc00_0000_0000_0000_0000_0000_0000_0000 <= b
        <= 0xfdff_ffff_ffff_ffff_ffff_ffff_ffff_ffff
    ||| 0xfe80_0000_0000_0000_0000_0000_0000_0000 <= b
}

/// The IPv4 address that an IPv6 address carries: IPv4-mapped (::ffff:0:0/96)
/// and NAT64 (64:ff9b::/96) in their last 32 bits, 6to4 (2002::/16) behind its
/// prefix.
pub open spec fn embedded_v4(b: u128) -> Option<u32> {
    if b / 0x1_0000_0000 == 0xffff || b / 0x1_0000_0000 == 0x0064_ff9b_0000_0000_0000_0000 {
        Some((b % 0x1_0000_0000) as u32)
    } else if b / 0x1_0000_0000_0000_0000_0000_0000_0000 == 0x2002 {
        Some(((b / 0x1_0000_0000_0000_0000_0000) % 0x1_0000_0000) as u32)
    } else {
        None
    }
}

/// A public address: an embedded IPv4 address is judged in place of the one
/// that carries it.
pub open spec fn is_public(ip: Ip) -> bool {
    match ip {
        Ip::V4(b) => !v4_special(b),
        Ip::V6(b) => match embedded_v4(b) {
            Some(v) => !v4_special(v),
            None => !v6_special(b),
        },
    }
}

/// Which IPv4 addresses are public, by their four octets: all but this host
/// (0/8), private use (10/8, 172.16/12, 192.168/16), shared address space
/// (100.64/10), loopback (127/8), link-local (169.254/16), protocol assignments
/// (192.0.0/24), documentation (192.0.2/24, 198.51.100/24, 203.0.113/24),
/// benchmarking (198.18/15), and multicast and reserved (224/3).
pub proof fn law_public_v4_by_octets(a: u8, b: u8, c: u8, d: u8)
    ensures
        is_public(Ip::V4((a * 0x100_0000 + b * 0x1_0000 + c * 0x100 + d) as u32)) <==> !{
            ||| a == 0
            ||| a == 10
            ||| a == 100 && 64 <= b < 128
            ||| a == 127
            ||| a == 169 && b == 254
            ||| a == 172 && 16 <= b < 32
            ||| a == 192 && b == 0 && (c == 0 || c == 2)
            ||| a == 192 && b == 168
            ||| a == 198 && (b == 18 || b == 19)
            ||| a == 198 && b == 51 && c == 100
            ||| a == 203 && b == 0 && c == 113
            ||| a >= 224
        },
{
}

/// Which IPv6 addresses are public, by the first sixteen bits and the rest.
/// Those that carry an IPv4 address (::ffff:0:0/96, 64:ff9b::/96, 2002::/16) are
/// public when that one is; of the others all but ::, ::1, 64:ff9b:1::/48,
/// 100::/64, 2001:db8::/32, fc00::/7 and everything from fe80:: on.
pub proof fn law_public_v6_by_prefix(first: u16, rest: u128)
    requires
        rest < 0x1_0000_0000_0000_0000_0000_0000_0000,
    ensures
        ({
            let ip = Ip::V6((first * 0x1_0000_0000_0000_0000_0000_0000_0000 + rest) as u128);
            let last = Ip::V4((rest % 0x1_0000_0000) as u32);
            is_public(ip) <==> if first == 0x2002 {
                is_public(Ip::V4((rest / 0x1_0000_0000_0000_0000_0000) as u32))
            } else if first == 0 {
                if rest / 0x1_0000_0000 == 0xffff {
                    is_public(last)
                } else {
                    rest >= 2
                }
            } else if first == 0x64 {
                if rest / 0x1_0000_0000 == 0xff9b_0000_0000_0000_0000 {
                    is_public(last)
                } else {
                    rest / 0x1_0000_0000_0000_0000_0000 != 0xff9b_0001
                }
            } else if first == 0x100 {
                rest / 0x1_0000_0000_0000_0000 != 0
            } else if first == 0x2001 {
                rest / 0x1_0000_0000_0000_0000_0000_0000 != 0xdb8
            } else {
                !(0xfc00 <= first < 0xfe00) && first < 0xfe80
            }
        }),
{
    let b = (first * 0x1_0000_0000_0000_0000_0000_0000_0000 + rest) as u128;
    let v = rest / 0x1_0000_0000_0000_0000_0000;
    assert(b / 0x1_0000_0000_0000_0000_0000_0000_0000 == first);
    assert(b / 0x1_0000_0000 == first * 0x1_0000_0000_0000_0000_0000 + rest / 0x1_0000_0000);
    assert(b % 0x1_0000_0000 == rest % 0x1_0000_0000);
    assert(b / 0x1_0000_0000_0000_0000_0000 == first * 0x1_0000_0000 + v);
    assert((first * 0x1_0000_0000 + v) % 0x1_0000_0000 == v);
}

/// An IPv4 address is judged alike whether it stands alone or comes as an
/// IPv4-mapped, a NAT64 or a 6to4 address.
pub proof fn law_embedded_is_judged_alike(v: u32, low: u128)
    requires
        low < 0x1_0000_0000_0000_0000_0000,
    ensures
        is_public(Ip::V6((0xffff_0000_0000 + v) as u128)) == is_public(Ip::V4(v)),
        is_public(Ip::V6((0x0064_ff9b_0000_0000_0000_0000_0000_0000 + v) as u128)) == is_public(
            Ip::V4(v),
        ),
        is_public(
            Ip::V6(
                (0x2002_0000_0000_0000_0000_0000_0000_0000 + v * 0x1_0000_0000_0000_0000_0000
                    + low) as u128,
            ),
        ) == is_public(Ip::V4(v)),
{
    let m = (0xffff_0000_0000 + v) as u128;
    assert(m / 0x1_0000_0000 == 0xffff && m % 0x1_0000_0000 == v);
    let n = (0x0064_ff9b_0000_0000_0000_0000_0000_0000 + v) as u128;
    assert(n / 0x1_0000_0000 == 0x0064_ff9b_0000_0000_0000_0000 && n % 0x1_0000_0000 == v);
    let s = (0x2002_0000_0000_0000_0000_0000_0000_0000 + v * 0x1_0000_0000_0000_0000_0000
        + low) as u128;
    assert(s / 0x1_0000_0000_0000_0000_0000_0000_0000 == 0x2002);
    assert(s / 0x1_0000_0000_0000_0000_0000 == 0x2002_0000_0000 + v);
    assert((0x2002_0000_0000 + v) % 0x1_0000_0000 == v);
    assert(s / 0x1_0000_0000 != 0xffff);
    assert(s / 0x1_0000_0000 != 0x0064_ff9b_0000_0000_0000_0000);
}

fn is_v4_special(b: u32) -> (r: bool)
    ensures
        r == v4_special(b),
{
    b <= 0x00ff_ffff || (0x0a00_0000 <= b && b <= 0x0aff_ffff) || (0x6440_0000 <= b && b
        <= 0x647f_ffff) || (0x7f00_0000 <= b && b <= 0x7fff_ffff) || (0xa9fe_0000 <= b && b
        <= 0xa9fe_ffff) || (0xac10_0000 <= b && b <= 0xac1f_ffff) || (0xc000_0000 <= b && b
        <= 0xc000_00ff) || (0xc000_0200 <= b && b <= 0xc000_02ff) || (0xc0a8_0000 <= b && b
        <= 0xc0a8_ffff) || (0xc612_0000 <= b && b <= 0xc613_ffff) || (0xc633_6400 <= b && b
        <= 0xc633_64ff) || (0xcb00_7100 <= b && b <= 0xcb00_71ff) || 0xe000_0000 <= b
}

fn is_v6_special(b: u128) -> (r: bool)
    ensures
        r == v6_special(b),
{
    b <= 1 || (0x0064_ff9b_0001_0000_0000_0000_0000_0000 <= b && b
        <= 0x0064_ff9b_0001_ffff_ffff_ffff_ffff_ffff) || (
    0x0100_0000_0000_0000_0000_0000_0000_0000 <= b && b
        <= 0x0100_0000_0000_0000_ffff_ffff_ffff_ffff) || (
    0x2001_0db8_0000_0000_0000_0000_0000_0000 <= b && b
        <= 0x2001_0db8_ffff_ffff_ffff_ffff_ffff_ffff) || (
    0xfc00_0000_0000_0000_0000_0000_0000_0000 <= b && b
        <= 0xfdff_ffff_ffff_ffff_ffff_ffff_ffff_ffff)
        || 0xfe80_0000_0000_0000_0000_0000_0000_0000 <= b
}

impl Ip {
    /// The address as a pair of its family (true: IPv6) and its bits.
    pub open spec fn key(self) -> (bool, u128) {
        match self {
            Ip::V4(b) => (false, b as u128),
            Ip::V6(b) => (true, b),
        }
    }

    pub fn slot_key(self) -> (r: (bool, u128))
        ensures
            r == self.key(),
    {
        match self {
            Ip::V4(b) => (false, b as u128),
            Ip::V6(b) => (true, b),
        }
    }

    /// Whether the address is public.
    pub fn public(self) -> (r: bool)
        ensures
            r == is_public(self),
    {
        match self {
            Ip::V4(b) => !is_v4_special(b),
            Ip::V6(b) => {
                let top: u128 = b / 0x1_0000_0000;
                if top == 0xffff || top == 0x0064_ff9b_0000_0000_0000_0000 {
                    !is_v4_special((b % 0x1_0000_0000) as u32)
                } else if b / 0x1_0000_0000_0000_0000_0000_0000_0000 == 0x2002 {
                    !is_v4_special(((b / 0x1_0000_0000_0000_0000_0000) % 0x1_0000_0000) as u32)
                } else {
                    !is_v6_special(b)
                }
            },
        }
    }
}

} // verus!
