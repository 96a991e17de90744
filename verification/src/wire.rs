//! Byte order: integers as fixed-width byte sequences.

use vstd::prelude::*;

use crate::text;

verus! {

/// The `k` low bytes of `n`, least significant first.
pub open spec fn le(n: nat, k: nat) -> Seq<u8>
    decreases k,
{
    if k == 0 {
        Seq::empty()
    } else {
        seq![(n % 256) as u8] + le(n / 256, (k - 1) as nat)
    }
}

/// The number whose bytes are `s`, least significant first.
pub open spec fn le_value(s: Seq<u8>) -> nat
    decreases s.len(),
{
    if s.len() == 0 {
        0
    } else {
        s[0] as nat + 256 * le_value(s.drop_first())
    }
}

/// The `k` low bytes of `n`, most significant first.
pub open spec fn be(n: nat, k: nat) -> Seq<u8>
    decreases k,
{
    if k == 0 {
        Seq::empty()
    } else {
        be(n / 256, (k - 1) as nat).push((n % 256) as u8)
    }
}

/// The number whose bytes are `s`, most significant first.
pub open spec fn be_value(s: Seq<u8>) -> nat
    decreases s.len(),
{
    if s.len() == 0 {
        0
    } else {
        256 * be_value(s.drop_last()) + s.last() as nat
    }
}

/// 256 to the power of `k`.
pub open spec fn pow256(k: nat) -> nat
    decreases k,
{
    if k == 0 {
        1
    } else {
        256 * pow256((k - 1) as nat)
    }
}

pub proof fn lemma_pow256()
    ensures
        pow256(1) == 0x100,
        pow256(2) == 0x1_0000,
        pow256(4) == 0x1_0000_0000,
        pow256(8) == 0x1_0000_0000_0000_0000,
        pow256(16) == 0x1_0000_0000_0000_0000_0000_0000_0000_0000,
{
    reveal_with_fuel(pow256, 17);
}

/// The order of bytes: `le` begins with the lowest byte and `be` ends with it;
/// each is the other backwards, and both values agree with that.
pub proof fn law_byte_order(n: nat, k: nat, i: int, s: Seq<u8>)
    requires
        0 <= i < k,
    ensures
        le(n, k).len() == k,
        be(n, k).len() == k,
        le(n, k)[0] == n % 256,
        be(n, k)[k - 1] == n % 256,
        be(n, k)[k - 1 - i] == le(n, k)[i],
        le_value(s) == be_value(s.reverse()),
        s.len() > 0 ==> le_value(s) == s[0] + 256 * le_value(s.drop_first()),
        s.len() > 0 ==> be_value(s) == s.last() + 256 * be_value(s.drop_last()),
    decreases k, s.len(),
{
    lemma_le_len(n, k);
    lemma_be_len(n, k);
    if i > 0 {
        law_byte_order(n / 256, (k - 1) as nat, i - 1, Seq::empty());
    }
    if s.len() > 0 {
        assert(s.reverse().last() == s[0]);
        assert(s.reverse().drop_last() =~= s.drop_first().reverse());
        law_byte_order(n, k, i, s.drop_first());
    } else {
        assert(s.reverse() =~= s);
    }
}

/// Two bytes, four bytes: the numbers they stand for.
pub proof fn law_short_numbers(a: u8, b: u8, c: u8, d: u8)
    ensures
        be_value(seq![a, b]) == a * 256 + b,
        le_value(seq![a, b]) == b * 256 + a,
        be_value(seq![a, b, c, d]) == a * 0x100_0000 + b * 0x1_0000 + c * 0x100 + d,
        le_value(seq![a, b, c, d]) == d * 0x100_0000 + c * 0x1_0000 + b * 0x100 + a,
{
    reveal_with_fuel(be_value, 5);
    reveal_with_fuel(le_value, 5);
    let s = seq![a, b];
    assert(s.drop_last() =~= seq![a] && seq![a].drop_last() =~= Seq::<u8>::empty());
    assert(s.drop_first() =~= seq![b] && seq![b].drop_first() =~= Seq::<u8>::empty());
    let t = seq![a, b, c, d];
    assert(t.drop_last() =~= seq![a, b, c]);
    assert(seq![a, b, c].drop_last() =~= s);
    assert(t.drop_first() =~= seq![b, c, d]);
    assert(seq![b, c, d].drop_first() =~= seq![c, d]);
    assert(seq![c, d].drop_first() =~= seq![d]);
    assert(seq![d].drop_first() =~= Seq::<u8>::empty());
}

/// A number of `k` bytes reads back as itself (least significant first).
pub proof fn lemma_le_roundtrip(n: nat, k: nat)
    requires
        n < pow256(k),
    ensures
        le(n, k).len() == k,
        le_value(le(n, k)) == n,
    decreases k,
{
    if k > 0 {
        assert(n / 256 < pow256((k - 1) as nat)) by (nonlinear_arith)
            requires
                n < 256 * pow256((k - 1) as nat),
        ;
        lemma_le_roundtrip(n / 256, (k - 1) as nat);
        let s = le(n, k);
        assert(s.drop_first() =~= le(n / 256, (k - 1) as nat));
    }
}

pub proof fn lemma_le_len(n: nat, k: nat)
    ensures
        le(n, k).len() == k,
    decreases k,
{
    if k > 0 {
        lemma_le_len(n / 256, (k - 1) as nat);
    }
}

/// A number of `k` bytes reads back as itself (most significant first).
pub proof fn lemma_be_roundtrip(n: nat, k: nat)
    requires
        n < pow256(k),
    ensures
        be(n, k).len() == k,
        be_value(be(n, k)) == n,
    decreases k,
{
    if k > 0 {
        assert(n / 256 < pow256((k - 1) as nat)) by (nonlinear_arith)
            requires
                n < 256 * pow256((k - 1) as nat),
        ;
        lemma_be_roundtrip(n / 256, (k - 1) as nat);
        let s = be(n, k);
        assert(s.drop_last() =~= be(n / 256, (k - 1) as nat));
    }
}

pub proof fn lemma_be_len(n: nat, k: nat)
    ensures
        be(n, k).len() == k,
    decreases k,
{
    if k > 0 {
        lemma_be_len(n / 256, (k - 1) as nat);
    }
}

pub proof fn lemma_le_value_bound(s: Seq<u8>)
    ensures
        le_value(s) < pow256(s.len()),
    decreases s.len(),
{
    if s.len() > 0 {
        lemma_le_value_bound(s.drop_first());
    }
}

pub proof fn lemma_be_value_bound(s: Seq<u8>)
    ensures
        be_value(s) < pow256(s.len()),
    decreases s.len(),
{
    if s.len() > 0 {
        lemma_be_value_bound(s.drop_last());
    }
}

/// Append the `k` low bytes of `n`, least significant first.
pub fn push_le(out: &mut Vec<u8>, n: u64, k: usize)
    ensures
        final(out)@ == old(out)@ + le(n as nat, k as nat),
    decreases k,
{
    if k > 0 {
        out.push((n % 256) as u8);
        push_le(out, n / 256, k - 1);
        assert(out@ =~= old(out)@ + le(n as nat, k as nat));
    } else {
        assert(out@ =~= old(out)@ + le(n as nat, k as nat));
    }
}

/// Append the `k` low bytes of `n`, most significant first.
pub fn push_be(out: &mut Vec<u8>, n: u64, k: usize)
    ensures
        final(out)@ == old(out)@ + be(n as nat, k as nat),
    decreases k,
{
    if k > 0 {
        push_be(out, n / 256, k - 1);
        out.push((n % 256) as u8);
        assert(out@ =~= old(out)@ + be(n as nat, k as nat));
    } else {
        assert(out@ =~= old(out)@ + be(n as nat, k as nat));
    }
}

/// Read up to eight bytes, least significant first.
pub fn read_le(b: &[u8]) -> (r: u64)
    requires
        b.len() <= 8,
    ensures
        r == le_value(b@),
    decreases b.len(),
{
    if b.len() == 0 {
        0
    } else {
        let rest = vstd::slice::slice_subrange(b, 1, b.len());
        assert(rest@ =~= b@.drop_first());
        let hi = read_le(rest);
        proof {
            lemma_le_value_bound(b@);
            lemma_pow256_le(b@.len(), 8);
            lemma_pow256();
        }
        b[0] as u64 + 256 * hi
    }
}

/// Read up to eight bytes, most significant first.
pub fn read_be(b: &[u8]) -> (r: u64)
    requires
        b.len() <= 8,
    ensures
        r == be_value(b@),
    decreases b.len(),
{
    if b.len() == 0 {
        0
    } else {
        let rest = vstd::slice::slice_subrange(b, 0, b.len() - 1);
        assert(rest@ =~= b@.drop_last());
        let hi = read_be(rest);
        proof {
            lemma_be_value_bound(b@);
            lemma_pow256_le(b@.len(), 8);
            lemma_pow256();
        }
        256 * hi + b[b.len() - 1] as u64
    }
}

/// The number that up to sixteen bytes hold, most significant first.
pub fn read_be_wide(b: &[u8]) -> (r: u128)
    requires
        b.len() <= 16,
    ensures
        r == be_value(b@),
    decreases b.len(),
{
    if b.len() == 0 {
        0
    } else {
        let rest = vstd::slice::slice_subrange(b, 0, b.len() - 1);
        assert(rest@ =~= b@.drop_last());
        let hi = read_be_wide(rest);
        proof {
            lemma_be_value_bound(b@);
            lemma_pow256();
            lemma_pow256_le(b@.len(), 16);
        }
        256 * hi + b[b.len() - 1] as u128
    }
}

proof fn lemma_pow256_le(i: nat, j: nat)
    requires
        i <= j,
    ensures
        pow256(i) <= pow256(j),
    decreases j - i,
{
    if i < j {
        lemma_pow256_le(i, (j - 1) as nat);
    }
}

/// Append the bytes of `b`.
pub fn push_bytes(out: &mut Vec<u8>, b: &[u8])
    ensures
        final(out)@ == old(out)@ + b@,
{
    out.extend_from_slice(b);
    assert(out@ =~= old(out)@ + b@);
}

/// A copy of `b`.
pub fn copy_bytes(b: &[u8]) -> (r: Vec<u8>)
    ensures
        r@ == b@,
{
    let mut out: Vec<u8> = Vec::new();
    push_bytes(&mut out, b);
    assert(out@ =~= b@);
    out
}

/// The part `b[from..to]`.
pub fn slice(b: &[u8], from: usize, to: usize) -> (r: &[u8])
    requires
        from <= to <= b.len(),
    ensures
        r@ == b@.subrange(from as int, to as int),
{
    vstd::slice::slice_subrange(b, from, to)
}

/// Whether two byte runs are the same.
pub fn same_bytes(a: &[u8], b: &[u8]) -> (r: bool)
    ensures
        r == (a@ == b@),
{
    if a.len() != b.len() {
        return false;
    }
    let mut i: usize = 0;
    while i < a.len()
        invariant
            i <= a.len(),
            a.len() == b.len(),
            forall|j: int| 0 <= j < i ==> a@[j] == b@[j],
        decreases a.len() - i,
    {
        if a[i] != b[i] {
            return false;
        }
        i += 1;
    }
    assert(a@ =~= b@);
    true
}

/// The text that `b` holds, when it is UTF-8: `std::str::from_utf8` accepts
/// exactly the valid encodings and hands back the characters they encode.
#[verifier::external_body]
pub(crate) fn utf8_text(b: &[u8]) -> (r: Option<String>)
    ensures
        r is Some <==> vstd::utf8::valid_utf8(b@),
        r matches Some(s) ==> s@ == vstd::utf8::decode_utf8(b@),
{
    match std::str::from_utf8(b) {
        Ok(s) => Some(s.to_owned()),
        Err(_) => None,
    }
}

/// What `String::from_utf8_lossy` makes of these bytes.
pub uninterp spec fn lossy_text(b: Seq<u8>) -> Seq<char>;

/// `String::from_utf8_lossy`: the text that the bytes encode, with marks in the
/// place of what is not UTF-8. Which marks, and where, is left unsaid.
#[verifier::external_body]
pub(crate) fn utf8_lossy(b: &[u8]) -> (r: String)
    ensures
        r@ == lossy_text(b@),
        vstd::utf8::valid_utf8(b@) ==> r@ == vstd::utf8::decode_utf8(b@),
{
    String::from_utf8_lossy(b).into_owned()
}

/// The UTF-8 bytes of a text decode to that text.
pub proof fn lemma_utf8_roundtrip(s: Seq<char>)
    ensures
        vstd::utf8::valid_utf8(vstd::utf8::encode_utf8(s)),
        vstd::utf8::decode_utf8(vstd::utf8::encode_utf8(s)) == s,
{
    vstd::utf8::encode_utf8_valid_utf8(s);
    vstd::utf8::encode_utf8_decode_utf8(s);
}

/// Position of the first `p` in `b`, or the length when there is none.
pub fn find_bytes(b: &[u8], p: &[u8]) -> (r: usize)
    requires
        p@.len() > 0,
    ensures
        r == text::find_infix(b@, p@),
        r <= b.len(),
        r < b.len() ==> r + p@.len() <= b.len(),
{
    let mut i: usize = 0;
    while i < b.len()
        invariant
            i <= b.len(),
            p@.len() > 0,
            forall|j: int| 0 <= j < i ==> !text::starts_with(#[trigger] b@.skip(j), p@),
        decreases b.len() - i,
    {
        if b.len() - i >= p.len() && same_bytes(slice(b, i, i + p.len()), p) {
            proof {
                assert(b@.skip(i as int).take(p@.len() as int) =~= b@.subrange(
                    i as int,
                    i + p@.len(),
                ));
                text::lemma_find_infix_is(b@, p@, i as int);
            }
            return i;
        }
        proof {
            if b.len() - i >= p.len() {
                assert(b@.skip(i as int).take(p@.len() as int) =~= b@.subrange(
                    i as int,
                    i + p@.len(),
                ));
            }
        }
        i += 1;
    }
    proof {
        text::lemma_find_infix_is(b@, p@, i as int);
    }
    i
}

// ---------------------------------------------------------------------------
// Base64
// ---------------------------------------------------------------------------
/// The character of a six-bit value.
pub open spec fn b64_char(d: nat) -> char {
    if d < 26 {
        ('A' as nat + d) as char
    } else if d < 52 {
        ('a' as nat + d - 26) as char
    } else if d < 62 {
        ('0' as nat + d - 52) as char
    } else if d == 62 {
        '+'
    } else {
        '/'
    }
}

/// Standard Base64 with padding.
pub open spec fn base64(b: Seq<u8>) -> Seq<char>
    decreases b.len(),
{
    if b.len() == 0 {
        Seq::empty()
    } else if b.len() == 1 {
        let x = b[0] as nat * 65536;
        seq![b64_char(x / 262144), b64_char(x / 4096 % 64), '=', '=']
    } else if b.len() == 2 {
        let x = b[0] as nat * 65536 + b[1] as nat * 256;
        seq![b64_char(x / 262144), b64_char(x / 4096 % 64), b64_char(x / 64 % 64), '=']
    } else {
        let x = b[0] as nat * 65536 + b[1] as nat * 256 + b[2] as nat;
        seq![
            b64_char(x / 262144),
            b64_char(x / 4096 % 64),
            b64_char(x / 64 % 64),
            b64_char(x % 64),
        ] + base64(b.skip(3))
    }
}

/// The alphabet of Base64: capitals, small letters, digits, plus and slash.
pub proof fn law_base64_alphabet(d: nat)
    requires
        d < 64,
    ensures
        d < 26 ==> b64_char(d) as u32 == 65 + d,
        26 <= d < 52 ==> b64_char(d) as u32 == 97 + d - 26,
        52 <= d < 62 ==> b64_char(d) as u32 == 48 + d - 52,
        d == 62 ==> b64_char(d) == '+',
        d == 63 ==> b64_char(d) == '/',
{
}

/// The four six-bit parts of three bytes.
proof fn lemma_six_bits(x: u8, y: u8, z: u8)
    ensures
        ({
            let n = x as nat * 65536 + y as nat * 256 + z as nat;
            n / 262144 == x / 4 && n / 4096 % 64 == x % 4 * 16 + y / 16 && n / 64 % 64 == y % 16 * 4
                + z / 64 && n % 64 == z % 64
        }),
{
    let n = x as nat * 65536 + y as nat * 256 + z as nat;
    assert(n / 4096 == x * 16 + y / 16);
    assert(n / 64 == x * 1024 + y * 4 + z / 64);
    assert((x * 16 + y / 16) % 64 == x % 4 * 16 + y / 16);
    assert((x * 1024 + y * 4 + z / 64) % 64 == (y % 16) * 4 + z / 64);
}

/// Base64 by the bits of each group of three bytes; groups follow one another.
pub proof fn law_base64_by_groups(x: u8, y: u8, z: u8, rest: Seq<u8>)
    ensures
        base64(seq![x, y, z] + rest) == seq![
            b64_char((x / 4) as nat),
            b64_char((x % 4 * 16 + y / 16) as nat),
            b64_char((y % 16 * 4 + z / 64) as nat),
            b64_char((z % 64) as nat),
        ] + base64(rest),
        base64(Seq::empty()) == Seq::<char>::empty(),
{
    let b = seq![x, y, z] + rest;
    assert(b.skip(3) =~= rest);
    assert(b[0] == x && b[1] == y && b[2] == z);
    lemma_six_bits(x, y, z);
}

/// What is left of a last group is padded.
pub proof fn law_base64_is_padded(x: u8, y: u8)
    ensures
        base64(seq![x, y]) == seq![
            b64_char((x / 4) as nat),
            b64_char((x % 4 * 16 + y / 16) as nat),
            b64_char((y % 16 * 4) as nat),
            '=',
        ],
        base64(seq![x]) == seq![b64_char((x / 4) as nat), b64_char((x % 4 * 16) as nat), '=', '='],
{
    lemma_six_bits(x, y, 0);
    lemma_six_bits(x, 0, 0);
}

fn b64_of(d: u32) -> (r: char)
    requires
        d < 64,
    ensures
        r == b64_char(d as nat),
{
    if d < 26 {
        (65u8 + d as u8) as char
    } else if d < 52 {
        (97u8 + (d - 26) as u8) as char
    } else if d < 62 {
        (48u8 + (d - 52) as u8) as char
    } else if d == 62 {
        '+'
    } else {
        '/'
    }
}

/// Standard Base64 with padding.
pub fn to_base64(b: &[u8]) -> (r: Vec<char>)
    ensures
        r@ == base64(b@),
{
    let mut out: Vec<char> = Vec::new();
    let mut i: usize = 0;
    assert(b@.skip(0) =~= b@);
    while b.len() - i >= 3
        invariant
            i <= b.len(),
            out@ + base64(b@.skip(i as int)) =~= base64(b@),
        decreases b.len() - i,
    {
        let x: u32 = b[i] as u32 * 65536 + b[i + 1] as u32 * 256 + b[i + 2] as u32;
        out.push(b64_of(x / 262144));
        out.push(b64_of(x / 4096 % 64));
        out.push(b64_of(x / 64 % 64));
        out.push(b64_of(x % 64));
        assert(b@.skip(i as int).skip(3) =~= b@.skip(i + 3));
        i += 3;
    }
    let ghost t = b@.skip(i as int);
    if b.len() - i == 1 {
        let x: u32 = b[i] as u32 * 65536;
        out.push(b64_of(x / 262144));
        out.push(b64_of(x / 4096 % 64));
        out.push('=');
        out.push('=');
        assert(t.len() == 1 && t[0] == b@[i as int]);
    } else if b.len() - i == 2 {
        let x: u32 = b[i] as u32 * 65536 + b[i + 1] as u32 * 256;
        out.push(b64_of(x / 262144));
        out.push(b64_of(x / 4096 % 64));
        out.push(b64_of(x / 64 % 64));
        out.push('=');
        assert(t.len() == 2 && t[0] == b@[i as int] && t[1] == b@[i + 1]);
    }
    assert(out@ =~= base64(b@));
    out
}

} // verus!
