//! Plain text helpers: strings as sequences of characters.

use vstd::prelude::*;

verus! {

/// `String::push` appends one character.
pub assume_specification[ String::push ](s: &mut String, c: char)
    ensures
        final(s)@ == old(s)@.push(c),
;

/// Position of the first `c` in `s`, or `s.len()` when there is none.
pub open spec fn find<T>(s: Seq<T>, c: T) -> int
    decreases s.len(),
{
    if s.len() == 0 {
        0
    } else if s[0] == c {
        0
    } else {
        1 + find(s.drop_first(), c)
    }
}

/// Position of the last `c` in `s`, or `-1` when there is none.
pub open spec fn rfind<T>(s: Seq<T>, c: T) -> int
    decreases s.len(),
{
    if s.len() == 0 {
        -1
    } else if s.last() == c {
        s.len() - 1
    } else {
        rfind(s.drop_last(), c)
    }
}

/// `find` is the first position that holds `c`.
pub proof fn lemma_find<T>(s: Seq<T>, c: T)
    ensures
        0 <= find(s, c) <= s.len(),
        find(s, c) < s.len() ==> s[find(s, c)] == c,
        forall|i: int| 0 <= i < find(s, c) ==> s[i] != c,
        s.contains(c) <==> find(s, c) < s.len(),
    decreases s.len(),
{
    if s.len() > 0 && s[0] != c {
        let t = s.drop_first();
        lemma_find(t, c);
        assert forall|i: int| 0 <= i < find(s, c) implies s[i] != c by {
            if i > 0 {
                assert(t[i - 1] == s[i]);
            }
        }
        if find(s, c) < s.len() {
            assert(t[find(t, c)] == s[find(s, c)]);
        }
        if s.contains(c) {
            let k = choose|k: int| 0 <= k < s.len() && s[k] == c;
            assert(t[k - 1] == c);
        }
    }
}

/// A position that holds `c` and has no `c` before it is `find`.
pub proof fn lemma_find_is<T>(s: Seq<T>, c: T, i: int)
    requires
        0 <= i <= s.len(),
        i < s.len() ==> s[i] == c,
        forall|j: int| 0 <= j < i ==> s[j] != c,
    ensures
        find(s, c) == i,
{
    lemma_find(s, c);
}

/// `rfind` is the last position that holds `c`.
pub proof fn lemma_rfind<T>(s: Seq<T>, c: T)
    ensures
        -1 <= rfind(s, c) < s.len(),
        rfind(s, c) >= 0 ==> s[rfind(s, c)] == c,
        forall|i: int| rfind(s, c) < i < s.len() ==> s[i] != c,
    decreases s.len(),
{
    if s.len() > 0 && s.last() != c {
        lemma_rfind(s.drop_last(), c);
        assert forall|i: int| rfind(s, c) < i < s.len() implies s[i] != c by {
            if i < s.len() - 1 {
                assert(s.drop_last()[i] == s[i]);
            }
        }
    }
}

/// A position that holds `c` and has no `c` behind it is `rfind`.
pub proof fn lemma_rfind_is<T>(s: Seq<T>, c: T, i: int)
    requires
        -1 <= i < s.len(),
        i >= 0 ==> s[i] == c,
        forall|j: int| i < j < s.len() ==> s[j] != c,
    ensures
        rfind(s, c) == i,
{
    lemma_rfind(s, c);
}

/// Unicode White_Space.
pub open spec fn is_space(c: char) -> bool {
    ||| '\u{9}' <= c <= '\u{d}'
    ||| c == ' '
    ||| c == '\u{85}'
    ||| c == '\u{a0}'
    ||| c == '\u{1680}'
    ||| '\u{2000}' <= c <= '\u{200a}'
    ||| c == '\u{2028}'
    ||| c == '\u{2029}'
    ||| c == '\u{202f}'
    ||| c == '\u{205f}'
    ||| c == '\u{3000}'
}

pub open spec fn is_digit(c: char) -> bool {
    '0' <= c <= '9'
}

pub open spec fn is_alnum(c: char) -> bool {
    is_digit(c) || 'a' <= c <= 'z' || 'A' <= c <= 'Z'
}

/// `s` without its leading white space.
pub open spec fn trim_start(s: Seq<char>) -> Seq<char>
    decreases s.len(),
{
    if s.len() > 0 && is_space(s[0]) {
        trim_start(s.drop_first())
    } else {
        s
    }
}

/// `s` without its trailing white space.
pub open spec fn trim_end(s: Seq<char>) -> Seq<char>
    decreases s.len(),
{
    if s.len() > 0 && is_space(s.last()) {
        trim_end(s.drop_last())
    } else {
        s
    }
}

/// `s` without leading and trailing white space.
pub open spec fn trim(s: Seq<char>) -> Seq<char> {
    trim_end(trim_start(s))
}

/// `s` begins with `p`.
pub open spec fn starts_with<T>(s: Seq<T>, p: Seq<T>) -> bool {
    p.len() <= s.len() && s.take(p.len() as int) == p
}

/// `p` occurs somewhere in `s`.
pub open spec fn has_infix<T>(s: Seq<T>, p: Seq<T>) -> bool {
    exists|i: int| 0 <= i <= s.len() - p.len() && #[trigger] s.subrange(i, i + p.len()) == p
}

/// Decimal value of a run of digits.
pub open spec fn dec_value(s: Seq<char>) -> nat
    decreases s.len(),
{
    if s.len() == 0 {
        0
    } else {
        dec_value(s.drop_last()) * 10 + (s.last() as nat - '0' as nat) as nat
    }
}

pub open spec fn all_digits(s: Seq<char>) -> bool {
    forall|i: int| 0 <= i < s.len() ==> is_digit(#[trigger] s[i])
}

/// The digits of an unsigned number: an optional `+` is skipped.
pub open spec fn unsigned_digits(s: Seq<char>) -> Seq<char> {
    if s.len() > 0 && s[0] == '+' {
        s.drop_first()
    } else {
        s
    }
}

/// The number that `s` spells, when it is one and does not exceed `max`.
pub open spec fn parse_unsigned(s: Seq<char>, max: nat) -> Option<nat> {
    let d = unsigned_digits(s);
    if d.len() > 0 && all_digits(d) && dec_value(d) <= max {
        Some(dec_value(d))
    } else {
        None
    }
}

/// Decimal digits of `n`, without leading zeros.
pub open spec fn decimal(n: nat) -> Seq<char>
    decreases n,
{
    if n < 10 {
        seq![digit_char(n)]
    } else {
        decimal(n / 10).push(digit_char(n % 10))
    }
}

pub open spec fn digit_char(d: nat) -> char {
    ('0' as nat + d) as char
}

/// `s` cut at every `c`.
pub open spec fn split(s: Seq<char>, c: char) -> Seq<Seq<char>>
    decreases s.len(),
{
    let i = find(s, c);
    if 0 <= i < s.len() {
        seq![s.take(i)] + split(s.skip(i + 1), c)
    } else {
        seq![s]
    }
}

/// The parts before and after the first `c`.
pub open spec fn split_once(s: Seq<char>, c: char) -> Option<(Seq<char>, Seq<char>)> {
    let i = find(s, c);
    if i < s.len() {
        Some((s.take(i), s.skip(i + 1)))
    } else {
        None
    }
}

/// Position of the first `p` in `s`, or `s.len()` when there is none.
pub open spec fn find_infix<T>(s: Seq<T>, p: Seq<T>) -> int
    decreases s.len(),
{
    if starts_with(s, p) || s.len() == 0 {
        0
    } else {
        1 + find_infix(s.drop_first(), p)
    }
}

/// ASCII capitals as small letters; other characters as they are.
pub open spec fn lower(c: char) -> char {
    if 'A' <= c <= 'Z' {
        (c as u32 + 32) as char
    } else {
        c
    }
}

/// The texts differ at most in the case of ASCII letters.
pub open spec fn same_ignoring_case(a: Seq<char>, b: Seq<char>) -> bool {
    a.len() == b.len() && forall|i: int|
        0 <= i < a.len() ==> lower(#[trigger] a[i]) == lower(b[i])
}

/// How many characters come before the first white space.
pub open spec fn word_len(s: Seq<char>) -> nat
    decreases s.len(),
{
    if s.len() == 0 || is_space(s[0]) {
        0
    } else {
        1 + word_len(s.drop_first())
    }
}

/// The first word of `s`, empty when there is none.
pub open spec fn first_word(s: Seq<char>) -> Seq<char> {
    let t = trim_start(s);
    t.take(word_len(t) as int)
}

/// What comes behind the first word of `s`.
pub open spec fn after_word(s: Seq<char>) -> Seq<char> {
    let t = trim_start(s);
    t.skip(word_len(t) as int)
}

/// `find_infix` is the first place where `p` stands.
pub proof fn lemma_find_infix<T>(s: Seq<T>, p: Seq<T>)
    requires
        p.len() > 0,
    ensures
        0 <= find_infix(s, p) <= s.len(),
        find_infix(s, p) < s.len() ==> starts_with(s.skip(find_infix(s, p)), p),
        forall|i: int| 0 <= i < find_infix(s, p) ==> !starts_with(#[trigger] s.skip(i), p),
        has_infix(s, p) <==> find_infix(s, p) < s.len(),
    decreases s.len(),
{
    let n = find_infix(s, p);
    assert(s.skip(0) =~= s);
    if !starts_with(s, p) && s.len() > 0 {
        let t = s.drop_first();
        lemma_find_infix(t, p);
        assert forall|i: int| 0 <= i < n implies !starts_with(#[trigger] s.skip(i), p) by {
            if i > 0 {
                assert(t.skip(i - 1) =~= s.skip(i));
            }
        }
        if n < s.len() {
            assert(t.skip(n - 1) =~= s.skip(n));
        }
    }
    if n < s.len() {
        assert(s.subrange(n, n + p.len()) =~= s.skip(n).take(p.len() as int));
    }
    if has_infix(s, p) {
        let k = choose|k: int|
            0 <= k <= s.len() - p.len() && #[trigger] s.subrange(k, k + p.len()) == p;
        assert(s.skip(k).take(p.len() as int) =~= s.subrange(k, k + p.len()));
        assert(starts_with(s.skip(k), p));
    }
}

/// A place where `p` stands, with none before it, is `find_infix`.
pub proof fn lemma_find_infix_is<T>(s: Seq<T>, p: Seq<T>, i: int)
    requires
        p.len() > 0,
        0 <= i <= s.len(),
        i < s.len() ==> starts_with(s.skip(i), p),
        forall|j: int| 0 <= j < i ==> !starts_with(#[trigger] s.skip(j), p),
    ensures
        find_infix(s, p) == i,
{
    lemma_find_infix(s, p);
    let n = find_infix(s, p);
    if n < i {
        assert(!starts_with(s.skip(n), p));
    }
    if i < n {
        assert(!starts_with(s.skip(i), p));
    }
}

/// No character is white space.
pub open spec fn solid(s: Seq<char>) -> bool {
    forall|i: int| 0 <= i < s.len() ==> !is_space(#[trigger] s[i])
}

/// A word in front of white space, or of nothing, is the first word.
pub proof fn lemma_first_word(w: Seq<char>, rest: Seq<char>)
    requires
        w.len() > 0,
        solid(w),
        rest.len() > 0 ==> is_space(rest[0]),
    ensures
        first_word(w + rest) == w,
        after_word(w + rest) == rest,
{
    let s = w + rest;
    assert(s[0] == w[0]);
    assert(trim_start(s) == s);
    lemma_word_len(w, rest);
    assert(s.take(w.len() as int) =~= w);
    assert(s.skip(w.len() as int) =~= rest);
}

proof fn lemma_word_len(w: Seq<char>, rest: Seq<char>)
    requires
        solid(w),
        rest.len() > 0 ==> is_space(rest[0]),
    ensures
        word_len(w + rest) == w.len(),
    decreases w.len(),
{
    let s = w + rest;
    if w.len() > 0 {
        assert(s[0] == w[0]);
        assert(s.drop_first() =~= w.drop_first() + rest);
        assert forall|i: int| 0 <= i < w.drop_first().len() implies !is_space(
            #[trigger] w.drop_first()[i],
        ) by {
            assert(w.drop_first()[i] == w[i + 1]);
        }
        lemma_word_len(w.drop_first(), rest);
    } else {
        assert(s =~= rest);
    }
}

/// White space in front of a text does not change its words.
pub proof fn lemma_leading_space(c: char, s: Seq<char>)
    requires
        is_space(c),
    ensures
        trim_start(seq![c] + s) == trim_start(s),
        first_word(seq![c] + s) == first_word(s),
        after_word(seq![c] + s) == after_word(s),
{
    let t = seq![c] + s;
    assert(t[0] == c);
    assert(t.drop_first() =~= s);
}

/// A text without white space stays as it is when it is trimmed.
pub proof fn lemma_trim_solid(s: Seq<char>)
    requires
        solid(s),
    ensures
        trim(s) == s,
{
    if s.len() > 0 {
        assert(!is_space(s[0]));
        assert(!is_space(s[s.len() - 1]));
    }
}

/// Trimming takes white space away from both ends and nothing else: what is
/// left neither begins nor ends with white space.
pub proof fn law_trim_strips_the_ends(a: Seq<char>, s: Seq<char>, b: Seq<char>)
    requires
        forall|i: int| 0 <= i < a.len() ==> is_space(#[trigger] a[i]),
        forall|i: int| 0 <= i < b.len() ==> is_space(#[trigger] b[i]),
        s.len() > 0,
        !is_space(s[0]),
        !is_space(s.last()),
    ensures
        trim(a + s + b) == s,
    decreases a.len() + b.len(),
{
    let t = a + s + b;
    if a.len() > 0 {
        let d = a.drop_first();
        assert(t[0] == a[0]);
        assert(t.drop_first() =~= d + s + b);
        assert forall|i: int| 0 <= i < d.len() implies is_space(#[trigger] d[i]) by {
            assert(d[i] == a[i + 1]);
        }
        law_trim_strips_the_ends(d, s, b);
    } else {
        assert(t =~= s + b);
        assert(t[0] == s[0]);
        lemma_trim_end(s, b);
    }
}

proof fn lemma_trim_end(s: Seq<char>, b: Seq<char>)
    requires
        forall|i: int| 0 <= i < b.len() ==> is_space(#[trigger] b[i]),
        s.len() > 0,
        !is_space(s.last()),
    ensures
        trim_end(s + b) == s,
    decreases b.len(),
{
    let t = s + b;
    if b.len() > 0 {
        let d = b.drop_last();
        assert(t.last() == b[b.len() - 1]);
        assert(t.drop_last() =~= s + d);
        assert forall|i: int| 0 <= i < d.len() implies is_space(#[trigger] d[i]) by {
            assert(d[i] == b[i]);
        }
        lemma_trim_end(s, d);
    } else {
        assert(t =~= s);
    }
}

/// A text of white space alone is trimmed to nothing.
pub proof fn law_blank_text_is_trimmed_away(s: Seq<char>)
    requires
        forall|i: int| 0 <= i < s.len() ==> is_space(#[trigger] s[i]),
    ensures
        trim(s).len() == 0,
    decreases s.len(),
{
    if s.len() > 0 {
        assert(is_space(s[0]));
        let d = s.drop_first();
        assert forall|i: int| 0 <= i < d.len() implies is_space(#[trigger] d[i]) by {
            assert(d[i] == s[i + 1]);
        }
        law_blank_text_is_trimmed_away(d);
    }
}

/// White space, letters and digits are what ASCII has of them.
pub proof fn law_ascii_classes(c: char)
    ensures
        (c as u32) < 0x80 ==> (is_space(c) <==> c == ' ' || c == '\t' || c == '\n' || c == '\r' || c
            == '\u{b}' || c == '\u{c}'),
        is_digit(c) <==> 48 <= c as u32 <= 57,
        is_alnum(c) <==> 48 <= c as u32 <= 57 || 65 <= c as u32 <= 90 || 97 <= c as u32 <= 122,
        lower(c) as u32 == c as u32 + if 65 <= c as u32 <= 90 {
            32int
        } else {
            0
        },
        is_space(c) ==> !is_alnum(c),
{
}

/// The parts of a text cut at a character hold none of it, and stand in order.
pub proof fn law_split_cuts_at_the_character(a: Seq<char>, c: char, b: Seq<char>)
    requires
        !a.contains(c),
    ensures
        split(a, c) == seq![a],
        split(a + seq![c] + b, c) == seq![a] + split(b, c),
        split_once(a + seq![c] + b, c) == Some((a, b)),
        split_once(a, c) is None,
{
    let s = a + seq![c] + b;
    let n = a.len() as int;
    lemma_find(a, c);
    assert forall|j: int| 0 <= j < n implies s[j] != c by {
        assert(s[j] == a[j]);
        assert(a.contains(a[j]));
    }
    assert(s[n] == c);
    lemma_find_is(s, c, n);
    assert(s.take(n) =~= a);
    assert(s.skip(n + 1) =~= b);
}

/// A decimal number reads back as itself.
pub proof fn lemma_decimal(n: nat)
    ensures
        decimal(n).len() > 0,
        all_digits(decimal(n)),
        dec_value(decimal(n)) == n,
        decimal(n)[0] != '+',
    decreases n,
{
    if n < 10 {
        let s = decimal(n);
        assert(s.drop_last() =~= Seq::<char>::empty());
        reveal_with_fuel(dec_value, 2);
    } else {
        lemma_decimal(n / 10);
        let s = decimal(n);
        assert(s.drop_last() =~= decimal(n / 10));
        assert(s[0] == decimal(n / 10)[0]);
        assert forall|i: int| 0 <= i < s.len() implies is_digit(#[trigger] s[i]) by {
            if i < s.len() - 1 {
                assert(decimal(n / 10)[i] == s[i]);
            }
        }
    }
}

/// Printing and parsing a number gives it back.
pub proof fn lemma_decimal_roundtrip(n: nat, max: nat)
    requires
        n <= max,
    ensures
        parse_unsigned(decimal(n), max) == Some(n),
{
    lemma_decimal(n);
}

pub fn char_is_space(c: char) -> (r: bool)
    ensures
        r == is_space(c),
{
    ('\u{9}' <= c && c <= '\u{d}') || c == ' ' || c == '\u{85}' || c == '\u{a0}' || c == '\u{1680}'
        || ('\u{2000}' <= c && c <= '\u{200a}') || c == '\u{2028}' || c == '\u{2029}' || c
        == '\u{202f}' || c == '\u{205f}' || c == '\u{3000}'
}

pub fn char_is_digit(c: char) -> (r: bool)
    ensures
        r == is_digit(c),
{
    '0' <= c && c <= '9'
}

pub fn char_is_alnum(c: char) -> (r: bool)
    ensures
        r == is_alnum(c),
{
    char_is_digit(c) || ('a' <= c && c <= 'z') || ('A' <= c && c <= 'Z')
}

/// The characters of a string.
pub fn chars_of(s: &str) -> (r: Vec<char>)
    ensures
        r@ == s@,
{
    let mut out: Vec<char> = Vec::new();
    for c in it: s.chars()
        invariant
            out@ =~= it.seq().take(it.index()),
            it.seq() == s@,
    {
        out.push(c);
    }
    out
}

/// The string made of the given characters.
pub fn string_of(v: &[char]) -> (r: String)
    ensures
        r@ == v@,
{
    let mut out = String::new();
    let mut i: usize = 0;
    while i < v.len()
        invariant
            i <= v.len(),
            out@ =~= v@.take(i as int),
        decreases v.len() - i,
    {
        out.push(v[i]);
        i += 1;
    }
    out
}

/// Index of the first `c`, or the length when there is none.
pub fn find_char(v: &[char], c: char) -> (r: usize)
    ensures
        r == find(v@, c),
        r <= v.len(),
{
    let mut i: usize = 0;
    while i < v.len()
        invariant
            i <= v.len(),
            forall|j: int| 0 <= j < i ==> v@[j] != c,
        decreases v.len() - i,
    {
        if v[i] == c {
            proof {
                lemma_find_is(v@, c, i as int);
            }
            return i;
        }
        i += 1;
    }
    proof {
        lemma_find_is(v@, c, i as int);
    }
    i
}

/// Index of the last `c`.
pub fn rfind_char(v: &[char], c: char) -> (r: Option<usize>)
    ensures
        r is None <==> rfind(v@, c) == -1,
        r matches Some(i) ==> i == rfind(v@, c) && i < v.len(),
{
    let mut i: usize = v.len();
    while i > 0
        invariant
            i <= v.len(),
            forall|j: int| i <= j < v.len() ==> v@[j] != c,
        decreases i,
    {
        if v[i - 1] == c {
            proof {
                lemma_rfind_is(v@, c, i - 1);
            }
            return Some(i - 1);
        }
        i -= 1;
    }
    proof {
        lemma_rfind_is(v@, c, -1);
    }
    None
}

/// The part `v[from..to]`.
pub fn part(v: &[char], from: usize, to: usize) -> (r: &[char])
    requires
        from <= to <= v.len(),
    ensures
        r@ == v@.subrange(from as int, to as int),
{
    vstd::slice::slice_subrange(v, from, to)
}

/// `v` without leading and trailing white space.
pub fn trim_chars(v: &[char]) -> (r: &[char])
    ensures
        r@ == trim(v@),
{
    let mut i: usize = 0;
    assert(v@.skip(0) =~= v@);
    while i < v.len() && char_is_space(v[i])
        invariant
            i <= v.len(),
            trim_start(v@) == trim_start(v@.skip(i as int)),
        decreases v.len() - i,
    {
        assert(v@.skip(i as int).drop_first() =~= v@.skip(i + 1));
        i += 1;
    }
    let ghost s = v@.skip(i as int);
    assert(trim_start(v@) == s);
    let mut j: usize = v.len();
    while j > i && char_is_space(v[j - 1])
        invariant
            i <= j <= v.len(),
            s == v@.skip(i as int),
            trim_end(s) == trim_end(v@.subrange(i as int, j as int)),
        decreases j,
    {
        assert(v@.subrange(i as int, j as int).drop_last() =~= v@.subrange(i as int, j - 1));
        j -= 1;
    }
    part(v, i, j)
}

/// Whether two character runs are the same.
pub fn same_chars(a: &[char], b: &[char]) -> (r: bool)
    ensures
        r == (a@ == b@),
{
    if a.len() != b.len() {
        return false;
    }
    let mut i: usize = 0;
    while i < a.len()
        invariant
            i <= a.len(),
            a.len() == b.len(),
            forall|j: int| 0 <= j < i ==> a@[j] == b@[j],
        decreases a.len() - i,
    {
        if a[i] != b[i] {
            return false;
        }
        i += 1;
    }
    assert(a@ =~= b@);
    true
}

/// Whether two strings hold the same text.
pub fn same_text(a: &str, b: &str) -> (r: bool)
    ensures
        r == (a@ == b@),
{
    same_chars(chars_of(a).as_slice(), chars_of(b).as_slice())
}

/// Whether `v` is the text `p`.
pub fn is_text(v: &[char], p: &str) -> (r: bool)
    ensures
        r == (v@ == p@),
{
    same_chars(v, chars_of(p).as_slice())
}

/// Whether `v` begins with the text `p`.
pub fn starts_with_text(v: &[char], p: &str) -> (r: bool)
    ensures
        r == starts_with(v@, p@),
{
    let q = chars_of(p);
    if q.len() > v.len() {
        return false;
    }
    let head = part(v, 0, q.len());
    assert(head@ =~= v@.take(q@.len() as int));
    same_chars(head, q.as_slice())
}

/// Whether the text `p` occurs in `v`.
pub fn contains_text(v: &[char], p: &str) -> (r: bool)
    ensures
        r == has_infix(v@, p@),
{
    let q = chars_of(p);
    if q.len() > v.len() {
        return false;
    }
    let last: usize = v.len() - q.len();
    let mut i: usize = 0;
    loop
        invariant
            q@ == p@,
            q.len() <= v.len(),
            last == v.len() - q.len(),
            i <= last,
            forall|j: int| 0 <= j < i ==> #[trigger] v@.subrange(j, j + p@.len()) != p@,
        decreases last - i,
    {
        if same_chars(part(v, i, i + q.len()), q.as_slice()) {
            return true;
        }
        if i == last {
            return false;
        }
        i += 1;
    }
}

/// Whether `v` is a run of digits.
fn digits_only(v: &[char]) -> (r: bool)
    ensures
        r == all_digits(v@),
{
    let mut i: usize = 0;
    while i < v.len()
        invariant
            i <= v.len(),
            forall|j: int| 0 <= j < i ==> is_digit(#[trigger] v@[j]),
        decreases v.len() - i,
    {
        if !char_is_digit(v[i]) {
            return false;
        }
        i += 1;
    }
    true
}

proof fn lemma_dec_value_monotone(s: Seq<char>, i: int)
    requires
        0 <= i <= s.len(),
    ensures
        dec_value(s.take(i)) <= dec_value(s),
    decreases s.len() - i,
{
    if i < s.len() {
        lemma_dec_value_monotone(s, i + 1);
        assert(s.take(i + 1).drop_last() =~= s.take(i));
    } else {
        assert(s.take(i) =~= s);
    }
}

/// The number that `v` spells, when it is one and does not exceed `max`.
pub fn parse_number(v: &[char], max: u64) -> (r: Option<u64>)
    ensures
        match r {
            Some(n) => parse_unsigned(v@, max as nat) == Some(n as nat),
            None => parse_unsigned(v@, max as nat) is None,
        },
{
    let start: usize = if v.len() > 0 && v[0] == '+' {
        1
    } else {
        0
    };
    let d = part(v, start, v.len());
    assert(d@ =~= unsigned_digits(v@));
    if d.len() == 0 || !digits_only(d) {
        return None;
    }
    let mut n: u64 = 0;
    let mut i: usize = 0;
    assert(d@.take(0) =~= Seq::<char>::empty());
    while i < d.len()
        invariant
            i <= d.len(),
            d@ == unsigned_digits(v@),
            d@.len() > 0,
            all_digits(d@),
            n == dec_value(d@.take(i as int)),
            n <= max,
        decreases d.len() - i,
    {
        let x: u64 = d[i] as u64 - '0' as u64;
        proof {
            assert(is_digit(d@[i as int]));
            assert(d@.take(i + 1).drop_last() =~= d@.take(i as int));
            lemma_dec_value_monotone(d@, i + 1);
        }
        if n > max / 10 || x > max - n * 10 {
            return None;
        }
        n = n * 10 + x;
        i += 1;
    }
    assert(d@.take(i as int) =~= d@);
    Some(n)
}

/// Append the decimal digits of `n`.
pub fn push_decimal(out: &mut String, n: u64)
    ensures
        final(out)@ == old(out)@ + decimal(n as nat),
    decreases n,
{
    if n >= 10 {
        push_decimal(out, n / 10);
    }
    let d: u8 = (n % 10) as u8;
    let c = (48u8 + d) as char;
    let ghost before = out@;
    out.push(c);
    proof {
        assert(c == digit_char((n % 10) as nat));
        if n < 10 {
            assert(out@ =~= old(out)@ + decimal(n as nat));
        } else {
            assert(before == old(out)@ + decimal((n / 10) as nat));
            assert(out@ =~= old(out)@ + decimal(n as nat));
        }
    }
}

/// `v` cut at every `c`.
pub fn split_chars(v: &[char], c: char) -> (r: Vec<Vec<char>>)
    ensures
        r@.map_values(|p: Vec<char>| p@) == split(v@, c),
{
    let mut out: Vec<Vec<char>> = Vec::new();
    let mut from: usize = 0;
    let ghost whole = split(v@, c);
    assert(v@.skip(0) =~= v@);
    loop
        invariant_except_break
            from <= v.len(),
            whole == split(v@, c),
            out@.map_values(|p: Vec<char>| p@) + split(v@.skip(from as int), c) =~= whole,
        ensures
            out@.map_values(|p: Vec<char>| p@) == whole,
        decreases v.len() - from,
    {
        let rest = part(v, from, v.len());
        assert(rest@ =~= v@.skip(from as int));
        let i = find_char(rest, c);
        let piece = copy_chars(part(rest, 0, i));
        let ghost before = out@.map_values(|p: Vec<char>| p@);
        assert(piece@ =~= rest@.take(i as int));
        out.push(piece);
        assert(out@.map_values(|p: Vec<char>| p@) =~= before.push(piece@));
        if i >= rest.len() {
            assert(rest@.take(i as int) =~= rest@);
            assert(out@.map_values(|p: Vec<char>| p@) =~= whole);
            break;
        }
        assert(rest@.skip(i + 1) =~= v@.skip(from + i + 1));
        from = from + i + 1;
    }
    out
}

/// A copy of `v`.
pub fn copy_chars(v: &[char]) -> (r: Vec<char>)
    ensures
        r@ == v@,
{
    let mut out: Vec<char> = Vec::new();
    let mut i: usize = 0;
    while i < v.len()
        invariant
            i <= v.len(),
            out@ =~= v@.take(i as int),
        decreases v.len() - i,
    {
        out.push(v[i]);
        i += 1;
    }
    out
}

/// The string that `s` holds.
pub fn own(s: &str) -> (r: String)
    ensures
        r@ == s@,
{
    s.to_owned()
}

/// Position of the first `p` in `v`, or the length when there is none.
pub fn find_text(v: &[char], p: &str) -> (r: usize)
    requires
        p@.len() > 0,
    ensures
        r == find_infix(v@, p@),
        r <= v.len(),
        r < v.len() ==> r + p@.len() <= v.len(),
{
    let mut i: usize = 0;
    while i < v.len()
        invariant
            i <= v.len(),
            p@.len() > 0,
            forall|j: int| 0 <= j < i ==> !starts_with(#[trigger] v@.skip(j), p@),
        decreases v.len() - i,
    {
        let rest = part(v, i, v.len());
        assert(rest@ =~= v@.skip(i as int));
        if starts_with_text(rest, p) {
            proof {
                lemma_find_infix_is(v@, p@, i as int);
            }
            return i;
        }
        i += 1;
    }
    proof {
        lemma_find_infix_is(v@, p@, i as int);
    }
    i
}

/// ASCII capitals as small letters; other characters as they are.
pub fn lower_char(c: char) -> (r: char)
    ensures
        r == lower(c),
{
    if 'A' <= c && c <= 'Z' {
        let n: u8 = c as u8 + 32u8;
        n as char
    } else {
        c
    }
}

/// Whether the texts differ at most in the case of ASCII letters.
pub fn equal_ignoring_case(v: &[char], p: &str) -> (r: bool)
    ensures
        r == same_ignoring_case(v@, p@),
{
    let q = chars_of(p);
    if v.len() != q.len() {
        return false;
    }
    let mut i: usize = 0;
    while i < v.len()
        invariant
            i <= v.len(),
            q@ == p@,
            v.len() == q.len(),
            forall|j: int| 0 <= j < i ==> lower(#[trigger] v@[j]) == lower(p@[j]),
        decreases v.len() - i,
    {
        if lower_char(v[i]) != lower_char(q[i]) {
            return false;
        }
        i += 1;
    }
    true
}

/// `v` cut into its first word and what comes behind it.
pub fn cut_word(v: &[char]) -> (r: (&[char], &[char]))
    ensures
        r.0@ == first_word(v@),
        r.1@ == after_word(v@),
{
    let mut i: usize = 0;
    assert(v@.skip(0) =~= v@);
    while i < v.len() && char_is_space(v[i])
        invariant
            i <= v.len(),
            trim_start(v@) == trim_start(v@.skip(i as int)),
        decreases v.len() - i,
    {
        assert(v@.skip(i as int).drop_first() =~= v@.skip(i + 1));
        i += 1;
    }
    let ghost t = v@.skip(i as int);
    assert(trim_start(v@) == t);
    let mut j: usize = i;
    assert(t.skip(0) =~= t);
    while j < v.len() && !char_is_space(v[j])
        invariant
            i <= j <= v.len(),
            t == v@.skip(i as int),
            word_len(t) == (j - i) + word_len(t.skip(j - i)),
        decreases v.len() - j,
    {
        assert(t.skip(j - i)[0] == v@[j as int]);
        assert(t.skip(j - i).drop_first() =~= t.skip(j + 1 - i));
        j += 1;
    }
    proof {
        if j < v.len() {
            assert(t.skip(j - i)[0] == v@[j as int]);
        }
        assert(word_len(t) == j - i);
        assert(v@.subrange(i as int, j as int) =~= t.take(j - i));
        assert(v@.subrange(j as int, v@.len() as int) =~= t.skip(j - i));
    }
    (part(v, i, j), part(v, j, v.len()))
}

/// Numbers are read from their decimal digits, with or without a plus sign, up
/// to the bound that is asked for.
pub proof fn law_numbers_read_back(n: nat, max: nat)
    ensures
        n <= max ==> parse_unsigned(decimal(n), max) == Some(n),
        n <= max ==> parse_unsigned("+"@ + decimal(n), max) == Some(n),
        n > max ==> parse_unsigned(decimal(n), max) is None,
        parse_unsigned(Seq::empty(), max) is None,
        parse_unsigned("+"@, max) is None,
{
    reveal_strlit("+");
    lemma_decimal(n);
    let p = "+"@ + decimal(n);
    assert(p.drop_first() =~= decimal(n));
    assert("+"@.drop_first() =~= Seq::<char>::empty());
}

/// One more digit makes ten times the number and that digit; one more character
/// that is no digit makes no number at all.
pub proof fn law_numbers_grow_by_digits(s: Seq<char>, c: char, n: nat, d: nat, max: nat)
    requires
        d < 10,
        n > 0,
    ensures
        parse_unsigned(s, max) is Some && 48 <= c as u32 <= 57 ==> {
            let v = 10 * parse_unsigned(s, max)->0 + (c as u32 - 48);
            v <= max ==> parse_unsigned(s.push(c), max) == Some(v as nat)
        },
        s.len() > 0 && !(48 <= c as u32 <= 57) ==> parse_unsigned(s.push(c), max) is None,
        decimal(10 * n + d) == decimal(n).push((48 + d) as char),
        decimal(d) == seq![(48 + d) as char],
{
    law_ascii_classes(c);
    let t = s.push(c);
    let e = unsigned_digits(s);
    let f = unsigned_digits(t);
    if s.len() > 0 {
        assert(t[0] == s[0]);
        assert(f =~= e.push(c));
        assert(f.last() == c && f.drop_last() =~= e);
        if !(48 <= c as u32 <= 57) {
            assert(f[f.len() - 1] == c);
        }
        if parse_unsigned(s, max) is Some && 48 <= c as u32 <= 57 {
            assert forall|i: int| 0 <= i < f.len() implies is_digit(#[trigger] f[i]) by {
                if i < e.len() {
                    assert(f[i] == e[i]);
                }
            }
        }
    }
    assert((10 * n + d) / 10 == n && (10 * n + d) % 10 == d);
}

/// Case is ignored letter by letter: texts of different lengths differ, and so do
/// texts with another letter anywhere.
pub proof fn law_case_is_ignored(a: Seq<char>, b: Seq<char>, i: int)
    ensures
        same_ignoring_case(a, a),
        a.len() != b.len() ==> !same_ignoring_case(a, b),
        0 <= i < a.len() && same_ignoring_case(a, b) ==> lower(a[i]) == lower(b[i]),
        same_ignoring_case(a, b) <==> same_ignoring_case(b, a),
{
    if same_ignoring_case(a, b) {
        assert forall|j: int| 0 <= j < b.len() implies lower(#[trigger] b[j]) == lower(a[j]) by {
            assert(lower(a[j]) == lower(b[j]));
        }
    }
    if same_ignoring_case(b, a) {
        assert forall|j: int| 0 <= j < a.len() implies lower(#[trigger] a[j]) == lower(b[j]) by {
            assert(lower(b[j]) == lower(a[j]));
        }
    }
}

} // verus!
