//! Text as the system passes it: UTF-16, ended by a zero.

use vstd::prelude::*;

verus! {

pub open spec fn is_high(u: u16) -> bool {
    0xD800 <= u <= 0xDBFF
}

pub open spec fn is_low(u: u16) -> bool {
    0xDC00 <= u <= 0xDFFF
}

/// The code units of a character: one, or a surrogate pair.
pub open spec fn units_of(c: char) -> Seq<u16> {
    let u = c as u32;
    if u < 0x1_0000 {
        seq![u as u16]
    } else {
        seq![
            (0xD800 + (u - 0x1_0000) / 0x400) as u16,
            (0xDC00 + (u - 0x1_0000) % 0x400) as u16,
        ]
    }
}

/// A text in UTF-16.
pub open spec fn encode(s: Seq<char>) -> Seq<u16>
    decreases s.len(),
{
    if s.len() == 0 {
        Seq::empty()
    } else {
        units_of(s[0]) + encode(s.drop_first())
    }
}

/// The character of a surrogate pair.
pub open spec fn paired(high: u16, low: u16) -> char {
    (0x1_0000 + (high - 0xD800) * 0x400 + (low - 0xDC00)) as char
}

/// The text that code units stand for. A surrogate without its partner
/// becomes U+FFFD.
pub open spec fn decode(u: Seq<u16>) -> Seq<char>
    decreases u.len(),
{
    if u.len() == 0 {
        Seq::empty()
    } else if u.len() > 1 && is_high(u[0]) && is_low(u[1]) {
        seq![paired(u[0], u[1])] + decode(u.skip(2))
    } else if is_high(u[0]) || is_low(u[0]) {
        seq!['\u{FFFD}'] + decode(u.skip(1))
    } else {
        seq![u[0] as char] + decode(u.skip(1))
    }
}

/// `char::from_u32`: the character with the given code, where it is a
/// Unicode scalar value: at most 0x10FFFF and no surrogate.
pub assume_specification[ char::from_u32 ](i: u32) -> (r: Option<char>)
    ensures
        match r {
            Some(c) => c as u32 == i,
            None => i > 0x10_FFFF || 0xD800 <= i <= 0xDFFF,
        },
;

proof fn lemma_encode_push(s: Seq<char>, c: char)
    ensures
        encode(s.push(c)) == encode(s) + units_of(c),
    decreases s.len(),
{
    let t = s.push(c);
    if s.len() == 0 {
        assert(t.drop_first() == s);
        assert(encode(t) == encode(s) + units_of(c));
    } else {
        assert(t.drop_first() == s.drop_first().push(c));
        lemma_encode_push(s.drop_first(), c);
        assert(encode(t) == encode(s) + units_of(c));
    }
}

/// A text in UTF-16, ended by a zero.
pub fn wide(s: &str) -> (r: Vec<u16>)
    ensures
        r@ == encode(s@).push(0),
{
    let mut out: Vec<u16> = Vec::new();
    for c in it: s.chars()
        invariant
            it.seq() == s@,
            out@ == encode(it.seq().take(it.index())),
    {
        proof {
            let i = it.index();
            lemma_encode_push(s@.take(i), c);
            assert(s@.take(i + 1) == s@.take(i).push(c));
        }
        let u: u32 = c as u32;
        if u < 0x1_0000 {
            out.push(u as u16);
        } else {
            out.push((0xD800 + (u - 0x1_0000) / 0x400) as u16);
            out.push((0xDC00 + (u - 0x1_0000) % 0x400) as u16);
        }
    }
    assert(s@.take(s@.len() as int) == s@);
    out.push(0);
    out
}

fn char_of(u: u32) -> (c: char)
    requires
        u <= 0x10_FFFF,
        !(0xD800 <= u <= 0xDFFF),
    ensures
        c as u32 == u,
{
    match char::from_u32(u) {
        Some(c) => c,
        None => '\u{FFFD}',
    }
}

/// The characters that code units stand for.
pub fn from_wide(units: &[u16]) -> (r: Vec<char>)
    ensures
        r@ == decode(units@),
{
    let mut out: Vec<char> = Vec::new();
    let mut i: usize = 0;
    assert(units@.skip(0) == units@);
    assert(out@ + decode(units@) == decode(units@));
    while i < units.len()
        invariant
            i <= units@.len(),
            out@ + decode(units@.skip(i as int)) == decode(units@),
        decreases units@.len() - i,
    {
        let ghost rest = units@.skip(i as int);
        let ghost before = out@;
        let first: u16 = units[i];
        if i + 1 < units.len() && 0xD800 <= first && first <= 0xDBFF && 0xDC00 <= units[i + 1]
            && units[i + 1] <= 0xDFFF {
            let (high, low) = ((first - 0xD800) as u32, (units[i + 1] - 0xDC00) as u32);
            let u: u32 = 0x1_0000 + high * 0x400 + low;
            out.push(char_of(u));
            assert(rest.skip(2) == units@.skip(i + 2));
            assert(out@ + decode(units@.skip(i + 2)) == before + decode(rest));
            i += 2;
        } else {
            if 0xD800 <= first && first <= 0xDFFF {
                out.push('\u{FFFD}');
            } else {
                out.push(char_of(first as u32));
            }
            assert(rest.skip(1) == units@.skip(i + 1));
            assert(out@ + decode(units@.skip(i + 1)) == before + decode(rest));
            i += 1;
        }
    }
    assert(out@ + decode(units@.skip(i as int)) == out@);
    out
}

/// The code units before the first zero.
pub open spec fn before_zero(u: Seq<u16>) -> Seq<u16>
    decreases u.len(),
{
    if u.len() == 0 || u[0] == 0 {
        Seq::empty()
    } else {
        seq![u[0]] + before_zero(u.drop_first())
    }
}

/// How many code units stand before the first zero.
pub fn length_to_zero(units: &[u16]) -> (n: usize)
    ensures
        n <= units@.len(),
        units@.take(n as int) == before_zero(units@),
{
    let mut n: usize = 0;
    assert(units@.skip(0) == units@);
    assert(units@.take(0) + before_zero(units@) == before_zero(units@));
    while n < units.len() && units[n] != 0
        invariant
            n <= units@.len(),
            units@.take(n as int) + before_zero(units@.skip(n as int)) == before_zero(units@),
        decreases units@.len() - n,
    {
        proof {
            let rest = units@.skip(n as int);
            assert(rest.drop_first() == units@.skip(n + 1));
            assert(units@.take(n + 1) + before_zero(units@.skip(n + 1)) == units@.take(n as int) + (
            seq![rest[0]] + before_zero(rest.drop_first())));
        }
        n += 1;
    }
    assert(before_zero(units@.skip(n as int)) == Seq::<u16>::empty());
    assert(units@.take(n as int) + Seq::<u16>::empty() == units@.take(n as int));
    n
}

proof fn lemma_decode_first(c: char, rest: Seq<u16>)
    ensures
        decode(units_of(c) + rest) == seq![c] + decode(rest),
{
    let u = units_of(c) + rest;
    let n = units_of(c).len() as int;
    assert(u.skip(n) == rest);
    assert(u[0] == units_of(c)[0]);
    if n == 2 {
        let x = c as int - 0x1_0000;
        assert(u[1] == units_of(c)[1]);
        assert(u[0] == 0xD800 + x / 0x400 && u[1] == 0xDC00 + x % 0x400);
        assert(paired(u[0], u[1]) == c);
    }
}

/// Encoding and decoding a text gives it back.
pub proof fn law_utf16_round_trip(s: Seq<char>)
    ensures
        decode(encode(s)) == s,
    decreases s.len(),
{
    if s.len() > 0 {
        let rest = s.drop_first();
        law_utf16_round_trip(rest);
        lemma_decode_first(s[0], encode(rest));
        assert(seq![s[0]] + rest == s);
    }
}

} // verus!
