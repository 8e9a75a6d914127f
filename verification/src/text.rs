//! Text as sequences of characters: trimming, splitting and decimal numbers.
//! The specifications state what each operation yields; the executable
//! functions work on character slices.

use vstd::prelude::*;
use vstd::slice::slice_subrange;

verus! {

// ---------------------------------------------------------------------------
// Specifications
// ---------------------------------------------------------------------------

/// The characters with Unicode's `White_Space` property.
pub open spec fn is_space(c: char) -> bool {
    let u = c as u32;
    ||| 0x09 <= u <= 0x0D
    ||| u == 0x20
    ||| u == 0x85
    ||| u == 0xA0
    ||| u == 0x1680
    ||| 0x2000 <= u <= 0x200A
    ||| u == 0x2028
    ||| u == 0x2029
    ||| u == 0x202F
    ||| u == 0x205F
    ||| u == 0x3000
}

/// `s` without its leading white space.
pub open spec fn trim_start(s: Seq<char>) -> Seq<char>
    decreases s.len(),
{
    if s.len() > 0 && is_space(s[0]) {
        trim_start(s.drop_first())
    } else {
        s
    }
}

/// `s` without its trailing white space.
pub open spec fn trim_end(s: Seq<char>) -> Seq<char>
    decreases s.len(),
{
    if s.len() > 0 && is_space(s.last()) {
        trim_end(s.drop_last())
    } else {
        s
    }
}

/// `s` without the white space at either end.
pub open spec fn trim(s: Seq<char>) -> Seq<char> {
    trim_end(trim_start(s))
}

/// Where `c` first occurs in `s`; the length of `s` where it does not.
pub open spec fn find(s: Seq<char>, c: char) -> int
    decreases s.len(),
{
    if s.len() == 0 || s[0] == c {
        0
    } else {
        1 + find(s.drop_first(), c)
    }
}

/// What stands before and after the first `c`, where there is one.
pub open spec fn split_once(s: Seq<char>, c: char) -> Option<(Seq<char>, Seq<char>)> {
    if find(s, c) < s.len() {
        Some((s.take(find(s, c)), s.skip(find(s, c) + 1)))
    } else {
        None
    }
}

/// The pieces of `s` between the occurrences of `c`.
pub open spec fn split(s: Seq<char>, c: char) -> Seq<Seq<char>>
    decreases s.len(),
    via split_decreases
{
    if find(s, c) < s.len() {
        seq![s.take(find(s, c))] + split(s.skip(find(s, c) + 1), c)
    } else {
        seq![s]
    }
}

#[via_fn]
proof fn split_decreases(s: Seq<char>, c: char) {
    lemma_find(s, c);
}

pub open spec fn is_digit(c: char) -> bool {
    '0' <= c <= '9'
}

/// A run of decimal digits, at least one.
pub open spec fn is_digits(s: Seq<char>) -> bool {
    s.len() > 0 && forall|i: int| 0 <= i < s.len() ==> is_digit(#[trigger] s[i])
}

/// The number that a run of decimal digits denotes.
pub open spec fn digits_value(s: Seq<char>) -> nat
    decreases s.len(),
{
    if s.len() == 0 {
        0
    } else {
        (10 * digits_value(s.drop_last()) + (s.last() as u32 - '0' as u32)) as nat
    }
}

/// `s` without one leading `c`, if it has one.
pub open spec fn strip_one(s: Seq<char>, c: char) -> Seq<char> {
    if s.len() > 0 && s[0] == c {
        s.drop_first()
    } else {
        s
    }
}

/// A whole number from 0 to `max`: digits, after an optional plus sign.
pub open spec fn unsigned_of(s: Seq<char>, max: nat) -> Option<nat> {
    let digits = strip_one(s, '+');
    if is_digits(digits) && digits_value(digits) <= max {
        Some(digits_value(digits))
    } else {
        None
    }
}

/// A whole number of an `i32`: digits, after an optional sign.
pub open spec fn signed_of(s: Seq<char>) -> Option<int> {
    if s.len() > 0 && s[0] == '-' {
        let digits = s.drop_first();
        if is_digits(digits) && digits_value(digits) <= 0x8000_0000 {
            Some(-(digits_value(digits) as int))
        } else {
            None
        }
    } else {
        match unsigned_of(s, 0x7FFF_FFFF) {
            Some(n) => Some(n as int),
            None => None,
        }
    }
}

/// The decimal digits of `n`, without leading zeros.
pub open spec fn nat_text(n: nat) -> Seq<char>
    decreases n,
{
    if n < 10 {
        seq![digit_char(n)]
    } else {
        nat_text(n / 10).push(digit_char(n % 10))
    }
}

pub open spec fn digit_char(n: nat) -> char {
    ('0' as u32 + n) as char
}

/// The decimal form of `n`, with a minus sign where it is negative.
pub open spec fn int_text(n: int) -> Seq<char> {
    if n < 0 {
        seq!['-'] + nat_text((-n) as nat)
    } else {
        nat_text(n as nat)
    }
}

/// The decimal digits of `n`, padded with zeros to at least `width`.
pub open spec fn padded_text(n: nat, width: nat) -> Seq<char> {
    let text = nat_text(n);
    if text.len() < width {
        Seq::new((width - text.len()) as nat, |i: int| '0') + text
    } else {
        text
    }
}

/// `c` with an ASCII capital letter made small.
pub open spec fn ascii_lower(c: char) -> char {
    if 'A' <= c <= 'Z' {
        (c as u32 + 32) as char
    } else {
        c
    }
}

/// Equal but for the case of ASCII letters.
pub open spec fn same_ignoring_case(a: Seq<char>, b: Seq<char>) -> bool {
    a.len() == b.len() && forall|i: int|
        0 <= i < a.len() ==> ascii_lower(#[trigger] a[i]) == ascii_lower(b[i])
}

/// The text of a truth value.
pub open spec fn bool_text(b: bool) -> Seq<char> {
    if b {
        "true"@
    } else {
        "false"@
    }
}

// ---------------------------------------------------------------------------
// Lemmas
// ---------------------------------------------------------------------------

pub proof fn lemma_find(s: Seq<char>, c: char)
    ensures
        0 <= find(s, c) <= s.len(),
        find(s, c) < s.len() ==> s[find(s, c)] == c,
        forall|i: int| 0 <= i < find(s, c) ==> #[trigger] s[i] != c,
    decreases s.len(),
{
    if s.len() > 0 && s[0] != c {
        lemma_find(s.drop_first(), c);
        assert forall|i: int| 0 <= i < find(s, c) implies #[trigger] s[i] != c by {
            if i > 0 {
                assert(s[i] == s.drop_first()[i - 1]);
            }
        }
    }
}

/// `find` is the position that `lemma_find` describes, and no other.
pub proof fn lemma_find_unique(s: Seq<char>, c: char, i: int)
    requires
        0 <= i <= s.len(),
        i < s.len() ==> s[i] == c,
        forall|j: int| 0 <= j < i ==> #[trigger] s[j] != c,
    ensures
        find(s, c) == i,
{
    lemma_find(s, c);
    if find(s, c) < i {
        assert(s[find(s, c)] != c);
    }
}

/// The first piece of a text that goes on after a separator.
pub proof fn lemma_split_first(piece: Seq<char>, rest: Seq<char>, c: char)
    requires
        !piece.contains(c),
    ensures
        split(piece + seq![c] + rest, c) == seq![piece] + split(rest, c),
{
    let s = piece + seq![c] + rest;
    lemma_find_unique(s, c, piece.len() as int);
    assert(s.take(piece.len() as int) == piece);
    assert(s.skip(piece.len() as int + 1) == rest);
}

/// A text without the separator is one piece.
pub proof fn lemma_split_last(piece: Seq<char>, c: char)
    requires
        !piece.contains(c),
    ensures
        split(piece, c) == seq![piece],
{
    lemma_find_unique(piece, c, piece.len() as int);
}

/// Splitting at the first separator undoes joining with it.
pub proof fn lemma_split_once(before: Seq<char>, after: Seq<char>, c: char)
    requires
        !before.contains(c),
    ensures
        split_once(before + seq![c] + after, c) == Some((before, after)),
{
    let s = before + seq![c] + after;
    lemma_find_unique(s, c, before.len() as int);
    assert(s.take(before.len() as int) == before);
    assert(s.skip(before.len() as int + 1) == after);
}

/// No white space at either end.
pub open spec fn is_trimmed(s: Seq<char>) -> bool {
    s.len() > 0 ==> !is_space(s[0]) && !is_space(s.last())
}

/// Trimming what is trimmed changes nothing.
pub proof fn lemma_trim_trimmed(s: Seq<char>)
    requires
        is_trimmed(s),
    ensures
        trim(s) == s,
{
}

/// The digits of a number denote it.
pub proof fn lemma_nat_text(n: nat)
    ensures
        is_digits(nat_text(n)),
        digits_value(nat_text(n)) == n,
    decreases n,
{
    if n < 10 {
        assert(nat_text(n).drop_last() == Seq::<char>::empty());
        assert(digits_value(nat_text(n).drop_last()) == 0);
    } else {
        lemma_nat_text(n / 10);
        assert(nat_text(n).drop_last() == nat_text(n / 10));
    }
}

/// Digits hold no white space and no sign.
pub proof fn lemma_digits_are_plain(s: Seq<char>, c: char)
    requires
        is_digits(s),
        !is_digit(c),
    ensures
        is_trimmed(s),
        !s.contains(c),
        s[0] != '+' && s[0] != '-',
{
    assert(is_digit(s[0]) && is_digit(s.last()));
}

/// Reading back the decimal form of a number gives the number.
pub proof fn law_unsigned_round_trip(n: nat, max: nat)
    requires
        n <= max,
    ensures
        unsigned_of(nat_text(n), max) == Some(n),
        trim(nat_text(n)) == nat_text(n),
{
    lemma_nat_text(n);
    lemma_digits_are_plain(nat_text(n), ' ');
}

/// Reading back the decimal form of an `i32` gives the number.
pub proof fn law_signed_round_trip(n: int)
    requires
        i32::MIN <= n <= i32::MAX,
    ensures
        signed_of(int_text(n)) == Some(n),
        trim(int_text(n)) == int_text(n),
{
    if n < 0 {
        lemma_nat_text((-n) as nat);
        lemma_digits_are_plain(nat_text((-n) as nat), ' ');
        assert(int_text(n).drop_first() == nat_text((-n) as nat));
        assert(int_text(n).last() == nat_text((-n) as nat).last());
    } else {
        lemma_nat_text(n as nat);
        lemma_digits_are_plain(nat_text(n as nat), ' ');
        law_unsigned_round_trip(n as nat, 0x7FFF_FFFF);
    }
}

// ---------------------------------------------------------------------------
// Executable functions
// ---------------------------------------------------------------------------

/// The characters of `s`.
pub fn chars_of(s: &str) -> (r: Vec<char>)
    ensures
        r@ == s@,
{
    let mut out: Vec<char> = Vec::new();
    for c in it: s.chars()
        invariant
            out@ == it.seq().take(it.index()),
            it.seq() == s@,
    {
        out.push(c);
    }
    out
}

/// `String::push`: appends one character to the end of the string.
pub assume_specification[ String::push ](s: &mut String, c: char)
    ensures
        final(s)@ == old(s)@.push(c),
;

/// The string made of the given characters.
pub fn string_of(chars: &[char]) -> (r: String)
    ensures
        r@ == chars@,
{
    let mut out = String::new();
    let mut i: usize = 0;
    while i < chars.len()
        invariant
            i <= chars@.len(),
            out@ == chars@.take(i as int),
        decreases chars@.len() - i,
    {
        out.push(chars[i]);
        i += 1;
    }
    out
}

fn space(c: char) -> (r: bool)
    ensures
        r == is_space(c),
{
    let u: u32 = c as u32;
    (0x09 <= u && u <= 0x0D) || u == 0x20 || u == 0x85 || u == 0xA0 || u == 0x1680 || (0x2000 <= u
        && u <= 0x200A) || u == 0x2028 || u == 0x2029 || u == 0x202F || u == 0x205F || u == 0x3000
}

/// `str::trim_start` on characters.
pub fn trim_start_of(s: &[char]) -> (r: &[char])
    ensures
        r@ == trim_start(s@),
{
    let mut i: usize = 0;
    proof {
        assert(s@.skip(0) == s@);
    }
    while i < s.len() && space(s[i])
        invariant
            i <= s@.len(),
            trim_start(s@) == trim_start(s@.skip(i as int)),
        decreases s@.len() - i,
    {
        assert(s@.skip(i as int).drop_first() == s@.skip(i + 1));
        i += 1;
    }
    let r = slice_subrange(s, i, s.len());
    assert(r@ == s@.skip(i as int));
    r
}

/// `str::trim_end` on characters.
pub fn trim_end_of(s: &[char]) -> (r: &[char])
    ensures
        r@ == trim_end(s@),
{
    let mut n: usize = s.len();
    proof {
        assert(s@.take(n as int) == s@);
    }
    while n > 0 && space(s[n - 1])
        invariant
            n <= s@.len(),
            trim_end(s@) == trim_end(s@.take(n as int)),
        decreases n,
    {
        assert(s@.take(n as int).drop_last() == s@.take(n - 1));
        n -= 1;
    }
    let r = slice_subrange(s, 0, n);
    assert(r@ == s@.take(n as int));
    r
}

/// `str::trim` on characters.
pub fn trim_of(s: &[char]) -> (r: &[char])
    ensures
        r@ == trim(s@),
{
    trim_end_of(trim_start_of(s))
}

/// Where `c` first occurs in `s`; the length of `s` where it does not.
pub fn find_of(s: &[char], c: char) -> (r: usize)
    ensures
        r == find(s@, c),
        r <= s@.len(),
{
    let mut i: usize = 0;
    while i < s.len() && s[i] != c
        invariant
            i <= s@.len(),
            forall|j: int| 0 <= j < i ==> #[trigger] s@[j] != c,
        decreases s@.len() - i,
    {
        i += 1;
    }
    proof {
        lemma_find_unique(s@, c, i as int);
    }
    i
}

/// What stands before and after the first `c`, where there is one.
pub fn split_once_of(s: &[char], c: char) -> (r: Option<(&[char], &[char])>)
    ensures
        match r {
            Some(p) => split_once(s@, c) == Some((p.0@, p.1@)),
            None => split_once(s@, c) is None,
        },
{
    let i: usize = find_of(s, c);
    if i < s.len() {
        let before = slice_subrange(s, 0, i);
        let after = slice_subrange(s, i + 1, s.len());
        assert(before@ == s@.take(i as int));
        assert(after@ == s@.skip(i + 1));
        Some((before, after))
    } else {
        None
    }
}

/// The characters of a slice, in a vector of their own.
pub fn copy_of(s: &[char]) -> (r: Vec<char>)
    ensures
        r@ == s@,
{
    let mut out: Vec<char> = Vec::new();
    let mut i: usize = 0;
    while i < s.len()
        invariant
            i <= s@.len(),
            out@ == s@.take(i as int),
        decreases s@.len() - i,
    {
        out.push(s[i]);
        i += 1;
    }
    out
}

/// The character sequences that vectors hold.
pub open spec fn views(pieces: Seq<Vec<char>>) -> Seq<Seq<char>> {
    Seq::new(pieces.len(), |i: int| pieces[i]@)
}

/// The pieces of `s` between the occurrences of `c`.
pub fn split_of(s: &[char], c: char) -> (r: Vec<Vec<char>>)
    ensures
        views(r@) == split(s@, c),
{
    let mut out: Vec<Vec<char>> = Vec::new();
    let mut from: usize = 0;
    assert(s@.skip(0) == s@);
    assert(views(out@) + split(s@, c) == split(s@, c));
    loop
        invariant
            from <= s@.len(),
            views(out@) + split(s@.skip(from as int), c) == split(s@, c),
        decreases s@.len() - from,
    {
        let rest = slice_subrange(s, from, s.len());
        assert(rest@ == s@.skip(from as int));
        let i: usize = find_of(rest, c);
        let piece = copy_of(slice_subrange(rest, 0, i));
        let ghost before = out@;
        out.push(piece);
        assert(views(out@) == views(before).push(rest@.take(i as int)));
        if i == rest.len() {
            assert(rest@.take(i as int) == rest@);
            assert(views(out@) == views(before) + seq![rest@]);
            return out;
        }
        assert(rest@.skip(i + 1) == s@.skip(from + i + 1));
        assert(views(out@) + split(s@.skip(from + i + 1), c) == views(before) + (seq![
            rest@.take(i as int),
        ] + split(rest@.skip(i + 1), c)));
        from = from + i + 1;
    }
}

/// Whether the characters are those of `t`.
pub fn same(s: &[char], t: &str) -> (r: bool)
    ensures
        r == (s@ == t@),
{
    let other = chars_of(t);
    if s.len() != other.len() {
        return false;
    }
    let mut i: usize = 0;
    while i < s.len()
        invariant
            i <= s@.len(),
            s@.len() == other@.len(),
            other@ == t@,
            forall|j: int| 0 <= j < i ==> s@[j] == #[trigger] other@[j],
        decreases s@.len() - i,
    {
        if s[i] != other[i] {
            return false;
        }
        i += 1;
    }
    assert(s@ == t@);
    true
}

fn lower(c: char) -> (r: char)
    ensures
        r == ascii_lower(c),
{
    if 'A' <= c && c <= 'Z' {
        ((c as u8) + 32) as char
    } else {
        c
    }
}

/// `str::eq_ignore_ascii_case` on characters.
pub fn same_ignoring_case_of(s: &[char], t: &str) -> (r: bool)
    ensures
        r == same_ignoring_case(s@, t@),
{
    let other = chars_of(t);
    if s.len() != other.len() {
        return false;
    }
    let mut i: usize = 0;
    while i < s.len()
        invariant
            i <= s@.len(),
            s@.len() == other@.len(),
            other@ == t@,
            forall|j: int| 0 <= j < i ==> ascii_lower(#[trigger] s@[j]) == ascii_lower(other@[j]),
        decreases s@.len() - i,
    {
        if lower(s[i]) != lower(other[i]) {
            return false;
        }
        i += 1;
    }
    true
}

proof fn lemma_digits_value_grows(s: Seq<char>, i: int)
    requires
        is_digits(s),
        0 <= i <= s.len(),
    ensures
        digits_value(s.take(i)) <= digits_value(s),
    decreases s.len() - i,
{
    if i < s.len() {
        assert(s.take(i + 1).drop_last() == s.take(i));
        assert(is_digit(s[i]));
        lemma_digits_value_grows(s, i + 1);
    } else {
        assert(s.take(i) == s);
    }
}

/// The value of a run of digits, where it is one and is at most `max`.
fn digits_of(s: &[char], max: u64) -> (r: Option<u64>)
    ensures
        match r {
            Some(n) => is_digits(s@) && n == digits_value(s@) && n <= max,
            None => !(is_digits(s@) && digits_value(s@) <= max),
        },
{
    if s.len() == 0 {
        return None;
    }
    let mut acc: u64 = 0;
    let mut i: usize = 0;
    while i < s.len()
        invariant
            i <= s@.len(),
            acc <= max,
            acc == digits_value(s@.take(i as int)),
            forall|j: int| 0 <= j < i ==> is_digit(#[trigger] s@[j]),
        decreases s@.len() - i,
    {
        let c = s[i];
        if !('0' <= c && c <= '9') {
            assert(!is_digit(s@[i as int]));
            return None;
        }
        let digit: u64 = (c as u32 - '0' as u32) as u64;
        let next: u128 = acc as u128 * 10 + digit as u128;
        proof {
            assert(s@.take(i + 1).drop_last() == s@.take(i as int));
            assert(next == digits_value(s@.take(i + 1)));
            if is_digits(s@) {
                lemma_digits_value_grows(s@, i + 1);
            }
        }
        if next > max as u128 {
            return None;
        }
        acc = next as u64;
        i += 1;
    }
    assert(s@.take(i as int) == s@);
    Some(acc)
}

/// The whole number that `s` reads as, up to `max`.
pub fn parse_unsigned(s: &[char], max: u64) -> (r: Option<u64>)
    ensures
        match r {
            Some(n) => unsigned_of(s@, max as nat) == Some(n as nat),
            None => unsigned_of(s@, max as nat) is None,
        },
{
    if s.len() > 0 && s[0] == '+' {
        let rest = slice_subrange(s, 1, s.len());
        assert(rest@ == s@.drop_first());
        digits_of(rest, max)
    } else {
        digits_of(s, max)
    }
}

/// The `i32` that `s` reads as.
pub fn parse_signed(s: &[char]) -> (r: Option<i32>)
    ensures
        match r {
            Some(n) => signed_of(s@) == Some(n as int),
            None => signed_of(s@) is None,
        },
{
    if s.len() > 0 && s[0] == '-' {
        let rest = slice_subrange(s, 1, s.len());
        assert(rest@ == s@.drop_first());
        match digits_of(rest, 0x8000_0000) {
            Some(n) => Some((0 - n as i64) as i32),
            None => None,
        }
    } else {
        match parse_unsigned(s, 0x7FFF_FFFF) {
            Some(n) => Some(n as i32),
            None => None,
        }
    }
}

fn digit(n: u128) -> (r: char)
    requires
        n < 10,
    ensures
        r == digit_char(n as nat),
{
    (('0' as u8) + (n as u8)) as char
}

/// The decimal digits of `n`.
pub fn unsigned_text(n: u128) -> (r: String)
    ensures
        r@ == nat_text(n as nat),
    decreases n,
{
    if n < 10 {
        let mut out = String::new();
        out.push(digit(n));
        assert(out@ == nat_text(n as nat));
        out
    } else {
        let mut out = unsigned_text(n / 10);
        out.push(digit(n % 10));
        out
    }
}

/// The decimal form of `n`.
pub fn signed_text(n: i64) -> (r: String)
    ensures
        r@ == int_text(n as int),
{
    if n < 0 {
        let mut out = String::new();
        out.push('-');
        let magnitude: u64 = (0 - n as i128) as u64;
        let digits = unsigned_text(magnitude as u128);
        out.append(digits.as_str());
        assert(out@ == int_text(n as int));
        out
    } else {
        unsigned_text(n as u128)
    }
}

/// The decimal digits of `n`, padded with zeros to at least `width`.
pub fn padded_unsigned_text(n: u64, width: usize) -> (r: String)
    ensures
        r@ == padded_text(n as nat, width as nat),
{
    let digits = chars_of(unsigned_text(n as u128).as_str());
    let mut out = String::new();
    let mut have: usize = digits.len();
    while have < width
        invariant
            digits@.len() <= have,
            have <= width || have == digits@.len(),
            out@ == Seq::new((have - digits@.len()) as nat, |i: int| '0'),
        decreases width - have,
    {
        out.push('0');
        have += 1;
    }
    out.append(string_of(digits.as_slice()).as_str());
    assert(out@ == padded_text(n as nat, width as nat));
    out
}

/// `true` or `false`.
pub fn bool_str(b: bool) -> (r: &'static str)
    ensures
        r@ == bool_text(b),
{
    if b {
        "true"
    } else {
        "false"
    }
}

} // verus!
