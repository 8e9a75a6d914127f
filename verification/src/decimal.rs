//! Reading a single-precision number from its decimal form, rounded to the
//! nearest.

use crate::bignat::BigNat;
use crate::rounding::{
    lemma_pow2_big, lemma_round_at, lemma_round_parts, lemma_rounded_is, lemma_rounds_to_infinity,
    lemma_rounds_to_scaled, lemma_rounds_to_zero, lemma_signed, lemma_zero_rounds,
};
use crate::single::{bias, infinity, not_a_number, overflow_limit, rounded, rounds_to, zero, Single};
use crate::text::{
    digits_value, find, find_of, is_digit, is_digits, lemma_find, same_ignoring_case,
    same_ignoring_case_of, split_once, split_once_of, strip_one,
};
use vstd::arithmetic::power2::{
    lemma_pow2_adds, lemma_pow2_pos, lemma_pow2_strictly_increases, lemma_pow2_unfold, pow2,
};
use vstd::prelude::*;
use vstd::slice::slice_subrange;

verus! {

// ---------------------------------------------------------------------------
// What a decimal text denotes
// ---------------------------------------------------------------------------

pub open spec fn pow10(n: nat) -> nat
    decreases n,
{
    if n == 0 {
        1
    } else {
        10 * pow10((n - 1) as nat)
    }
}

/// `m` times ten to the power of `e` is `numerator(m, e) / denominator(e)`,
/// in units of 2^-149.
pub open spec fn numerator(m: nat, e: int) -> int {
    let power = if e >= 0 {
        e as nat
    } else {
        0
    };
    (m * pow2(149) * pow10(power)) as int
}

pub open spec fn denominator(e: int) -> int {
    pow10(
        if e >= 0 {
            0
        } else {
            (-e) as nat
        },
    ) as int
}

/// `m` times ten to the power of `e`, rounded.
pub open spec fn decimal(m: nat, e: int, negative: bool) -> Single {
    rounded(
        if negative {
            -numerator(m, e)
        } else {
            numerator(m, e)
        },
        denominator(e),
        negative,
    )
}

/// The value of `digits`, read as a whole number, times ten to the power of
/// `exponent`, rounded.
pub open spec fn decimal_value(digits: Seq<char>, exponent: int, negative: bool) -> Single {
    decimal(digits_value(digits), exponent, negative)
}

/// Where the exponent's letter stands; the length of `s` where there is none.
pub open spec fn letter_at(s: Seq<char>) -> int {
    if find(s, 'e') < find(s, 'E') {
        find(s, 'e')
    } else {
        find(s, 'E')
    }
}

/// The number after the exponent's letter: digits, after an optional sign.
pub open spec fn exponent_of(s: Seq<char>) -> Option<int> {
    let negative = s.len() > 0 && s[0] == '-';
    let digits = if negative {
        s.drop_first()
    } else {
        strip_one(s, '+')
    };
    if is_digits(digits) {
        Some(
            if negative {
                -(digits_value(digits) as int)
            } else {
                digits_value(digits) as int
            },
        )
    } else {
        None
    }
}

/// A decimal number without sign: its digits without the point, and the
/// power of ten that they are multiplied with.
pub open spec fn decimal_parts(s: Seq<char>) -> Option<(Seq<char>, int)> {
    let at = letter_at(s);
    let (whole, fraction) = match split_once(s.take(at), '.') {
        Some(parts) => parts,
        None => (s.take(at), Seq::<char>::empty()),
    };
    let exponent = if at < s.len() {
        exponent_of(s.skip(at + 1))
    } else {
        Some(0int)
    };
    match exponent {
        Some(e) if is_digits(whole + fraction) => Some((whole + fraction, e - fraction.len())),
        _ => None,
    }
}

/// The number that a text reads as, where it reads as one: a decimal number
/// with optional sign, point and exponent, or an infinity, or NaN.
#[verifier::opaque]
pub open spec fn read_single(s: Seq<char>) -> Option<Single> {
    let negative = s.len() > 0 && s[0] == '-';
    let body = if negative {
        s.drop_first()
    } else {
        strip_one(s, '+')
    };
    if same_ignoring_case(body, "inf"@) || same_ignoring_case(body, "infinity"@) {
        Some(infinity(negative))
    } else if same_ignoring_case(body, "nan"@) {
        Some(
            if negative {
                not_a_number().negated()
            } else {
                not_a_number()
            },
        )
    } else {
        match decimal_parts(body) {
            Some((digits, exponent)) => Some(decimal_value(digits, exponent, negative)),
            None => None,
        }
    }
}

// ---------------------------------------------------------------------------
// Rounding a quotient
// ---------------------------------------------------------------------------

/// The quotient of two positive numbers, rounded.
pub fn round_quotient(n: &BigNat, d: &BigNat) -> (r: Single)
    requires
        n.value() > 0,
        d.value() > 0,
    ensures
        rounds_to(r, (n.value() * pow2(149)) as int, d.value() as int, false),
{
    let ghost x = (n.value() * pow2((149 + bias()) as nat)) as int;
    let ghost dx = (d.value() * pow2(bias())) as int;
    let mut nn = n.copy();
    let mut dd = d.copy();
    let mut k: i32 = 149;
    proof {
        lemma_pow2_pos(bias());
        assert(nn.value() * pow2((149 + bias()) as nat) * d.value() == x * dd.value())
            by (nonlinear_arith)
            requires
                x == nn.value() * pow2((149 + bias()) as nat),
                dd.value() == d.value(),
        ;
        lemma_pow2_adds(149, bias());
        let (v, u, b) = (n.value() as int, pow2(149) as int, pow2(bias()) as int);
        assert(v * (u * b) == (v * u) * b) by (nonlinear_arith);
        assert(dx > 0) by (nonlinear_arith)
            requires
                dx == d.value() * pow2(bias()),
                d.value() > 0,
                pow2(bias()) > 0,
        ;
    }
    let mut low = dd.copy();
    low.scale(0x80_0000, 0);
    loop
        invariant_except_break
            dd.value() == d.value(),
            low.value() == dd.value() * 0x80_0000,
        invariant
            n.value() > 0,
            d.value() > 0,
            x == n.value() * pow2(149) * pow2(bias()),
            dx == d.value() * pow2(bias()),
            nn.value() > 0,
            dd.value() > 0,
            -31 <= k <= 149,
            nn.value() * pow2((k + bias()) as nat) * d.value() == x * dd.value(),
        ensures
            nn.value() >= dd.value() * 0x80_0000,
            k >= -31,
        decreases k + 31,
    {
        if nn.at_least(&low) {
            break;
        }
        if k < -30 {
            proof {
                lemma_rounds_to_zero(
                    x,
                    nn.value() as int,
                    d.value() as int,
                    dd.value() as int,
                    (k + bias()) as nat,
                    (-k) as nat,
                );
                lemma_pow2_pos(bias());
                lemma_rounds_to_scaled(
                    zero(false),
                    (n.value() * pow2(149)) as int,
                    d.value() as int,
                    pow2(bias()) as int,
                    false,
                );
            }
            return Single::from_bits(0);
        }
        proof {
            lemma_pow2_unfold((k + bias()) as nat);
            let p = pow2((k - 1 + bias()) as nat);
            let (v, w) = (nn.value(), d.value());
            assert((v * 2) * p * w == v * (2 * p) * w) by (nonlinear_arith);
        }
        nn.scale(2, 0);
        k = k - 1;
    }
    loop
        invariant_except_break
            nn.value() >= dd.value() * 0x80_0000,
        invariant
            n.value() > 0,
            d.value() > 0,
            x == n.value() * pow2(149) * pow2(bias()),
            dx == d.value() * pow2(bias()),
            nn.value() > 0,
            dd.value() > 0,
            -31 <= k <= 254,
            nn.value() * pow2((k + bias()) as nat) * d.value() == x * dd.value(),
        ensures
            dd.value() * 0x80_0000 <= nn.value() < dd.value() * 0x100_0000,
        decreases 254 - k,
    {
        let mut high = dd.copy();
        high.scale(0x100_0000, 0);
        if !nn.at_least(&high) {
            break;
        }
        if k >= 254 {
            proof {
                lemma_rounds_to_infinity(
                    x,
                    nn.value() as int,
                    d.value() as int,
                    dd.value() as int,
                    k as nat,
                );
                lemma_pow2_pos(bias());
                lemma_rounds_to_scaled(
                    infinity(false),
                    (n.value() * pow2(149)) as int,
                    d.value() as int,
                    pow2(bias()) as int,
                    false,
                );
            }
            return Single::from_bits(0x7F80_0000);
        }
        proof {
            lemma_pow2_unfold((k + 1 + bias()) as nat);
            let p = pow2((k + bias()) as nat);
            let (v, w, z) = (nn.value(), d.value(), dd.value());
            assert(v * (2 * p) * w == x * (z * 2)) by (nonlinear_arith)
                requires
                    v * p * w == x * z,
            ;
        }
        dd.scale(2, 0);
        k = k + 1;
    }
    while k < 0
        invariant
            n.value() > 0,
            d.value() > 0,
            x == n.value() * pow2(149) * pow2(bias()),
            dx == d.value() * pow2(bias()),
            nn.value() > 0,
            dd.value() > 0,
            -31 <= k <= 254,
            nn.value() < dd.value() * 0x100_0000,
            k > 0 ==> dd.value() * 0x80_0000 <= nn.value(),
            nn.value() * pow2((k + bias()) as nat) * d.value() == x * dd.value(),
        decreases -k,
    {
        proof {
            lemma_pow2_unfold((k + 1 + bias()) as nat);
            let p = pow2((k + bias()) as nat);
            let (v, w, z) = (nn.value(), d.value(), dd.value());
            assert(v * (2 * p) * w == x * (z * 2)) by (nonlinear_arith)
                requires
                    v * p * w == x * z,
            ;
        }
        dd.scale(2, 0);
        k = k + 1;
    }
    let (q, rem) = nn.divide(&dd);
    let mut twice = rem.copy();
    twice.scale(2, 0);
    let over: bool = !dd.at_least(&twice);
    let tie: bool = !over && twice.at_least(&dd);
    let w: u32 = if over || (tie && q % 2 == 1) {
        q + 1
    } else {
        q
    };
    proof {
        lemma_pow2_adds(k as nat, bias());
        lemma_pow2_pos(bias());
        let (a, b) = (pow2(k as nat), pow2(bias()));
        let (v, z, u) = (nn.value(), dd.value(), d.value());
        assert(v * a * dx == x * z) by (nonlinear_arith)
            requires
                v * (a * b) * u == x * z,
                dx == u * b,
        ;
        assert(dx > 0) by (nonlinear_arith)
            requires
                dx == u * b,
                u > 0,
                b > 0,
        ;
        lemma_round_parts(
            x,
            dx,
            v as int,
            z as int,
            k as nat,
            q as int,
            rem.value() as int,
            w as int,
        );
    }
    let r = if k > 253 || k as u32 * 0x80_0000 + w >= 0x7F80_0000 {
        Single::from_bits(0x7F80_0000)
    } else {
        Single::from_bits(k as u32 * 0x80_0000 + w)
    };
    proof {
        lemma_rounds_to_scaled(
            r,
            (n.value() * pow2(149)) as int,
            d.value() as int,
            pow2(bias()) as int,
            false,
        );
    }
    r
}

// ---------------------------------------------------------------------------
// Reading
// ---------------------------------------------------------------------------

pub proof fn lemma_pow10_positive(n: nat)
    ensures
        pow10(n) > 0,
        pow10(n) >= pow2(3 * n),
    decreases n,
{
    if n == 0 {
        lemma_pow2_big();
    } else {
        lemma_pow10_positive((n - 1) as nat);
        lemma_pow2_adds(3, (3 * (n - 1)) as nat);
        lemma_pow2_big();
        lemma_pow2_pos((3 * (n - 1)) as nat);
    }
}

pub proof fn lemma_pow10_grows(a: nat, b: nat)
    requires
        a <= b,
    ensures
        pow10(a) <= pow10(b),
    decreases b,
{
    if a < b {
        lemma_pow10_grows(a, (b - 1) as nat);
    }
}

pub proof fn lemma_pow10_adds(a: nat, b: nat)
    ensures
        pow10(a + b) == pow10(a) * pow10(b),
    decreases a,
{
    let y = pow10(b);
    if a == 0 {
        assert(1 * y == y) by (nonlinear_arith);
    } else {
        lemma_pow10_adds((a - 1) as nat, b);
        let x = pow10((a - 1) as nat);
        assert(10 * (x * y) == (10 * x) * y) by (nonlinear_arith);
    }
}

/// Digits denote less than the power of ten of their number.
proof fn lemma_digits_bound(s: Seq<char>)
    requires
        forall|i: int| 0 <= i < s.len() ==> is_digit(#[trigger] s[i]),
    ensures
        digits_value(s) < pow10(s.len()),
    decreases s.len(),
{
    if s.len() > 0 {
        assert(is_digit(s.last()));
        assert forall|i: int| 0 <= i < s.drop_last().len() implies is_digit(
            #[trigger] s.drop_last()[i],
        ) by {
            assert(is_digit(s[i]));
        }
        lemma_digits_bound(s.drop_last());
    }
}

/// A number of forty-three digits and more is infinite.
proof fn lemma_large_decimal(digits: Seq<char>, exponent: int, negative: bool)
    requires
        digits_value(digits) > 0,
        exponent > 42,
    ensures
        decimal_value(digits, exponent, negative) == infinity(negative),
{
    let e = exponent as nat;
    lemma_pow10_grows(43, e);
    lemma_pow10_positive(43);
    lemma_pow2_adds(129, 149);
    lemma_pow2_adds(26, 252);
    lemma_pow2_unfold(26);
    lemma_pow2_big();
    lemma_pow2_pos(129);
    lemma_pow2_pos(149);
    lemma_pow2_pos(252);
    let (v, u, p, t) = (
        digits_value(digits) as int,
        pow2(149) as int,
        pow10(e) as int,
        pow2(129) as int,
    );
    let n = v * u * p;
    assert(n >= t * u) by (nonlinear_arith)
        requires
            n == v * u * p,
            v >= 1,
            p >= t,
            t > 0,
            u > 0,
    ;
    let q = pow2(252) as int;
    assert(pow2(26) * q == 0x400_0000 * q) by (nonlinear_arith)
        requires
            pow2(26) == 0x400_0000,
    ;
    assert(pow2(278) == 0x400_0000 * q);
    assert(t * u == pow2(278));
    assert(n >= overflow_limit() * 1) by (nonlinear_arith)
        requires
            n >= 0x400_0000 * q,
            overflow_limit() == 0x1FF_FFFF * q,
            q > 0,
    ;
    if negative {
        lemma_rounded_is(infinity(true), -n, 1, true);
    } else {
        lemma_rounded_is(infinity(false), n, 1, false);
    }
}

/// A number below ten to the power of -50 is zero.
proof fn lemma_small_decimal(digits: Seq<char>, exponent: int, negative: bool)
    requires
        is_digits(digits),
        digits_value(digits) > 0,
        digits.len() + exponent < -50,
    ensures
        decimal_value(digits, exponent, negative) == zero(negative),
{
    let e = (-exponent) as nat;
    let m = digits.len();
    lemma_digits_bound(digits);
    lemma_pow10_adds(m, (e - m) as nat);
    lemma_pow10_grows(51, (e - m) as nat);
    lemma_pow10_positive(51);
    lemma_pow10_positive(m);
    lemma_pow2_unfold(150);
    lemma_pow2_strictly_increases(150, 153);
    lemma_pow2_pos(149);
    let (v, u, a, b) = (
        digits_value(digits) as int,
        pow2(149) as int,
        pow10(m) as int,
        pow10((e - m) as nat) as int,
    );
    let n = v * u;
    let d = a * b;
    assert(0 < n && 2 * n <= d) by (nonlinear_arith)
        requires
            n == v * u,
            d == a * b,
            0 < v < a,
            2 * u <= b,
            0 < u,
    ;
    lemma_pow2_big();
    assert(0 * pow2(0) * d == 0) by (nonlinear_arith);
    lemma_round_at(zero(false), n, d, 0, 0);
    lemma_pow2_pos(252);
    let limit = overflow_limit();
    assert(limit * d >= d) by (nonlinear_arith)
        requires
            limit >= 1,
            d > 0,
    ;
    assert(n * pow10(0) == n) by (nonlinear_arith)
        requires
            pow10(0) == 1,
    ;
    lemma_signed(zero(false), n, d, negative);
}

proof fn lemma_zero_decimal(digits: Seq<char>, exponent: int, negative: bool)
    requires
        digits_value(digits) == 0,
    ensures
        decimal_value(digits, exponent, negative) == zero(negative),
{
    assert(0 * pow2(149) == 0) by (nonlinear_arith);
    if exponent >= 0 {
        assert(0 * pow10(exponent as nat) == 0) by (nonlinear_arith);
        lemma_zero_rounds(1, negative);
    } else {
        lemma_pow10_positive((-exponent) as nat);
        lemma_zero_rounds(pow10((-exponent) as nat) as int, negative);
    }
}

/// Beyond some size it no longer matters how large an exponent is.
proof fn lemma_far_exponents(digits: Seq<char>, a: int, b: int, negative: bool)
    requires
        is_digits(digits),
        a == b || (a > 42 && b > 42) || (digits.len() + a < -50 && digits.len() + b < -50),
    ensures
        decimal_value(digits, a, negative) == decimal_value(digits, b, negative),
{
    if digits_value(digits) == 0 {
        lemma_zero_decimal(digits, a, negative);
        lemma_zero_decimal(digits, b, negative);
    } else if a > 42 && b > 42 {
        lemma_large_decimal(digits, a, negative);
        lemma_large_decimal(digits, b, negative);
    } else if a != b {
        lemma_small_decimal(digits, a, negative);
        lemma_small_decimal(digits, b, negative);
    }
}

fn digit_value(c: char) -> (r: u32)
    requires
        is_digit(c),
    ensures
        r == c as u32 - '0' as u32,
        r < 10,
{
    c as u32 - '0' as u32
}

fn digits_ok(s: &[char]) -> (r: bool)
    ensures
        r == forall|i: int| 0 <= i < s@.len() ==> is_digit(#[trigger] s@[i]),
{
    let mut i: usize = 0;
    while i < s.len()
        invariant
            i <= s@.len(),
            forall|j: int| 0 <= j < i ==> is_digit(#[trigger] s@[j]),
        decreases s@.len() - i,
    {
        if !('0' <= s[i] && s[i] <= '9') {
            assert(!is_digit(s@[i as int]));
            return false;
        }
        i += 1;
    }
    true
}

/// Reads more digits into a number.
fn add_digits(n: &mut BigNat, s: &[char], Ghost(before): Ghost<Seq<char>>)
    requires
        forall|i: int| 0 <= i < s@.len() ==> is_digit(#[trigger] s@[i]),
        old(n).value() == digits_value(before),
    ensures
        final(n).value() == digits_value(before + s@),
{
    let mut i: usize = 0;
    assert(before + s@.take(0) == before);
    while i < s.len()
        invariant
            i <= s@.len(),
            forall|j: int| 0 <= j < s@.len() ==> is_digit(#[trigger] s@[j]),
            n.value() == digits_value(before + s@.take(i as int)),
        decreases s@.len() - i,
    {
        proof {
            let next = before + s@.take(i + 1);
            assert(next.drop_last() == before + s@.take(i as int));
            assert(next.last() == s@[i as int]);
        }
        n.scale(10, digit_value(s[i]));
        i += 1;
    }
    assert(s@.take(i as int) == s@);
}

pub fn power_of_ten(e: i128) -> (r: BigNat)
    requires
        e >= 0,
    ensures
        r.value() == pow10(e as nat),
{
    let mut r = BigNat::zero();
    r.scale(1, 1);
    let mut i: i128 = 0;
    while i < e
        invariant
            0 <= i <= e,
            r.value() == pow10(i as nat),
        decreases e - i,
    {
        r.scale(10, 0);
        i += 1;
    }
    r
}

/// A limit that no length of a text reaches.
pub open spec fn far() -> int {
    0x1_0000_0000_0000_0000_0000_0000
}

/// The number after the exponent's letter, up to a limit.
fn read_exponent(s: &[char]) -> (r: Option<i128>)
    ensures
        match exponent_of(s@) {
            None => r is None,
            Some(e) => r is Some && if e > far() {
                r->0 == far()
            } else if e < -far() {
                r->0 == -far()
            } else {
                r->0 == e
            },
        },
{
    let negative: bool = s.len() > 0 && s[0] == '-';
    let signed: bool = negative || (s.len() > 0 && s[0] == '+');
    let digits = slice_subrange(
        s,
        if signed {
            1
        } else {
            0
        },
        s.len(),
    );
    assert(signed ==> digits@ == s@.drop_first());
    assert(!signed ==> digits@ == s@);
    if digits.len() == 0 || !digits_ok(digits) {
        return None;
    }
    let mut size: u128 = 0;
    let mut i: usize = 0;
    while i < digits.len()
        invariant
            i <= digits@.len(),
            is_digits(digits@),
            size <= 0x1_0000_0000_0000_0000_0000_0000,
            digits_value(digits@.take(i as int)) <= far() ==> size == digits_value(
                digits@.take(i as int),
            ),
            digits_value(digits@.take(i as int)) > far() ==> size == far(),
        decreases digits@.len() - i,
    {
        proof {
            assert(digits@.take(i + 1).drop_last() == digits@.take(i as int));
            assert(is_digit(digits@[i as int]));
        }
        let next: u128 = size * 10 + digit_value(digits[i]) as u128;
        size = if next > 0x1_0000_0000_0000_0000_0000_0000 {
            0x1_0000_0000_0000_0000_0000_0000
        } else {
            next
        };
        i += 1;
    }
    assert(digits@.take(i as int) == digits@);
    let value: i128 = size as i128;
    Some(
        if negative {
            -value
        } else {
            value
        },
    )
}

/// The decimal number with the digits `whole` and `fraction`, times ten to
/// the power of `exponent`.
fn round_decimal(whole: &[char], fraction: &[char], exponent: i128, negative: bool) -> (r: Single)
    requires
        is_digits(whole@ + fraction@),
        -0x2_0000_0000_0000_0000_0000_0000 <= exponent <= 0x2_0000_0000_0000_0000_0000_0000,
    ensures
        r == decimal_value(whole@ + fraction@, exponent as int, negative),
{
    let ghost digits = whole@ + fraction@;
    let mut n = BigNat::zero();
    proof {
        assert forall|i: int| 0 <= i < whole@.len() implies is_digit(#[trigger] whole@[i]) by {
            assert(whole@[i] == digits[i]);
        }
        assert forall|i: int| 0 <= i < fraction@.len() implies is_digit(
            #[trigger] fraction@[i],
        ) by {
            assert(fraction@[i] == digits[whole@.len() + i]);
        }
    }
    add_digits(&mut n, whole, Ghost(Seq::<char>::empty()));
    assert(Seq::<char>::empty() + whole@ == whole@);
    add_digits(&mut n, fraction, Ghost(whole@));
    let mut one = BigNat::zero();
    one.scale(1, 1);
    if !n.at_least(&one) {
        proof {
            lemma_zero_decimal(digits, exponent as int, negative);
        }
        return if negative {
            Single::from_bits(0x8000_0000)
        } else {
            Single::from_bits(0)
        };
    }
    if exponent > 42 {
        proof {
            lemma_large_decimal(digits, exponent as int, negative);
        }
        return if negative {
            Single::from_bits(0xFF80_0000)
        } else {
            Single::from_bits(0x7F80_0000)
        };
    }
    let count: i128 = whole.len() as i128 + fraction.len() as i128;
    if count + exponent < -50 {
        proof {
            lemma_small_decimal(digits, exponent as int, negative);
        }
        return if negative {
            Single::from_bits(0x8000_0000)
        } else {
            Single::from_bits(0)
        };
    }
    let r: Single;
    if exponent >= 0 {
        let mut i: i128 = 0;
        let ghost start = n.value();
        assert(start * 1 == start) by (nonlinear_arith);
        while i < exponent
            invariant
                0 <= i <= exponent,
                start > 0,
                n.value() == start * pow10(i as nat),
            decreases exponent - i,
        {
            proof {
                let p = pow10(i as nat);
                assert((start * p) * 10 == start * (10 * p)) by (nonlinear_arith);
            }
            n.scale(10, 0);
            i += 1;
        }
        proof {
            lemma_pow10_positive(exponent as nat);
            let p = pow10(exponent as nat);
            assert(start * p > 0) by (nonlinear_arith)
                requires
                    start > 0,
                    p > 0,
            ;
        }
        r = round_quotient(&n, &one);
        proof {
            lemma_pow2_pos(149);
            let (p, u) = (pow10(exponent as nat), pow2(149));
            let x = (start * u * p) as int;
            assert((start * p) * u == start * u * p) by (nonlinear_arith);
            assert(x > 0) by (nonlinear_arith)
                requires
                    x == start * u * p,
                    start > 0,
                    p > 0,
                    u > 0,
            ;
            lemma_signed(r, x, 1, negative);
        }
    } else {
        let d = power_of_ten(-exponent);
        proof {
            lemma_pow10_positive((-exponent) as nat);
        }
        r = round_quotient(&n, &d);
        proof {
            lemma_pow2_pos(149);
            let u = pow2(149);
            let x = (n.value() * u) as int;
            assert(x > 0) by (nonlinear_arith)
                requires
                    x == n.value() * u,
                    n.value() > 0,
                    u > 0,
            ;
            assert(x * pow10(0) == x) by (nonlinear_arith)
                requires
                    pow10(0) == 1,
            ;
            lemma_signed(r, x, pow10((-exponent) as nat) as int, negative);
        }
    }
    if negative {
        r.negate()
    } else {
        r
    }
}

/// A decimal number without sign, negated on demand.
fn parse_decimal(body: &[char], negative: bool) -> (r: Option<Single>)
    ensures
        r == match decimal_parts(body@) {
            Some((digits, exponent)) => Some(decimal_value(digits, exponent, negative)),
            None => None,
        },
{
    let small: usize = find_of(body, 'e');
    let large: usize = find_of(body, 'E');
    let at: usize = if small < large {
        small
    } else {
        large
    };
    let mantissa = slice_subrange(body, 0, at);
    assert(mantissa@ == body@.take(at as int));
    let exponent: i128 = if at < body.len() {
        let rest = slice_subrange(body, at + 1, body.len());
        assert(rest@ == body@.skip(at + 1));
        match read_exponent(rest) {
            Some(e) => e,
            None => {
                return None;
            },
        }
    } else {
        0
    };
    let (whole, fraction) = match split_once_of(mantissa, '.') {
        Some(parts) => parts,
        None => (mantissa, slice_subrange(mantissa, mantissa.len(), mantissa.len())),
    };
    proof {
        lemma_find(mantissa@, '.');
        let (w, f) = match split_once(mantissa@, '.') {
            Some(parts) => parts,
            None => (mantissa@, Seq::<char>::empty()),
        };
        assert(whole@ == w);
        assert(fraction@ == f);
        let all = whole@ + fraction@;
        if is_digits(all) {
            assert forall|i: int| 0 <= i < whole@.len() implies is_digit(#[trigger] whole@[i]) by {
                assert(whole@[i] == all[i]);
            }
            assert forall|i: int| 0 <= i < fraction@.len() implies is_digit(
                #[trigger] fraction@[i],
            ) by {
                assert(fraction@[i] == all[whole@.len() + i]);
            }
        }
    }
    if (whole.len() == 0 && fraction.len() == 0) || !digits_ok(whole) || !digits_ok(fraction) {
        return None;
    }
    assert(is_digits(whole@ + fraction@));
    let e: i128 = exponent - fraction.len() as i128;
    proof {
        let (_, actual) = decimal_parts(body@)->0;
        lemma_far_exponents(whole@ + fraction@, e as int, actual, negative);
    }
    Some(round_decimal(whole, fraction, e, negative))
}

/// The number that a text reads as, where it reads as one.
pub fn parse_single(s: &[char]) -> (r: Option<Single>)
    ensures
        r == read_single(s@),
{
    reveal(read_single);
    let negative: bool = s.len() > 0 && s[0] == '-';
    let signed: bool = negative || (s.len() > 0 && s[0] == '+');
    let body = slice_subrange(
        s,
        if signed {
            1
        } else {
            0
        },
        s.len(),
    );
    assert(signed ==> body@ == s@.drop_first());
    assert(!signed ==> body@ == s@);
    if same_ignoring_case_of(body, "inf") || same_ignoring_case_of(body, "infinity") {
        return Some(
            if negative {
                Single::from_bits(0xFF80_0000)
            } else {
                Single::from_bits(0x7F80_0000)
            },
        );
    }
    if same_ignoring_case_of(body, "nan") {
        return Some(
            if negative {
                Single::from_bits(0xFFC0_0000)
            } else {
                Single::from_bits(0x7FC0_0000)
            },
        );
    }
    parse_decimal(body, negative)
}

} // verus!
