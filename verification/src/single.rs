//! IEEE 754 single-precision numbers, held as their bit patterns: order,
//! clamping, rounded arithmetic and conversions. Gains, percentages and
//! meter positions are such numbers.

use crate::rounding::{
    lemma_far_sum, lemma_over, lemma_pow2_big, lemma_round_parts, lemma_rounded_is,
    lemma_rounds_to_scaled, lemma_rounds_to_zero, lemma_sign, lemma_signed, lemma_times,
    lemma_whole_large, lemma_whole_small, lemma_zero_rounds,
};
use vstd::arithmetic::div_mod::lemma_fundamental_div_mod;
use vstd::arithmetic::power2::{
    lemma_pow2_adds, lemma_pow2_pos, lemma_pow2_strictly_increases, lemma_pow2_unfold, pow2,
};
use vstd::bits::lemma_u64_shl_is_mul;
use vstd::prelude::*;

verus! {

/// A single-precision number, as its bits.
#[derive(Clone, Copy, PartialEq, Eq, Debug, Structural)]
pub struct Single {
    pub bits: u32,
}

/// The number with the given bits.
pub open spec fn of_bits(bits: u32) -> Single {
    Single { bits }
}

// ---------------------------------------------------------------------------
// The numbers that bit patterns stand for
// ---------------------------------------------------------------------------

impl Single {
    /// Exponent and fraction, without the sign.
    pub open spec fn magnitude(self) -> int {
        self.bits as int % 0x8000_0000
    }

    pub open spec fn is_negative(self) -> bool {
        self.bits >= 0x8000_0000
    }

    pub open spec fn is_nan(self) -> bool {
        self.magnitude() > 0x7F80_0000
    }

    pub open spec fn is_finite(self) -> bool {
        self.magnitude() < 0x7F80_0000
    }

    /// Position on the number line: larger numbers have larger ranks, and
    /// the two zeros share one. Meaningless for NaN.
    pub open spec fn rank(self) -> int {
        if self.is_negative() {
            -self.magnitude()
        } else {
            self.magnitude()
        }
    }

    /// The power of two that one step of the fraction is worth, counted from
    /// the smallest step of the format.
    pub open spec fn step(self) -> nat {
        if self.magnitude() < 0x80_0000 {
            0
        } else {
            (self.magnitude() / 0x80_0000 - 1) as nat
        }
    }

    /// How many such steps the number is from zero.
    pub open spec fn significand(self) -> int {
        if self.magnitude() < 0x80_0000 {
            self.magnitude()
        } else {
            self.magnitude() % 0x80_0000 + 0x80_0000
        }
    }

    /// The value of a finite number, in units of the smallest step (2^-149).
    pub open spec fn scaled(self) -> int {
        if self.is_negative() {
            -(self.significand() * pow2(self.step()))
        } else {
            self.significand() * pow2(self.step())
        }
    }

    /// `self < other`.
    pub open spec fn below_spec(self, other: Single) -> bool {
        !self.is_nan() && !other.is_nan() && self.rank() < other.rank()
    }

    /// `self <= other`.
    pub open spec fn at_most_spec(self, other: Single) -> bool {
        !self.is_nan() && !other.is_nan() && self.rank() <= other.rank()
    }

    /// `self == other`: NaN equals nothing, and the two zeros are equal.
    pub open spec fn equals_spec(self, other: Single) -> bool {
        !self.is_nan() && !other.is_nan() && self.rank() == other.rank()
    }

    /// `self` pulled into `lo..=hi`; NaN stays.
    pub open spec fn clamped(self, lo: Single, hi: Single) -> Single {
        if self.below_spec(lo) {
            lo
        } else if hi.below_spec(self) {
            hi
        } else {
            self
        }
    }

    /// The smaller of two numbers; one that is NaN does not count.
    pub open spec fn smaller(self, other: Single) -> Single {
        if self.is_nan() || other.below_spec(self) {
            other
        } else {
            self
        }
    }

    pub open spec fn negated(self) -> Single {
        Single {
            bits: if self.bits >= 0x8000_0000 {
                (self.bits - 0x8000_0000) as u32
            } else {
                (self.bits + 0x8000_0000) as u32
            },
        }
    }
}

pub open spec fn abs(x: int) -> int {
    if x < 0 {
        -x
    } else {
        x
    }
}

/// How far `r` is from `n / d`, times `d`.
pub open spec fn distance(r: Single, n: int, d: int) -> int {
    abs(r.scaled() * d - n)
}

/// No finite number is closer to `n / d` than `r`, and `r` is even where
/// another one is as close.
pub open spec fn is_nearest(r: Single, n: int, d: int) -> bool {
    &&& r.is_finite()
    &&& forall|q: Single|
        #![trigger q.scaled()]
        q.is_finite() ==> {
            &&& distance(r, n, d) <= distance(q, n, d)
            &&& distance(r, n, d) == distance(q, n, d) && q.scaled() != r.scaled() ==> r.rank() % 2
                == 0
        }
}

/// The zero of the given sign.
pub open spec fn zero(negative: bool) -> Single {
    Single {
        bits: if negative {
            0x8000_0000
        } else {
            0
        },
    }
}

/// The infinity of the given sign.
pub open spec fn infinity(negative: bool) -> Single {
    Single {
        bits: if negative {
            0xFF80_0000
        } else {
            0x7F80_0000
        },
    }
}

/// A result that is not a number.
pub open spec fn not_a_number() -> Single {
    Single { bits: 0x7FC0_0000 }
}

/// Values from here on round to infinity: half a step above the largest
/// finite number.
pub open spec fn overflow_limit() -> int {
    (0x1FF_FFFF * pow2(252)) as int
}

/// `n / d` (in units of 2^-149) rounded to the nearest number, ties to even.
/// `negative` is the sign of a result that is zero or infinite.
pub open spec fn rounded(n: int, d: int, negative: bool) -> Single {
    choose|r: Single| rounds_to(r, n, d, negative)
}

/// `r` is `n / d` rounded, where `negative` is the sign of an infinite
/// result or a zero.
pub open spec fn rounds_to(r: Single, n: int, d: int, negative: bool) -> bool {
    if abs(n) >= overflow_limit() * d {
        r == infinity(negative)
    } else {
        is_nearest(r, n, d) && (r.scaled() == 0 ==> r == zero(negative))
    }
}

impl Single {
    pub open spec fn is_infinite(self) -> bool {
        self.magnitude() == 0x7F80_0000
    }

    pub open spec fn is_zero(self) -> bool {
        self.magnitude() == 0
    }

    /// `self + other`.
    #[verifier::opaque]
    pub open spec fn plus_spec(self, other: Single) -> Single {
        if self.is_nan() || other.is_nan() {
            not_a_number()
        } else if self.is_infinite() {
            if other.is_infinite() && other.is_negative() != self.is_negative() {
                not_a_number()
            } else {
                self
            }
        } else if other.is_infinite() {
            other
        } else {
            let n = self.scaled() + other.scaled();
            rounded(n, 1, n < 0 || (n == 0 && self.is_negative() && other.is_negative()))
        }
    }

    /// `self - other`.
    #[verifier::opaque]
    pub open spec fn minus_spec(self, other: Single) -> Single {
        self.plus_spec(other.negated())
    }

    /// `self * other`.
    #[verifier::opaque]
    pub open spec fn times_spec(self, other: Single) -> Single {
        let negative = self.is_negative() != other.is_negative();
        if self.is_nan() || other.is_nan() {
            not_a_number()
        } else if self.is_infinite() || other.is_infinite() {
            if self.is_zero() || other.is_zero() {
                not_a_number()
            } else {
                infinity(negative)
            }
        } else {
            rounded(self.scaled() * other.scaled(), pow2(149) as int, negative)
        }
    }

    /// `self / other`.
    #[verifier::opaque]
    pub open spec fn over_spec(self, other: Single) -> Single {
        let negative = self.is_negative() != other.is_negative();
        if self.is_nan() || other.is_nan() {
            not_a_number()
        } else if self.is_infinite() {
            if other.is_infinite() {
                not_a_number()
            } else {
                infinity(negative)
            }
        } else if other.is_infinite() {
            zero(negative)
        } else if other.is_zero() {
            if self.is_zero() {
                not_a_number()
            } else {
                infinity(negative)
            }
        } else {
            let n = abs(self.scaled()) * pow2(149);
            rounded(
                if negative {
                    -n
                } else {
                    n
                },
                abs(other.scaled()),
                negative,
            )
        }
    }

    /// The larger of two numbers; one that is NaN does not count.
    pub open spec fn larger(self, other: Single) -> Single {
        if self.is_nan() || self.below_spec(other) {
            other
        } else {
            self
        }
    }

    /// The whole number of units in the absolute value of a finite number,
    /// rounded to the nearest (halves up) or cut off.
    pub open spec fn whole_size(self, nearest: bool) -> int {
        let unit = pow2(149) as int;
        let size = abs(self.scaled());
        if nearest {
            (2 * size + unit) / (2 * unit)
        } else {
            size / unit
        }
    }

    /// The number as a 32-bit integer, rounded (halves away from zero) or cut
    /// off. What does not fit saturates, and NaN gives 0.
    #[verifier::opaque]
    pub open spec fn to_int(self, nearest: bool) -> int {
        let size = self.whole_size(nearest);
        if self.is_nan() {
            0
        } else if self.is_negative() {
            if self.is_infinite() || size > 0x8000_0000 {
                -0x8000_0000
            } else {
                -size
            }
        } else if self.is_infinite() || size > 0x7FFF_FFFF {
            0x7FFF_FFFF
        } else {
            size
        }
    }
}

/// The single-precision number nearest to an integer.
#[verifier::opaque]
pub open spec fn single_of(n: int) -> Single {
    rounded(n * pow2(149), 1, n < 0)
}

/// The bits of 0.5.
pub const HALF: u32 = 0x3F00_0000;

/// The bits of 1.0.
pub const ONE: u32 = 0x3F80_0000;

// ---------------------------------------------------------------------------
// Arithmetic
// ---------------------------------------------------------------------------

impl Single {
    pub fn from_bits(bits: u32) -> (r: Single)
        ensures
            r == of_bits(bits),
    {
        Single { bits }
    }

    pub fn is_nan_value(&self) -> (r: bool)
        ensures
            r == self.is_nan(),
    {
        self.bits % 0x8000_0000 > 0x7F80_0000
    }

    pub fn is_finite_value(&self) -> (r: bool)
        ensures
            r == self.is_finite(),
    {
        self.bits % 0x8000_0000 < 0x7F80_0000
    }

    fn place(&self) -> (r: i64)
        ensures
            r == self.rank(),
    {
        if self.bits >= 0x8000_0000 {
            -((self.bits - 0x8000_0000) as i64)
        } else {
            self.bits as i64
        }
    }

    pub fn below(&self, other: Single) -> (r: bool)
        ensures
            r == self.below_spec(other),
    {
        !self.is_nan_value() && !other.is_nan_value() && self.place() < other.place()
    }

    pub fn at_most(&self, other: Single) -> (r: bool)
        ensures
            r == self.at_most_spec(other),
    {
        !self.is_nan_value() && !other.is_nan_value() && self.place() <= other.place()
    }

    pub fn equals(&self, other: Single) -> (r: bool)
        ensures
            r == self.equals_spec(other),
    {
        !self.is_nan_value() && !other.is_nan_value() && self.place() == other.place()
    }

    pub fn clamp_between(&self, lo: Single, hi: Single) -> (r: Single)
        ensures
            r == self.clamped(lo, hi),
    {
        if self.below(lo) {
            lo
        } else if hi.below(*self) {
            hi
        } else {
            *self
        }
    }

    pub fn smaller_of(&self, other: Single) -> (r: Single)
        ensures
            r == self.smaller(other),
    {
        if self.is_nan_value() || other.below(*self) {
            other
        } else {
            *self
        }
    }

    pub fn larger_of(&self, other: Single) -> (r: Single)
        ensures
            r == self.larger(other),
    {
        if self.is_nan_value() || self.below(other) {
            other
        } else {
            *self
        }
    }

    pub fn negate(&self) -> (r: Single)
        ensures
            r == self.negated(),
    {
        if self.bits >= 0x8000_0000 {
            Single { bits: self.bits - 0x8000_0000 }
        } else {
            Single { bits: self.bits + 0x8000_0000 }
        }
    }

    pub fn step_of(&self) -> (r: u32)
        ensures
            r == self.step(),
            r <= 254,
    {
        let m: u32 = self.bits % 0x8000_0000;
        if m < 0x80_0000 {
            0
        } else {
            m / 0x80_0000 - 1
        }
    }

    pub fn significand_of(&self) -> (r: u32)
        ensures
            r == self.significand(),
            r < 0x100_0000,
            r == 0 <==> self.is_zero(),
            self.step() > 0 ==> r >= 0x80_0000,
    {
        let m: u32 = self.bits % 0x8000_0000;
        if m < 0x80_0000 {
            m
        } else {
            m % 0x80_0000 + 0x80_0000
        }
    }

    pub fn plus(&self, other: Single) -> (r: Single)
        ensures
            r == self.plus_spec(other),
    {
        reveal(Single::plus_spec);
        if self.is_nan_value() || other.is_nan_value() {
            return Single { bits: 0x7FC0_0000 };
        }
        if !self.is_finite_value() {
            if !other.is_finite_value() && self.bits != other.bits {
                return Single { bits: 0x7FC0_0000 };
            }
            return *self;
        }
        if !other.is_finite_value() {
            return other;
        }
        if self.step_of() >= other.step_of() {
            plus_ordered(*self, other)
        } else {
            plus_ordered(other, *self)
        }
    }

    pub fn minus(&self, other: Single) -> (r: Single)
        ensures
            r == self.minus_spec(other),
    {
        reveal(Single::minus_spec);
        self.plus(other.negate())
    }

    pub fn times(&self, other: Single) -> (r: Single)
        ensures
            r == self.times_spec(other),
    {
        reveal(Single::times_spec);
        let negative: bool = (self.bits >= 0x8000_0000) != (other.bits >= 0x8000_0000);
        if self.is_nan_value() || other.is_nan_value() {
            return Single { bits: 0x7FC0_0000 };
        }
        let m: u32 = self.significand_of();
        let n: u32 = other.significand_of();
        if !self.is_finite_value() || !other.is_finite_value() {
            if m == 0 || n == 0 {
                return Single { bits: 0x7FC0_0000 };
            }
            return infinity_of(negative);
        }
        if m == 0 || n == 0 {
            proof {
                lemma_sign(*self);
                lemma_sign(other);
                let (a, b) = (self.scaled(), other.scaled());
                assert(a * b == 0) by (nonlinear_arith)
                    requires
                        a == 0 || b == 0,
                ;
                lemma_pow2_pos(149);
                lemma_zero_rounds(pow2(149) as int, negative);
            }
            return zero_of(negative);
        }
        let k: u32 = self.step_of();
        let l: u32 = other.step_of();
        proof {
            assert(0 < m * n < 0x1_0000_0000_0000) by (nonlinear_arith)
                requires
                    0 < m < 0x100_0000,
                    0 < n < 0x100_0000,
            ;
        }
        let product: u64 = m as u64 * n as u64;
        let e: i32 = k as i32 + l as i32 - 149;
        let r: Single = round_ratio(product, 1, e);
        proof {
            lemma_times(*self, other, r, e as int);
        }
        signed(r, negative)
    }

    pub fn over(&self, other: Single) -> (r: Single)
        ensures
            r == self.over_spec(other),
    {
        reveal(Single::over_spec);
        let negative: bool = (self.bits >= 0x8000_0000) != (other.bits >= 0x8000_0000);
        if self.is_nan_value() || other.is_nan_value() {
            return Single { bits: 0x7FC0_0000 };
        }
        if !self.is_finite_value() {
            if !other.is_finite_value() {
                return Single { bits: 0x7FC0_0000 };
            }
            return infinity_of(negative);
        }
        if !other.is_finite_value() {
            return zero_of(negative);
        }
        let m: u32 = self.significand_of();
        let n: u32 = other.significand_of();
        if n == 0 {
            if m == 0 {
                return Single { bits: 0x7FC0_0000 };
            }
            return infinity_of(negative);
        }
        if m == 0 {
            proof {
                lemma_sign(*self);
                lemma_sign(other);
                assert(abs(self.scaled()) * pow2(149) == 0) by (nonlinear_arith)
                    requires
                        self.scaled() == 0,
                ;
                lemma_zero_rounds(abs(other.scaled()), negative);
            }
            return zero_of(negative);
        }
        let e: i32 = self.step_of() as i32 - other.step_of() as i32 + 149;
        let r: Single = round_ratio(m as u64, n as u64, e);
        proof {
            lemma_over(*self, other, r, e as int);
        }
        signed(r, negative)
    }
}

impl Single {
    fn whole_size_of(&self, nearest: bool) -> (r: u64)
        requires
            self.is_finite(),
        ensures
            r == if self.whole_size(nearest) < 0x1_0000_0000 {
                self.whole_size(nearest)
            } else {
                0x1_0000_0000
            },
    {
        let m: u32 = self.significand_of();
        let k: u32 = self.step_of();
        if k >= 149 {
            let up: u32 = k - 149;
            proof {
                lemma_whole_large(*self, up as nat, nearest);
            }
            if up > 8 {
                return 0x1_0000_0000;
            }
            proof {
                lemma_pow2_big();
                if up < 8 {
                    lemma_pow2_strictly_increases(up as nat, 8);
                }
                lemma_u64_shl_is_mul(1, up as u64);
                let p = pow2(up as nat);
                assert(0 <= m * p < 0x1_0000_0000) by (nonlinear_arith)
                    requires
                        0 <= m < 0x100_0000,
                        0 <= p <= 0x100,
                ;
            }
            return m as u64 * (1u64 << up as u64);
        }
        let down: u32 = 149 - k;
        proof {
            lemma_whole_small(*self, down as nat, nearest);
        }
        if down > 25 {
            return 0;
        }
        proof {
            lemma_pow2_big();
            if down < 25 {
                lemma_pow2_strictly_increases(down as nat, 25);
            }
            lemma_u64_shl_is_mul(1, down as u64);
            lemma_pow2_pos(down as nat);
        }
        let unit: u64 = 1u64 << down as u64;
        if nearest {
            (2 * m as u64 + unit) / (2 * unit)
        } else {
            m as u64 / unit
        }
    }

    /// `self.round() as i32` or `self as i32`.
    pub fn to_i32(&self, nearest: bool) -> (r: i32)
        ensures
            r == self.to_int(nearest),
    {
        reveal(Single::to_int);
        if self.is_nan_value() {
            return 0;
        }
        let negative: bool = self.bits >= 0x8000_0000;
        let size: u64 = if self.is_finite_value() {
            self.whole_size_of(nearest)
        } else {
            0x1_0000_0000
        };
        if negative {
            if size >= 0x8000_0000 {
                i32::MIN
            } else {
                -(size as i32)
            }
        } else if size > 0x7FFF_FFFF {
            i32::MAX
        } else {
            size as i32
        }
    }

    /// The number nearest to an integer.
    pub fn from_i64(n: i64) -> (r: Single)
        requires
            -0x4000_0000_0000_0000 < n < 0x4000_0000_0000_0000,
        ensures
            r == single_of(n as int),
    {
        reveal(single_of);
        if n == 0 {
            proof {
                lemma_zero_rounds(1, false);
            }
            return Single { bits: 0 };
        }
        let negative: bool = n < 0;
        let size: u64 = if negative {
            (-n) as u64
        } else {
            n as u64
        };
        let r: Single = round_ratio(size, 1, 149);
        proof {
            lemma_pow2_adds(149, bias());
            lemma_pow2_pos(bias());
            lemma_pow2_pos(149);
            let (unit, big) = (pow2(149) as int, pow2(bias()) as int);
            let x = size * unit;
            assert(size * (unit * big) == x * big) by (nonlinear_arith)
                requires
                    x == size * unit,
            ;
            assert(x > 0) by (nonlinear_arith)
                requires
                    x == size * unit,
                    size > 0,
                    unit > 0,
            ;
            lemma_rounds_to_scaled(r, x, 1, big, false);
            assert((-(size as int)) * unit == -(size * unit)) by (nonlinear_arith);
            lemma_signed(r, x, 1, negative);
        }
        signed(r, negative)
    }

    pub fn from_i32(n: i32) -> (r: Single)
        ensures
            r == single_of(n as int),
    {
        Single::from_i64(n as i64)
    }
}

fn zero_of(negative: bool) -> (r: Single)
    ensures
        r == zero(negative),
{
    if negative {
        Single { bits: 0x8000_0000 }
    } else {
        Single { bits: 0 }
    }
}

fn infinity_of(negative: bool) -> (r: Single)
    ensures
        r == infinity(negative),
{
    if negative {
        Single { bits: 0xFF80_0000 }
    } else {
        Single { bits: 0x7F80_0000 }
    }
}

fn signed(a: Single, negative: bool) -> (r: Single)
    ensures
        r == if negative {
            a.negated()
        } else {
            a
        },
{
    if negative {
        a.negate()
    } else {
        a
    }
}

/// The sum of two finite numbers, the first with the larger step.
fn plus_ordered(a: Single, b: Single) -> (r: Single)
    requires
        a.is_finite(),
        b.is_finite(),
        a.step() >= b.step(),
    ensures
        r == a.plus_spec(b),
        r == b.plus_spec(a),
{
    reveal(Single::plus_spec);
    let m: u32 = a.significand_of();
    let n: u32 = b.significand_of();
    let k: u32 = a.step_of();
    let l: u32 = b.step_of();
    let shift: u32 = k - l;
    let a_negative: bool = a.bits >= 0x8000_0000;
    let b_negative: bool = b.bits >= 0x8000_0000;
    if shift > 36 {
        proof {
            lemma_far_sum(a, b);
        }
        return a;
    }
    let ghost unit = pow2(l as nat) as int;
    proof {
        lemma_pow2_pos(l as nat);
        lemma_pow2_adds(shift as nat, l as nat);
        lemma_pow2_big();
        if shift < 36 {
            lemma_pow2_strictly_increases(shift as nat, 36);
        }
        lemma_u64_shl_is_mul(1, shift as u64);
    }
    let scale: u64 = 1u64 << shift as u64;
    proof {
        assert(0 <= m * scale < 0x1000_0000_0000_0000) by (nonlinear_arith)
            requires
                0 <= m < 0x100_0000,
                0 <= scale <= 0x10_0000_0000,
        ;
    }
    let high: i64 = (m as u64 * scale) as i64;
    let low: i64 = n as i64;
    let sum: i64 = (if a_negative {
        -high
    } else {
        high
    }) + (if b_negative {
        -low
    } else {
        low
    });
    proof {
        assert(m * (scale * unit) == high * unit) by (nonlinear_arith)
            requires
                high == m * scale,
        ;
        assert((-high) * unit == -(high * unit)) by (nonlinear_arith);
        assert((-low) * unit == -(low * unit)) by (nonlinear_arith);
        let (x, y) = (
            if a_negative {
                -(high as int)
            } else {
                high as int
            },
            if b_negative {
                -(low as int)
            } else {
                low as int
            },
        );
        assert((x + y) * unit == x * unit + y * unit) by (nonlinear_arith);
        assert(a.scaled() + b.scaled() == sum * unit);
        assert(sum * unit < 0 <==> sum < 0) by (nonlinear_arith)
            requires
                unit > 0,
        ;
        assert(sum * unit == 0 <==> sum == 0) by (nonlinear_arith)
            requires
                unit > 0,
        ;
    }
    if sum == 0 {
        let negative: bool = a_negative && b_negative;
        proof {
            lemma_zero_rounds(1, negative);
            lemma_rounded_is(zero(negative), 0, 1, negative);
        }
        return zero_of(negative);
    }
    let negative: bool = sum < 0;
    let size: u64 = if negative {
        (-sum) as u64
    } else {
        sum as u64
    };
    let r: Single = round_ratio(size, 1, l as i32);
    proof {
        lemma_pow2_adds(l as nat, bias());
        lemma_pow2_pos(bias());
        let big = pow2(bias()) as int;
        let n1 = size * unit;
        assert(size * (unit * big) == n1 * big) by (nonlinear_arith)
            requires
                n1 == size * unit,
        ;
        lemma_rounds_to_scaled(r, n1, 1, big, false);
        assert((-(size as int)) * unit == -(size * unit)) by (nonlinear_arith);
        lemma_signed(r, n1, 1, negative);
    }
    signed(r, negative)
}

/// The scale that keeps every exponent in `round_ratio` from going negative.
pub open spec fn bias() -> nat {
    1000
}

/// `(n / d) * 2^e`, in units of 2^-149, rounded.
fn round_ratio(n: u64, d: u64, e: i32) -> (r: Single)
    requires
        0 < n < 0x4000_0000_0000_0000,
        0 < d < 0x100_0000,
        -500 <= e <= 500,
    ensures
        rounds_to(r, (n * pow2((e + bias()) as nat)) as int, (d * pow2(bias())) as int, false),
        !r.is_negative(),
{
    let ghost x = (n * pow2((e + bias()) as nat)) as int;
    let ghost dx = (d * pow2(bias())) as int;
    let nn: u128 = n as u128 * 0x4_0000_0000_0000;
    let mut dd: u128 = d as u128;
    let mut k: i32 = e - 50;
    proof {
        lemma_pow2_big();
        lemma_pow2_pos(bias());
        lemma_pow2_adds((e - 50 + bias()) as nat, 50);
        let p = pow2((e - 50 + bias()) as nat);
        assert(nn * p * d == x * d) by (nonlinear_arith)
            requires
                nn == n * 0x4_0000_0000_0000,
                x == n * (p * 0x4_0000_0000_0000),
        ;
        assert(dx > 0) by (nonlinear_arith)
            requires
                dx == d * pow2(bias()),
                d > 0,
                pow2(bias()) > 0,
        ;
    }
    while nn >= dd * 0x100_0000
        invariant
            n > 0,
            0 < d < 0x100_0000,
            -500 <= e <= 500,
            x == n * pow2((e + bias()) as nat),
            0 < dd,
            dd * 0x80_0000 <= nn,
            nn < 0x1_0000_0000_0000_0000_0000_0000_0000,
            e - 50 <= k <= e + 70,
            dd >= pow2((k - (e - 50)) as nat),
            nn * pow2((k + bias()) as nat) * d == x * dd,
        decreases nn - dd,
    {
        proof {
            lemma_pow2_unfold((k + 1 - (e - 50)) as nat);
            lemma_pow2_unfold((k + 1 + bias()) as nat);
            let p = pow2((k + bias()) as nat);
            assert(nn * (2 * p) * d == x * (dd * 2)) by (nonlinear_arith)
                requires
                    nn * p * d == x * dd,
            ;
            if k == e + 70 {
                lemma_pow2_big();
            }
        }
        dd = dd * 2;
        k = k + 1;
    }
    if k < -30 {
        proof {
            let (e, up) = ((k + bias()) as nat, (-k) as nat);
            lemma_rounds_to_zero(x, nn as int, d as int, dd as int, e, up);
        }
        return Single { bits: 0 };
    }
    proof {
        if k < 0 {
            lemma_pow2_big();
            if k > -30 {
                lemma_pow2_strictly_increases((-k) as nat, 30);
            }
            let h = pow2((-k) as nat);
            assert(dd * h <= 0x80_0000_0000_0000_0000_0000_0000_0000) by (nonlinear_arith)
                requires
                    dd * 0x80_0000 < 0x1_0000_0000_0000_0000_0000_0000_0000,
                    0 <= h <= 0x4000_0000,
                    0 < dd,
            ;
        }
    }
    while k < 0
        invariant
            n > 0,
            0 < d < 0x100_0000,
            -30 <= k <= 600,
            -500 <= e <= 500,
            x == n * pow2((e + bias()) as nat),
            0 < dd,
            nn < dd * 0x100_0000,
            k > 0 ==> dd * 0x80_0000 <= nn,
            nn < 0x1_0000_0000_0000_0000_0000_0000_0000,
            k < 0 ==> dd * pow2((-k) as nat) <= 0x80_0000_0000_0000_0000_0000_0000_0000,
            nn * pow2((k + bias()) as nat) * d == x * dd,
        decreases -k,
    {
        proof {
            lemma_pow2_unfold((k + 1 + bias()) as nat);
            lemma_pow2_unfold((-k) as nat);
            lemma_pow2_pos((-k - 1) as nat);
            let p = pow2((k + bias()) as nat);
            assert(nn * (2 * p) * d == x * (dd * 2)) by (nonlinear_arith)
                requires
                    nn * p * d == x * dd,
            ;
            let h = pow2((-k - 1) as nat);
            assert(dd * (2 * h) == (dd * 2) * h) by (nonlinear_arith);
            assert((dd * 2) * h >= dd * 2) by (nonlinear_arith)
                requires
                    h >= 1,
            ;
        }
        dd = dd * 2;
        k = k + 1;
    }
    let q: u128 = nn / dd;
    let rem: u128 = nn % dd;
    let up: bool = rem > dd - rem || (rem == dd - rem && q % 2 == 1);
    let w: u128 = if up {
        q + 1
    } else {
        q
    };
    proof {
        lemma_fundamental_div_mod(nn as int, dd as int);
        assert(dd * (nn / dd) == q * dd) by (nonlinear_arith)
            requires
                q == nn / dd,
        ;
        lemma_pow2_adds(k as nat, bias());
        let (a, b) = (pow2(k as nat), pow2(bias()));
        assert(nn * a * dx == x * dd) by (nonlinear_arith)
            requires
                nn * (a * b) * d == x * dd,
                dx == d * b,
        ;
        lemma_round_parts(
            x,
            dx,
            nn as int,
            dd as int,
            k as nat,
            q as int,
            rem as int,
            w as int,
        );
    }
    if k > 253 || k as u128 * 0x80_0000 + w >= 0x7F80_0000 {
        Single { bits: 0x7F80_0000 }
    } else {
        Single { bits: k as u32 * 0x80_0000 + w as u32 }
    }
}

} // verus!
