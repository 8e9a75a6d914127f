//! Natural numbers of any size, for reading decimal fractions exactly.

use crate::rounding::lemma_pow2_big;
use vstd::arithmetic::power2::{lemma_pow2_pos, lemma_pow2_unfold, pow2};
use vstd::prelude::*;

verus! {

/// A natural number, as its digits in base 2^32, the lowest first.
pub struct BigNat {
    limbs: Vec<u32>,
}

/// The number that digits in base 2^32 denote.
pub open spec fn limbs_value(s: Seq<u32>) -> nat
    decreases s.len(),
{
    if s.len() == 0 {
        0
    } else {
        limbs_value(s.drop_last()) + s.last() as nat * base_power((s.len() - 1) as nat)
    }
}

/// `2^32` to the power of `n`.
pub open spec fn base_power(n: nat) -> nat
    decreases n,
{
    if n == 0 {
        1
    } else {
        0x1_0000_0000 * base_power((n - 1) as nat)
    }
}

proof fn lemma_limbs_bound(s: Seq<u32>)
    ensures
        limbs_value(s) < base_power(s.len()),
    decreases s.len(),
{
    if s.len() > 0 {
        let n = (s.len() - 1) as nat;
        lemma_limbs_bound(s.drop_last());
        let (p, x) = (base_power(n), s.last() as nat);
        assert(p + x * p <= 0x1_0000_0000 * p) by (nonlinear_arith)
            requires
                x + 1 <= 0x1_0000_0000,
        ;
    }
}

proof fn lemma_limbs_push(s: Seq<u32>, x: u32)
    ensures
        limbs_value(s.push(x)) == limbs_value(s) + x * base_power(s.len()),
{
    assert(s.push(x).drop_last() == s);
}

/// The digit at `i`, 0 above the highest.
pub open spec fn limb_at(s: Seq<u32>, i: int) -> nat {
    if 0 <= i < s.len() {
        s[i] as nat
    } else {
        0
    }
}

/// The number that the lowest `n` digits denote.
pub open spec fn low_value(s: Seq<u32>, n: nat) -> nat {
    if n <= s.len() {
        limbs_value(s.take(n as int))
    } else {
        limbs_value(s)
    }
}

proof fn lemma_low_step(s: Seq<u32>, n: nat)
    ensures
        low_value(s, n + 1) == low_value(s, n) + limb_at(s, n as int) * base_power(n),
{
    if n < s.len() {
        assert(s.take(n as int + 1) == s.take(n as int).push(s[n as int]));
        lemma_limbs_push(s.take(n as int), s[n as int]);
    } else {
        assert(s.take(s.len() as int) == s);
        assert(0 * base_power(n) == 0) by (nonlinear_arith);
    }
}

impl BigNat {
    pub closed spec fn value(&self) -> nat {
        limbs_value(self.limbs@)
    }

    pub fn zero() -> (r: BigNat)
        ensures
            r.value() == 0,
    {
        BigNat { limbs: Vec::new() }
    }

    pub fn copy(&self) -> (r: BigNat)
        ensures
            r.value() == self.value(),
    {
        let mut limbs: Vec<u32> = Vec::new();
        let mut i: usize = 0;
        while i < self.limbs.len()
            invariant
                i <= self.limbs@.len(),
                limbs@ == self.limbs@.take(i as int),
            decreases self.limbs@.len() - i,
        {
            limbs.push(self.limbs[i]);
            i += 1;
        }
        assert(limbs@ == self.limbs@);
        BigNat { limbs }
    }

    /// Multiplies by `m` and adds `a`.
    pub fn scale(&mut self, m: u32, a: u32)
        ensures
            final(self).value() == old(self).value() * m + a,
    {
        let ghost start = self.limbs@;
        let mut out: Vec<u32> = Vec::new();
        let mut carry: u64 = a as u64;
        let mut i: usize = 0;
        proof {
            assert(self.limbs@.take(0) == Seq::<u32>::empty());
            assert(carry * base_power(0) == carry) by (nonlinear_arith)
                requires
                    base_power(0) == 1,
            ;
            assert(0 * m == 0) by (nonlinear_arith);
        }
        while i < self.limbs.len()
            invariant
                i <= self.limbs@.len(),
                self.limbs@ == start,
                out@.len() == i,
                carry < 0x1_0000_0000,
                limbs_value(out@) + carry * base_power(i as nat) == low_value(start, i as nat) * m
                    + a,
            decreases self.limbs@.len() - i,
        {
            let limb: u32 = self.limbs[i];
            proof {
                assert(0 <= limb * m <= 0xFFFF_FFFE_0000_0001) by (nonlinear_arith)
                    requires
                        limb <= 0xFFFF_FFFF,
                        m <= 0xFFFF_FFFF,
                ;
            }
            let t: u64 = limb as u64 * m as u64 + carry;
            let low: u32 = (t % 0x1_0000_0000) as u32;
            let next: u64 = t / 0x1_0000_0000;
            proof {
                lemma_limbs_push(out@, low);
                lemma_low_step(start, i as nat);
                let p = base_power(i as nat);
                let v = low_value(start, i as nat);
                assert(low * p + next * (0x1_0000_0000 * p) == t * p) by (nonlinear_arith)
                    requires
                        t == low + 0x1_0000_0000 * next,
                ;
                assert(t * p == (limb * p) * m + carry * p) by (nonlinear_arith)
                    requires
                        t == limb * m + carry,
                ;
                assert((v + limb * p) * m == v * m + (limb * p) * m) by (nonlinear_arith);
            }
            out.push(low);
            carry = next;
            i += 1;
        }
        proof {
            assert(start.take(start.len() as int) == start);
        }
        if carry > 0 {
            proof {
                lemma_limbs_push(out@, carry as u32);
            }
            out.push(carry as u32);
        } else {
            assert(0 * base_power(i as nat) == 0) by (nonlinear_arith);
        }
        self.limbs = out;
    }

    /// Subtracts `other` where that leaves no less than zero; says whether
    /// it did.
    pub fn reduce(&mut self, other: &BigNat) -> (r: bool)
        ensures
            r == (old(self).value() >= other.value()),
            final(self).value() == if r {
                (old(self).value() - other.value()) as nat
            } else {
                old(self).value()
            },
    {
        let n: usize = if self.limbs.len() >= other.limbs.len() {
            self.limbs.len()
        } else {
            other.limbs.len()
        };
        let ghost (a, b) = (self.limbs@, other.limbs@);
        let mut out: Vec<u32> = Vec::new();
        let mut borrow: u64 = 0;
        let mut i: usize = 0;
        proof {
            assert(a.take(0) == Seq::<u32>::empty());
            assert(b.take(0) == Seq::<u32>::empty());
            assert(0 * base_power(0) == 0) by (nonlinear_arith);
        }
        while i < n
            invariant
                i <= n,
                a == self.limbs@,
                b == other.limbs@,
                out@.len() == i,
                borrow <= 1,
                low_value(a, i as nat) + borrow * base_power(i as nat) == low_value(b, i as nat)
                    + limbs_value(out@),
            decreases n - i,
        {
            let x: u64 = if i < self.limbs.len() {
                self.limbs[i] as u64
            } else {
                0
            };
            let y: u64 = if i < other.limbs.len() {
                other.limbs[i] as u64
            } else {
                0
            };
            let take: u64 = y + borrow;
            let next: u64 = if x >= take {
                0
            } else {
                1
            };
            let digit: u32 = (x + next * 0x1_0000_0000 - take) as u32;
            proof {
                lemma_limbs_push(out@, digit);
                lemma_low_step(a, i as nat);
                lemma_low_step(b, i as nat);
                let p = base_power(i as nat);
                assert(x * p + next * (0x1_0000_0000 * p) == y * p + borrow * p + digit * p)
                    by (nonlinear_arith)
                    requires
                        x + next * 0x1_0000_0000 == y + borrow + digit,
                ;
            }
            out.push(digit);
            borrow = next;
            i += 1;
        }
        proof {
            assert(a.take(a.len() as int) == a);
            assert(b.take(b.len() as int) == b);
            lemma_limbs_bound(out@);
            assert(0 * base_power(n as nat) == 0) by (nonlinear_arith);
            assert(1 * base_power(n as nat) == base_power(n as nat)) by (nonlinear_arith);
        }
        if borrow == 0 {
            self.limbs = out;
            true
        } else {
            false
        }
    }

    /// The whole quotient by `d`, and the remainder.
    pub fn divide(&self, d: &BigNat) -> (r: (u32, BigNat))
        requires
            d.value() > 0,
            self.value() < d.value() * 0x4000_0000,
        ensures
            self.value() == r.0 * d.value() + r.1.value(),
            r.1.value() < d.value(),
            r.0 < 0x4000_0000,
    {
        let mut rest = self.copy();
        let mut q: u32 = 0;
        let mut weight: u32 = 0x4000_0000;
        let ghost mut left: nat = 30;
        proof {
            lemma_pow2_big();
            assert(0 * d.value() == 0) by (nonlinear_arith);
        }
        while weight > 1
            invariant
                d.value() > 0,
                self.value() == q * d.value() + rest.value(),
                rest.value() < d.value() * weight,
                weight == pow2(left),
                weight <= 0x4000_0000,
                q + weight <= 0x4000_0000,
            decreases weight,
        {
            proof {
                if left == 0 {
                    lemma_pow2_big();
                }
                lemma_pow2_unfold(left);
                left = (left - 1) as nat;
            }
            weight = weight / 2;
            let mut part = d.copy();
            part.scale(weight, 0);
            let ghost before = rest.value();
            if rest.reduce(&part) {
                proof {
                    let (v, u, w) = (d.value(), q as nat, weight as nat);
                    assert((u + w) * v + (before - v * w) == u * v + before) by (nonlinear_arith);
                    assert(v * (2 * w) == v * w + v * w) by (nonlinear_arith);
                }
                q = q + weight;
            }
        }
        proof {
            lemma_pow2_pos(left);
            assert(d.value() * 1 == d.value()) by (nonlinear_arith);
        }
        (q, rest)
    }

    /// Whether this number is at least `other`.
    pub fn at_least(&self, other: &BigNat) -> (r: bool)
        ensures
            r == (self.value() >= other.value()),
    {
        let mut rest = self.copy();
        rest.reduce(other)
    }
}

} // verus!
