//! Natural numbers of any size, as far as reading decimal numbers needs them.

use vstd::arithmetic::power2::{lemma2_to64, lemma_pow2_adds, pow2};
use vstd::prelude::*;

verus! {

/// The number that a row of base 2^32 digits stands for, lowest digit first.
pub open spec fn limbs_value(limbs: Seq<u32>) -> nat
    decreases limbs.len(),
{
    if limbs.len() == 0 {
        0
    } else {
        limbs_value(limbs.drop_last()) + limbs.last() as nat * pow2(
            32 * (limbs.len() - 1) as nat,
        )
    }
}

/// A natural number.
pub struct BigNat {
    pub limbs: Vec<u32>,
}

impl View for BigNat {
    type V = nat;

    open spec fn view(&self) -> nat {
        limbs_value(self.limbs@)
    }
}

/// How one number compares with another.
#[derive(Clone, Copy, Debug, PartialEq, Eq, Structural)]
pub enum Side {
    Below,
    Level,
    Above,
}

pub open spec fn side(a: int, b: int) -> Side {
    if a < b {
        Side::Below
    } else if a == b {
        Side::Level
    } else {
        Side::Above
    }
}

proof fn lemma_limbs_bound(limbs: Seq<u32>)
    ensures
        limbs_value(limbs) < pow2(32 * limbs.len()),
    decreases limbs.len(),
{
    lemma2_to64();
    if limbs.len() > 0 {
        lemma_limbs_bound(limbs.drop_last());
        let k = 32 * (limbs.len() - 1) as nat;
        lemma_pow2_adds(32, k);
        let p = pow2(k);
        assert(limbs_value(limbs.drop_last()) + limbs.last() as nat * p < 0x1_0000_0000 * p)
            by (nonlinear_arith)
            requires
                limbs_value(limbs.drop_last()) < p,
                limbs.last() < 0x1_0000_0000,
        ;
    }
}

proof fn lemma_limbs_step(limbs: Seq<u32>, i: int)
    requires
        0 <= i < limbs.len(),
    ensures
        limbs_value(limbs.take(i + 1)) == limbs_value(limbs.take(i)) + limbs[i] as nat * pow2(
            32 * i as nat,
        ),
{
    assert(limbs.take(i + 1).drop_last() == limbs.take(i));
}

impl BigNat {
    /// A number from its value.
    pub fn small(n: u64) -> (r: BigNat)
        ensures
            r@ == n,
    {
        let mut r = BigNat { limbs: Vec::new() };
        r.multiply_add(0, n);
        assert(0 * 0 + n == n);
        r
    }

    /// Multiplies by `factor` and adds `extra`.
    pub fn multiply_add(&mut self, factor: u64, extra: u64)
        ensures
            final(self)@ == old(self)@ * factor + extra,
    {
        let mut out: Vec<u32> = Vec::new();
        let mut carry: u64 = extra;
        let mut i: usize = 0;
        proof {
            lemma2_to64();
            assert(limbs_value(old(self).limbs@.take(0)) == 0);
            assert(0 + carry * pow2(0) == 0 * factor + extra) by (nonlinear_arith)
                requires
                    carry == extra,
                    pow2(0) == 1,
            ;
        }
        while i < self.limbs.len()
            invariant
                i <= self.limbs.len(),
                self.limbs@ == old(self).limbs@,
                out.len() == i,
                limbs_value(out@) + carry * pow2(32 * i as nat) == limbs_value(
                    self.limbs@.take(i as int),
                ) * factor + extra,
            decreases self.limbs.len() - i,
        {
            let limb: u32 = self.limbs[i];
            assert(limb as u128 * factor as u128 + carry as u128
                <= 0xffff_ffff * 0xffff_ffff_ffff_ffff + 0xffff_ffff_ffff_ffff) by (nonlinear_arith)
                requires
                    0 <= limb <= 0xffff_ffff,
                    0 <= factor <= 0xffff_ffff_ffff_ffff,
                    0 <= carry <= 0xffff_ffff_ffff_ffff,
            ;
            let t: u128 = limb as u128 * factor as u128 + carry as u128;
            let low: u32 = (t % 0x1_0000_0000) as u32;
            let high: u64 = (t / 0x1_0000_0000) as u64;
            proof {
                lemma_limbs_step(self.limbs@, i as int);
                lemma2_to64();
                lemma_pow2_adds(32, 32 * i as nat);
                let p = pow2(32 * i as nat) as int;
                let done = limbs_value(out@) as int;
                let seen = limbs_value(self.limbs@.take(i as int)) as int;
                assert(out@.push(low).drop_last() == out@);
                assert((done + low * p) + high * (0x1_0000_0000 * p) == (seen + limb * p) * factor + extra)
                    by (nonlinear_arith)
                    requires
                        done + carry * p == seen * factor + extra,
                        limb * factor + carry == high * 0x1_0000_0000 + low,
                ;
            }
            out.push(low);
            carry = high;
            i = i + 1;
        }
        assert(self.limbs@.take(i as int) == self.limbs@);
        let low: u32 = (carry % 0x1_0000_0000) as u32;
        let high: u32 = (carry / 0x1_0000_0000) as u32;
        proof {
            lemma2_to64();
            lemma_pow2_adds(32, 32 * i as nat);
            let p = pow2(32 * i as nat) as int;
            assert(out@.push(low).drop_last() == out@);
            assert(out@.push(low).push(high).drop_last() == out@.push(low));
            assert(low * p + high * (0x1_0000_0000 * p) == carry * p) by (nonlinear_arith)
                requires
                    carry == high * 0x1_0000_0000 + low,
            ;
        }
        let ghost done = out@;
        out.push(low);
        out.push(high);
        proof {
            let p = pow2(32 * i as nat);
            assert(limbs_value(done.push(low)) == limbs_value(done) + low as nat * p);
            assert(pow2(32 * (i + 1) as nat) == 0x1_0000_0000 * p);
            assert(limbs_value(out@) == limbs_value(done.push(low)) + high as nat * (0x1_0000_0000 * p));
        }
        self.limbs = out;
    }

    /// Multiplies by 2 to the power of `k`.
    pub fn shift_up(&mut self, k: u32)
        ensures
            final(self)@ == old(self)@ * pow2(k as nat),
    {
        let mut left: u32 = k;
        proof {
            lemma2_to64();
        }
        assert(old(self)@ * pow2(k as nat) == self@ * pow2(left as nat));
        while left >= 32
            invariant
                old(self)@ * pow2(k as nat) == self@ * pow2(left as nat),
            decreases left,
        {
            let ghost before = self@;
            self.multiply_add(0x1_0000_0000, 0);
            proof {
                lemma2_to64();
                lemma_pow2_adds(32, (left - 32) as nat);
                let p = pow2((left - 32) as nat);
                assert(before * (0x1_0000_0000 * p) == (before * 0x1_0000_0000) * p) by (nonlinear_arith);
            }
            left = left - 32;
        }
        let p = crate::rounding::power_of_two(left);
        proof {
            lemma2_to64();
            if left < 32 {
                vstd::arithmetic::power2::lemma_pow2_strictly_increases(left as nat, 32);
            }
        }
        self.multiply_add(p as u64, 0);
    }

    fn limb(&self, i: usize) -> (r: u32)
        ensures
            r == (if i < self.limbs@.len() {
                self.limbs@[i as int]
            } else {
                0
            }),
    {
        if i < self.limbs.len() {
            self.limbs[i]
        } else {
            0
        }
    }

    /// The lowest `i` digits.
    spec fn low(&self, i: int) -> nat {
        if i < self.limbs@.len() {
            limbs_value(self.limbs@.take(i))
        } else {
            limbs_value(self.limbs@)
        }
    }

    proof fn lemma_low_step(&self, i: int)
        requires
            0 <= i,
        ensures
            self.low(i) < pow2(32 * i as nat),
            self.low(i + 1) == self.low(i) + (if i < self.limbs@.len() {
                self.limbs@[i]
            } else {
                0u32
            }) as nat * pow2(32 * i as nat),
    {
        let n = self.limbs@.len();
        if i < n {
            lemma_limbs_step(self.limbs@, i);
            lemma_limbs_bound(self.limbs@.take(i));
            if i + 1 == n {
                assert(self.limbs@.take(i + 1) == self.limbs@);
            }
        } else {
            lemma_limbs_bound(self.limbs@);
            assert(0 * pow2(32 * i as nat) == 0) by (nonlinear_arith);
            if n < i {
                vstd::arithmetic::power2::lemma_pow2_strictly_increases(32 * n, 32 * i as nat);
            }
        }
    }

    /// Compares two numbers.
    pub fn compare(&self, other: &BigNat) -> (r: Side)
        ensures
            r == side(self@ as int, other@ as int),
    {
        let count: usize = if self.limbs.len() > other.limbs.len() {
            self.limbs.len()
        } else {
            other.limbs.len()
        };
        let mut r = Side::Level;
        let mut i: usize = 0;
        assert(self.limbs@.take(0) == Seq::<u32>::empty());
        assert(other.limbs@.take(0) == Seq::<u32>::empty());
        while i < count
            invariant
                i <= count,
                r == side(self.low(i as int) as int, other.low(i as int) as int),
            decreases count - i,
        {
            let a: u32 = self.limb(i);
            let b: u32 = other.limb(i);
            proof {
                self.lemma_low_step(i as int);
                other.lemma_low_step(i as int);
                let p = pow2(32 * i as nat) as int;
                let (x, y) = (self.low(i as int) as int, other.low(i as int) as int);
                assert(a < b ==> x + a * p < y + b * p) by (nonlinear_arith)
                    requires
                        0 <= x < p,
                        0 <= y < p,
                ;
                assert(b < a ==> y + b * p < x + a * p) by (nonlinear_arith)
                    requires
                        0 <= x < p,
                        0 <= y < p,
                ;
            }
            if a < b {
                r = Side::Below;
            } else if a > b {
                r = Side::Above;
            }
            i = i + 1;
        }
        r
    }
}

} // verus!
