//! Binary32 arithmetic, in which the screen is measured: places, the mouse and the
//! lines of charts.
//!
//! A binary32 number is held as the binary64 reading of the same value. A binary64
//! result has more than twice as many digits, so that rounding it to binary32 gives
//! what rounding the exact result would.

use vstd::arithmetic::div_mod::{lemma_basic_div, lemma_fundamental_div_mod, lemma_fundamental_div_mod_converse, lemma_mod_multiples_basic, lemma_small_mod};
use vstd::arithmetic::power2::{lemma2_to64, lemma2_to64_rest, lemma_pow2_adds, lemma_pow2_pos, lemma_pow2_strictly_increases, pow2};
use vstd::prelude::*;
use crate::arith::{law_integer_arithmetic, lemma_exact, lemma_integer_exact, lemma_whole_exact, of_integer, of_whole, parts, signed_pattern, unit};
use crate::num::{lemma_size_grows, num, num_of, size_of_pattern, Num, FRACTION, INFINITY, ONE, SIGN};
use crate::rounding::{lemma_has_pattern, lemma_rounded, lemma_rounded_grows, lemma_rounded_is_nearest, lemma_size_of_parts, power_of_two, round_pattern, rounded};

verus! {

/// Weight of the lowest bit of a binary64 pattern that binary32 has too.
pub const STEP: u64 = 0x2000_0000;

/// The smallest binary32 number with all its digits, 2 to the power of -126.
pub const SMALLEST: u64 = 0x3810_0000_0000_0000;

/// The largest finite binary32 number.
pub const LARGEST: u64 = 0x47ef_ffff_e000_0000;

/// How many steps come nearest to `n`, the even number of two.
pub open spec fn nearest_steps(n: int, step: int) -> int {
    let (q, r) = (n / step, n % step);
    if 2 * r > step || (2 * r == step && q % 2 == 1) {
        q + 1
    } else {
        q
    }
}

/// The multiple of the step nearest to a pattern, the even one of two.
pub open spec fn to_step(m: int) -> int {
    nearest_steps(m, STEP as int) * STEP
}

/// The distance of binary32 numbers below the smallest with all digits: 2 to the power
/// of -149, counted as sizes are.
pub open spec fn fine_step() -> int {
    pow2(925) as int
}

/// The multiple of the fine step nearest to the size of a pattern, the even one of two.
pub open spec fn fine_size(m: int) -> int {
    nearest_steps(size_of_pattern(m), fine_step()) * fine_step()
}

/// The pattern of the binary32 number nearest to a number from zero up.
#[verifier::opaque]
pub open spec fn single_pattern(m: int) -> int {
    if m < SMALLEST {
        rounded(fine_size(m), 1)
    } else if to_step(m) > LARGEST {
        INFINITY as int
    } else {
        to_step(m)
    }
}

proof fn lemma_smallest()
    ensures
        fine_step() > 0,
        size_of_pattern(SMALLEST as int) == 0x80_0000 * fine_step(),
{
    lemma_pow2_pos(925);
    lemma2_to64();
    lemma2_to64_rest();
    lemma_pow2_adds(23, 925);
    lemma_pow2_adds(52, 896);
    assert(SMALLEST as int / (FRACTION as int) == 897 && SMALLEST as int % (FRACTION as int) == 0);
}

proof fn lemma_small(m: int)
    requires
        0 <= m < SMALLEST,
    ensures
        0 <= nearest_steps(size_of_pattern(m), fine_step()) <= 0x80_0000,
        0 <= single_pattern(m) <= SMALLEST,
{
    reveal(single_pattern);
    lemma_smallest();
    lemma_size_grows(m, SMALLEST as int);
    if m > 0 {
        lemma_size_grows(0, m);
    }
    let (size, step) = (size_of_pattern(m), fine_step());
    let (q, r) = (size / step, size % step);
    lemma_fundamental_div_mod(size, step);
    assert(0 <= r < step) by (nonlinear_arith)
        requires
            step > 0,
            r == size % step,
    ;
    assert(0 <= q < 0x80_0000) by (nonlinear_arith)
        requires
            step > 0,
            size == step * q + r,
            0 <= r < step,
            0 <= size < 0x80_0000 * step,
    ;
    let steps = nearest_steps(size, step);
    assert(steps * step <= 0x80_0000 * step) by (nonlinear_arith)
        requires
            step > 0,
            steps <= 0x80_0000,
    ;
    lemma_exact(SMALLEST as int, 1);
    lemma_rounded_grows(fine_size(m), 1, size_of_pattern(SMALLEST as int), 1);
    lemma_rounded_is_nearest(fine_size(m), 1);
}

/// Counting steps does not depend on the unit.
proof fn lemma_steps_scale(n: int, step: int, unit: int)
    requires
        n >= 0,
        step > 0,
        unit > 0,
    ensures
        nearest_steps(n * unit, step * unit) == nearest_steps(n, step),
{
    let (q, r) = (n / step, n % step);
    lemma_fundamental_div_mod(n, step);
    assert(0 <= r < step) by (nonlinear_arith)
        requires
            step > 0,
            r == n % step,
    ;
    assert(n * unit == q * (step * unit) + r * unit && 0 <= r * unit < step * unit)
        by (nonlinear_arith)
        requires
            n == step * q + r,
            0 <= r < step,
            unit > 0,
    ;
    lemma_fundamental_div_mod_converse(n * unit, step * unit, q, r * unit);
    assert(2 * (r * unit) > step * unit <==> 2 * r > step) by (nonlinear_arith)
        requires
            unit > 0,
    ;
    assert(2 * (r * unit) == step * unit <==> 2 * r == step) by (nonlinear_arith)
        requires
            unit > 0,
    ;
}

/// The pattern of the binary32 number nearest to one below the smallest with all
/// digits.
fn small_single(m: u64) -> (r: u64)
    requires
        m < SMALLEST,
    ensures
        r == single_pattern(m as int),
        r <= SMALLEST,
{
    let (s, e) = parts(m);
    let k: u32 = 925 - e;
    let ghost step = fine_step();
    proof {
        reveal(single_pattern);
        lemma_small(m as int);
        lemma2_to64();
        lemma2_to64_rest();
        lemma_pow2_pos(e as nat);
        lemma_pow2_pos(k as nat);
        lemma_pow2_pos(925);
        lemma_pow2_adds(k as nat, e as nat);
        lemma_steps_scale(s as int, pow2(k as nat) as int, pow2(e as nat) as int);
    }
    if k > 60 {
        proof {
            lemma_pow2_strictly_increases(60, k as nat);
            lemma_basic_div(s as int, pow2(k as nat) as int);
            lemma_small_mod(s as nat, pow2(k as nat));
            lemma_exact(0, 1);
            assert(0 * step == 0);
        }
        return 0;
    }
    proof {
        if k < 60 {
            lemma_pow2_strictly_increases(k as nat, 60);
        }
    }
    let p: u64 = power_of_two(k) as u64;
    let (q, rest): (u64, u64) = (s / p, s % p);
    proof {
        assert(0 <= rest < p && q <= s) by (nonlinear_arith)
            requires
                p > 0,
                q == s / p,
                rest == s % p,
        ;
    }
    let steps: u64 = if 2 * rest > p || (2 * rest == p && q % 2 == 1) {
        q + 1
    } else {
        q
    };
    if steps == 0 {
        proof {
            lemma_exact(0, 1);
            assert(0 * step == 0);
        }
        return 0;
    }
    proof {
        assert((steps + 1) * (1 * step) == steps * step + step && steps * (1 * step) == steps
            * step) by (nonlinear_arith);
    }
    let r = round_pattern(steps as u128, 925, 0, false, Ghost(steps * step), Ghost(1int));
    proof {
        lemma_rounded(r as int, steps * step, 1);
    }
    r
}

impl Num {
    /// The nearest binary32 number. What is not finite stays.
    pub open spec fn single(self) -> Num {
        if self.finite() {
            signed_pattern(self.negative(), single_pattern(self.magnitude()))
        } else {
            self
        }
    }

    pub open spec fn sum32(self, other: Num) -> Num {
        self.sum(other).single()
    }

    pub open spec fn difference32(self, other: Num) -> Num {
        self.difference(other).single()
    }

    pub open spec fn product32(self, other: Num) -> Num {
        self.product(other).single()
    }

    pub open spec fn quotient32(self, other: Num) -> Num {
        self.quotient(other).single()
    }

    /// The nearest binary32 number.
    pub fn to_single(self) -> (r: Num)
        ensures
            r == self.single(),
    {
        proof {
            reveal(single_pattern);
        }
        if !self.is_finite() {
            return self;
        }
        let negative: bool = self.bits >= SIGN;
        let m: u64 = if negative {
            self.bits - SIGN
        } else {
            self.bits
        };
        let pattern: u64 = if m < SMALLEST {
            small_single(m)
        } else {
            let (q, rest): (u64, u64) = (m / STEP, m % STEP);
            let up: u64 = if 2 * rest > STEP || (2 * rest == STEP && q % 2 == 1) {
                1
            } else {
                0
            };
            let near: u64 = (q + up) * STEP;
            if near > LARGEST {
                INFINITY
            } else {
                near
            }
        };
        if negative {
            num(SIGN + pattern)
        } else {
            num(pattern)
        }
    }

    pub fn plus32(self, other: Num) -> (r: Num)
        ensures
            r == self.sum32(other),
    {
        self.plus(other).to_single()
    }

    pub fn minus32(self, other: Num) -> (r: Num)
        ensures
            r == self.difference32(other),
    {
        self.minus(other).to_single()
    }

    pub fn times32(self, other: Num) -> (r: Num)
        ensures
            r == self.product32(other),
    {
        self.times(other).to_single()
    }

    pub fn over32(self, other: Num) -> (r: Num)
        ensures
            r == self.quotient32(other),
    {
        self.over(other).to_single()
    }
}

/// Among the numbers that binary32 has with all digits, rounding takes the nearest
/// one, and takes each of them as it is.
pub proof fn law_single_is_nearest(a: Num)
    requires
        a.finite(),
        SMALLEST <= a.magnitude(),
        to_step(a.magnitude()) <= LARGEST,
    ensures
        a.single().finite(),
        a.single().negative() == a.negative(),
        a.single().magnitude() % (STEP as int) == 0,
        -STEP <= 2 * (a.single().magnitude() - a.magnitude()) <= STEP,
        a.magnitude() % (STEP as int) == 0 ==> a.single() == a,
        a.single().single() == a.single(),
{
    reveal(single_pattern);
}

/// Below the numbers that binary32 has with all digits, rounding takes the nearest
/// multiple of the fine step, and takes each of them as it is.
pub proof fn law_small_single_is_nearest(a: Num)
    requires
        a.magnitude() < SMALLEST,
    ensures
        a.single().finite(),
        a.single().negative() == a.negative(),
        a.single().magnitude() <= SMALLEST,
        a.single().size() == fine_size(a.magnitude()),
        a.single().size() % fine_step() == 0,
        -fine_step() <= 2 * (a.single().size() - a.size()) <= fine_step(),
        a.size() % fine_step() == 0 ==> a.single() == a,
        a.single().single() == a.single(),
{
    lemma_small_exact(a.magnitude());
    let s = a.single();
    if s.magnitude() < SMALLEST {
        lemma_small_exact(s.magnitude());
    } else {
        reveal(single_pattern);
    }
}

proof fn lemma_small_exact(m: int)
    requires
        0 <= m < SMALLEST,
    ensures
        0 <= single_pattern(m) <= SMALLEST,
        size_of_pattern(single_pattern(m)) == fine_size(m),
        fine_size(m) % fine_step() == 0,
        -fine_step() <= 2 * (fine_size(m) - size_of_pattern(m)) <= fine_step(),
        size_of_pattern(m) % fine_step() == 0 ==> single_pattern(m) == m,
{
    reveal(single_pattern);
    lemma_small(m);
    lemma_smallest();
    let (size, step) = (size_of_pattern(m), fine_step());
    let steps = nearest_steps(size, step);
    let exact = lemma_has_pattern(steps, 925);
    lemma_exact(exact, 1);
    lemma_mod_multiples_basic(steps, step);
    lemma_fundamental_div_mod(size, step);
    let (q, r) = (size / step, size % step);
    assert(0 <= r < step) by (nonlinear_arith)
        requires
            step > 0,
            r == size % step,
    ;
    assert((q + 1) * step == step * q + step && q * step == step * q) by (nonlinear_arith);
    if r == 0 {
        lemma_exact(m, 1);
    }
}

proof fn lemma_to_step(m: int)
    requires
        0 <= m < INFINITY,
    ensures
        to_step(m) % (STEP as int) == 0,
        -STEP <= 2 * (to_step(m) - m) <= STEP,
        2 * (to_step(m) - m) == STEP ==> nearest_steps(m, STEP as int) % 2 == 0,
        2 * (to_step(m) - m) == -STEP ==> nearest_steps(m, STEP as int) % 2 == 0,
{
}

proof fn lemma_to_step_grows(m: int, n: int)
    requires
        0 <= m <= n < INFINITY,
    ensures
        to_step(m) <= to_step(n),
{
    lemma_to_step(m);
    lemma_to_step(n);
}

proof fn lemma_single_pattern_grows(m: int, n: int)
    requires
        0 <= m <= n < INFINITY,
        ONE <= n,
    ensures
        0 <= single_pattern(m) <= single_pattern(n) <= INFINITY,
        ONE <= single_pattern(n),
{
    lemma_to_step_grows(ONE as int, n);
    if m < SMALLEST {
        lemma_small(m);
        reveal(single_pattern);
    } else {
        lemma_to_step_grows(m, n);
        lemma_to_step_grows(SMALLEST as int, m);
        reveal(single_pattern);
    }
}

/// Rounding to binary32 keeps a reading at or below another that is at least one.
#[verifier::rlimit(40)]
pub proof fn lemma_single_grows(a: Num, b: Num)
    requires
        a.at_most(b),
        num_of(ONE).at_most(b),
    ensures
        a.single().at_most(b.single()),
        num_of(ONE).at_most(b.single()),
{
    let (m, n) = (a.magnitude(), b.magnitude());
    if a.finite() {
        lemma_single_bound(m);
        if b.finite() && !a.negative() {
            lemma_single_pattern_grows(m, n);
        }
    }
    if b.finite() {
        lemma_single_pattern_grows(0, n);
    }
}

/// A whole number below 2 to the power of 24 is a binary32 number.
pub proof fn lemma_single_of_whole(n: nat)
    requires
        n < 0x100_0000,
    ensures
        of_whole(n).single() == of_whole(n),
{
    lemma_whole_exact(n);
    lemma_short(of_whole(n), n, 1074);
}

proof fn lemma_short_at(n: nat, e: nat, k: nat) -> (m: int)
    requires
        0 < n < 0x100_0000,
        980 <= e <= 1100,
        k <= 23,
        pow2(k) * n < 0x100_0000,
    ensures
        m % (STEP as int) == 0,
        SMALLEST <= m <= LARGEST,
        size_of_pattern(m) == n * pow2(e),
    decreases 23 - k,
{
    lemma2_to64();
    lemma2_to64_rest();
    let p = pow2(k) * n;
    if p >= 0x80_0000 {
        let q = p * 0x2000_0000;
        let x = (e - k - 29) as nat;
        lemma_size_of_parts(x, q as int);
        let m = x * FRACTION + q;
        lemma_pow2_adds(29, x);
        lemma_pow2_adds(k, 29 + x);
        let (a, b, c) = (pow2(k) as int, pow2(29) as int, pow2(x) as int);
        assert((a * n * b) * c == n * (a * (b * c))) by (nonlinear_arith);
        assert(m == (x * 0x80_0000 + p) * 0x2000_0000) by (nonlinear_arith)
            requires
                m == x * FRACTION + q,
                FRACTION == 0x80_0000 * 0x2000_0000,
                q == p * 0x2000_0000,
        ;
        assert(SMALLEST <= m <= LARGEST) by (nonlinear_arith)
            requires
                m == x * FRACTION + q,
                928 <= x <= 1071,
                0x10_0000_0000_0000 <= q < 0x20_0000_0000_0000,
                FRACTION == 0x10_0000_0000_0000,
                SMALLEST == 0x3810_0000_0000_0000,
                LARGEST == 0x47ef_ffff_e000_0000,
        ;
        m as int
    } else {
        vstd::arithmetic::power2::lemma_pow2_unfold(k + 1);
        assert(pow2(k + 1) * n == 2 * p) by (nonlinear_arith)
            requires
                pow2(k + 1) == 2 * pow2(k),
                p == pow2(k) * n,
        ;
        if k == 23 {
            assert(p >= 0x80_0000) by (nonlinear_arith)
                requires
                    p == 0x80_0000 * n,
                    n >= 1,
            ;
        }
        lemma_short_at(n, e, k + 1)
    }
}

/// A number of at most 24 binary digits, not too large or small, is a binary32 number.
pub proof fn lemma_short(a: Num, n: nat, e: nat)
    requires
        a.from_zero(),
        n < 0x100_0000,
        980 <= e <= 1100,
        a.size() == n * pow2(e),
    ensures
        a.single() == a,
{
    reveal(single_pattern);
    lemma2_to64();
    lemma_pow2_pos(e);
    if a.magnitude() > 0 {
        lemma_size_grows(0, a.magnitude());
    }
    if n == 0 {
        assert(0 * pow2(e) == 0);
        lemma_exact(0, 1);
        lemma_pow2_pos(925);
        assert(0int / fine_step() == 0 && 0int % fine_step() == 0) by {
            lemma_basic_div(0, fine_step());
            lemma_small_mod(0, pow2(925));
        }
        assert(0 * fine_step() == 0);
        assert(size_of_pattern(0) == 0);
        assert(a.magnitude() == 0);
    } else {
        assert(pow2(0) * n == n);
        let m = lemma_short_at(n, e, 0);
        lemma_exact(m, 1);
        lemma_exact(a.magnitude(), 1);
        assert(a.magnitude() == m);
    }
}

/// A whole number of either sign below 2 to the power of 24 is a binary32 number.
pub proof fn lemma_single_of_integer(n: int)
    requires
        -0x100_0000 < n < 0x100_0000,
    ensures
        of_integer(n).single() == of_integer(n),
{
    lemma_integer_exact(n);
    let m = if n < 0 {
        (-n) as nat
    } else {
        n as nat
    };
    lemma_single_of_whole(m);
    lemma_whole_exact(m);
    let k = of_whole(m).magnitude();
    lemma_single_bound(k);
    assert(of_whole(m).single() == signed_pattern(false, single_pattern(k)));
    assert(single_pattern(k) == k);
}

proof fn lemma_single_bound(k: int)
    requires
        0 <= k < INFINITY,
    ensures
        0 <= single_pattern(k) <= INFINITY,
{
    if k < SMALLEST {
        lemma_small(k);
    } else {
        reveal(single_pattern);
    }
}

/// Binary32 arithmetic on whole numbers of either sign below 2 to the power of 24 is
/// exact.
pub proof fn law_integer_single(a: int, b: int)
    requires
        -0x100_0000 < a < 0x100_0000,
        -0x100_0000 < b < 0x100_0000,
    ensures
        -0x100_0000 < a + b < 0x100_0000 ==> of_integer(a).sum32(of_integer(b)) == of_integer(a + b),
        -0x100_0000 < a - b < 0x100_0000 ==> of_integer(a).difference32(of_integer(b))
            == of_integer(a - b),
        b > 0 && -0x100_0000 < a * b < 0x100_0000 ==> of_integer(a).product32(of_integer(b))
            == of_integer(a * b) && of_integer(a * b).quotient32(of_integer(b)) == of_integer(a),
        of_integer(a).single() == of_integer(a),
{
    law_integer_arithmetic(a, b);
    lemma_single_of_integer(a);
    if -0x100_0000 < a + b < 0x100_0000 {
        lemma_single_of_integer(a + b);
    }
    if -0x100_0000 < a - b < 0x100_0000 {
        lemma_single_of_integer(a - b);
    }
    if b > 0 && -0x100_0000 < a * b < 0x100_0000 {
        lemma_single_of_integer(a * b);
    }
}

/// Rounding to binary32 keeps the sign, and goes by the magnitude alone.
pub proof fn lemma_single_sign(a: Num)
    requires
        a.finite(),
    ensures
        a.single().negative() == a.negative(),
        a.single().magnitude() == single_pattern(a.magnitude()),
        !a.single().nan(),
{
    lemma_single_bound(a.magnitude());
}

/// The patterns of two whole numbers below 2 to the power of 24 lie a binary32 step
/// apart.
pub proof fn lemma_whole_steps_apart(a: nat, b: nat)
    requires
        0 < a < b < 0x100_0000,
    ensures
        of_whole(a).magnitude() + STEP <= of_whole(b).magnitude(),
{
    lemma_whole_place(a);
    lemma_whole_place(b);
    crate::arith::law_whole_arithmetic(a, b);
    lemma_whole_exact(a);
    lemma_whole_exact(b);
}

proof fn lemma_whole_place(n: nat)
    requires
        0 < n < 0x100_0000,
    ensures
        of_whole(n).magnitude() % (STEP as int) == 0,
        SMALLEST <= of_whole(n).magnitude() <= LARGEST,
{
    lemma2_to64();
    assert(pow2(0) * n == n);
    lemma_whole_exact(n);
    let m = lemma_short_at(n, 1074, 0);
    lemma_exact(m, 1);
    lemma_exact(of_whole(n).magnitude(), 1);
}

/// What lies just below a whole number is that number in binary32.
pub proof fn lemma_just_below(n: nat, p: int)
    requires
        8 < n < 0x100_0000,
        of_whole(n).magnitude() - 16 <= p <= of_whole(n).magnitude(),
    ensures
        num_of(p as u64).single() == of_whole(n),
{
    reveal(single_pattern);
    let top = of_whole(n).magnitude();
    lemma_whole_place(n);
    lemma_whole_place(8);
    lemma_whole_steps_apart(8, n);
    lemma_whole_exact(n);
    assert(to_step(p) == top);
}

} // verus!
