//! Arithmetic on readings: the exact result, rounded to the nearest reading.

use vstd::arithmetic::power2::{lemma2_to64, lemma2_to64_rest, lemma_pow2_adds, lemma_pow2_pos, lemma_pow2_strictly_increases, lemma_pow2_unfold, pow2};
use vstd::prelude::*;
use crate::num::{lemma_named_patterns, lemma_size_grows, num, num_of, size_of_pattern, Num, FRACTION, INFINITY, BILLION, GIBI, HUNDRED, KIBI, MEBI, MINUS_ONE, NAN, ONE, SIGN, TEN, THOUSAND, ZERO};
use crate::rounding::{lemma_has_pattern, lemma_rounded, lemma_rounded_grows, lemma_rounded_is_nearest, lemma_rounding_error, lemma_size_of_parts, nearest, power_of_two, round_pattern, rounded, twice_halfway, TWO_120, TWO_54};

verus! {

/// The number 1 in units of the smallest positive number.
pub open spec fn unit() -> int {
    pow2(1074) as int
}

pub open spec fn signed_pattern(negative: bool, magnitude: int) -> Num {
    if negative {
        num_of((SIGN + magnitude) as u64)
    } else {
        num_of(magnitude as u64)
    }
}

fn with_sign(negative: bool, magnitude: u64) -> (r: Num)
    requires
        magnitude <= INFINITY,
    ensures
        r == signed_pattern(negative, magnitude as int),
{
    if negative {
        num(SIGN + magnitude)
    } else {
        num(magnitude)
    }
}

impl Num {
    pub open spec fn infinite(self) -> bool {
        self.magnitude() == INFINITY
    }

    pub open spec fn size(self) -> int {
        size_of_pattern(self.magnitude())
    }

    /// `self + other`.
    pub open spec fn sum(self, other: Num) -> Num {
        let exact = self.value() + other.value();
        if self.nan() || other.nan() {
            num_of(NAN)
        } else if self.infinite() {
            if other.infinite() && self.negative() != other.negative() {
                num_of(NAN)
            } else {
                self
            }
        } else if other.infinite() {
            other
        } else if exact == 0 {
            signed_pattern(self.negative() && other.negative(), 0)
        } else if exact < 0 {
            signed_pattern(true, rounded(-exact, 1))
        } else {
            signed_pattern(false, rounded(exact, 1))
        }
    }

    /// `-self`.
    pub open spec fn negated(self) -> Num {
        if self.negative() {
            num_of((self.bits - SIGN) as u64)
        } else {
            num_of((self.bits + SIGN) as u64)
        }
    }

    /// `self - other`.
    pub open spec fn difference(self, other: Num) -> Num {
        self.sum(other.negated())
    }

    /// `self * other`.
    pub open spec fn product(self, other: Num) -> Num {
        let negative = self.negative() != other.negative();
        if self.nan() || other.nan() {
            num_of(NAN)
        } else if self.infinite() || other.infinite() {
            if self.magnitude() == 0 || other.magnitude() == 0 {
                num_of(NAN)
            } else {
                signed_pattern(negative, INFINITY as int)
            }
        } else {
            signed_pattern(negative, rounded(self.size() * other.size(), unit()))
        }
    }

    /// `self / other`.
    pub open spec fn quotient(self, other: Num) -> Num {
        let negative = self.negative() != other.negative();
        if self.nan() || other.nan() {
            num_of(NAN)
        } else if self.infinite() {
            if other.infinite() {
                num_of(NAN)
            } else {
                signed_pattern(negative, INFINITY as int)
            }
        } else if other.infinite() {
            signed_pattern(negative, 0)
        } else if other.magnitude() == 0 {
            if self.magnitude() == 0 {
                num_of(NAN)
            } else {
                signed_pattern(negative, INFINITY as int)
            }
        } else {
            signed_pattern(negative, rounded(self.size() * unit(), other.size()))
        }
    }

    /// The nearest whole number; halves go away from zero.
    pub open spec fn nearest_whole(self) -> Num {
        if self.finite() {
            let whole = (2 * self.size() + unit()) / (2 * unit());
            signed_pattern(self.negative(), rounded(whole * unit(), 1))
        } else {
            self
        }
    }

    /// The whole part, as far as it fits between `low` and `high`.
    pub open spec fn whole_part(self, low: int, high: int) -> int {
        if self.nan() {
            0
        } else if self.negative() {
            let whole = -(self.size() / unit());
            if self.infinite() || whole < low {
                low
            } else {
                whole
            }
        } else {
            let whole = self.size() / unit();
            if self.infinite() || whole > high {
                high
            } else {
                whole
            }
        }
    }
}

/// The reading nearest to the whole number `n`.
pub open spec fn of_whole(n: nat) -> Num {
    signed_pattern(false, rounded(n * unit(), 1))
}

/// The reading nearest to a whole number of either sign.
pub open spec fn of_integer(n: int) -> Num {
    if n < 0 {
        of_whole((-n) as nat).negated()
    } else {
        of_whole(n as nat)
    }
}

/// A whole number from zero up is a reading from zero up.
pub proof fn lemma_whole_sign(n: nat)
    ensures
        !of_whole(n).nan(),
        !of_whole(n).negative(),
{
    lemma_rounded_is_nearest(n * unit(), 1);
}

/// A reading from zero up, over a finite one above zero, is one from zero up.
pub proof fn lemma_quotient_sign(a: Num, b: Num)
    requires
        !a.nan(),
        !a.negative(),
        b.finite(),
        num_of(ZERO).below(b),
    ensures
        !a.quotient(b).nan(),
        !a.quotient(b).negative(),
{
    if a.finite() {
        lemma_rounded_is_nearest(a.size() * unit(), b.size());
    }
}

/// A number, times and over finite numbers above zero, is a number.
pub proof fn lemma_scaling_keeps_numbers(a: Num, b: Num)
    requires
        !a.nan(),
        b.finite(),
        num_of(ZERO).below(b),
    ensures
        !a.product(b).nan(),
        !a.quotient(b).nan(),
        !a.nearest_whole().nan(),
{
    if a.finite() {
        lemma_rounded_is_nearest(a.size() * b.size(), unit());
        lemma_rounded_is_nearest(a.size() * unit(), b.size());
        lemma_rounded_is_nearest(((2 * a.size() + unit()) / (2 * unit())) * unit(), 1);
    }
}

/// A sum of readings from zero up is one too.
pub proof fn lemma_sum_sign(a: Num, b: Num)
    requires
        !a.nan(),
        !a.negative(),
        num_of(ZERO).at_most(b),
    ensures
        !a.sum(b).nan(),
        !a.sum(b).negative(),
{
    if a.finite() && b.finite() {
        if 0 < a.magnitude() {
            lemma_size_grows(0, a.magnitude());
        }
        if 0 < b.magnitude() {
            lemma_size_grows(0, b.magnitude());
        }
        lemma_rounded_is_nearest(a.value() + b.value(), 1);
    }
}

impl Num {
    /// A finite reading from zero up.
    pub open spec fn from_zero(self) -> bool {
        self.finite() && !self.negative()
    }
}

proof fn lemma_sizes(a: Num, b: Num)
    requires
        a.from_zero(),
        b.from_zero(),
        a.at_most(b),
    ensures
        0 <= a.size() <= b.size(),
{
    if a.magnitude() < b.magnitude() {
        lemma_size_grows(a.magnitude(), b.magnitude());
    }
    if 0 < a.magnitude() {
        lemma_size_grows(0, a.magnitude());
    }
}

/// Products of readings from zero up grow with the reading.
pub proof fn lemma_product_grows(a: Num, b: Num, c: Num)
    requires
        a.from_zero(),
        b.from_zero(),
        c.from_zero(),
        a.at_most(b),
        b.product(c).finite(),
    ensures
        a.product(c).from_zero(),
        a.product(c).at_most(b.product(c)),
{
    lemma_sizes(a, b);
    lemma_sizes(c, c);
    lemma_pow2_pos(1074);
    let (sa, sb, sc, u) = (a.size(), b.size(), c.size(), unit());
    assert(sa * sc <= sb * sc && (sa * sc) * u <= (sb * sc) * u) by (nonlinear_arith)
        requires
            0 <= sa <= sb,
            sc >= 0,
            u > 0,
    ;
    lemma_rounded_grows(sa * sc, u, sb * sc, u);
    lemma_rounded_is_nearest(sa * sc, u);
    lemma_rounded_is_nearest(sb * sc, u);
}

/// Quotients of readings from zero up grow with the reading.
pub proof fn lemma_quotient_grows(a: Num, b: Num, c: Num)
    requires
        a.from_zero(),
        b.from_zero(),
        c.from_zero(),
        c.magnitude() > 0,
        a.at_most(b),
        b.quotient(c).finite(),
    ensures
        a.quotient(c).from_zero(),
        a.quotient(c).at_most(b.quotient(c)),
{
    lemma_sizes(a, b);
    lemma_size_grows(0, c.magnitude());
    lemma_pow2_pos(1074);
    let (sa, sb, sc, u) = (a.size(), b.size(), c.size(), unit());
    assert(sa * u <= sb * u && (sa * u) * sc <= (sb * u) * sc) by (nonlinear_arith)
        requires
            0 <= sa <= sb,
            sc >= 0,
            u > 0,
    ;
    lemma_rounded_grows(sa * u, sc, sb * u, sc);
    lemma_rounded_is_nearest(sa * u, sc);
    lemma_rounded_is_nearest(sb * u, sc);
}

/// Whole numbers are finite readings, and grow as such; from one on they are at
/// least one.
pub proof fn lemma_whole_grows(n: u64, m: u64)
    requires
        n <= m,
    ensures
        of_whole(n as nat).from_zero(),
        of_whole(m as nat).from_zero(),
        of_whole(n as nat).at_most(of_whole(m as nat)),
        n >= 1 ==> num_of(ONE).at_most(of_whole(n as nat)),
{
    let u = unit();
    lemma_pow2_pos(1074);
    let top = 1087 * FRACTION;
    assert(top as int / FRACTION as int == 1087 && top as int % FRACTION as int == 0);
    lemma2_to64();
    lemma2_to64_rest();
    lemma_pow2_adds(52, 1086);
    lemma_pow2_adds(64, 1074);
    assert(size_of_pattern(top as int) == pow2(64) * u);
    lemma_exact(top as int, 1);
    assert(m * u <= pow2(64) * u && n * u <= m * u) by (nonlinear_arith)
        requires
            n <= m <= pow2(64),
            u > 0,
    ;
    lemma_rounded_grows(m * u, 1, pow2(64) * u, 1);
    lemma_rounded_grows(n * u, 1, m * u, 1);
    lemma_rounded_is_nearest(n * u, 1);
    lemma_rounded_is_nearest(m * u, 1);
    if n >= 1 {
        lemma_named_patterns();
        lemma_exact(ONE as int, 1);
        assert(1 * u <= n * u) by (nonlinear_arith)
            requires
                n >= 1,
                u > 0,
        ;
        lemma_rounded_grows(1 * u, 1, n * u, 1);
    }
}

/// A difference of readings from zero up, the first no smaller, is one too and no
/// larger than the first.
pub proof fn lemma_difference_range(a: Num, b: Num)
    requires
        a.from_zero(),
        b.from_zero(),
        b.at_most(a),
    ensures
        a.difference(b).from_zero(),
        a.difference(b).at_most(a),
{
    lemma_sizes(b, a);
    let exact = a.size() - b.size();
    assert(b.negated().value() == -b.size());
    if exact > 0 {
        lemma_exact(a.magnitude(), 1);
        lemma_rounded_grows(exact, 1, a.size() * 1, 1);
        lemma_rounded_is_nearest(exact, 1);
    }
}

/// The nearest whole number grows with the reading.
pub proof fn lemma_nearest_whole_grows(a: Num, b: Num)
    requires
        a.from_zero(),
        b.from_zero(),
        a.at_most(b),
        b.nearest_whole().finite(),
    ensures
        a.nearest_whole().from_zero(),
        a.nearest_whole().at_most(b.nearest_whole()),
{
    lemma_sizes(a, b);
    lemma_pow2_pos(1074);
    let u = unit();
    let (wa, wb) = ((2 * a.size() + u) / (2 * u), (2 * b.size() + u) / (2 * u));
    vstd::arithmetic::div_mod::lemma_div_is_ordered(2 * a.size() + u, 2 * b.size() + u, 2 * u);
    assert(wa * u <= wb * u && (wa * u) * 1 <= (wb * u) * 1) by (nonlinear_arith)
        requires
            wa <= wb,
            u > 0,
    ;
    lemma_rounded_grows(wa * u, 1, wb * u, 1);
    lemma_rounded_is_nearest(wa * u, 1);
    lemma_rounded_is_nearest(wb * u, 1);
}

/// Where the exact product or quotient of readings from zero up is a reading, it is
/// the product or quotient.
pub proof fn lemma_exact_scaling(a: Num, c: Num, r: Num)
    requires
        a.from_zero(),
        c.from_zero(),
        r.from_zero(),
    ensures
        a.size() * c.size() == r.size() * unit() ==> a.product(c) == r,
        c.magnitude() > 0 && a.size() * unit() == r.size() * c.size() ==> a.quotient(c) == r,
{
    lemma_pow2_pos(1074);
    lemma_exact(r.magnitude(), unit());
    if c.magnitude() > 0 {
        lemma_size_grows(0, c.magnitude());
        lemma_exact(r.magnitude(), c.size());
    }
}

/// A pattern is the nearest one to its own size.
pub proof fn lemma_exact(m: int, d: int)
    requires
        0 <= m <= INFINITY,
        d > 0,
    ensures
        nearest(m, size_of_pattern(m) * d, d),
        rounded(size_of_pattern(m) * d, d) == m,
{
    let at = size_of_pattern(m);
    if m > 0 {
        lemma_size_grows(m - 1, m);
        let low = twice_halfway(m - 1);
        assert(low * d < 2 * (at * d)) by (nonlinear_arith)
            requires
                low < 2 * at,
                d > 0,
        ;
    }
    if m < INFINITY {
        lemma_size_grows(m, m + 1);
        let high = twice_halfway(m);
        assert(2 * (at * d) < high * d) by (nonlinear_arith)
            requires
                2 * at < high,
                d > 0,
        ;
    }
    lemma_rounded(m, at * d, d);
}

/// A whole number below 2 to the power of 53 is a reading.
pub proof fn lemma_whole_exact(n: nat)
    requires
        n < 0x20_0000_0000_0000,
    ensures
        of_whole(n).from_zero(),
        of_whole(n).size() == n * unit(),
        of_whole(n).value() == n * unit(),
        n > 0 <==> of_whole(n).magnitude() > 0,
{
    let m = lemma_has_pattern(n as int, 1074);
    lemma_exact(m, 1);
    lemma_pow2_pos(1074);
    if m > 0 {
        lemma_size_grows(0, m);
    }
    assert(n > 0 <==> n * unit() > 0) by (nonlinear_arith)
        requires
            n >= 0,
            unit() > 0,
    ;
}

/// A finite reading from zero up that stands for a whole number is that whole number.
pub proof fn lemma_whole_unique(a: Num, n: nat)
    requires
        a.from_zero(),
        a.size() == n * unit(),
    ensures
        a == of_whole(n),
{
    lemma_exact(a.magnitude(), 1);
}

/// The named readings are the whole numbers of their names.
pub proof fn lemma_named_wholes()
    ensures
        of_whole(0) == num_of(ZERO),
        of_whole(1) == num_of(ONE),
        of_whole(10) == num_of(TEN),
        of_whole(100) == num_of(HUNDRED),
        of_whole(1000) == num_of(THOUSAND),
        of_whole(1024) == num_of(KIBI),
        of_whole(0x10_0000) == num_of(MEBI),
        of_whole(0x4000_0000) == num_of(GIBI),
        of_whole(1_000_000_000) == num_of(BILLION),
        of_integer(-1) == num_of(MINUS_ONE),
{
    lemma_named_patterns();
    assert(0 * unit() == 0);
    lemma_whole_unique(num_of(ZERO), 0);
    lemma_whole_unique(num_of(ONE), 1);
    lemma_whole_unique(num_of(TEN), 10);
    lemma_whole_unique(num_of(HUNDRED), 100);
    lemma_whole_unique(num_of(THOUSAND), 1000);
    lemma_whole_unique(num_of(KIBI), 1024);
    lemma_whole_unique(num_of(MEBI), 0x10_0000);
    lemma_whole_unique(num_of(GIBI), 0x4000_0000);
    lemma_whole_unique(num_of(BILLION), 1_000_000_000);
}

/// Arithmetic on whole numbers below 2 to the power of 53 is exact: sums,
/// differences, products and quotients that are such numbers come out as they are.
pub proof fn law_whole_arithmetic(a: nat, b: nat)
    requires
        a < 0x20_0000_0000_0000,
        b < 0x20_0000_0000_0000,
    ensures
        a + b < 0x20_0000_0000_0000 ==> of_whole(a).sum(of_whole(b)) == of_whole(a + b),
        b <= a ==> of_whole(a).difference(of_whole(b)) == of_whole((a - b) as nat),
        a * b < 0x20_0000_0000_0000 ==> of_whole(a).product(of_whole(b)) == of_whole(a * b),
        b > 0 && a * b < 0x20_0000_0000_0000 ==> of_whole(a * b).quotient(of_whole(b)) == of_whole(
            a,
        ),
        of_whole(a).nearest_whole() == of_whole(a),
        a < b <==> of_whole(a).below(of_whole(b)),
{
    let u = unit();
    let (x, y) = (of_whole(a), of_whole(b));
    lemma_pow2_pos(1074);
    lemma_whole_exact(a);
    lemma_whole_exact(b);
    assert((a + b) * u == a * u + b * u && (a - b) * u == a * u - b * u) by (nonlinear_arith);
    if a + b < 0x20_0000_0000_0000 && a + b == 0 {
        lemma_exact(0, 1);
        assert(0 * u == 0);
    }
    if b <= a {
        assert(y.negated().value() == -(b * u));
        if a == b {
            lemma_exact(0, 1);
            assert(0 * u == 0);
        } else {
            assert((a - b) * u > 0) by (nonlinear_arith)
                requires
                    a > b,
                    u > 0,
            ;
        }
    }
    if a + b > 0 {
        assert((a + b) * u > 0) by (nonlinear_arith)
            requires
                a + b > 0,
                u > 0,
        ;
    }
    if a * b < 0x20_0000_0000_0000 {
        let z = of_whole(a * b);
        lemma_whole_exact(a * b);
        assert((a * u) * (b * u) == ((a * b) * u) * u && ((a * b) * u) * u == (a * u) * (b * u))
            by (nonlinear_arith);
        lemma_exact_scaling(x, y, z);
        lemma_exact_scaling(z, y, x);
    }
    assert((2 * (a * u) + u) / (2 * u) == a) by (nonlinear_arith)
        requires
            u > 0,
    ;
    crate::num::law_order_is_numeric(x, y);
    assert(a < b <==> a * u < b * u) by (nonlinear_arith)
        requires
            u > 0,
    ;
}

/// Scaling a quotient does not change what is nearest to it.
pub proof fn lemma_rounded_scaled(n: int, d: int, c: int)
    requires
        d > 0,
        c > 0,
    ensures
        rounded(n * c, d * c) == rounded(n, d),
{
    let m = rounded(n, d);
    lemma_rounded_is_nearest(n, d);
    let (low, high) = (twice_halfway(m - 1), twice_halfway(m));
    assert(d * c > 0) by (nonlinear_arith)
        requires
            d > 0,
            c > 0,
    ;
    assert((low * d < 2 * n ==> low * (d * c) < 2 * (n * c)) && (low * d == 2 * n ==> low * (d * c)
        == 2 * (n * c)) && (2 * n < high * d ==> 2 * (n * c) < high * (d * c)) && (2 * n == high * d
        ==> 2 * (n * c) == high * (d * c))) by (nonlinear_arith)
        requires
            c > 0,
    ;
    lemma_rounded(m, n * c, d * c);
}

/// The quotient of whole numbers below 2 to the power of 53 is the reading nearest to
/// the exact quotient.
pub proof fn law_whole_quotient(a: nat, b: nat)
    requires
        a < 0x20_0000_0000_0000,
        0 < b < 0x20_0000_0000_0000,
    ensures
        of_whole(a).quotient(of_whole(b)) == signed_pattern(false, rounded(a * unit(), b as int)),
{
    let u = unit();
    lemma_pow2_pos(1074);
    lemma_whole_exact(a);
    lemma_whole_exact(b);
    lemma_rounded_scaled(a * u, b as int, u);
}

proof fn lemma_fine_unit(k: nat)
    requires
        k <= 52,
    ensures
        FRACTION * pow2(k + 1022) == pow2(k) * unit(),
        pow2(k + 1022) * pow2((52 - k) as nat) == unit(),
        pow2(k) > 0,
        pow2((52 - k) as nat) > 0,
        unit() > 0,
{
    lemma2_to64();
    lemma2_to64_rest();
    lemma_pow2_adds(52, k + 1022);
    lemma_pow2_adds(k, 1074);
    lemma_pow2_adds(k + 1022, (52 - k) as nat);
    lemma_pow2_pos(k);
    lemma_pow2_pos((52 - k) as nat);
    lemma_pow2_pos(1074);
}

proof fn lemma_fine_error(error: int, d: int, k: nat)
    requires
        k <= 52,
        d >= 0,
        -d * pow2(k + 1022) <= 2 * error <= d * pow2(k + 1022),
    ensures
        -d * unit() <= 2 * (pow2((52 - k) as nat) * error) <= d * unit(),
{
    lemma_fine_unit(k);
    let (p, q, u) = (pow2(k + 1022) as int, pow2((52 - k) as nat) as int, unit());
    assert(-d * u <= 2 * (q * error) <= d * u) by (nonlinear_arith)
        requires
            -d * p <= 2 * error <= d * p,
            p * q == u,
            q > 0,
            d >= 0,
    ;
}

/// How near a quotient of at most 2 to the power of `k` comes to the exact one.
pub proof fn lemma_quotient_near(a: Num, b: Num, k: nat)
    requires
        a.from_zero(),
        b.from_zero(),
        b.magnitude() > 0,
        k <= 52,
        a.size() <= b.size() * pow2(k),
    ensures
        a.quotient(b).from_zero(),
        a.quotient(b).size() <= pow2(k) * unit(),
        -b.size() * unit() <= 2 * (pow2((52 - k) as nat) * (a.quotient(b).size() * b.size()
            - a.size() * unit())) <= b.size() * unit(),
{
    let (n, d, u, p) = (a.size() * unit(), b.size(), unit(), pow2(k) as int);
    lemma_fine_unit(k);
    lemma_size_grows(0, b.magnitude());
    if a.magnitude() > 0 {
        lemma_size_grows(0, a.magnitude());
    }
    assert(0 <= n <= d * (p * u)) by (nonlinear_arith)
        requires
            n == a.size() * u,
            0 <= a.size() <= d * p,
            u > 0,
    ;
    lemma_rounding_error(n, d, k + 1022);
    lemma_fine_error(a.quotient(b).size() * d - n, d, k);
}

/// How near a product of at most 2 to the power of `k` comes to the exact one.
pub proof fn lemma_product_near(a: Num, b: Num, k: nat)
    requires
        a.from_zero(),
        b.from_zero(),
        k <= 52,
        a.size() * b.size() <= unit() * (pow2(k) * unit()),
    ensures
        a.product(b).from_zero(),
        a.product(b).size() <= pow2(k) * unit(),
        -unit() * unit() <= 2 * (pow2((52 - k) as nat) * (a.product(b).size() * unit() - a.size()
            * b.size())) <= unit() * unit(),
{
    let (n, u) = (a.size() * b.size(), unit());
    lemma_fine_unit(k);
    if a.magnitude() > 0 {
        lemma_size_grows(0, a.magnitude());
    }
    if b.magnitude() > 0 {
        lemma_size_grows(0, b.magnitude());
    }
    assert(n >= 0) by (nonlinear_arith)
        requires
            n == a.size() * b.size(),
            a.size() >= 0,
            b.size() >= 0,
    ;
    lemma_rounding_error(n, u, k + 1022);
    lemma_fine_error(a.product(b).size() * u - n, u, k);
}

/// The nearest whole number lies at most a half away.
pub proof fn lemma_whole_near(a: Num) -> (w: nat)
    requires
        a.from_zero(),
        a.size() < 0xf_ffff_ffff_ffff * unit(),
    ensures
        w <= 0xf_ffff_ffff_ffff,
        a.nearest_whole() == of_whole(w),
        -unit() <= 2 * (w * unit() - a.size()) <= unit(),
{
    let (s, u) = (a.size(), unit());
    lemma_pow2_pos(1074);
    if a.magnitude() > 0 {
        lemma_size_grows(0, a.magnitude());
    }
    let w = (2 * s + u) / (2 * u);
    vstd::arithmetic::div_mod::lemma_fundamental_div_mod(2 * s + u, 2 * u);
    let r = (2 * s + u) % (2 * u);
    assert(0 <= r < 2 * u) by (nonlinear_arith)
        requires
            u > 0,
            r == (2 * s + u) % (2 * u),
    ;
    assert(-u <= 2 * (w * u - s) <= u) by (nonlinear_arith)
        requires
            2 * s + u == (2 * u) * w + r,
            0 <= r < 2 * u,
    ;
    assert(0 <= w <= 0xf_ffff_ffff_ffff) by (nonlinear_arith)
        requires
            2 * s + u == (2 * u) * w + r,
            0 <= r < 2 * u,
            0 <= s < 0xf_ffff_ffff_ffff * u,
            u > 0,
    ;
    w as nat
}

/// The whole part of a whole number is that number, as far as it fits.
pub proof fn law_whole_part(n: nat, low: int, high: int)
    requires
        n < 0x20_0000_0000_0000,
        low <= 0,
    ensures
        of_whole(n).whole_part(low, high) == (if n <= high {
            n as int
        } else {
            high
        }),
{
    let u = unit();
    lemma_pow2_pos(1074);
    lemma_whole_exact(n);
    assert((n * u) / u == n) by (nonlinear_arith)
        requires
            u > 0,
    ;
}

/// A whole number of either sign below 2 to the power of 53 is a reading.
pub proof fn lemma_integer_exact(n: int)
    requires
        -0x20_0000_0000_0000 < n < 0x20_0000_0000_0000,
    ensures
        of_integer(n).finite(),
        of_integer(n).value() == n * unit(),
        of_integer(n).negative() <==> n < 0,
        n < 0 ==> of_integer(n).magnitude() == of_whole((-n) as nat).magnitude(),
        n >= 0 ==> of_integer(n).magnitude() == of_whole(n as nat).magnitude(),
{
    if n < 0 {
        lemma_whole_exact((-n) as nat);
        assert((-n) * unit() == -(n * unit())) by (nonlinear_arith);
    } else {
        lemma_whole_exact(n as nat);
    }
}

proof fn lemma_integer_from(negative: bool, n: int)
    requires
        -0x20_0000_0000_0000 < n < 0x20_0000_0000_0000,
        negative == (n < 0),
    ensures
        n < 0 ==> signed_pattern(negative, rounded(-(n * unit()), 1)) == of_integer(n),
        n >= 0 ==> signed_pattern(negative, rounded(n * unit(), 1)) == of_integer(n),
{
    lemma_integer_exact(n);
    if n < 0 {
        let m = (-n) as nat;
        lemma_whole_exact(m);
        assert(m * unit() == -(n * unit())) by (nonlinear_arith)
            requires
                m == -n,
        ;
        lemma_rounded_is_nearest(m * unit(), 1);
    }
}

/// Sums, differences, products and quotients of whole numbers of either sign below 2 to
/// the power of 53 come out as they are, where they are such numbers.
pub proof fn law_integer_arithmetic(a: int, b: int)
    requires
        -0x20_0000_0000_0000 < a < 0x20_0000_0000_0000,
        -0x20_0000_0000_0000 < b < 0x20_0000_0000_0000,
    ensures
        -0x20_0000_0000_0000 < a + b < 0x20_0000_0000_0000 ==> of_integer(a).sum(of_integer(b))
            == of_integer(a + b),
        -0x20_0000_0000_0000 < a - b < 0x20_0000_0000_0000 ==> of_integer(a).difference(
            of_integer(b),
        ) == of_integer(a - b),
        b > 0 && -0x20_0000_0000_0000 < a * b < 0x20_0000_0000_0000 ==> of_integer(a).product(
            of_integer(b),
        ) == of_integer(a * b) && of_integer(a * b).quotient(of_integer(b)) == of_integer(a),
{
    let u = unit();
    let (x, y) = (of_integer(a), of_integer(b));
    lemma_pow2_pos(1074);
    lemma_integer_exact(a);
    lemma_integer_exact(b);
    assert((a + b) * u == a * u + b * u && (a - b) * u == a * u - b * u) by (nonlinear_arith);
    assert((a + b > 0 <==> (a + b) * u > 0) && (a + b < 0 <==> (a + b) * u < 0) && (a - b > 0 <==> (a
        - b) * u > 0) && (a - b < 0 <==> (a - b) * u < 0)) by (nonlinear_arith)
        requires
            u > 0,
    ;
    lemma_exact(0, 1);
    assert(0 * u == 0);
    if -0x20_0000_0000_0000 < a + b < 0x20_0000_0000_0000 {
        lemma_integer_from(a + b < 0, a + b);
    }
    if -0x20_0000_0000_0000 < a - b < 0x20_0000_0000_0000 {
        lemma_integer_from(a - b < 0, a - b);
        assert(y.negated().value() == -y.value() && y.negated().finite());
    }
    if b > 0 && -0x20_0000_0000_0000 < a * b < 0x20_0000_0000_0000 {
        let c = a * b;
        assert((a < 0 <==> c < 0) && (a == 0 <==> c == 0)) by (nonlinear_arith)
            requires
                c == a * b,
                b > 0,
        ;
        lemma_integer_exact(c);
        let m = if a < 0 {
            (-a) as nat
        } else {
            a as nat
        };
        assert(m * b == if a < 0 {
            -c
        } else {
            c
        }) by (nonlinear_arith)
            requires
                c == a * b,
                m == if a < 0 {
                    -a
                } else {
                    a
                },
        ;
        lemma_whole_exact(m);
        lemma_whole_exact(b as nat);
        lemma_whole_exact((m * b) as nat);
        law_whole_arithmetic(m, b as nat);
        assert(x.size() == of_whole(m).size() && of_integer(c).size() == of_whole(
            (m * b) as nat,
        ).size());
        lemma_rounded_is_nearest(x.size() * y.size(), u);
        lemma_rounded_is_nearest(of_integer(c).size() * u, y.size());
    }
}

/// Readings added up from zero, in their order.
pub open spec fn added_up(readings: Seq<Num>) -> Num {
    readings.fold_left(num_of(ZERO), |sum: Num, reading: Num| sum.sum(reading))
}

/// Readings added up grow by the last of them; none add up to zero.
pub proof fn lemma_added_up(readings: Seq<Num>)
    ensures
        readings.len() == 0 ==> added_up(readings) == num_of(ZERO),
        readings.len() > 0 ==> added_up(readings) == added_up(readings.drop_last()).sum(
            readings.last(),
        ),
{
}

/// A whole number, added up `n` times, is `n` times that number, as long as it stays
/// below 2 to the power of 53.
pub proof fn law_whole_added_up(readings: Seq<Num>, v: nat)
    requires
        forall|i: int| 0 <= i < readings.len() ==> #[trigger] readings[i] == of_whole(v),
        readings.len() * v < 0x20_0000_0000_0000,
        v < 0x20_0000_0000_0000,
    ensures
        added_up(readings) == of_whole(readings.len() * v),
    decreases readings.len(),
{
    lemma_added_up(readings);
    let n = readings.len();
    if n == 0 {
        lemma_exact(0, 1);
        assert(0 * v == 0);
        assert(0 * unit() == 0);
        assert(num_of(ZERO) == of_whole(0));
    } else {
        let rest = readings.drop_last();
        assert forall|i: int| 0 <= i < rest.len() implies #[trigger] rest[i] == of_whole(v) by {
            assert(readings[i] == of_whole(v));
        }
        assert(readings[n - 1] == of_whole(v));
        assert((n - 1) * v + v == n * v && (n - 1) * v <= n * v) by (nonlinear_arith)
            requires
                v >= 0,
                n >= 1,
        ;
        law_whole_added_up(rest, v);
        law_whole_arithmetic((rest.len() * v) as nat, v);
    }
}

/// The significand and the exponent of a finite pattern.
pub fn parts(magnitude: u64) -> (r: (u64, u32))
    requires
        magnitude < INFINITY,
    ensures
        r.0 < 2 * FRACTION,
        r.1 <= 2045,
        r.1 > 0 ==> r.0 >= FRACTION,
        magnitude == r.1 * FRACTION + r.0,
        size_of_pattern(magnitude as int) == r.0 * pow2(r.1 as nat),
        r.0 == 0 <==> magnitude == 0,
{
    let exponent: u64 = magnitude / FRACTION;
    let fraction: u64 = magnitude % FRACTION;
    if exponent == 0 {
        proof {
            lemma_size_of_parts(0, fraction as int);
            lemma2_to64();
        }
        (fraction, 0)
    } else {
        proof {
            lemma_size_of_parts((exponent - 1) as nat, fraction + FRACTION);
        }
        (fraction + FRACTION, (exponent - 1) as u32)
    }
}

fn magnitude_of(a: Num) -> (r: u64)
    ensures
        r == a.magnitude(),
{
    if a.bits >= SIGN {
        a.bits - SIGN
    } else {
        a.bits
    }
}

fn is_negative(a: Num) -> (r: bool)
    ensures
        r == a.negative(),
{
    a.bits >= SIGN
}

proof fn lemma_product_of_parts(s: int, t: int, e: nat, f: nat)
    ensures
        (s * pow2(e)) * (t * pow2(f)) == (s * t) * pow2(e + f),
{
    lemma_pow2_adds(e, f);
    let (pe, pf) = (pow2(e) as int, pow2(f) as int);
    assert((s * pe) * (t * pf) == (s * t) * (pe * pf)) by (nonlinear_arith);
}

/// The pattern nearest to the sum, or to the difference, of two sizes.
fn combine(larger: u64, smaller: u64, subtract: bool) -> (r: u64)
    requires
        smaller <= larger < INFINITY,
        larger > 0,
        subtract ==> smaller < larger,
    ensures
        r <= INFINITY,
        subtract ==> r == rounded(
            size_of_pattern(larger as int) - size_of_pattern(smaller as int),
            1,
        ),
        !subtract ==> r == rounded(
            size_of_pattern(larger as int) + size_of_pattern(smaller as int),
            1,
        ),
{
    let (s, e) = parts(larger);
    let (t, f) = parts(smaller);
    let ghost big = size_of_pattern(larger as int);
    let ghost small = size_of_pattern(smaller as int);
    let ghost n = if subtract {
        big - small
    } else {
        big + small
    };
    proof {
        lemma2_to64();
        lemma2_to64_rest();
        if smaller < larger {
            lemma_size_grows(smaller as int, larger as int);
        }
        if 0 < smaller {
            lemma_size_grows(0, smaller as int);
        }
        lemma_size_grows(0, larger as int);
        assert(f <= e) by {
            if f > e {
                assert(f * FRACTION >= (e + 1) * FRACTION) by (nonlinear_arith)
                    requires
                        f >= e + 1,
                ;
            }
        }
    }
    let gap: u32 = e - f;
    if gap <= 66 {
        let p = power_of_two(gap);
        proof {
            lemma_pow2_adds(gap as nat, f as nat);
            let (pg, pf) = (pow2(gap as nat) as int, pow2(f as nat) as int);
            assert(big == (s * pg) * pf) by (nonlinear_arith)
                requires
                    big == s * (pg * pf),
            ;
            if gap < 66 {
                lemma_pow2_strictly_increases(gap as nat, 66);
            }
            lemma_pow2_adds(33, 33);
            assert(0 <= s * pg < 0x80_0000_0000_0000_0000_0000_0000_0000) by (nonlinear_arith)
                requires
                    0 <= s < 0x20_0000_0000_0000,
                    0 <= pg <= 0x2_0000_0000 * 0x2_0000_0000,
            ;
            assert(subtract ==> n == (s * pg - t) * pf) by (nonlinear_arith)
                requires
                    big == (s * pg) * pf,
                    small == t * pf,
                    subtract ==> n == big - small,
            ;
            assert(!subtract ==> n == (s * pg + t) * pf) by (nonlinear_arith)
                requires
                    big == (s * pg) * pf,
                    small == t * pf,
                    !subtract ==> n == big + small,
            ;
            lemma_pow2_pos(f as nat);
            if subtract {
                assert(s * pg - t > 0) by (nonlinear_arith)
                    requires
                        (s * pg - t) * pf > 0,
                        pf > 0,
                ;
            } else {
                assert(s * pg + t > 0) by (nonlinear_arith)
                    requires
                        (s * pg + t) * pf > 0,
                        pf > 0,
                ;
            }
        }
        let scaled: u128 = s as u128 * p;
        let m: u128 = if subtract {
            scaled - t as u128
        } else {
            scaled + t as u128
        };
        proof {
            let pf = pow2(f as nat) as int;
            assert(n == m * pf);
            assert(m * (1 * pf) == n * 1 && n * 1 < (m + 1) * (1 * pf)) by (nonlinear_arith)
                requires
                    n == m * pf,
                    pf > 0,
            ;
        }
        let r = round_pattern(m, f, 0, false, Ghost(n), Ghost(1int));
        proof {
            lemma_rounded(r as int, n, 1);
        }
        r
    } else {
        let up: u32 = e - 10;
        let scaled: u128 = s as u128 * 1024;
        let below: bool = subtract && t > 0;
        let m: u128 = if below {
            scaled - 1
        } else {
            scaled
        };
        proof {
            let pu = pow2(up as nat) as int;
            let pf = pow2(f as nat) as int;
            lemma_pow2_pos(f as nat);
            lemma_pow2_adds(10, up as nat);
            assert(big == (s * 1024) * pu) by (nonlinear_arith)
                requires
                    big == s * (1024 * pu),
            ;
            lemma_pow2_adds(57, f as nat);
            if 57 + f < up {
                lemma_pow2_strictly_increases((57 + f) as nat, up as nat);
            }
            assert(small < pu) by (nonlinear_arith)
                requires
                    small == t * pf,
                    t < 0x200_0000_0000_0000,
                    0x200_0000_0000_0000 * pf <= pu,
                    pf > 0,
            ;
            assert(t > 0 ==> small > 0) by (nonlinear_arith)
                requires
                    small == t * pf,
                    pf > 0,
            ;
            assert(t == 0 ==> small == 0) by (nonlinear_arith)
                requires
                    small == t * pf,
            ;
            let k = s * 1024;
            assert((k - 1) * (1 * pu) == k * pu - pu && k * (1 * pu) == k * pu && (k + 1) * (1 * pu) == k
                * pu + pu) by (nonlinear_arith);
            assert(n * 1 == n);
        }
        let r = round_pattern(m, up, 0, t > 0, Ghost(n), Ghost(1int));
        proof {
            lemma_rounded(r as int, n, 1);
        }
        r
    }
}

impl Num {
    pub fn negate(self) -> (r: Num)
        ensures
            r == self.negated(),
    {
        if self.bits >= SIGN {
            num(self.bits - SIGN)
        } else {
            num(self.bits + SIGN)
        }
    }

    pub fn minus(self, other: Num) -> (r: Num)
        ensures
            r == self.difference(other),
    {
        self.plus(other.negate())
    }

    /// `self + other`, rounded to the nearest reading.
    pub fn plus(self, other: Num) -> (r: Num)
        ensures
            r == self.sum(other),
    {
        if self.is_nan() || other.is_nan() {
            return num(NAN);
        }
        let a = magnitude_of(self);
        let b = magnitude_of(other);
        let na = is_negative(self);
        let nb = is_negative(other);
        if a == INFINITY {
            if b == INFINITY && na != nb {
                return num(NAN);
            }
            return self;
        }
        if b == INFINITY {
            return other;
        }
        proof {
            lemma2_to64();
            if a < b {
                lemma_size_grows(a as int, b as int);
            }
            if b < a {
                lemma_size_grows(b as int, a as int);
            }
            if 0 < a {
                lemma_size_grows(0, a as int);
            }
            if 0 < b {
                lemma_size_grows(0, b as int);
            }
        }
        if a == 0 && b == 0 {
            return with_sign(na && nb, 0);
        }
        if na == nb {
            let m = if a >= b {
                combine(a, b, false)
            } else {
                combine(b, a, false)
            };
            with_sign(na, m)
        } else if a == b {
            with_sign(false, 0)
        } else if a > b {
            with_sign(na, combine(a, b, true))
        } else {
            with_sign(nb, combine(b, a, true))
        }
    }

    /// `self * other`, rounded to the nearest reading.
    pub fn times(self, other: Num) -> (r: Num)
        ensures
            r == self.product(other),
    {
        if self.is_nan() || other.is_nan() {
            return num(NAN);
        }
        let a = magnitude_of(self);
        let b = magnitude_of(other);
        let negative = is_negative(self) != is_negative(other);
        if a == INFINITY || b == INFINITY {
            if a == 0 || b == 0 {
                return num(NAN);
            }
            return with_sign(negative, INFINITY);
        }
        let (s, e) = parts(a);
        let (t, f) = parts(b);
        let ghost n = self.size() * other.size();
        let ghost u = unit();
        proof {
            lemma_pow2_pos(1074);
            lemma_product_of_parts(s as int, t as int, e as nat, f as nat);
            assert(0 <= s * t < 0x400_0000_0000_0000_0000_0000_0000) by (nonlinear_arith)
                requires
                    0 <= s < 0x20_0000_0000_0000,
                    0 <= t < 0x20_0000_0000_0000,
            ;
        }
        let m: u128 = s as u128 * t as u128;
        if m == 0 {
            proof {
                lemma_exact(0, u);
                assert(size_of_pattern(0) == 0);
                assert(n == 0) by (nonlinear_arith)
                    requires
                        n == (s * t) * pow2((e + f) as nat),
                        s * t == 0,
                ;
                assert(size_of_pattern(0) * u == 0) by (nonlinear_arith)
                    requires
                        size_of_pattern(0) == 0,
                ;
            }
            return with_sign(negative, 0);
        }
        proof {
            let k = s * t;
            let pf = pow2((e + f) as nat) as int;
            lemma_pow2_pos((e + f) as nat);
            assert(k * (u * pf) == n * u) by (nonlinear_arith)
                requires
                    n == k * pf,
            ;
            assert(u * pf > 0) by (nonlinear_arith)
                requires
                    u > 0,
                    pf > 0,
            ;
            let y = u * pf;
            assert((k + 1) * y == k * y + y) by (nonlinear_arith);
        }
        let r = round_pattern(m, e + f, 1074, false, Ghost(n), Ghost(u));
        proof {
            lemma_rounded(r as int, n, u);
        }
        with_sign(negative, r)
    }
}

/// A significand doubled until it has 53 binary digits, and how often.
fn normalized(s: u64) -> (r: (u64, u32))
    requires
        0 < s < 2 * FRACTION,
    ensures
        FRACTION <= r.0 < 2 * FRACTION,
        r.1 <= 52,
        r.0 == s * pow2(r.1 as nat),
{
    let mut v: u64 = s;
    let mut k: u32 = 0;
    proof {
        lemma2_to64();
        lemma2_to64_rest();
    }
    while v < FRACTION
        invariant
            0 < s < 2 * FRACTION,
            0 < v < 2 * FRACTION,
            k <= 52,
            v == s * pow2(k as nat),
            v >= pow2(k as nat),
            pow2(52) == FRACTION,
        decreases 53 - k,
    {
        proof {
            if k == 52 {
                assert(false);
            }
            lemma_pow2_unfold((k + 1) as nat);
            let p = pow2(k as nat) as int;
            assert(s * (2 * p) == 2 * (s * p)) by (nonlinear_arith);
        }
        v = v * 2;
        k = k + 1;
    }
    (v, k)
}

proof fn lemma_regroup(a: int, b: int, c: int)
    ensures
        (a * b) * c == a * (b * c),
{
    assert((a * b) * c == a * (b * c)) by (nonlinear_arith);
}

proof fn lemma_scaled_quotient(s: int, v: int, t: int, e: nat, f: nat, k: nat)
    requires
        v == s * pow2(k),
    ensures
        ((s * pow2(e)) * unit()) * pow2(k + f) == (v * pow2(60)) * (pow2(f) * pow2(e + 1014)),
        (t * pow2(f)) * pow2(e + 1014) == t * (pow2(f) * pow2(e + 1014)),
{
    lemma_pow2_adds(k, f);
    lemma_pow2_adds(60, 1014);
    lemma_pow2_adds(e, 1014);
    let (pe, pk, pf, p60, p1014) = (
        pow2(e) as int,
        pow2(k) as int,
        pow2(f) as int,
        pow2(60) as int,
        pow2(1014) as int,
    );
    lemma_regroup(s * pe, p60 * p1014, pk * pf);
    lemma_regroup(s, pk, p60);
    let right = p60 * p1014;
    assert((s * pe) * (right * (pk * pf)) == s * (pe * (right * (pk * pf)))) by (nonlinear_arith);
    assert(pe * (right * (pk * pf)) == (pk * p60) * (pf * (pe * p1014))) by {
        lemma_regroup(pe, right, pk * pf);
        assert((pe * (p60 * p1014)) * (pk * pf) == (pk * p60) * (pf * (pe * p1014))) by {
            let (a, b) = (pe * p1014, pk * p60);
            assert(pe * (p60 * p1014) == p60 * a) by (nonlinear_arith)
                requires
                    a == pe * p1014,
            ;
            assert((p60 * a) * (pk * pf) == b * (pf * a)) by (nonlinear_arith)
                requires
                    b == pk * p60,
            ;
        }
    }
    assert(s * ((pk * p60) * (pf * (pe * p1014))) == (s * (pk * p60)) * (pf * (pe * p1014))) by {
        lemma_regroup(s, pk * p60, pf * (pe * p1014));
    }
    let pu = pow2(e + 1014) as int;
    assert((t * pf) * pu == t * (pf * pu)) by (nonlinear_arith);
}

impl Num {
    /// `self / other`, rounded to the nearest reading.
    pub fn over(self, other: Num) -> (r: Num)
        ensures
            r == self.quotient(other),
    {
        if self.is_nan() || other.is_nan() {
            return num(NAN);
        }
        let a = magnitude_of(self);
        let b = magnitude_of(other);
        let negative = is_negative(self) != is_negative(other);
        if a == INFINITY {
            if b == INFINITY {
                return num(NAN);
            }
            return with_sign(negative, INFINITY);
        }
        if b == INFINITY {
            return with_sign(negative, 0);
        }
        if b == 0 {
            if a == 0 {
                return num(NAN);
            }
            return with_sign(negative, INFINITY);
        }
        let (s, e) = parts(a);
        let (t, f) = parts(b);
        let ghost n = self.size() * unit();
        let ghost d = other.size();
        proof {
            lemma2_to64();
            lemma2_to64_rest();
            lemma_size_grows(0, b as int);
        }
        if s == 0 {
            proof {
                lemma_exact(0, d);
                assert(n == 0 && size_of_pattern(0) * d == 0) by (nonlinear_arith)
                    requires
                        n == self.size() * unit(),
                        self.size() == 0,
                        size_of_pattern(0) == 0,
                ;
            }
            return with_sign(negative, 0);
        }
        let (v, k) = normalized(s);
        let top: u128 = v as u128 * 0x1000_0000_0000_0000;
        let m: u128 = top / (t as u128);
        let rest: u128 = top % (t as u128);
        proof {
            lemma_scaled_quotient(s as int, v as int, t as int, e as nat, f as nat, k as nat);
            vstd::arithmetic::div_mod::lemma_fundamental_div_mod(top as int, t as int);
            assert(m >= TWO_54) by (nonlinear_arith)
                requires
                    top == t * m + rest,
                    rest < t,
                    t < 0x20_0000_0000_0000,
                    top >= 0x10_0000_0000_0000 * 0x1000_0000_0000_0000,
            ;
            assert(m < TWO_120) by (nonlinear_arith)
                requires
                    top == t * m + rest,
                    rest >= 0,
                    t >= 1,
                    top < TWO_120,
            ;
            let w = pow2(f as nat) * pow2((e + 1014) as nat);
            lemma_pow2_pos(f as nat);
            lemma_pow2_pos((e + 1014) as nat);
            assert(w > 0) by (nonlinear_arith)
                requires
                    w == pow2(f as nat) * pow2((e + 1014) as nat),
                    pow2(f as nat) > 0,
                    pow2((e + 1014) as nat) > 0,
            ;
            assert(m * (t * w) <= top * w && top * w < (m + 1) * (t * w) && (top * w == m * (t * w) <==> rest
                == 0)) by (nonlinear_arith)
                requires
                    top == t * m + rest,
                    0 <= rest < t,
                    w > 0,
            ;
        }
        let r = round_pattern(m, e + 1014, k + f, rest != 0, Ghost(n), Ghost(d));
        proof {
            lemma_rounded(r as int, n, d);
        }
        with_sign(negative, r)
    }
}

fn whole_pattern(n: u64) -> (r: u64)
    ensures
        r <= INFINITY,
        r == rounded(n * unit(), 1),
{
    let ghost u = unit();
    proof {
        lemma_pow2_pos(1074);
        lemma2_to64();
    }
    if n == 0 {
        proof {
            lemma_exact(0, 1);
            assert(size_of_pattern(0) == 0);
        }
        return 0;
    }
    proof {
        assert((n + 1) * (1 * u) == n * u + u && n * (1 * u) == n * u) by (nonlinear_arith);
    }
    let r = round_pattern(n as u128, 1074, 0, false, Ghost(n * u), Ghost(1int));
    proof {
        lemma_rounded(r as int, n * u, 1);
    }
    r
}

/// The reading nearest to a whole number.
pub fn whole(n: u64) -> (r: Num)
    ensures
        r == of_whole(n as nat),
{
    num(whole_pattern(n))
}

/// The reading nearest to a whole number of either sign.
pub fn integer(n: i64) -> (r: Num)
    ensures
        r == of_integer(n as int),
{
    if n < 0 {
        let size: u64 = (-(n as i128)) as u64;
        whole(size).negate()
    } else {
        whole(n as u64)
    }
}

proof fn lemma_whole_steps(s: int, e: nat, k: nat)
    requires
        e + k == 1074,
        s >= 0,
    ensures
        (s * pow2(e)) / unit() == s / (pow2(k) as int),
        k >= 1 ==> (2 * (s * pow2(e)) + unit()) / (2 * unit()) == (s + pow2((k - 1) as nat)) / (pow2(k) as int),
{
    lemma_pow2_adds(e, k);
    lemma_pow2_pos(e);
    lemma_pow2_pos(k);
    let (pe, pk) = (pow2(e) as int, pow2(k) as int);
    assert(s * pe == pe * s && unit() == pe * pk) by (nonlinear_arith)
        requires
            unit() == pe * pk,
    ;
    lemma_common_factor(s, pk, pe);
    if k >= 1 {
        lemma_pow2_unfold(k);
        let h = pow2((k - 1) as nat) as int;
        assert(2 * (s * pe) + pe * (2 * h) == (2 * pe) * (s + h)) by (nonlinear_arith);
        assert(2 * (pe * pk) == (2 * pe) * pk) by (nonlinear_arith);
        lemma_common_factor(s + h, pk, 2 * pe);
    }
}

proof fn lemma_common_factor(x: int, y: int, c: int)
    requires
        x >= 0,
        y > 0,
        c > 0,
    ensures
        (c * x) / (c * y) == x / y,
{
    let q = x / y;
    let r = x % y;
    vstd::arithmetic::div_mod::lemma_fundamental_div_mod(x, y);
    assert(c * x == q * (c * y) + c * r && 0 <= c * r < c * y) by (nonlinear_arith)
        requires
            x == y * q + r,
            0 <= r < y,
            c > 0,
    ;
    vstd::arithmetic::div_mod::lemma_fundamental_div_mod_converse(c * x, c * y, q, c * r);
}

impl Num {
    /// The nearest whole number; halves go away from zero.
    pub fn round(self) -> (r: Num)
        ensures
            r == self.nearest_whole(),
    {
        if !self.is_finite() {
            return self;
        }
        let a = magnitude_of(self);
        let (s, e) = parts(a);
        let ghost size = self.size();
        proof {
            lemma2_to64();
            lemma2_to64_rest();
            lemma_pow2_pos(1074);
        }
        if e >= 1074 {
            proof {
                let u = unit();
                let k = (e - 1074) as nat;
                lemma_pow2_adds(k, 1074);
                let w = s * pow2(k);
                assert(size == w * u) by (nonlinear_arith)
                    requires
                        size == s * (pow2(k) * u),
                        w == s * pow2(k),
                ;
                assert(2 * size + u == w * (2 * u) + u) by (nonlinear_arith)
                    requires
                        size == w * u,
                ;
                vstd::arithmetic::div_mod::lemma_fundamental_div_mod_converse(
                    2 * size + u,
                    2 * u,
                    w,
                    u,
                );
                lemma_exact(a as int, 1);
            }
            return with_sign(is_negative(self), a);
        }
        let k: u32 = 1074 - e;
        proof {
            lemma_whole_steps(s as int, e as nat, k as nat);
        }
        if k > 60 {
            proof {
                lemma_pow2_strictly_increases(60, k as nat);
                lemma_pow2_unfold(k as nat);
                assert((s + pow2((k - 1) as nat)) / (pow2(k as nat) as int) == 0) by {
                    vstd::arithmetic::div_mod::lemma_basic_div(
                        s + pow2((k - 1) as nat),
                        pow2(k as nat) as int,
                    );
                }
                lemma_exact(0, 1);
                assert(size_of_pattern(0) == 0);
                assert(0 * unit() == 0) by (nonlinear_arith);
            }
            return with_sign(is_negative(self), 0);
        }
        let p = power_of_two(k);
        let half = power_of_two(k - 1);
        proof {
            if k < 60 {
                lemma_pow2_strictly_increases(k as nat, 60);
            }
            lemma_pow2_unfold(k as nat);
        }
        let q: u64 = (s + half as u64) / (p as u64);
        with_sign(is_negative(self), whole_pattern(q))
    }

    /// The whole part of a size, or `None` from 2 to the power of 64 on.
    fn whole_size(a: u64) -> (r: Option<u64>)
        requires
            a < INFINITY,
        ensures
            match r {
                Some(n) => n == size_of_pattern(a as int) / unit(),
                None => size_of_pattern(a as int) / unit() > u64::MAX,
            },
    {
        let (s, e) = parts(a);
        proof {
            lemma2_to64();
            lemma2_to64_rest();
            lemma_pow2_pos(1074);
        }
        if e >= 1074 {
            let k: u32 = e - 1074;
            proof {
                let u = unit();
                lemma_pow2_adds(k as nat, 1074);
                let w = s * pow2(k as nat);
                assert(s * (pow2(k as nat) * u) == w * u + 0) by (nonlinear_arith)
                    requires
                        w == s * pow2(k as nat),
                ;
                vstd::arithmetic::div_mod::lemma_fundamental_div_mod_converse(
                    size_of_pattern(a as int),
                    u,
                    w,
                    0,
                );
                if k >= 12 {
                    if k > 12 {
                        lemma_pow2_strictly_increases(12, k as nat);
                    }
                    assert(w > u64::MAX) by (nonlinear_arith)
                        requires
                            w == s * pow2(k as nat),
                            s >= 0x10_0000_0000_0000,
                            pow2(k as nat) >= 4096,
                    ;
                } else {
                    lemma_pow2_strictly_increases(k as nat, 12);
                    assert(0 <= w <= u64::MAX) by (nonlinear_arith)
                        requires
                            w == s * pow2(k as nat),
                            0 <= s < 0x20_0000_0000_0000,
                            0 < pow2(k as nat) <= 2048,
                    ;
                }
            }
            if k >= 12 {
                return None;
            }
            let p = power_of_two(k);
            return Some(s * (p as u64));
        }
        let k: u32 = 1074 - e;
        proof {
            lemma_whole_steps(s as int, e as nat, k as nat);
        }
        if k > 60 {
            proof {
                lemma_pow2_strictly_increases(60, k as nat);
                vstd::arithmetic::div_mod::lemma_basic_div(s as int, pow2(k as nat) as int);
            }
            return Some(0);
        }
        let p = power_of_two(k);
        proof {
            if k < 60 {
                lemma_pow2_strictly_increases(k as nat, 60);
            }
        }
        Some(s / (p as u64))
    }

    /// The whole part, held between `low` and `high`; 0 for what is not a
    /// number.
    pub fn to_whole(self, low: i64, high: i64) -> (r: i64)
        requires
            low <= 0 <= high,
        ensures
            r == self.whole_part(low as int, high as int),
            low <= r <= high,
    {
        if self.is_nan() {
            return 0;
        }
        let a = magnitude_of(self);
        let negative = is_negative(self);
        if a == INFINITY {
            return if negative {
                low
            } else {
                high
            };
        }
        match Num::whole_size(a) {
            Some(n) => {
                if negative {
                    if n > 0x7fff_ffff_ffff_ffff || -(n as i64) < low {
                        low
                    } else {
                        -(n as i64)
                    }
                } else if n > 0x7fff_ffff_ffff_ffff || n as i64 > high {
                    high
                } else {
                    n as i64
                }
            },
            None => {
                if negative {
                    low
                } else {
                    high
                }
            },
        }
    }
}

} // verus!
