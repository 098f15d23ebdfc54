//! Readings: the values that sensors deliver and settings hold.
//!
//! A reading is an IEEE 754 binary64 number, held as its bit pattern. This
//! module compares readings; `arith` computes with them, `reading` and `figures`
//! turn text into readings and back.

use vstd::arithmetic::power2::{lemma2_to64, lemma2_to64_rest, lemma_pow2_adds, lemma_pow2_pos, lemma_pow2_strictly_increases, pow2};
use vstd::prelude::*;

verus! {

/// Weight of the sign bit.
pub const SIGN: u64 = 0x8000_0000_0000_0000;

/// Magnitude of infinity. Every larger magnitude is not a number.
pub const INFINITY: u64 = 0x7ff0_0000_0000_0000;

/// The pattern that stands for a missing point in a chart.
pub const NAN: u64 = 0x7ff8_0000_0000_0000;

/// 2 to the power of 52, the weight of the lowest exponent bit.
pub const FRACTION: u64 = 0x10_0000_0000_0000;

pub const ZERO: u64 = 0;

pub const MINUS_ONE: u64 = 0xbff0_0000_0000_0000;

pub const ONE: u64 = 0x3ff0_0000_0000_0000;

pub const TEN: u64 = 0x4024_0000_0000_0000;

pub const THIRTY: u64 = 0x403e_0000_0000_0000;

pub const SIXTY_FOUR: u64 = 0x4050_0000_0000_0000;

pub const EIGHTY: u64 = 0x4054_0000_0000_0000;

pub const EIGHTY_FIVE: u64 = 0x4055_4000_0000_0000;

pub const NINETY: u64 = 0x4056_8000_0000_0000;

pub const HUNDRED: u64 = 0x4059_0000_0000_0000;

pub const HUNDRED_TWENTY: u64 = 0x405e_0000_0000_0000;

pub const THOUSAND: u64 = 0x408f_4000_0000_0000;

pub const KIBI: u64 = 0x4090_0000_0000_0000;

/// 1024 * 1024.
pub const MEBI: u64 = 0x4130_0000_0000_0000;

/// 1024 * 1024 * 1024.
pub const GIBI: u64 = 0x41d0_0000_0000_0000;

pub const BILLION: u64 = 0x41cd_cd65_0000_0000;

/// A reading, held as the bit pattern of a binary64 number.
#[derive(Clone, Copy, Debug, PartialEq, Eq, Structural)]
pub struct Num {
    pub bits: u64,
}

pub open spec fn num_of(bits: u64) -> Num {
    Num { bits }
}

/// The reading with the given bit pattern.
#[verifier::when_used_as_spec(num_of)]
pub fn num(bits: u64) -> (r: Num)
    ensures
        r == num_of(bits),
{
    Num { bits }
}

/// The size of a binary64 number with the given magnitude pattern, counted in
/// units of 2 to the power of -1074 (the smallest positive number).
pub open spec fn size_of_pattern(magnitude: int) -> int {
    let exponent = magnitude / (FRACTION as int);
    let fraction = magnitude % (FRACTION as int);
    if exponent == 0 {
        fraction
    } else {
        (fraction + FRACTION) * (pow2((exponent - 1) as nat) as int)
    }
}

impl Num {
    pub open spec fn negative(self) -> bool {
        self.bits >= SIGN
    }

    pub open spec fn magnitude(self) -> int {
        if self.negative() {
            self.bits - SIGN
        } else {
            self.bits as int
        }
    }

    pub open spec fn nan(self) -> bool {
        self.magnitude() > INFINITY
    }

    pub open spec fn finite(self) -> bool {
        self.magnitude() < INFINITY
    }

    /// The place of the reading on the number line. Both zeros have rank 0.
    pub open spec fn rank(self) -> int {
        if self.negative() {
            -self.magnitude()
        } else {
            self.magnitude()
        }
    }

    /// The number that a finite reading stands for, in units of 2 to the power
    /// of -1074.
    pub open spec fn value(self) -> int {
        if self.negative() {
            -size_of_pattern(self.magnitude())
        } else {
            size_of_pattern(self.magnitude())
        }
    }

    /// `self < other`: false whenever one of the two is not a number.
    pub open spec fn below(self, other: Num) -> bool {
        !self.nan() && !other.nan() && self.rank() < other.rank()
    }

    /// `self <= other`: false whenever one of the two is not a number.
    pub open spec fn at_most(self, other: Num) -> bool {
        !self.nan() && !other.nan() && self.rank() <= other.rank()
    }

    /// The larger of two readings. A reading that is not a number gives way.
    pub open spec fn larger(self, other: Num) -> Num {
        if self.nan() || self.below(other) {
            other
        } else {
            self
        }
    }

    /// The nearest reading within `low..=high`; what is not a number stays.
    pub open spec fn held_within(self, low: Num, high: Num) -> Num {
        if self.below(low) {
            low
        } else if high.below(self) {
            high
        } else {
            self
        }
    }

    pub fn is_nan(self) -> (r: bool)
        ensures
            r == self.nan(),
    {
        if self.bits >= SIGN {
            self.bits - SIGN > INFINITY
        } else {
            self.bits > INFINITY
        }
    }

    pub fn is_finite(self) -> (r: bool)
        ensures
            r == self.finite(),
    {
        if self.bits >= SIGN {
            self.bits - SIGN < INFINITY
        } else {
            self.bits < INFINITY
        }
    }

    pub fn lt(self, other: Num) -> (r: bool)
        ensures
            r == self.below(other),
    {
        if self.is_nan() || other.is_nan() {
            return false;
        }
        if self.bits >= SIGN {
            if other.bits >= SIGN {
                other.bits < self.bits
            } else {
                self.bits != SIGN || other.bits != 0
            }
        } else {
            other.bits < SIGN && self.bits < other.bits
        }
    }

    pub fn le(self, other: Num) -> (r: bool)
        ensures
            r == self.at_most(other),
    {
        !self.is_nan() && !other.is_nan() && !other.lt(self)
    }

    pub fn gt(self, other: Num) -> (r: bool)
        ensures
            r == other.below(self),
    {
        other.lt(self)
    }

    pub fn ge(self, other: Num) -> (r: bool)
        ensures
            r == other.at_most(self),
    {
        other.le(self)
    }

    pub fn max(self, other: Num) -> (r: Num)
        ensures
            r == self.larger(other),
    {
        if self.is_nan() || self.lt(other) {
            other
        } else {
            self
        }
    }

    pub fn clamp(self, low: Num, high: Num) -> (r: Num)
        requires
            low.at_most(high),
        ensures
            r == self.held_within(low, high),
    {
        if self.lt(low) {
            low
        } else if self.gt(high) {
            high
        } else {
            self
        }
    }
}

/// Sizes grow with their patterns.
pub proof fn lemma_size_grows(a: int, b: int)
    requires
        0 <= a < b <= INFINITY,
    ensures
        0 <= size_of_pattern(a) < size_of_pattern(b),
{
    let f = FRACTION as int;
    let (ea, fa) = (a / f, a % f);
    let (eb, fb) = (b / f, b % f);
    assert(0 <= ea <= eb);
    if ea > 0 {
        lemma_pow2_pos((ea - 1) as nat);
        assert((fa + f) * pow2((ea - 1) as nat) > 0) by (nonlinear_arith)
            requires
                fa >= 0,
                f > 0,
                pow2((ea - 1) as nat) > 0,
        ;
    }
    if eb > 0 {
        let pb = pow2((eb - 1) as nat) as int;
        lemma_pow2_pos((eb - 1) as nat);
        if ea == eb {
            assert((fa + f) * pb < (fb + f) * pb) by (nonlinear_arith)
                requires
                    fa < fb,
                    pb > 0,
            ;
        } else if ea == 0 {
            assert((fb + f) * pb >= f) by (nonlinear_arith)
                requires
                    fb >= 0,
                    f > 0,
                    pb >= 1,
            ;
        } else {
            let pa = pow2((ea - 1) as nat) as int;
            if ea < eb - 1 {
                lemma_pow2_strictly_increases(ea as nat, (eb - 1) as nat);
            }
            lemma_pow2_adds(1, (ea - 1) as nat);
            lemma2_to64();
            assert(pow2(ea as nat) == 2 * pa);
            assert((fa + f) * pa < (fb + f) * pb) by (nonlinear_arith)
                requires
                    0 <= fa < f,
                    0 <= fb,
                    0 < 2 * pa <= pb,
            ;
        }
    }
}

/// Comparing two finite readings compares the numbers that they stand for.
pub proof fn law_order_is_numeric(a: Num, b: Num)
    requires
        a.finite(),
        b.finite(),
    ensures
        a.below(b) <==> a.value() < b.value(),
        a.at_most(b) <==> a.value() <= b.value(),
{
    let ma = a.magnitude();
    let mb = b.magnitude();
    if ma < mb {
        lemma_size_grows(ma, mb);
    }
    if mb < ma {
        lemma_size_grows(mb, ma);
    }
    if 0 < ma {
        lemma_size_grows(0, ma);
    }
    if 0 < mb {
        lemma_size_grows(0, mb);
    }
}

/// A reading held within a range lies in it, unless it is not a number, and a
/// second holding changes nothing.
pub proof fn lemma_held_within(a: Num, low: Num, high: Num)
    requires
        low.at_most(high),
    ensures
        !a.nan() ==> low.at_most(a.held_within(low, high)) && a.held_within(low, high).at_most(high),
        a.nan() ==> a.held_within(low, high) == a,
        low.at_most(a) && a.at_most(high) ==> a.held_within(low, high) == a,
        a.held_within(low, high).held_within(low, high) == a.held_within(low, high),
{
}

proof fn lemma_pattern_value(bits: u64, exponent: int, shift: nat, n: int)
    requires
        1023 <= exponent <= 1075,
        shift == 1075 - exponent,
        FRACTION <= n * pow2(shift) < 2 * FRACTION,
        bits == exponent * FRACTION + n * pow2(shift) - FRACTION,
    ensures
        num_of(bits).finite(),
        !num_of(bits).negative(),
        num_of(bits).value() == n * pow2(1074),
{
    let f = FRACTION as int;
    let significand = n * pow2(shift);
    assert(bits as int / f == exponent && bits as int % f == significand - f) by (nonlinear_arith)
        requires
            bits == exponent * f + (significand - f),
            0 <= significand - f < f,
    ;
    lemma_pow2_adds(shift, (exponent - 1) as nat);
    assert(significand * pow2((exponent - 1) as nat) == n * (pow2(shift) * pow2((exponent - 1) as nat)))
        by (nonlinear_arith)
        requires
            significand == n * pow2(shift),
    ;
}

/// The named patterns stand for the whole numbers that their names say.
pub proof fn lemma_named_patterns()
    ensures
        num_of(ZERO).finite() && num_of(ZERO).value() == 0,
        num_of(MINUS_ONE).finite() && num_of(MINUS_ONE).value() == -1 * pow2(1074),
        num_of(ONE).finite() && num_of(ONE).value() == 1 * pow2(1074),
        num_of(TEN).finite() && num_of(TEN).value() == 10 * pow2(1074),
        num_of(THIRTY).finite() && num_of(THIRTY).value() == 30 * pow2(1074),
        num_of(SIXTY_FOUR).finite() && num_of(SIXTY_FOUR).value() == 64 * pow2(1074),
        num_of(EIGHTY).finite() && num_of(EIGHTY).value() == 80 * pow2(1074),
        num_of(EIGHTY_FIVE).finite() && num_of(EIGHTY_FIVE).value() == 85 * pow2(1074),
        num_of(NINETY).finite() && num_of(NINETY).value() == 90 * pow2(1074),
        num_of(HUNDRED).finite() && num_of(HUNDRED).value() == 100 * pow2(1074),
        num_of(HUNDRED_TWENTY).finite() && num_of(HUNDRED_TWENTY).value() == 120 * pow2(1074),
        num_of(THOUSAND).finite() && num_of(THOUSAND).value() == 1000 * pow2(1074),
        num_of(KIBI).finite() && num_of(KIBI).value() == 1024 * pow2(1074),
        num_of(MEBI).finite() && num_of(MEBI).value() == 1_048_576 * pow2(1074),
        num_of(GIBI).finite() && num_of(GIBI).value() == 1_073_741_824 * pow2(1074),
        num_of(BILLION).finite() && num_of(BILLION).value() == 1_000_000_000 * pow2(1074),
        num_of(NAN).nan(),
{
    lemma2_to64();
    lemma2_to64_rest();
    lemma_pattern_value(ONE, 1023, 52, 1);
    lemma_pattern_value(TEN, 1026, 49, 10);
    lemma_pattern_value(THIRTY, 1027, 48, 30);
    lemma_pattern_value(SIXTY_FOUR, 1029, 46, 64);
    lemma_pattern_value(EIGHTY, 1029, 46, 80);
    lemma_pattern_value(EIGHTY_FIVE, 1029, 46, 85);
    lemma_pattern_value(NINETY, 1029, 46, 90);
    lemma_pattern_value(HUNDRED, 1029, 46, 100);
    lemma_pattern_value(HUNDRED_TWENTY, 1029, 46, 120);
    lemma_pattern_value(THOUSAND, 1032, 43, 1000);
    lemma_pattern_value(KIBI, 1033, 42, 1024);
    lemma_pattern_value(MEBI, 1043, 32, 1_048_576);
    lemma_pattern_value(GIBI, 1053, 22, 1_073_741_824);
    lemma_pattern_value(BILLION, 1052, 23, 1_000_000_000);
    assert(num_of(MINUS_ONE).magnitude() == num_of(ONE).magnitude());
}

/// A reading below a range goes to its lower end, one above it to its upper end, and
/// every other stays.
pub proof fn law_held_within(a: Num, low: Num, high: Num)
    requires
        low.at_most(high),
    ensures
        a.at_most(low) && !(a.rank() == low.rank()) ==> a.held_within(low, high) == low,
        high.at_most(a) && !(a.rank() == high.rank()) ==> a.held_within(low, high) == high,
        low.at_most(a) && a.at_most(high) ==> a.held_within(low, high) == a,
        a.nan() ==> a.held_within(low, high) == a,
{
}

/// The larger of two readings is one of them and lies below neither; what is not a
/// number gives way.
pub proof fn law_larger(a: Num, b: Num)
    ensures
        a.larger(b) == a || a.larger(b) == b,
        !a.nan() && !b.nan() ==> a.at_most(a.larger(b)) && b.at_most(a.larger(b)),
        a.nan() ==> a.larger(b) == b,
        b.nan() ==> a.larger(b) == a || a.nan(),
{
}

} // verus!
