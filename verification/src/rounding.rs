//! Rounding an exact quotient to the nearest reading.

use vstd::arithmetic::power2::{lemma2_to64, lemma2_to64_rest, lemma_pow2_adds, lemma_pow2_pos, lemma_pow2_strictly_increases, lemma_pow2_unfold, pow2};
use vstd::prelude::*;
use crate::num::{lemma_size_grows, size_of_pattern, FRACTION, INFINITY};

verus! {

/// 2 to the power of 54 and of 120.
pub const TWO_54: u128 = 0x40_0000_0000_0000;

pub const TWO_120: u128 = 0x100_0000_0000_0000_0000_0000_0000_0000;

/// Twice the halfway point between a pattern and the next one.
pub open spec fn twice_halfway(magnitude: int) -> int {
    size_of_pattern(magnitude) + size_of_pattern(magnitude + 1)
}

/// Whether `magnitude` is the pattern nearest to the quotient `n / d` (in units
/// of the smallest positive number). A quotient halfway between two patterns
/// goes to the even one. From halfway above the largest finite number on,
/// quotients go to infinity.
pub open spec fn nearest(magnitude: int, n: int, d: int) -> bool {
    &&& 0 <= magnitude <= INFINITY
    &&& magnitude > 0 ==> {
        ||| twice_halfway(magnitude - 1) * d < 2 * n
        ||| twice_halfway(magnitude - 1) * d == 2 * n && magnitude % 2 == 0
    }
    &&& magnitude < INFINITY ==> {
        ||| 2 * n < twice_halfway(magnitude) * d
        ||| 2 * n == twice_halfway(magnitude) * d && magnitude % 2 == 0
    }
}

proof fn lemma_halfway_grows(a: int, b: int)
    requires
        0 <= a <= b < INFINITY,
    ensures
        twice_halfway(a) <= twice_halfway(b),
        a < b ==> twice_halfway(a) < twice_halfway(b),
{
    if a < b {
        lemma_size_grows(a, b);
        lemma_size_grows(a + 1, b + 1);
    }
}

/// There is at most one nearest pattern.
pub proof fn lemma_nearest_unique(a: int, b: int, n: int, d: int)
    requires
        d > 0,
        nearest(a, n, d),
        nearest(b, n, d),
    ensures
        a == b,
{
    if a < b {
        lemma_above_excludes(a, b, n, d);
    }
    if b < a {
        lemma_above_excludes(b, a, n, d);
    }
}

proof fn lemma_above_excludes(a: int, b: int, n: int, d: int)
    requires
        d > 0,
        0 <= a < b <= INFINITY,
        nearest(a, n, d),
    ensures
        !nearest(b, n, d),
{
    lemma_halfway_grows(a, b - 1);
    let low = twice_halfway(a);
    let high = twice_halfway(b - 1);
    assert(low * d <= high * d) by (nonlinear_arith)
        requires
            low <= high,
            d > 0,
    ;
    assert(low < high ==> low * d < high * d) by (nonlinear_arith)
        requires
            d > 0,
    ;
}

/// The pattern nearest to the quotient `n / d`.
pub open spec fn rounded(n: int, d: int) -> int {
    choose|m: int| nearest(m, n, d)
}

proof fn lemma_nearest_below(m: int, n: int, d: int)
    requires
        0 <= m <= INFINITY,
        m < INFINITY ==> {
            ||| 2 * n < twice_halfway(m) * d
            ||| 2 * n == twice_halfway(m) * d && m % 2 == 0
        },
    ensures
        exists|k: int| nearest(k, n, d),
    decreases m,
{
    if m > 0 && !nearest(m, n, d) {
        lemma_nearest_below(m - 1, n, d);
    } else {
        assert(nearest(m, n, d));
    }
}

/// Every quotient has a nearest pattern.
pub proof fn lemma_rounded_is_nearest(n: int, d: int)
    ensures
        nearest(rounded(n, d), n, d),
        0 <= rounded(n, d) <= INFINITY,
{
    lemma_nearest_below(INFINITY as int, n, d);
}

/// A larger quotient has no smaller nearest pattern.
pub proof fn lemma_rounded_grows(n: int, d: int, m: int, e: int)
    requires
        d > 0,
        e > 0,
        n * e <= m * d,
    ensures
        rounded(n, d) <= rounded(m, e),
{
    lemma_rounded_is_nearest(n, d);
    lemma_rounded_is_nearest(m, e);
    let (a, b) = (rounded(n, d), rounded(m, e));
    if a > b {
        let (low, high) = (twice_halfway(b), twice_halfway(a - 1));
        lemma_halfway_grows(b, a - 1);
        assert(high * d <= 2 * n && 2 * m <= low * e);
        assert(low == high && high * d == 2 * n && 2 * m == low * e) by (nonlinear_arith)
            requires
                low <= high,
                high * d <= 2 * n,
                2 * m <= low * e,
                n * e <= m * d,
                d > 0,
                e > 0,
        ;
    }
}

pub proof fn lemma_rounded(magnitude: int, n: int, d: int)
    requires
        d > 0,
        nearest(magnitude, n, d),
    ensures
        rounded(n, d) == magnitude,
{
    lemma_nearest_unique(rounded(n, d), magnitude, n, d);
}

/// The size of the pattern with exponent part `e` and significand `q`.
pub proof fn lemma_size_of_parts(e: nat, q: int)
    requires
        0 <= q <= 2 * FRACTION,
        e == 0 || q >= FRACTION,
    ensures
        size_of_pattern(e * FRACTION + q) == q * pow2(e),
{
    let f = FRACTION as int;
    let m = e * f + q;
    lemma2_to64();
    if q == 2 * f {
        assert(m / f == e + 2 && m % f == 0) by (nonlinear_arith)
            requires
                m == (e + 2) * f,
                f > 0,
        ;
        lemma_pow2_unfold(e + 1);
        assert(f * (2 * pow2(e)) == (2 * f) * pow2(e)) by (nonlinear_arith);
    } else if q >= f {
        assert(m / f == e + 1 && m % f == q - f) by (nonlinear_arith)
            requires
                m == (e + 1) * f + (q - f),
                0 <= q - f < f,
        ;
    } else {
        assert(m / f == 0 && m % f == q) by (nonlinear_arith)
            requires
                m == q,
                0 <= q < f,
        ;
    }
}

#[verifier::rlimit(40)]
proof fn lemma_round_down(n: int, d: int, e: nat, q: int)
    requires
        d > 0,
        0 <= q < 2 * FRACTION,
        e == 0 || q >= FRACTION,
        e * FRACTION + q < INFINITY,
        q * pow2(e) * d <= n,
        2 * n <= (2 * q + 1) * pow2(e) * d,
        2 * n == (2 * q + 1) * pow2(e) * d ==> q % 2 == 0,
    ensures
        nearest(e * FRACTION + q, n, d),
{
    let m = e * FRACTION + q;
    let p = pow2(e) as int;
    lemma_size_of_parts(e, q);
    lemma_size_of_parts(e, q + 1);
    assert(q * p + (q + 1) * p == (2 * q + 1) * p) by (nonlinear_arith);
    assert(twice_halfway(m) == (2 * q + 1) * p);
    if m > 0 {
        lemma_size_grows(m - 1, m);
        let low = twice_halfway(m - 1);
        let at = size_of_pattern(m);
        assert(low * d < 2 * n) by (nonlinear_arith)
            requires
                low < 2 * at,
                at * d <= n,
                d > 0,
        ;
    }
    assert(m % 2 == q % 2);
}

#[verifier::rlimit(40)]
proof fn lemma_round_up(n: int, d: int, e: nat, q: int)
    requires
        d > 0,
        0 <= q < 2 * FRACTION,
        e == 0 || q >= FRACTION,
        e * FRACTION + q + 1 <= INFINITY,
        n <= (q + 1) * pow2(e) * d,
        (2 * q + 1) * pow2(e) * d <= 2 * n,
        2 * n == (2 * q + 1) * pow2(e) * d ==> q % 2 == 1,
    ensures
        nearest(e * FRACTION + q + 1, n, d),
{
    let m = e * FRACTION + q + 1;
    let p = pow2(e) as int;
    lemma_size_of_parts(e, q);
    lemma_size_of_parts(e, q + 1);
    assert(q * p + (q + 1) * p == (2 * q + 1) * p) by (nonlinear_arith);
    assert(twice_halfway(m - 1) == (2 * q + 1) * p);
    if m < INFINITY {
        lemma_size_grows(m, m + 1);
        let high = twice_halfway(m);
        let at = size_of_pattern(m);
        assert(2 * n < high * d) by (nonlinear_arith)
            requires
                2 * at < high,
                n <= at * d,
                d > 0,
        ;
    }
    assert(m % 2 == (q + 1) % 2);
}

proof fn lemma_round_to_infinity(n: int, d: int)
    requires
        d > 0,
        FRACTION * pow2(2046) * d <= n,
    ensures
        nearest(INFINITY as int, n, d),
{
    lemma_size_of_parts(2046, FRACTION as int);
    lemma_size_grows(INFINITY - 1, INFINITY as int);
    let low = twice_halfway(INFINITY - 1);
    let at = size_of_pattern(INFINITY as int);
    assert(low * d < 2 * n) by (nonlinear_arith)
        requires
            low < 2 * at,
            at * d <= n,
            d > 0,
    ;
}

/// 2 to the power of `k`.
pub fn power_of_two(k: u32) -> (r: u128)
    requires
        k <= 120,
    ensures
        r == pow2(k as nat),
        1 <= r <= TWO_120,
{
    let mut r: u128 = 1;
    let mut i: u32 = 0;
    proof {
        lemma2_to64();
        lemma2_to64_rest();
        lemma_pow2_adds(60, 60);
    }
    while i < k
        invariant
            i <= k <= 120,
            r == pow2(i as nat),
            1 <= r <= TWO_120,
            pow2(120) == TWO_120,
        decreases k - i,
    {
        proof {
            lemma_pow2_unfold((i + 1) as nat);
            if i + 1 < 120 {
                lemma_pow2_strictly_increases((i + 1) as nat, 120);
            }
        }
        r = r * 2;
        i = i + 1;
    }
    r
}

/// The number of binary digits of `m`.
fn bit_length(m: u128) -> (l: u32)
    requires
        1 <= m < TWO_120,
    ensures
        1 <= l <= 120,
        pow2((l - 1) as nat) <= m < pow2(l as nat),
{
    let mut l: u32 = 1;
    let mut p: u128 = 2;
    proof {
        lemma2_to64();
        lemma2_to64_rest();
        lemma_pow2_adds(60, 60);
    }
    while p <= m
        invariant
            1 <= l <= 120,
            1 <= m < TWO_120,
            pow2(120) == TWO_120,
            p == pow2(l as nat),
            pow2((l - 1) as nat) <= m,
        decreases 121 - l,
    {
        proof {
            if l >= 120 {
                assert(false);
            }
            lemma_pow2_unfold((l + 1) as nat);
            lemma_pow2_strictly_increases(l as nat, 120);
        }
        p = p * 2;
        l = l + 1;
    }
    l
}

/// With `e + down == up + shift`, a comparison of `n / d` at scale `2^e` is a
/// comparison of the scaled quotient at scale `2^shift`.
proof fn lemma_rescale(k: int, d: int, e: nat, shift: nat, up: nat, down: nat)
    requires
        e + down == up + shift,
    ensures
        (k * pow2(e) * d) * pow2(down) == (k * pow2(shift)) * (d * pow2(up)),
{
    lemma_pow2_adds(e, down);
    lemma_pow2_adds(shift, up);
    let (pe, pd, ps, pu) = (pow2(e) as int, pow2(down) as int, pow2(shift) as int, pow2(up) as int);
    assert((k * pe * d) * pd == k * d * (pe * pd)) by (nonlinear_arith);
    assert((k * ps) * (d * pu) == k * d * (ps * pu)) by (nonlinear_arith);
}

proof fn lemma_cancel(a: int, b: int, c: int)
    requires
        c > 0,
    ensures
        a * c <= b * c ==> a <= b,
        a * c < b * c ==> a < b,
        a * c == b * c ==> a == b,
{
    assert(a * c <= b * c ==> a <= b) by (nonlinear_arith)
        requires
            c > 0,
    ;
    assert(a * c < b * c ==> a < b) by (nonlinear_arith)
        requires
            c > 0,
    ;
    assert(a * c == b * c ==> a == b) by (nonlinear_arith)
        requires
            c > 0,
    ;
}

/// The pattern nearest to `n / d`, from the whole part `m` of
/// `(n * 2^down) / (d * 2^up)`; `inexact` says whether a remainder was cut off.
pub fn round_pattern(
    m: u128,
    up: u32,
    down: u32,
    inexact: bool,
    Ghost(n): Ghost<int>,
    Ghost(d): Ghost<int>,
) -> (r: u64)
    requires
        1 <= m < TWO_120,
        up <= 8000,
        down <= 8000,
        d > 0,
        m * (d * pow2(up as nat)) <= n * pow2(down as nat) < (m + 1) * (d * pow2(up as nat)),
        inexact <==> n * pow2(down as nat) != m * (d * pow2(up as nat)),
        inexact ==> m >= TWO_54,
    ensures
        nearest(r as int, n, d),
{
    let l = bit_length(m);
    let top: i64 = l as i64 + up as i64 - down as i64 - 53;
    let e: i64 = if top > 0 {
        top
    } else {
        0
    };
    let shift: i64 = e + down as i64 - up as i64;
    let ghost y = d * pow2(up as nat);
    let ghost x = n * pow2(down as nat);
    let ghost pe = pow2(e as nat) as int;
    let ghost pd = pow2(down as nat) as int;
    proof {
        lemma2_to64();
        lemma2_to64_rest();
        lemma_pow2_adds(60, 60);
        lemma_pow2_pos(up as nat);
        lemma_pow2_pos(down as nat);
        lemma_pow2_pos(e as nat);
        assert(y > 0) by (nonlinear_arith)
            requires
                y == d * pow2(up as nat),
                d > 0,
                pow2(up as nat) > 0,
        ;
    }
    if shift > 120 {
        proof {
            let s = shift as nat;
            if s > 121 {
                lemma_pow2_strictly_increases(121, s);
            }
            lemma_pow2_unfold(121);
            lemma_rescale(1, d, 0, s, up as nat, down as nat);
            let ps = pow2(s) as int;
            assert(2 * x < ps * y) by (nonlinear_arith)
                requires
                    x < (m + 1) * y,
                    2 * (m + 1) <= ps,
                    y > 0,
            ;
            assert((2 * n) * pd == 2 * x) by (nonlinear_arith)
                requires
                    x == n * pd,
            ;
            lemma_cancel(2 * n, d, pd);
            lemma_cancel(0, n, pd);
            assert(0 <= m * y) by (nonlinear_arith)
                requires
                    m >= 0,
                    y > 0,
            ;
            assert(0 * pow2(0) * d == 0 && (2 * 0 + 1) * pow2(0) * d == d) by (nonlinear_arith)
                requires
                    pow2(0) == 1,
            ;
            lemma_round_down(n, d, 0, 0);
        }
        return 0;
    }
    let mut q: u64 = 0;
    let mut above: bool = false;
    let mut tie: bool = false;
    if shift <= 0 {
        let widen: u32 = (-shift) as u32;
        let p = power_of_two(widen);
        proof {
            lemma_pow2_adds(l as nat, widen as nat);
            if l + widen < 53 {
                lemma_pow2_strictly_increases((l + widen) as nat, 53);
            }
            let pw = pow2(widen as nat) as int;
            assert(m * pw < pow2(l as nat) * pw) by (nonlinear_arith)
                requires
                    m < pow2(l as nat),
                    pw > 0,
            ;
            if e > 0 {
                lemma_pow2_adds((l - 1) as nat, widen as nat);
                assert(pow2((l - 1) as nat) * pw <= m * pw) by (nonlinear_arith)
                    requires
                        pow2((l - 1) as nat) <= m,
                        pw > 0,
                ;
            }
        }
        q = (m * p) as u64;
        proof {
            assert(!inexact) by {
                if inexact {
                    assert(l >= 55) by {
                        if l < 55 {
                            lemma2_to64_rest();
                            if l < 54 {
                                lemma_pow2_strictly_increases(l as nat, 54);
                            }
                        }
                    }
                }
            }
            // The quotient is exact: n / d == q * 2^e.
            lemma_pow2_adds(e as nat, down as nat);
            lemma_pow2_adds(widen as nat, (e + down) as nat);
            lemma_rescale_exact(q as int, m as int, d, e as nat, widen as nat, up as nat, down as nat);
            lemma_cancel(q * pe * d, n, pd);
            assert(n == q * pe * d);
        }
    } else {
        let p = power_of_two(shift as u32);
        let half = power_of_two((shift - 1) as u32);
        let rem = m % p;
        proof {
            lemma_pow2_unfold(shift as nat);
            vstd::arithmetic::div_mod::lemma_fundamental_div_mod(m as int, p as int);
            let s = shift as nat;
            let ps = p as int;
            let whole = m as int / ps;
            assert(m == whole * ps + rem) by (nonlinear_arith)
                requires
                    m == ps * whole + rem,
            ;
            lemma_pow2_adds(s, 53);
            lemma_pow2_adds(s, 52);
            if l < s + 53 {
                lemma_pow2_strictly_increases(l as nat, s + 53);
            }
            assert(whole < pow2(53)) by (nonlinear_arith)
                requires
                    m == whole * ps + rem,
                    rem >= 0,
                    m < ps * pow2(53),
                    ps > 0,
            ;
            if e > 0 {
                assert(whole >= pow2(52)) by (nonlinear_arith)
                    requires
                        m == whole * ps + rem,
                        rem < ps,
                        m >= ps * pow2(52),
                        ps > 0,
                ;
            }
        }
        q = (m / p) as u64;
        above = rem > half || (rem == half && inexact);
        tie = rem == half && !inexact;
        proof {
            let s = shift as nat;
            let ps = p as int;
            lemma_rescale(q as int, d, e as nat, s, up as nat, down as nat);
            lemma_rescale(q + 1, d, e as nat, s, up as nat, down as nat);
            lemma_rescale(2 * q + 1, d, e as nat, s, up as nat, down as nat);
            assert((2 * q + 1) * ps == 2 * (q * ps + half)) by (nonlinear_arith)
                requires
                    ps == 2 * half,
            ;
            assert((q + 1) * ps == q * ps + ps) by (nonlinear_arith);
            lemma_sides(x, y, m as int, q * ps, ps, half as int, inexact);
            assert((2 * n) * pd == 2 * x) by (nonlinear_arith)
                requires
                    x == n * pd,
            ;
            let mid = (2 * q + 1) * pe * d;
            lemma_cancel(q * pe * d, n, pd);
            lemma_cancel(n, (q + 1) * pe * d, pd);
            lemma_cancel(2 * n, mid, pd);
            lemma_cancel(mid, 2 * n, pd);
        }
    }
    if e >= 2046 {
        proof {
            if e > 2046 {
                lemma_pow2_strictly_increases(2046, e as nat);
            }
            assert(FRACTION * pow2(2046) * d <= q * pe * d) by (nonlinear_arith)
                requires
                    FRACTION <= q,
                    0 <= pow2(2046) <= pe,
                    d > 0,
            ;
            lemma_round_to_infinity(n, d);
        }
        return INFINITY;
    }
    if above || (tie && q % 2 == 1) {
        proof {
            lemma_round_up(n, d, e as nat, q as int);
        }
        e as u64 * FRACTION + q + 1
    } else {
        proof {
            if shift <= 0 {
                assert(2 * (q * pe * d) < (2 * q + 1) * pe * d) by (nonlinear_arith)
                    requires
                        pe > 0,
                        d > 0,
                ;
            }
            lemma_round_down(n, d, e as nat, q as int);
        }
        e as u64 * FRACTION + q
    }
}

proof fn lemma_rescale_exact(q: int, m: int, d: int, e: nat, widen: nat, up: nat, down: nat)
    requires
        e + down + widen == up,
        q == m * pow2(widen),
    ensures
        (q * pow2(e) * d) * pow2(down) == m * (d * pow2(up)),
{
    lemma_pow2_adds(e, down);
    lemma_pow2_adds(widen, e + down);
    let (pe, pd, pw) = (pow2(e) as int, pow2(down) as int, pow2(widen) as int);
    assert(((m * pw) * pe * d) * pd == m * (d * (pw * (pe * pd)))) by (nonlinear_arith);
}

/// Where the scaled quotient `x / y`, with whole part `m`, lies within the
/// stretch of length `2 * half` that starts at `base`.
proof fn lemma_sides(x: int, y: int, m: int, base: int, len: int, half: int, inexact: bool)
    requires
        y > 0,
        base <= m < base + len,
        len == 2 * half,
        m * y <= x < (m + 1) * y,
        inexact <==> x != m * y,
    ensures
        base * y <= x < (base + len) * y,
        m - base < half ==> 2 * x < (2 * (base + half)) * y,
        m - base > half ==> 2 * x > (2 * (base + half)) * y,
        m - base == half && inexact ==> 2 * x > (2 * (base + half)) * y,
        m - base == half && !inexact ==> 2 * x == (2 * (base + half)) * y,
{
    assert(base * y <= m * y) by (nonlinear_arith)
        requires
            base <= m,
            y > 0,
    ;
    assert((m + 1) * y <= (base + len) * y) by (nonlinear_arith)
        requires
            m + 1 <= base + len,
            y > 0,
    ;
    if m - base < half {
        assert(2 * x < (2 * (base + half)) * y) by (nonlinear_arith)
            requires
                x < (m + 1) * y,
                m + 1 <= base + half,
                y > 0,
        ;
    }
    if m - base > half {
        assert(2 * x > (2 * (base + half)) * y) by (nonlinear_arith)
            requires
                x >= m * y,
                m > base + half,
                y > 0,
        ;
    }
    if m - base == half {
        assert(m == base + half);
        assert((2 * m) * y == 2 * (m * y)) by (nonlinear_arith);
    }
}

/// A whole number below 2 to the power of 53, times a power of two, has a pattern of
/// its own.
pub proof fn lemma_has_pattern(q: int, e: nat) -> (m: int)
    requires
        0 <= q < 2 * FRACTION,
        e <= 2000,
    ensures
        0 <= m < INFINITY,
        size_of_pattern(m) == q * pow2(e),
    decreases e,
{
    if q >= FRACTION || e == 0 {
        lemma_size_of_parts(e, q);
        e * FRACTION + q
    } else {
        let m = lemma_has_pattern(2 * q, (e - 1) as nat);
        lemma_pow2_unfold(e);
        let p = pow2((e - 1) as nat) as int;
        assert((2 * q) * p == q * (2 * p)) by (nonlinear_arith);
        m
    }
}

proof fn lemma_gap(m: int, e: nat)
    requires
        0 <= m <= (e + 1) * FRACTION,
        e <= 2000,
    ensures
        size_of_pattern(m + 1) - size_of_pattern(m) <= pow2(e),
{
    let f = FRACTION as int;
    let (x, q) = (m / f, m % f);
    lemma2_to64();
    lemma_pow2_pos(e);
    if x == 0 {
        lemma_size_of_parts(0, q);
        lemma_size_of_parts(0, q + 1);
        if e > 0 {
            lemma_pow2_strictly_increases(0, e);
        }
    } else {
        let k = (x - 1) as nat;
        lemma_size_of_parts(k, q + f);
        lemma_size_of_parts(k, q + f + 1);
        assert(m == k * f + (q + f));
        assert((q + f + 1) * pow2(k) - (q + f) * pow2(k) == pow2(k)) by (nonlinear_arith);
        assert(k <= e);
        if k < e {
            lemma_pow2_strictly_increases(k, e);
        }
    }
}

/// How far rounding goes: a quotient of at most 2 to the power of `52 + e` is moved by
/// at most half of 2 to the power of `e`.
pub proof fn lemma_rounding_error(n: int, d: int, e: nat)
    requires
        d > 0,
        0 <= n <= d * (FRACTION * pow2(e)),
        e <= 2000,
    ensures
        0 <= rounded(n, d) <= (e + 1) * FRACTION,
        rounded(n, d) < INFINITY,
        0 <= size_of_pattern(rounded(n, d)) <= FRACTION * pow2(e),
        -d * pow2(e) <= 2 * (size_of_pattern(rounded(n, d)) * d - n) <= d * pow2(e),
{
    let f = FRACTION as int;
    let top = (e + 1) * f;
    let p = pow2(e) as int;
    lemma_size_of_parts(e, f);
    assert(top == e * f + f);
    lemma_rounded_is_nearest(n, d);
    let r = rounded(n, d);
    let at = size_of_pattern(r);
    assert(r <= top) by {
        if r > top {
            lemma_size_grows(top, r);
            if top < r - 1 {
                lemma_size_grows(top, r - 1);
            }
            let low = twice_halfway(r - 1);
            assert(low > 2 * (f * p));
            assert(low * d > 2 * n) by (nonlinear_arith)
                requires
                    low > 2 * (f * p),
                    d > 0,
                    n <= d * (f * p),
            ;
        }
    }
    if r < top {
        lemma_size_grows(r, top);
    }
    lemma_gap(r, e);
    let up = size_of_pattern(r + 1);
    assert(2 * n <= (at + up) * d);
    assert(2 * (at * d - n) >= -d * p) by (nonlinear_arith)
        requires
            2 * n <= (at + up) * d,
            up - at <= p,
            d > 0,
    ;
    if r > 0 {
        lemma_gap(r - 1, e);
        let low = size_of_pattern(r - 1);
        assert((low + at) * d <= 2 * n);
        assert(2 * (at * d - n) <= d * p) by (nonlinear_arith)
            requires
                (low + at) * d <= 2 * n,
                at - low <= p,
                d > 0,
        ;
        lemma_size_grows(0, r);
    } else {
        lemma_pow2_pos(e);
        assert(2 * (0 * d - n) <= d * p) by (nonlinear_arith)
            requires
                n >= 0,
                d > 0,
                p > 0,
        ;
    }
}

/// Neighbouring patterns from `(e + 1)` exponent steps on lie at least 2 to the power of
/// `e` apart.
pub proof fn lemma_apart(m: int, e: nat, d: nat)
    requires
        (e + 1) * FRACTION <= m - d,
        m <= INFINITY,
    ensures
        size_of_pattern(m - d) + d * pow2(e) <= size_of_pattern(m),
    decreases d,
{
    let p = pow2(e) as int;
    if d == 0 {
        assert(0 * p == 0);
    } else {
        lemma_apart(m, e, (d - 1) as nat);
        let f = FRACTION as int;
        let low = m - d;
        let (x, q) = (low / f, low % f);
        let k = (x - 1) as nat;
        assert(x >= e + 1);
        lemma_size_of_parts(k, q + f);
        lemma_size_of_parts(k, q + f + 1);
        assert(low == k * f + (q + f));
        assert((q + f + 1) * pow2(k) - (q + f) * pow2(k) == pow2(k)) by (nonlinear_arith);
        if e < k {
            lemma_pow2_strictly_increases(e, k);
        }
        assert(d * p == (d - 1) * p + p) by (nonlinear_arith);
    }
}

} // verus!
