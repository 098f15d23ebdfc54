//! Readings from text: decimal numbers, rounded to the nearest reading.

use vstd::arithmetic::power::{lemma_pow0, lemma_pow_adds, lemma_pow_increases, lemma_pow_positive, pow};
use vstd::arithmetic::power2::{lemma2_to64, lemma2_to64_rest, lemma_pow2_adds, lemma_pow2_pos, lemma_pow2_strictly_increases, pow2};
use vstd::prelude::*;
use crate::arith::{of_whole, parts, signed_pattern, unit};
use crate::bignat::{BigNat, Side};
use crate::digits::{all_digits, digits_value, is_digit};
use crate::num::{num, num_of, size_of_pattern, Num, FRACTION, INFINITY, NAN, SIGN};
use crate::rounding::{lemma_rounded, lemma_size_of_parts, nearest, rounded, twice_halfway};
use crate::text::ascii_lower;

verus! {

/// The pattern nearest to `digits * 10^exponent`.
pub open spec fn decimal_pattern(digits: nat, exponent: int) -> int {
    if exponent >= 0 {
        rounded(digits * pow(10, exponent as nat) * unit(), 1)
    } else {
        rounded(digits * unit(), pow(10, (-exponent) as nat))
    }
}

/// Index of the first character that satisfies a test, or the length.
pub open spec fn first_where(text: Seq<char>, test: spec_fn(char) -> bool) -> int
    decreases text.len(),
{
    if text.len() == 0 || test(text[0]) {
        0
    } else {
        1 + first_where(text.drop_first(), test)
    }
}

pub open spec fn is_exponent_mark(c: char) -> bool {
    c == 'e' || c == 'E'
}

pub open spec fn is_point(c: char) -> bool {
    c == '.'
}

pub open spec fn is_sign(c: char) -> bool {
    c == '+' || c == '-'
}

/// What follows an optional sign.
pub open spec fn unsigned(text: Seq<char>) -> Seq<char> {
    if text.len() > 0 && is_sign(text[0]) {
        text.skip(1)
    } else {
        text
    }
}

pub open spec fn has_minus(text: Seq<char>) -> bool {
    text.len() > 0 && text[0] == '-'
}

/// The digits before and after the point.
pub open spec fn whole_digits(mantissa: Seq<char>) -> Seq<char> {
    mantissa.take(first_where(mantissa, |c: char| is_point(c)))
}

pub open spec fn fraction_digits(mantissa: Seq<char>) -> Seq<char> {
    let at = first_where(mantissa, |c: char| is_point(c));
    if at < mantissa.len() {
        mantissa.skip(at + 1)
    } else {
        Seq::empty()
    }
}

/// A mantissa is digits with at most one point, and at least one digit.
pub open spec fn valid_mantissa(mantissa: Seq<char>) -> bool {
    &&& all_digits(whole_digits(mantissa))
    &&& all_digits(fraction_digits(mantissa))
    &&& whole_digits(mantissa).len() + fraction_digits(mantissa).len() > 0
}

/// An exponent is digits after an optional sign.
pub open spec fn valid_exponent(text: Seq<char>) -> bool {
    unsigned(text).len() > 0 && all_digits(unsigned(text))
}

pub open spec fn exponent_value(text: Seq<char>) -> int {
    let size = digits_value(unsigned(text)) as int;
    if has_minus(text) {
        -size
    } else {
        size
    }
}

/// The magnitude that an unsigned decimal number names.
pub open spec fn decimal_magnitude(body: Seq<char>) -> Option<int> {
    let mark = first_where(body, |c: char| is_exponent_mark(c));
    let mantissa = body.take(mark);
    let digits = digits_value(whole_digits(mantissa) + fraction_digits(mantissa));
    let places = fraction_digits(mantissa).len() as int;
    if !valid_mantissa(mantissa) {
        None
    } else if mark == body.len() {
        Some(decimal_pattern(digits, -places))
    } else if valid_exponent(body.skip(mark + 1)) {
        Some(decimal_pattern(digits, exponent_value(body.skip(mark + 1)) - places))
    } else {
        None
    }
}

/// Whether a text is the given word in any mix of capital and small letters.
pub open spec fn is_word(text: Seq<char>, word: Seq<char>) -> bool {
    text.map_values(|c: char| ascii_lower(c)) == word
}

/// The reading that a text names: a decimal number with an optional sign, point
/// and exponent, or one of the words `inf`, `infinity` and `nan`.
pub open spec fn number_named(text: Seq<char>) -> Option<Num> {
    let body = unsigned(text);
    let negative = has_minus(text);
    if is_word(body, seq!['i', 'n', 'f']) || is_word(
        body,
        seq!['i', 'n', 'f', 'i', 'n', 'i', 't', 'y'],
    ) {
        Some(signed_pattern(negative, INFINITY as int))
    } else if is_word(body, seq!['n', 'a', 'n']) {
        Some(num_of(NAN))
    } else {
        match decimal_magnitude(body) {
            Some(magnitude) => Some(signed_pattern(negative, magnitude)),
            None => None,
        }
    }
}

// --- Finding the nearest pattern -------------------------------------------

/// Whether the quotient `n / d` rounds to a pattern above `m`.
pub open spec fn rounds_above(m: int, n: int, d: int) -> bool {
    ||| twice_halfway(m) * d < 2 * n
    ||| twice_halfway(m) * d == 2 * n && m % 2 == 1
}

/// Compares twice the halfway point above `m`, times `d`, with `2 * n`.
fn probe(m: u64, twice_n: &BigNat, d: &BigNat) -> (r: bool)
    requires
        m < INFINITY,
        twice_n@ % 2 == 0,
    ensures
        r == rounds_above(m as int, twice_n@ as int / 2, d@ as int),
{
    let (q, e) = parts(m);
    let mut bound = BigNat { limbs: d.limbs.clone() };
    assert(bound.limbs@ == d.limbs@);
    let odd: u64 = 2 * q + 1;
    bound.multiply_add(odd, 0);
    bound.shift_up(e);
    proof {
        lemma_size_of_parts(e as nat, q as int);
        lemma_size_of_parts(e as nat, q + 1);
        let p = pow2(e as nat) as int;
        assert((d@ * odd) * p == (q * p + (q + 1) * p) * d@) by (nonlinear_arith)
            requires
                odd == 2 * q + 1,
        ;
        assert(m % 2 == q % 2);
    }
    match bound.compare(twice_n) {
        Side::Below => true,
        Side::Level => q % 2 == 1,
        Side::Above => false,
    }
}

/// The pattern nearest to `twice_n / 2 / d`.
fn nearest_pattern(twice_n: &BigNat, d: &BigNat) -> (r: u64)
    requires
        twice_n@ % 2 == 0,
        d@ > 0,
    ensures
        r <= INFINITY,
        nearest(r as int, twice_n@ as int / 2, d@ as int),
{
    let mut low: u64 = 0;
    let mut high: u64 = INFINITY;
    while low < high
        invariant
            low <= high <= INFINITY,
            twice_n@ % 2 == 0,
            low > 0 ==> rounds_above(low - 1, twice_n@ as int / 2, d@ as int),
            high < INFINITY ==> !rounds_above(high as int, twice_n@ as int / 2, d@ as int),
        decreases high - low,
    {
        let mid: u64 = low + (high - low) / 2;
        if probe(mid, twice_n, d) {
            low = mid + 1;
        } else {
            high = mid;
        }
    }
    low
}

/// `n * 10^k`.
fn times_power_of_ten(n: &mut BigNat, k: u128)
    ensures
        final(n)@ == old(n)@ * pow(10, k as nat),
{
    let mut i: u128 = 0;
    proof {
        lemma_pow0(10);
        assert(old(n)@ * 1 == old(n)@);
    }
    while i < k
        invariant
            i <= k,
            n@ == old(n)@ * pow(10, i as nat),
        decreases k - i,
    {
        proof {
            lemma_pow_adds(10, i as nat, 1);
            vstd::arithmetic::power::lemma_pow1(10);
            let p = pow(10, i as nat);
            let start = old(n)@;
            assert((start * p) * 10 == start * (p * 10)) by (nonlinear_arith);
        }
        n.multiply_add(10, 0);
        i = i + 1;
    }
}

/// 10^k is at least 2^(3 k).
proof fn lemma_ten_exceeds_eight(k: nat)
    ensures
        pow(10, k) >= pow2(3 * k),
        pow(10, k) > 0,
    decreases k,
{
    lemma_pow_positive(10, k);
    lemma2_to64();
    if k == 0 {
        lemma_pow0(10);
    } else {
        lemma_ten_exceeds_eight((k - 1) as nat);
        lemma_pow_adds(10, (k - 1) as nat, 1);
        vstd::arithmetic::power::lemma_pow1(10);
        lemma_pow2_adds(3 * (k - 1) as nat, 3);
        let (a, b) = (pow(10, (k - 1) as nat), pow2(3 * (k - 1) as nat) as int);
        assert(a * 10 >= b * 8) by (nonlinear_arith)
            requires
                a >= b,
                b >= 0,
        ;
    }
}

proof fn lemma_digits_bound(text: Seq<char>)
    requires
        all_digits(text),
    ensures
        digits_value(text) < pow(10, text.len()),
    decreases text.len(),
{
    lemma_pow0(10);
    if text.len() > 0 {
        assert(all_digits(text.drop_last()));
        lemma_digits_bound(text.drop_last());
        lemma_pow_adds(10, (text.len() - 1) as nat, 1);
        vstd::arithmetic::power::lemma_pow1(10);
        assert(is_digit(text.last()));
    }
}

proof fn lemma_digits_lead(text: Seq<char>)
    requires
        all_digits(text),
        text.len() > 0,
        text[0] != '0',
    ensures
        digits_value(text) >= pow(10, (text.len() - 1) as nat),
    decreases text.len(),
{
    lemma_pow0(10);
    assert(is_digit(text.last()));
    if text.len() == 1 {
        assert(digits_value(text.drop_last()) == 0);
    } else {
        assert(all_digits(text.drop_last()));
        lemma_digits_lead(text.drop_last());
        lemma_pow_adds(10, (text.len() - 2) as nat, 1);
        vstd::arithmetic::power::lemma_pow1(10);
    }
}

proof fn lemma_leading_zeros(text: Seq<char>, k: int)
    requires
        0 <= k <= text.len(),
        forall|i: int| 0 <= i < k ==> text[i] == '0',
    ensures
        digits_value(text) == digits_value(text.skip(k)),
    decreases text.len(),
{
    if k == text.len() {
        if text.len() > 0 {
            assert(text.drop_last().skip(k - 1) == Seq::<char>::empty());
            lemma_leading_zeros(text.drop_last(), k - 1);
        }
        assert(text.skip(k) == Seq::<char>::empty());
    } else {
        assert(text.skip(k).drop_last() == text.drop_last().skip(k));
        lemma_leading_zeros(text.drop_last(), k);
    }
}

/// A number of at least 10^400 rounds to infinity.
proof fn lemma_too_large(digits: nat, exponent: int, count: nat)
    requires
        count >= 1,
        digits >= pow(10, (count - 1) as nat),
        count + exponent > 400,
    ensures
        decimal_pattern(digits, exponent) == INFINITY,
{
    let u = unit();
    lemma_pow2_pos(1074);
    lemma_size_of_parts(2046, FRACTION as int);
    crate::num::lemma_size_grows(INFINITY - 1, INFINITY as int);
    let low = twice_halfway(INFINITY - 1);
    let top = size_of_pattern(INFINITY as int);
    lemma2_to64();
    lemma2_to64_rest();
    lemma_pow2_adds(52, 2046);
    lemma_pow2_adds(1024, 1074);
    lemma_pow2_strictly_increases(1024, 1200);
    lemma_ten_exceeds_eight(400);
    if exponent >= 0 {
        let k = exponent as nat;
        lemma_pow_adds(10, (count - 1) as nat, k);
        lemma_pow_increases(10, 400, (count - 1 + k) as nat);
        lemma_pow_positive(10, k);
        let (pc, pk) = (pow(10, (count - 1) as nat), pow(10, k));
        let n = digits * pk * u;
        assert(digits * pk >= pc * pk) by (nonlinear_arith)
            requires
                digits >= pc,
                pk > 0,
        ;
        assert(n >= pow2(1024) * u) by (nonlinear_arith)
            requires
                n == (digits * pk) * u,
                digits * pk >= pow2(1024),
                u > 0,
        ;
        assert(low * 1 < 2 * n);
        lemma_rounded(INFINITY as int, n, 1);
    } else {
        let k = (-exponent) as nat;
        let d = pow(10, k);
        lemma_pow_positive(10, k);
        lemma_pow_adds(10, (count - 1 - k) as nat, k);
        lemma_pow_increases(10, 400, (count - 1 - k) as nat);
        let g = pow(10, (count - 1 - k) as nat);
        let n = digits * u;
        assert(n >= (pow2(1024) * u) * d) by (nonlinear_arith)
            requires
                n == digits * u,
                digits >= g * d,
                g >= pow2(1024),
                u > 0,
                d > 0,
        ;
        assert(low * d < 2 * n) by (nonlinear_arith)
            requires
                low < 2 * top,
                n >= top * d,
                d > 0,
        ;
        lemma_rounded(INFINITY as int, n, d);
    }
}

/// A number below 10^-400 rounds to zero.
proof fn lemma_too_small(digits: nat, exponent: int, count: nat)
    requires
        digits < pow(10, count),
        count + exponent < -400,
    ensures
        decimal_pattern(digits, exponent) == 0,
{
    let u = unit();
    lemma_pow2_pos(1074);
    lemma2_to64();
    lemma_size_of_parts(0, 0);
    lemma_size_of_parts(0, 1);
    lemma_ten_exceeds_eight(401);
    lemma_pow2_strictly_increases(1075, 1203);
    vstd::arithmetic::power2::lemma_pow2_unfold(1075);
    let k = (-exponent) as nat;
    let d = pow(10, k);
    lemma_pow_adds(10, count, (k - count) as nat);
    lemma_pow_increases(10, 401, (k - count) as nat);
    lemma_pow_positive(10, count);
    let (pc, g) = (pow(10, count), pow(10, (k - count) as nat));
    let n = digits * u;
    assert(2 * n < d) by (nonlinear_arith)
        requires
            n == digits * u,
            0 <= digits < pc,
            d == pc * g,
            2 * u < g,
            u > 0,
    ;
    assert(d > 0) by {
        lemma_pow_positive(10, k);
    }
    assert(twice_halfway(0) == 1);
    lemma_rounded(0, n, d);
}

/// The pattern nearest to a row of digits times a power of ten.
fn scaled_digits(digits: &Vec<char>, exponent: i128) -> (r: u64)
    requires
        all_digits(digits@),
        -0x1_0000_0000_0000_0000_0000_0000 < exponent < 0x1_0000_0000_0000_0000_0000_0000,
    ensures
        r <= INFINITY,
        r == decimal_pattern(digits_value(digits@), exponent as int),
{
    let mut lead: usize = 0;
    while lead < digits.len() && digits[lead] == '0'
        invariant
            lead <= digits.len(),
            forall|i: int| 0 <= i < lead ==> digits@[i] == '0',
        decreases digits.len() - lead,
    {
        lead = lead + 1;
    }
    let ghost body = digits@.skip(lead as int);
    let ghost value = digits_value(digits@);
    let ghost u = unit();
    let count: usize = digits.len() - lead;
    proof {
        lemma_leading_zeros(digits@, lead as int);
        assert(all_digits(body));
        lemma_digits_bound(body);
        lemma_pow2_pos(1074);
        lemma2_to64();
        lemma_pow0(10);
    }
    if count > 0 && count as i128 + exponent > 400 {
        proof {
            lemma_digits_lead(body);
            lemma_too_large(value, exponent as int, count as nat);
        }
        return INFINITY;
    }
    if count as i128 + exponent < -400 {
        proof {
            lemma_too_small(value, exponent as int, count as nat);
        }
        return 0;
    }
    if count == 0 {
        proof {
            assert(value == 0);
            if exponent >= 0 {
                let p = pow(10, exponent as nat);
                assert(value * p * u == 0) by (nonlinear_arith)
                    requires
                        value == 0,
                ;
                lemma_zero_pattern(1);
            } else {
                lemma_pow_positive(10, (-exponent) as nat);
                assert(value * u == 0) by (nonlinear_arith)
                    requires
                        value == 0,
                ;
                lemma_zero_pattern(pow(10, (-exponent) as nat));
            }
        }
        return 0;
    }
    let mut n = BigNat::small(0);
    let mut i: usize = lead;
    assert(body.take(0) == Seq::<char>::empty());
    while i < digits.len()
        invariant
            lead <= i <= digits.len(),
            body == digits@.skip(lead as int),
            all_digits(body),
            n@ == digits_value(body.take(i - lead)),
        decreases digits.len() - i,
    {
        let c = digits[i];
        assert(body[i - lead] == c && is_digit(body[i - lead]));
        assert(body.take(i + 1 - lead).drop_last() == body.take(i - lead));
        n.multiply_add(10, c as u64 - 48);
        i = i + 1;
    }
    assert(body.take(body.len() as int) == body);
    let mut d = BigNat::small(1);
    if exponent >= 0 {
        times_power_of_ten(&mut n, exponent as u128);
    } else {
        times_power_of_ten(&mut d, (-exponent) as u128);
    }
    let ghost whole = n@;
    n.shift_up(1075);
    proof {
        vstd::arithmetic::power2::lemma_pow2_unfold(1075);
        assert(n@ == 2 * (whole * u)) by (nonlinear_arith)
            requires
                n@ == whole * (2 * u),
        ;
        lemma_pow_positive(10, (if exponent >= 0 {
            0int
        } else {
            -exponent as int
        }) as nat);
    }
    let r = nearest_pattern(&n, &d);
    proof {
        assert(n@ as int / 2 == whole * u);
        lemma_rounded(r as int, whole * u, d@ as int);
        if exponent >= 0 {
            assert(whole == value * pow(10, exponent as nat));
            assert(d@ == 1);
        } else {
            assert(whole == value);
            assert(d@ as int == pow(10, (-exponent) as nat));
        }
    }
    r
}

proof fn lemma_zero_pattern(d: int)
    requires
        d > 0,
    ensures
        rounded(0, d) == 0,
{
    lemma2_to64();
    lemma_size_of_parts(0, 0);
    lemma_size_of_parts(0, 1);
    assert(twice_halfway(0) == 1);
    lemma_rounded(0, 0, d);
}

fn index_of_mark(text: &Vec<char>) -> (r: usize)
    ensures
        r <= text.len(),
        r == first_where(text@, |c: char| is_exponent_mark(c)),
{
    let ghost test = |c: char| is_exponent_mark(c);
    let mut i: usize = 0;
    assert(text@.skip(0) == text@);
    while i < text.len()
        invariant
            i <= text.len(),
            test == (|c: char| is_exponent_mark(c)),
            first_where(text@, test) == i + first_where(text@.skip(i as int), test),
        decreases text.len() - i,
    {
        if text[i] == 'e' || text[i] == 'E' {
            return i;
        }
        assert(text@.skip(i as int).drop_first() == text@.skip(i + 1));
        i = i + 1;
    }
    i
}

fn index_of_point(text: &Vec<char>, to: usize) -> (r: usize)
    requires
        to <= text.len(),
    ensures
        r <= to,
        r == first_where(text@.take(to as int), |c: char| is_point(c)),
{
    let ghost test = |c: char| is_point(c);
    let ghost part = text@.take(to as int);
    let mut i: usize = 0;
    assert(part.skip(0) == part);
    while i < to
        invariant
            i <= to <= text.len(),
            part == text@.take(to as int),
            test == (|c: char| is_point(c)),
            first_where(part, test) == i + first_where(part.skip(i as int), test),
        decreases to - i,
    {
        if text[i] == '.' {
            return i;
        }
        assert(part.skip(i as int).drop_first() == part.skip(i + 1));
        i = i + 1;
    }
    i
}

/// Appends the digits `from..to`; false if one of them is no digit.
fn take_digits(text: &Vec<char>, from: usize, to: usize, out: &mut Vec<char>) -> (r: bool)
    requires
        from <= to <= text.len(),
    ensures
        r == all_digits(text@.subrange(from as int, to as int)),
        r ==> final(out)@ == old(out)@ + text@.subrange(from as int, to as int),
{
    let mut i: usize = from;
    let ghost part = text@.subrange(from as int, to as int);
    while i < to
        invariant
            from <= i <= to <= text.len(),
            part == text@.subrange(from as int, to as int),
            out@ == old(out)@ + part.take(i - from),
            forall|k: int| 0 <= k < i - from ==> is_digit(#[trigger] part[k]),
        decreases to - i,
    {
        let c = text[i];
        assert(part[i - from] == c);
        if !('0' <= c && c <= '9') {
            return false;
        }
        assert(part.take(i + 1 - from) == part.take(i - from).push(c));
        out.push(c);
        i = i + 1;
    }
    assert(part.take(part.len() as int) == part);
    true
}

/// The exponent from index `from` on, or `None` if there is none. Exponents
/// beyond what any reading needs are cut short.
fn read_exponent(text: &Vec<char>, from: usize) -> (r: Option<i128>)
    requires
        from <= text.len(),
    ensures
        r is Some <==> valid_exponent(text@.skip(from as int)),
        r matches Some(v) ==> {
            let exact = exponent_value(text@.skip(from as int));
            let limit = 0x1_0000_0000_0000_0000_0000int;
            &&& -limit <= v <= limit
            &&& v == exact || v == limit && exact > limit || v == -limit && exact < -limit
        },
{
    let ghost tail = text@.skip(from as int);
    let minus: bool = from < text.len() && text[from] == '-';
    let start: usize = if from < text.len() && (text[from] == '-' || text[from] == '+') {
        from + 1
    } else {
        from
    };
    let ghost body = unsigned(tail);
    assert(body == text@.skip(start as int));
    assert(minus == has_minus(tail));
    if start == text.len() {
        return None;
    }
    let mut digits: Vec<char> = Vec::new();
    let end: usize = text.len();
    assert(text@.subrange(start as int, end as int) == body);
    if !take_digits(text, start, end, &mut digits) {
        return None;
    }
    assert(digits@ == body);
    let mut n: i128 = 0;
    let mut i: usize = 0;
    assert(body.take(0) == Seq::<char>::empty());
    while i < digits.len()
        invariant
            i <= digits.len(),
            digits@ == body,
            all_digits(body),
            0 <= n <= 0x1_0000_0000_0000_0000_0000,
            n == digits_value(body.take(i as int)) || n == 0x1_0000_0000_0000_0000_0000
                && digits_value(body.take(i as int)) > n,
        decreases digits.len() - i,
    {
        let c = digits[i];
        assert(is_digit(body[i as int]));
        assert(body.take(i + 1).drop_last() == body.take(i as int));
        n = 10 * n + (c as i128 - 48);
        if n > 0x1_0000_0000_0000_0000_0000 {
            n = 0x1_0000_0000_0000_0000_0000;
        }
        i = i + 1;
    }
    assert(body.take(body.len() as int) == body);
    if minus {
        Some(-n)
    } else {
        Some(n)
    }
}

fn decimal_number(text: &Vec<char>) -> (r: Option<u64>)
    ensures
        match r {
            Some(m) => m <= INFINITY && decimal_magnitude(text@) == Some(m as int),
            None => decimal_magnitude(text@) is None,
        },
{
    let mark = index_of_mark(text);
    let point = index_of_point(text, mark);
    let ghost mantissa = text@.take(mark as int);
    let mut digits: Vec<char> = Vec::new();
    assert(text@.subrange(0, point as int) == whole_digits(mantissa));
    if !take_digits(text, 0, point, &mut digits) {
        return None;
    }
    assert(digits@ == whole_digits(mantissa));
    let from: usize = if point < mark {
        point + 1
    } else {
        mark
    };
    assert(text@.subrange(from as int, mark as int) == fraction_digits(mantissa));
    if !take_digits(text, from, mark, &mut digits) {
        return None;
    }
    if digits.len() == 0 {
        return None;
    }
    let places: usize = mark - from;
    let ghost value = digits_value(digits@);
    assert(all_digits(digits@));
    if mark == text.len() {
        return Some(scaled_digits(&digits, -(places as i128)));
    }
    match read_exponent(text, mark + 1) {
        Some(e) => {
            let m = scaled_digits(&digits, e - places as i128);
            proof {
                let exact = exponent_value(text@.skip(mark + 1)) - places;
                if e != exact + places {
                    lemma_exponent_cut(digits@, e - places, exact);
                }
            }
            Some(m)
        },
        None => None,
    }
}

/// Far beyond the range of readings the exponent no longer matters.
proof fn lemma_exponent_cut(digits: Seq<char>, a: int, b: int)
    requires
        all_digits(digits),
        digits.len() <= usize::MAX,
        (a > 0x8000_0000_0000_0000_0000 && b > a) || (a < -0x8000_0000_0000_0000_0000 && b < a),
    ensures
        decimal_pattern(digits_value(digits), a) == decimal_pattern(digits_value(digits), b),
    decreases digits.len(),
{
    let value = digits_value(digits);
    lemma_digits_bound(digits);
    if a < 0 {
        lemma_too_small(value, a, digits.len());
        lemma_too_small(value, b, digits.len());
    } else if digits.len() > 0 && digits[0] == '0' {
        lemma_leading_zeros(digits, 1);
        assert(all_digits(digits.skip(1)));
        lemma_exponent_cut(digits.skip(1), a, b);
    } else if digits.len() > 0 {
        lemma_digits_lead(digits);
        lemma_too_large(value, a, digits.len());
        lemma_too_large(value, b, digits.len());
    } else {
        let u = unit();
        let (pa, pb) = (pow(10, a as nat), pow(10, b as nat));
        assert(value * pa * u == 0 && value * pb * u == 0) by (nonlinear_arith)
            requires
                value == 0,
        ;
    }
}

fn reads_word(text: &Vec<char>, from: usize, word: &Vec<char>) -> (r: bool)
    requires
        from <= text.len(),
    ensures
        r == is_word(text@.skip(from as int), word@),
{
    let ghost lowered = text@.skip(from as int).map_values(|c: char| ascii_lower(c));
    if text.len() - from != word.len() {
        return false;
    }
    let mut i: usize = 0;
    while i < word.len()
        invariant
            i <= word.len(),
            from + word.len() == text.len(),
            lowered == text@.skip(from as int).map_values(|c: char| ascii_lower(c)),
            forall|k: int| 0 <= k < i ==> lowered[k] == word@[k],
        decreases word.len() - i,
    {
        let c = text[from + i];
        let low = if 'A' <= c && c <= 'Z' {
            (c as u8 + 32) as char
        } else {
            c
        };
        assert(lowered[i as int] == ascii_lower(c));
        if low != word[i] {
            return false;
        }
        i = i + 1;
    }
    assert(lowered == word@);
    true
}

/// Reads a number, as far as the text names one.
pub fn parse_number(text: &Vec<char>) -> (r: Option<Num>)
    ensures
        r == number_named(text@),
{
    let negative: bool = text.len() > 0 && text[0] == '-';
    let from: usize = if text.len() > 0 && (text[0] == '-' || text[0] == '+') {
        1
    } else {
        0
    };
    let ghost body = unsigned(text@);
    assert(body == text@.skip(from as int));
    let inf: Vec<char> = vec!['i', 'n', 'f'];
    let infinity: Vec<char> = vec!['i', 'n', 'f', 'i', 'n', 'i', 't', 'y'];
    let nan: Vec<char> = vec!['n', 'a', 'n'];
    if reads_word(text, from, &inf) || reads_word(text, from, &infinity) {
        return Some(num(if negative {
            SIGN + INFINITY
        } else {
            INFINITY
        }));
    }
    if reads_word(text, from, &nan) {
        return Some(num(NAN));
    }
    let mut rest: Vec<char> = Vec::new();
    let mut i: usize = from;
    while i < text.len()
        invariant
            from <= i <= text.len(),
            rest@ == text@.subrange(from as int, i as int),
        decreases text.len() - i,
    {
        assert(text@.subrange(from as int, i + 1) == text@.subrange(from as int, i as int).push(
            text@[i as int],
        ));
        rest.push(text[i]);
        i = i + 1;
    }
    assert(rest@ == body);
    match decimal_number(&rest) {
        Some(m) => Some(num(if negative {
            SIGN + m
        } else {
            m
        })),
        None => None,
    }
}

proof fn lemma_first_where(text: Seq<char>, test: spec_fn(char) -> bool, k: int)
    requires
        0 <= k <= text.len(),
        forall|i: int| 0 <= i < k ==> !test(#[trigger] text[i]),
        k < text.len() ==> test(text[k]),
    ensures
        first_where(text, test) == k,
    decreases text.len(),
{
    if k > 0 {
        assert(!test(text[0]));
        let rest = text.drop_first();
        assert forall|i: int| 0 <= i < k - 1 implies !test(#[trigger] rest[i]) by {
            assert(!test(text[i + 1]));
        }
        lemma_first_where(rest, test, k - 1);
    }
}

proof fn lemma_first_where_bound(text: Seq<char>, test: spec_fn(char) -> bool)
    ensures
        0 <= first_where(text, test) <= text.len(),
        first_where(text, test) < text.len() ==> test(text[first_where(text, test)]),
    decreases text.len(),
{
    if text.len() > 0 && !test(text[0]) {
        lemma_first_where_bound(text.drop_first(), test);
    }
}

/// Digits, with or without a point and further digits behind it, name the reading nearest
/// to the decimal number that they write; a minus sign before them changes its sign, a
/// plus sign does not.
pub proof fn law_decimal_numbers_are_read(whole: Seq<char>, fraction: Seq<char>)
    requires
        all_digits(whole),
        all_digits(fraction),
        whole.len() > 0,
    ensures
        number_named(whole) == Some(of_whole(digits_value(whole))),
        ({
            let text = whole + seq!['.'] + fraction;
            let m = rounded(digits_value(whole + fraction) * unit(), pow(10, fraction.len()));
            &&& number_named(text) == Some(signed_pattern(false, m))
            &&& number_named(seq!['+'] + text) == Some(signed_pattern(false, m))
            &&& number_named(seq!['-'] + text) == Some(signed_pattern(true, m))
        }),
{
    let text = whole + seq!['.'] + fraction;
    let mark = |c: char| is_exponent_mark(c);
    let point = |c: char| is_point(c);
    assert forall|i: int| 0 <= i < whole.len() implies is_digit(#[trigger] whole[i]) by {}
    lemma_first_where(whole, mark, whole.len() as int);
    lemma_first_where(whole, point, whole.len() as int);
    lemma_first_where(text, mark, text.len() as int);
    lemma_first_where(text, point, whole.len() as int);
    assert(whole.take(whole.len() as int) =~= whole);
    assert(text.take(text.len() as int) =~= text);
    assert(text.take(whole.len() as int) =~= whole);
    assert(text.skip(whole.len() as int + 1) =~= fraction);
    let none = Seq::<char>::empty();
    assert(fraction_digits(whole) =~= none);
    assert(whole + none =~= whole);
    lemma_pow0(10);
    assert(is_digit(whole[0]));
    lemma_no_word(whole);
    lemma_no_word(text);
    assert((seq!['+'] + text).skip(1) =~= text);
    assert((seq!['-'] + text).skip(1) =~= text);
    assert(text[0] == whole[0]);
    assert(digits_value(whole) * 1 * unit() == digits_value(whole) * unit());
}

proof fn lemma_no_word(text: Seq<char>)
    requires
        text.len() > 0,
        is_digit(text[0]),
    ensures
        !is_word(text, seq!['i', 'n', 'f']),
        !is_word(text, seq!['i', 'n', 'f', 'i', 'n', 'i', 't', 'y']),
        !is_word(text, seq!['n', 'a', 'n']),
{
    let lower = text.map_values(|c: char| ascii_lower(c));
    assert(lower[0] == text[0]);
}

/// An exponent behind a whole number multiplies it by a power of ten.
pub proof fn law_exponents_are_read(whole: Seq<char>, exponent: Seq<char>)
    requires
        all_digits(whole),
        all_digits(exponent),
        whole.len() > 0,
        exponent.len() > 0,
    ensures
        number_named(whole + seq!['e'] + exponent) == Some(
            signed_pattern(
                false,
                rounded(
                    digits_value(whole) * pow(10, digits_value(exponent)) * unit(),
                    1,
                ),
            ),
        ),
        digits_value(exponent) > 0 ==> number_named(whole + seq!['E', '-'] + exponent) == Some(
            signed_pattern(
                false,
                rounded(digits_value(whole) * unit(), pow(10, digits_value(exponent))),
            ),
        ),
{
    let up = whole + seq!['e'] + exponent;
    let down = whole + seq!['E', '-'] + exponent;
    let mark = |c: char| is_exponent_mark(c);
    let point = |c: char| is_point(c);
    assert forall|i: int| 0 <= i < whole.len() implies is_digit(#[trigger] whole[i]) by {}
    lemma_first_where(up, mark, whole.len() as int);
    lemma_first_where(down, mark, whole.len() as int);
    lemma_first_where(whole, point, whole.len() as int);
    assert(up.take(whole.len() as int) =~= whole);
    assert(down.take(whole.len() as int) =~= whole);
    assert(whole.take(whole.len() as int) =~= whole);
    assert(up.skip(whole.len() as int + 1) =~= exponent);
    let signed = seq!['-'] + exponent;
    assert(down.skip(whole.len() as int + 1) =~= signed);
    assert(signed.skip(1) =~= exponent);
    let none = Seq::<char>::empty();
    assert(fraction_digits(whole) =~= none);
    assert(whole + none =~= whole);
    assert(is_digit(exponent[0]) && is_digit(whole[0]));
    lemma_no_word(up);
    lemma_no_word(down);
}

/// A text that holds a character other than digits, signs, a point or letters names no
/// reading, and neither does an empty one.
pub proof fn law_other_texts_are_no_numbers(text: Seq<char>, i: int)
    requires
        0 <= i < text.len(),
        ({
            let c = text[i];
            !is_digit(c) && c != '+' && c != '-' && c != '.' && !('a' <= c <= 'z') && !('A' <= c
                <= 'Z')
        }),
    ensures
        number_named(text) is None,
        number_named(Seq::<char>::empty()) is None,
{
    let mark = |c: char| is_exponent_mark(c);
    let point = |c: char| is_point(c);
    let body = unsigned(text);
    let k = if text.len() > 0 && is_sign(text[0]) {
        i - 1
    } else {
        i
    };
    let c = text[i];
    assert(0 <= k < body.len() && body[k] == c);
    let lower = body.map_values(|c: char| ascii_lower(c));
    assert(lower[k] == c);
    let inf = seq!['i', 'n', 'f'];
    let infinity = seq!['i', 'n', 'f', 'i', 'n', 'i', 't', 'y'];
    let nan = seq!['n', 'a', 'n'];
    assert forall|j: int| 0 <= j < 3 implies 'a' <= #[trigger] inf[j] <= 'z' by {}
    assert forall|j: int| 0 <= j < 8 implies 'a' <= #[trigger] infinity[j] <= 'z' by {}
    assert forall|j: int| 0 <= j < 3 implies 'a' <= #[trigger] nan[j] <= 'z' by {}
    assert(!('a' <= c <= 'z'));
    assert(lower.len() == body.len() && inf.len() == 3 && infinity.len() == 8 && nan.len() == 3);
    if lower == inf {
        assert(0 <= k < 3);
        assert('a' <= inf[k] <= 'z');
        assert(false);
    }
    if lower == infinity {
        assert('a' <= infinity[k] <= 'z');
        assert(false);
    }
    if lower == nan {
        assert('a' <= nan[k] <= 'z');
        assert(false);
    }
    assert(!is_word(body, inf) && !is_word(body, infinity) && !is_word(body, nan));
    let at = first_where(body, mark);
    lemma_first_where_bound(body, mark);
    let mantissa = body.take(at);
    let p = first_where(mantissa, point);
    lemma_first_where_bound(mantissa, point);
    if k < at {
        assert(mantissa[k] == c);
        if k < p {
            assert(whole_digits(mantissa)[k] == c);
            assert(!all_digits(whole_digits(mantissa)));
        } else {
            assert(k != p);
            assert(fraction_digits(mantissa)[k - p - 1] == c);
            assert(!all_digits(fraction_digits(mantissa)));
        }
        assert(!valid_mantissa(mantissa));
    } else {
        assert(k != at);
        let exponent = body.skip(at + 1);
        assert(exponent[k - at - 1] == c);
        if exponent.len() > 0 && is_sign(exponent[0]) {
            assert(unsigned(exponent)[k - at - 2] == c);
        } else {
            assert(unsigned(exponent)[k - at - 1] == c);
        }
        assert(!valid_exponent(exponent));
    }
    assert(decimal_magnitude(body) is None);
    let none = Seq::<char>::empty();
    let lowered = none.map_values(|c: char| ascii_lower(c));
    assert(lowered.len() == 0);
    lemma_first_where_bound(none, mark);
    assert(none.take(0) =~= none);
    lemma_first_where_bound(none, point);
    assert(whole_digits(none).len() == 0 && fraction_digits(none).len() == 0);
}

} // verus!
