//! Readings as text, with a fixed number of decimal places.

use vstd::arithmetic::power::{lemma_pow0, lemma_pow1, lemma_pow_adds, pow};
use vstd::arithmetic::power2::{lemma2_to64, lemma2_to64_rest, lemma_pow2_adds, lemma_pow2_pos, lemma_pow2_strictly_increases, lemma_pow2_unfold, pow2};
use vstd::prelude::*;
use vstd::string::StringExecFns;
use crate::arith::{lemma_whole_exact, of_whole, parts, unit};
use crate::digits::{decimal, decimal_text, digit_char};
use crate::num::{Num, SIGN};
use crate::rounding::power_of_two;
use crate::text::string_of;

verus! {

/// `n / d`, rounded to a whole number; halves go to the even neighbour.
pub open spec fn half_even(n: int, d: int) -> int {
    let q = n / d;
    let r = n % d;
    if 2 * r < d || (2 * r == d && q % 2 == 0) {
        q
    } else {
        q + 1
    }
}

pub open spec fn ten_to(places: nat) -> int {
    if places == 0 {
        1
    } else if places == 1 {
        10
    } else {
        100
    }
}

/// `n` as exactly `places` decimal digits.
pub open spec fn place_digits(n: nat, places: nat) -> Seq<char> {
    if places == 0 {
        Seq::empty()
    } else if places == 1 {
        seq![digit_char(n % 10)]
    } else {
        seq![digit_char((n / 10) % 10), digit_char(n % 10)]
    }
}

/// A number of hundredths, tenths or ones, written with its point.
pub open spec fn pointed(n: nat, places: nat) -> Seq<char> {
    if places == 0 {
        decimal(n)
    } else {
        decimal((n as int / ten_to(places)) as nat).push('.') + place_digits(n, places)
    }
}

/// A reading with `places` decimal places (at most two).
pub open spec fn fixed_text(x: Num, places: nat) -> Seq<char> {
    let sign: Seq<char> = if x.negative() {
        seq!['-']
    } else {
        Seq::empty()
    };
    if x.nan() {
        seq!['N', 'a', 'N']
    } else if x.infinite() {
        sign + seq!['i', 'n', 'f']
    } else {
        sign + pointed(half_even(x.size() * ten_to(places), unit()) as nat, places)
    }
}

// --- Decimal digits of numbers of any size ----------------------------------

/// The number that a row of decimal digits stands for, lowest digit first.
pub open spec fn row_value(row: Seq<u8>) -> nat
    decreases row.len(),
{
    if row.len() == 0 {
        0
    } else {
        row[0] as nat + 10 * row_value(row.drop_first())
    }
}

/// Digits without a leading zero.
pub open spec fn proper_row(row: Seq<u8>) -> bool {
    &&& row.len() > 0
    &&& forall|i: int| 0 <= i < row.len() ==> #[trigger] row[i] < 10
    &&& row.last() > 0
}

pub open spec fn row_text(row: Seq<u8>) -> Seq<char>
    decreases row.len(),
{
    if row.len() == 0 {
        Seq::empty()
    } else {
        row_text(row.drop_first()).push(digit_char(row[0] as nat))
    }
}

proof fn lemma_row_is_decimal(row: Seq<u8>)
    requires
        proper_row(row),
    ensures
        row_value(row) > 0,
        row_text(row) == decimal(row_value(row)),
    decreases row.len(),
{
    let rest = row.drop_first();
    assert(row[0] < 10);
    if row.len() == 1 {
        assert(rest == Seq::<u8>::empty());
        assert(row_value(rest) == 0);
        assert(row_text(rest) == Seq::<char>::empty());
        assert(row_text(row) == decimal(row_value(row)));
    } else {
        assert(rest.last() == row.last());
        assert forall|i: int| 0 <= i < rest.len() implies #[trigger] rest[i] < 10 by {
            assert(row[i + 1] < 10);
        }
        lemma_row_is_decimal(rest);
        let n = row_value(row);
        assert(n / 10 == row_value(rest) && n % 10 == row[0]);
    }
}

proof fn lemma_row_push(row: Seq<u8>, d: u8)
    ensures
        row_value(row.push(d)) == row_value(row) + d as nat * pow(10, row.len()),
    decreases row.len(),
{
    lemma_pow0(10);
    lemma_pow1(10);
    let longer = row.push(d);
    if row.len() == 0 {
        assert(longer.drop_first() == Seq::<u8>::empty());
        assert(row_value(longer.drop_first()) == 0);
        assert(d * 1 == d);
    } else {
        assert(longer.drop_first() == row.drop_first().push(d));
        lemma_row_push(row.drop_first(), d);
        lemma_pow_adds(10, 1, (row.len() - 1) as nat);
        let p = pow(10, (row.len() - 1) as nat);
        assert(10 * (d * p) == d * (10 * p)) by (nonlinear_arith);
    }
}

/// Doubles a row of digits.
fn doubled(row: &Vec<u8>) -> (r: Vec<u8>)
    requires
        proper_row(row@),
    ensures
        proper_row(r@),
        row_value(r@) == 2 * row_value(row@),
{
    let mut out: Vec<u8> = Vec::new();
    let mut carry: u8 = 0;
    let mut i: usize = 0;
    proof {
        assert(row@.take(0) == Seq::<u8>::empty());
        assert(0 * pow(10, 0) == 0) by (nonlinear_arith);
    }
    while i < row.len()
        invariant
            i <= row.len(),
            proper_row(row@),
            out.len() == i,
            carry <= 1,
            forall|k: int| 0 <= k < out.len() ==> #[trigger] out@[k] < 10,
            row_value(out@) + carry * pow(10, i as nat) == 2 * row_value(row@.take(i as int)),
            i == row.len() ==> out@.last() > 0 || carry > 0,
        decreases row.len() - i,
    {
        let d: u8 = row[i];
        assert(row@[i as int] < 10);
        let t: u8 = 2 * d + carry;
        proof {
            let low = (t % 10) as u8;
            let high = (t / 10) as u8;
            lemma_row_push(out@, low);
            lemma_row_push(row@.take(i as int), d);
            assert(row@.take(i + 1) == row@.take(i as int).push(d));
            lemma_pow_adds(10, i as nat, 1);
            lemma_pow1(10);
            let p = pow(10, i as nat);
            let (done, seen) = (row_value(out@) as int, row_value(row@.take(i as int)) as int);
            assert((done + low * p) + high * (p * 10) == 2 * (seen + d * p)) by (nonlinear_arith)
                requires
                    done + carry * p == 2 * seen,
                    2 * d + carry == 10 * high + low,
            ;
        }
        out.push(t % 10);
        carry = t / 10;
        i = i + 1;
    }
    assert(row@.take(i as int) == row@);
    if carry > 0 {
        proof {
            lemma_row_push(out@, carry);
        }
        out.push(carry);
    } else {
        assert(0 * pow(10, i as nat) == 0) by (nonlinear_arith);
    }
    out
}

fn row_of(n: u64) -> (r: Vec<u8>)
    requires
        n > 0,
    ensures
        proper_row(r@),
        row_value(r@) == n,
{
    let mut out: Vec<u8> = Vec::new();
    let mut rest: u64 = n;
    proof {
        lemma_pow0(10);
        assert(rest * 1 == n);
    }
    while rest >= 10
        invariant
            rest > 0,
            forall|k: int| 0 <= k < out.len() ==> #[trigger] out@[k] < 10,
            row_value(out@) + rest * pow(10, out@.len()) == n,
        decreases rest,
    {
        let low: u8 = (rest % 10) as u8;
        proof {
            lemma_row_push(out@, low);
            lemma_pow_adds(10, out@.len(), 1);
            lemma_pow1(10);
            let p = pow(10, out@.len());
            let high = rest / 10;
            assert(low * p + high * (p * 10) == rest * p) by (nonlinear_arith)
                requires
                    rest == 10 * high + low,
            ;
        }
        out.push(low);
        rest = rest / 10;
    }
    proof {
        lemma_row_push(out@, rest as u8);
    }
    out.push(rest as u8);
    out
}

fn row_chars(row: &Vec<u8>) -> (r: Vec<char>)
    requires
        proper_row(row@),
    ensures
        r@ == decimal(row_value(row@)),
{
    let mut out: Vec<char> = Vec::new();
    let mut i: usize = row.len();
    assert(row@.skip(i as int) == Seq::<u8>::empty());
    while i > 0
        invariant
            i <= row.len(),
            proper_row(row@),
            out@ == row_text(row@.skip(i as int)),
        decreases i,
    {
        i = i - 1;
        let d: u8 = row[i];
        assert(row@[i as int] < 10);
        assert(row@.skip(i as int).drop_first() == row@.skip(i + 1));
        out.push((48 + d) as char);
    }
    proof {
        assert(row@.skip(0) == row@);
        lemma_row_is_decimal(row@);
    }
    out
}

/// The decimal digits of `s * 2^k`.
fn doubled_digits(s: u64, k: u32) -> (r: Vec<char>)
    requires
        s > 0,
    ensures
        r@ == decimal(s as nat * pow2(k as nat)),
{
    let mut row = row_of(s);
    let mut i: u32 = 0;
    proof {
        lemma2_to64();
        assert(s as nat * 1 == s);
    }
    while i < k
        invariant
            i <= k,
            proper_row(row@),
            row_value(row@) == s as nat * pow2(i as nat),
        decreases k - i,
    {
        row = doubled(&row);
        proof {
            lemma_pow2_unfold((i + 1) as nat);
            let p = pow2(i as nat);
            assert(2 * (s as nat * p) == s as nat * (2 * p)) by (nonlinear_arith);
        }
        i = i + 1;
    }
    row_chars(&row)
}

// --- Writing readings --------------------------------------------------------

proof fn lemma_half_even_scale(x: int, y: int, c: int)
    requires
        x >= 0,
        y > 0,
        c > 0,
    ensures
        half_even(c * x, c * y) == half_even(x, y),
{
    let q = x / y;
    let r = x % y;
    vstd::arithmetic::div_mod::lemma_fundamental_div_mod(x, y);
    assert(c * x == q * (c * y) + c * r && 0 <= c * r < c * y) by (nonlinear_arith)
        requires
            x == y * q + r,
            0 <= r < y,
            c > 0,
    ;
    vstd::arithmetic::div_mod::lemma_fundamental_div_mod_converse(c * x, c * y, q, c * r);
    assert((2 * (c * r) < c * y <==> 2 * r < y) && (2 * (c * r) == c * y <==> 2 * r == y))
        by (nonlinear_arith)
        requires
            c > 0,
    ;
}

proof fn lemma_half_even_exact(w: int, y: int)
    requires
        y > 0,
    ensures
        half_even(w * y, y) == w,
{
    vstd::arithmetic::div_mod::lemma_fundamental_div_mod_converse(w * y, y, w, 0);
}

fn append_place_digits(out: &mut String, n: u64, places: u32)
    requires
        places <= 2,
    ensures
        final(out)@ == old(out)@ + place_digits(n as nat, places as nat),
{
    if places == 2 {
        out.push((48 + ((n / 10) % 10) as u8) as char);
    }
    if places >= 1 {
        out.push((48 + (n % 10) as u8) as char);
    }
    assert(out@ == old(out)@ + place_digits(n as nat, places as nat));
}

/// Writes a reading with `places` decimal places.
pub fn fixed(x: Num, places: u32) -> (r: String)
    requires
        places <= 2,
    ensures
        r@ == fixed_text(x, places as nat),
{
    let mut out: String = String::new();
    if x.is_nan() {
        out.push('N');
        out.push('a');
        out.push('N');
        assert(out@ == seq!['N', 'a', 'N']);
        return out;
    }
    let negative: bool = x.bits >= SIGN;
    let magnitude: u64 = if negative {
        x.bits - SIGN
    } else {
        x.bits
    };
    if negative {
        out.push('-');
    }
    let ghost sign = out@;
    assert(sign == (if x.negative() {
        seq!['-']
    } else {
        Seq::<char>::empty()
    }));
    if !x.is_finite() {
        out.push('i');
        out.push('n');
        out.push('f');
        assert(out@ == sign + seq!['i', 'n', 'f']);
        return out;
    }
    let (s, e) = parts(magnitude);
    let ten: u64 = if places == 0 {
        1
    } else if places == 1 {
        10
    } else {
        100
    };
    let ghost u = unit();
    proof {
        lemma2_to64();
        lemma2_to64_rest();
        lemma_pow2_pos(1074);
        assert(ten == ten_to(places as nat));
    }
    if e >= 1074 {
        let k: u32 = e - 1074;
        let chars = doubled_digits(s, k);
        let ghost w = s as nat * pow2(k as nat);
        proof {
            lemma_pow2_adds(k as nat, 1074);
            assert((s * (pow2(k as nat) * u)) * ten == (w * ten) * u) by (nonlinear_arith)
                requires
                    w == s * pow2(k as nat),
            ;
            lemma_half_even_exact(w * ten, u);
            assert((w * ten) / ten as int == w) by (nonlinear_arith)
                requires
                    ten > 0,
            ;
        }
        assert(chars@.subrange(0, chars@.len() as int) == chars@);
        let body = string_of(&chars, 0, chars.len());
        out.append(body.as_str());
        if places > 0 {
            out.push('.');
            append_place_digits(&mut out, 0, places);
            proof {
                let n = (w * ten) as nat;
                assert(n % 10 == 0 && (places == 2 ==> (n / 10) % 10 == 0)) by (nonlinear_arith)
                    requires
                        n == w * ten,
                        ten == 10 && places == 1 || ten == 100 && places == 2,
                ;
                assert(place_digits(n, places as nat) == place_digits(0, places as nat));
            }
        } else {
            assert(w * 1 == w);
        }
        assert(out@ == fixed_text(x, places as nat));
        return out;
    }
    let k: u32 = 1074 - e;
    let top: u64 = s * ten;
    proof {
        lemma_pow2_adds(e as nat, k as nat);
        lemma_pow2_pos(e as nat);
        lemma_pow2_pos(k as nat);
        let (pe, pk) = (pow2(e as nat) as int, pow2(k as nat) as int);
        assert((s * pe) * ten == pe * (s * ten)) by (nonlinear_arith);
        lemma_half_even_scale(s * ten, pk, pe);
    }
    let q: u64 = if k > 63 {
        proof {
            lemma_pow2_strictly_increases(63, k as nat);
            vstd::arithmetic::div_mod::lemma_fundamental_div_mod_converse(
                top as int,
                pow2(k as nat) as int,
                0,
                top as int,
            );
        }
        0
    } else {
        let p = power_of_two(k) as u64;
        let whole: u64 = top / p;
        let rest: u64 = top % p;
        proof {
            if k < 63 {
                lemma_pow2_strictly_increases(k as nat, 63);
            }
        }
        if rest < p - rest || (rest == p - rest && whole % 2 == 0) {
            whole
        } else {
            whole + 1
        }
    };
    let body = decimal_text(q / ten);
    out.append(body.as_str());
    if places > 0 {
        out.push('.');
        append_place_digits(&mut out, q, places);
    }
    assert(out@ == fixed_text(x, places as nat));
    out
}

/// A finite reading is written as the nearest multiple of the last decimal place: `k`
/// of them, the even one where two are equally near.
pub proof fn law_fixed_is_nearest(x: Num, places: nat) -> (k: nat)
    requires
        x.finite(),
        places <= 2,
    ensures
        ({
            let scale: int = if places == 0 {
                1
            } else if places == 1 {
                10
            } else {
                100
            };
            &&& fixed_text(x, places) == (if x.negative() {
                seq!['-'] + pointed(k, places)
            } else {
                pointed(k, places)
            })
            &&& -unit() <= 2 * (k * unit() - x.size() * scale) <= unit()
            &&& 2 * (k * unit() - x.size() * scale) == unit() || 2 * (k * unit() - x.size() * scale)
                == -unit() ==> k % 2 == 0
        }),
{
    let u = unit();
    let scale = ten_to(places);
    lemma_pow2_pos(1074);
    if x.magnitude() > 0 {
        crate::num::lemma_size_grows(0, x.magnitude());
    }
    let n = x.size() * scale;
    assert(n >= 0) by (nonlinear_arith)
        requires
            n == x.size() * scale,
            x.size() >= 0,
            scale > 0,
    ;
    let (q, r) = (n / u, n % u);
    vstd::arithmetic::div_mod::lemma_fundamental_div_mod(n, u);
    assert(0 <= r < u) by (nonlinear_arith)
        requires
            u > 0,
            r == n % u,
    ;
    assert(q >= 0) by (nonlinear_arith)
        requires
            n == u * q + r,
            0 <= r < u,
            n >= 0,
            u > 0,
    ;
    let k = half_even(n, u);
    assert((q + 1) * u == u * q + u && q * u == u * q) by (nonlinear_arith);
    assert(Seq::<char>::empty() + pointed(k as nat, places) == pointed(k as nat, places));
    k as nat
}

/// A number of tenths or hundredths is written with its point: the whole number before
/// it, the rest in one or two digits behind it.
pub proof fn law_pointed(whole: nat, rest: nat)
    ensures
        pointed(whole, 0) == decimal(whole),
        rest < 10 ==> pointed(10 * whole + rest, 1) == decimal(whole) + seq![
            '.',
            (48 + rest) as char,
        ],
        rest < 100 ==> pointed(100 * whole + rest, 2) == decimal(whole) + seq![
            '.',
            (48 + rest / 10) as char,
            (48 + rest % 10) as char,
        ],
{
    if rest < 10 {
        assert((10 * whole + rest) / 10 == whole && (10 * whole + rest) % 10 == rest);
        assert(pointed(10 * whole + rest, 1) =~= decimal(whole) + seq!['.', (48 + rest) as char]);
    }
    if rest < 100 {
        let n = 100 * whole + rest;
        assert(n / 100 == whole);
        assert((n / 10) % 10 == rest / 10 && n % 10 == rest % 10);
        assert(pointed(n, 2) =~= decimal(whole) + seq![
            '.',
            (48 + rest / 10) as char,
            (48 + rest % 10) as char,
        ]);
    }
}

/// A whole number is written with zeros behind the point.
pub proof fn law_whole_numbers_are_written(n: nat)
    requires
        n < 0x20_0000_0000_0000,
    ensures
        fixed_text(of_whole(n), 0) == decimal(n),
        fixed_text(of_whole(n), 1) == decimal(n) + seq!['.', '0'],
        fixed_text(of_whole(n), 2) == decimal(n) + seq!['.', '0', '0'],
{
    let u = unit();
    lemma_pow2_pos(1074);
    lemma_whole_exact(n);
    law_pointed(n, 0);
    lemma_half_even_exact(n as int, u);
    lemma_half_even_exact((10 * n) as int, u);
    lemma_half_even_exact((100 * n) as int, u);
    assert((n * u) * 1 == n * u && (n * u) * 10 == (10 * n) * u && (n * u) * 100 == (100 * n) * u)
        by (nonlinear_arith);
    let none = Seq::<char>::empty();
    assert(none + pointed(n, 0) == pointed(n, 0));
    assert(none + pointed(10 * n, 1) == pointed(10 * n, 1));
    assert(none + pointed(100 * n, 2) == pointed(100 * n, 2));
}

} // verus!
