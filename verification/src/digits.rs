//! Numbers as text: decimal and hexadecimal digits.

use vstd::prelude::*;
use crate::text::string_of;

verus! {

/// The character of a digit below 16; letters are capitals.
pub open spec fn digit_char(d: nat) -> char {
    if d < 10 {
        (48 + d) as char
    } else {
        (55 + d) as char
    }
}

/// The digits of `n` in the given base, without leading zeros.
pub open spec fn digits(n: nat, base: nat) -> Seq<char>
    decreases n,
{
    if base < 2 || n < base {
        seq![digit_char(n)]
    } else {
        proof {
            assert(n / base < n) by (nonlinear_arith)
                requires
                    n >= base >= 2,
            ;
        }
        digits(n / base, base).push(digit_char(n % base))
    }
}

/// The decimal digits of `n`.
pub open spec fn decimal(n: nat) -> Seq<char> {
    digits(n, 10)
}

/// `n` in capital hexadecimal digits, filled up with leading zeros to `width`.
pub open spec fn padded_hex(n: nat, width: nat) -> Seq<char> {
    let plain = digits(n, 16);
    if plain.len() >= width {
        plain
    } else {
        Seq::new((width - plain.len()) as nat, |i: int| '0') + plain
    }
}

fn digit(d: u64) -> (r: char)
    requires
        d < 16,
    ensures
        r == digit_char(d as nat),
{
    if d < 10 {
        (48 + d) as u8 as char
    } else {
        (55 + d) as u8 as char
    }
}

fn digit_chars(n: u64, base: u64) -> (r: Vec<char>)
    requires
        2 <= base <= 16,
    ensures
        r@ == digits(n as nat, base as nat),
    decreases n,
{
    if n < base {
        let mut out: Vec<char> = Vec::new();
        out.push(digit(n));
        assert(out@ == digits(n as nat, base as nat));
        out
    } else {
        assert(n / base < n) by (nonlinear_arith)
            requires
                n >= base >= 2,
        ;
        let mut out = digit_chars(n / base, base);
        out.push(digit(n % base));
        out
    }
}

/// The decimal digits of `n`.
pub fn decimal_text(n: u64) -> (r: String)
    ensures
        r@ == decimal(n as nat),
{
    let chars = digit_chars(n, 10);
    assert(chars@.subrange(0, chars@.len() as int) == chars@);
    string_of(&chars, 0, chars.len())
}

/// `n` in capital hexadecimal digits, at least `width` of them.
pub fn hex_text(n: u64, width: usize) -> (r: String)
    ensures
        r@ == padded_hex(n as nat, width as nat),
{
    let plain = digit_chars(n, 16);
    let mut out: Vec<char> = Vec::new();
    if plain.len() < width {
        let fill: usize = width - plain.len();
        let mut i: usize = 0;
        while i < fill
            invariant
                i <= fill,
                out@ == Seq::new(i as nat, |k: int| '0'),
            decreases fill - i,
        {
            out.push('0');
            i = i + 1;
        }
    }
    let ghost zeros = out@;
    let mut i: usize = 0;
    while i < plain.len()
        invariant
            i <= plain.len(),
            out@ == zeros + plain@.take(i as int),
        decreases plain.len() - i,
    {
        assert(plain@.take(i + 1) == plain@.take(i as int).push(plain@[i as int]));
        out.push(plain[i]);
        i = i + 1;
    }
    assert(plain@.take(plain@.len() as int) == plain@);
    assert(out@ == padded_hex(n as nat, width as nat));
    assert(out@.subrange(0, out@.len() as int) == out@);
    string_of(&out, 0, out.len())
}

pub open spec fn is_digit(c: char) -> bool {
    '0' <= c <= '9'
}

pub open spec fn all_digits(text: Seq<char>) -> bool {
    forall|i: int| 0 <= i < text.len() ==> is_digit(#[trigger] text[i])
}

/// The number that a row of decimal digits stands for.
pub open spec fn digits_value(text: Seq<char>) -> nat
    decreases text.len(),
{
    if text.len() == 0 {
        0
    } else {
        10 * digits_value(text.drop_last()) + (text.last() as nat - 48) as nat
    }
}

pub open spec fn unsigned_body(text: Seq<char>) -> Seq<char> {
    if text.len() > 0 && text[0] == '+' {
        text.skip(1)
    } else {
        text
    }
}

/// The number that a text names: digits, after an optional plus sign, of a
/// number below 2 to the power of 32.
pub open spec fn unsigned_value(text: Seq<char>) -> Option<u32> {
    let body = unsigned_body(text);
    if body.len() > 0 && all_digits(body) && digits_value(body) <= u32::MAX {
        Some(digits_value(body) as u32)
    } else {
        None
    }
}

proof fn lemma_digits_value_grows(text: Seq<char>, i: int)
    requires
        0 <= i <= text.len(),
    ensures
        digits_value(text.take(i)) <= digits_value(text),
    decreases text.len(),
{
    if i == text.len() {
        assert(text.take(i) == text);
    } else {
        assert(text.drop_last().take(i) == text.take(i));
        lemma_digits_value_grows(text.drop_last(), i);
    }
}

/// Reads an unsigned number of 32 bits.
pub fn parse_unsigned(text: &Vec<char>) -> (r: Option<u32>)
    ensures
        r == unsigned_value(text@),
{
    let from: usize = if text.len() > 0 && text[0] == '+' {
        1
    } else {
        0
    };
    let ghost body = unsigned_body(text@);
    assert(body == text@.skip(from as int));
    if from == text.len() {
        return None;
    }
    let mut n: u64 = 0;
    let mut i: usize = from;
    assert(body.take(0) == Seq::<char>::empty());
    while i < text.len()
        invariant
            from <= i <= text.len(),
            body == text@.skip(from as int),
            body == unsigned_body(text@),
            n <= u32::MAX,
            n == digits_value(body.take(i - from)),
            forall|k: int| 0 <= k < i - from ==> is_digit(#[trigger] body[k]),
        decreases text.len() - i,
    {
        let c = text[i];
        assert(body[i - from] == c);
        if !('0' <= c && c <= '9') {
            return None;
        }
        assert(body.take(i + 1 - from).drop_last() == body.take(i - from));
        n = 10 * n + (c as u64 - 48);
        if n > u32::MAX as u64 {
            proof {
                lemma_digits_value_grows(body, i + 1 - from);
            }
            return None;
        }
        i = i + 1;
    }
    assert(body.take(body.len() as int) == body);
    Some(n as u32)
}

proof fn lemma_digit_chars_are_digits(n: nat)
    ensures
        all_digits(decimal(n)),
        decimal(n).len() > 0,
        digits_value(decimal(n)) == n,
    decreases n,
{
    if n < 10 {
        assert(decimal(n).drop_last() == Seq::<char>::empty());
        assert(digits_value(decimal(n).drop_last()) == 0);
    } else {
        lemma_digit_chars_are_digits(n / 10);
        assert(decimal(n).drop_last() == decimal(n / 10));
    }
}

/// Reading the decimal digits of a number gives the number back.
pub proof fn law_decimal_reads_back(n: u32)
    ensures
        unsigned_value(decimal(n as nat)) == Some(n),
{
    lemma_digit_chars_are_digits(n as nat);
    assert(is_digit(decimal(n as nat)[0]));
}

/// Whatever its size, a number is written in digits from `0` to `9`, without leading
/// zeros, and its digits stand for it.
pub proof fn law_decimal_stands_for_the_number(n: nat)
    ensures
        all_digits(decimal(n)),
        decimal(n).len() > 0,
        digits_value(decimal(n)) == n,
        n > 0 ==> decimal(n)[0] != '0',
        n < 10 ==> decimal(n) == seq![(48 + n) as char],
        n >= 10 ==> decimal(n) == decimal(n / 10).push((48 + n % 10) as char),
    decreases n,
{
    lemma_digit_chars_are_digits(n);
    if n >= 10 {
        law_decimal_stands_for_the_number(n / 10);
        assert(decimal(n)[0] == decimal(n / 10)[0]);
    }
}

/// A number below 0x10000 in four capital hexadecimal digits, and one below 0x1000 in
/// three; without room for more, a larger number keeps all its digits.
pub proof fn law_hex(n: nat)
    requires
        n < 0x10000,
    ensures
        ({
            let digit = |d: nat|
                if d < 10 {
                    (48 + d) as char
                } else {
                    (55 + d) as char
                };
            let four = seq![
                digit(n / 0x1000),
                digit((n / 0x100) % 16),
                digit((n / 16) % 16),
                digit(n % 16),
            ];
            &&& padded_hex(n, 4) == four
            &&& padded_hex(n, 3) == (if n < 0x1000 {
                four.skip(1)
            } else {
                four
            })
        }),
{
    let (a, b, c, d) = (n / 0x1000, (n / 0x100) % 16, (n / 16) % 16, n % 16);
    reveal_with_fuel(digits, 5);
    assert((n / 16) / 16 == n / 0x100 && ((n / 16) / 16) / 16 == n / 0x1000);
    let zeros = |k: nat| Seq::new(k, |i: int| '0');
    let four = seq![digit_char(a), digit_char(b), digit_char(c), digit_char(d)];
    let plain = digits(n, 16);
    if n >= 0x1000 {
        assert(plain =~= four);
    } else if n >= 0x100 {
        assert(plain =~= seq![digit_char(b), digit_char(c), digit_char(d)]);
    } else if n >= 16 {
        assert(plain =~= seq![digit_char(c), digit_char(d)]);
    } else {
        assert(plain =~= seq![digit_char(d)]);
    }
    assert(padded_hex(n, 4) =~= four);
    assert(padded_hex(n, 3) =~= (if n < 0x1000 {
        four.skip(1)
    } else {
        four
    }));
}

} // verus!
