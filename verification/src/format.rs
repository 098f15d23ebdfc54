//! Readings as the text that the widget shows.

use vstd::arithmetic::power2::{lemma2_to64, lemma2_to64_rest, lemma_pow2_pos, pow2};
use vstd::prelude::*;
use vstd::string::StringExecFns;
use crate::arith::{law_whole_arithmetic, lemma_named_wholes, lemma_nearest_whole_grows, lemma_product_grows, lemma_product_near, lemma_quotient_grows, lemma_quotient_near, lemma_whole_exact, lemma_whole_near, of_whole, unit};
use crate::digits::decimal;
use crate::figures::{fixed, fixed_text, law_whole_numbers_are_written};
use crate::num::{num, num_of, Num, HUNDRED, KIBI, MEBI, MINUS_ONE, TEN, ZERO};
use crate::text::{all_blank, blank, chars_of, law_trimmed, lemma_trimmed_stays, string_of, trim_chars, trimmed};

verus! {

/// A reading that is not finite counts as zero.
pub open spec fn to_number_of(v: Num) -> Num {
    if v.finite() {
        v
    } else {
        num_of(ZERO)
    }
}

fn to_number(v: Num) -> (r: Num)
    ensures
        r == to_number_of(v),
{
    if v.is_finite() {
        v
    } else {
        num(ZERO)
    }
}

/// `n` to the nearest whole number of `1 / parts`.
pub open spec fn rounded_to(n: Num, parts: Num) -> Num {
    n.product(parts).nearest_whole().quotient(parts)
}

/// One decimal place; a reading that is not finite counts as zero.
pub fn round1(n: Num) -> (r: Num)
    ensures
        r == rounded_to(to_number_of(n), num_of(TEN)),
{
    to_number(n).times(num(TEN)).round().over(num(TEN))
}

/// Two decimal places; a reading that is not finite counts as zero.
pub fn round2(n: Num) -> (r: Num)
    ensures
        r == rounded_to(to_number_of(n), num_of(HUNDRED)),
{
    to_number(n).times(num(HUNDRED)).round().over(num(HUNDRED))
}

/// A whole number stays as it is when it is rounded to decimal places.
pub proof fn law_rounding_keeps_whole_numbers(n: nat, parts: nat)
    requires
        n * parts < 0x20_0000_0000_0000,
        n < 0x20_0000_0000_0000,
        0 < parts < 0x20_0000_0000_0000,
    ensures
        rounded_to(of_whole(n), of_whole(parts)) == of_whole(n),
{
    law_whole_arithmetic(n, parts);
    law_whole_arithmetic(n * parts, 0);
}

/// Rounding to decimal places keeps the order of readings.
pub proof fn law_rounding_keeps_the_order(a: Num, b: Num, parts: Num)
    requires
        a.from_zero(),
        b.from_zero(),
        parts.from_zero(),
        parts.magnitude() > 0,
        a.at_most(b),
        b.product(parts).finite(),
        b.product(parts).nearest_whole().finite(),
        rounded_to(b, parts).finite(),
    ensures
        rounded_to(a, parts).from_zero(),
        rounded_to(a, parts).at_most(rounded_to(b, parts)),
{
    lemma_product_grows(a, b, parts);
    lemma_product_grows(b, b, parts);
    lemma_nearest_whole_grows(a.product(parts), b.product(parts));
    lemma_nearest_whole_grows(b.product(parts), b.product(parts));
    lemma_quotient_grows(a.product(parts).nearest_whole(), b.product(parts).nearest_whole(), parts);
}

/// Rounding to one or two decimal places moves a reading by hardly more than half of
/// the last place.
pub proof fn law_rounding_is_near(v: Num, parts: nat)
    requires
        v.from_zero(),
        v.size() <= 0x100_0000_0000 * unit(),
        parts == 10 || parts == 100,
    ensures
        rounded_to(v, of_whole(parts)).from_zero(),
        -55 * unit() <= 100 * (parts * (rounded_to(v, of_whole(parts)).size() - v.size())) <= 55
            * unit(),
{
    let (s, u, t) = (v.size(), unit(), of_whole(parts));
    lemma_whole_exact(parts);
    lemma_pow2_pos(1074);
    lemma2_to64();
    lemma2_to64_rest();
    assert(pow2(47) == 0x8000_0000_0000 && pow2(41) == 0x200_0000_0000 && pow2(5) == 32 && pow2(11)
        == 2048);
    assert(s * (parts * u) <= u * (0x8000_0000_0000 * u)) by (nonlinear_arith)
        requires
            s <= 0x100_0000_0000 * u,
            parts <= 100,
            u > 0,
    ;
    lemma_product_near(v, t, 47);
    let p = v.product(t);
    let x = p.size() - s * parts;
    assert(-u <= 64 * x <= u) by (nonlinear_arith)
        requires
            -u * u <= 2 * (32 * (p.size() * u - s * (parts * u))) <= u * u,
            x == p.size() - s * parts,
            u > 0,
    ;
    let w = lemma_whole_near(p);
    lemma_whole_exact(w);
    let y = w * u - p.size();
    assert(w <= 100 * 0x100_0000_0000 + 1) by (nonlinear_arith)
        requires
            -u <= 2 * (w * u - p.size()) <= u,
            -u <= 64 * (p.size() - s * parts) <= u,
            s <= 0x100_0000_0000 * u,
            0 < parts <= 100,
            u > 0,
    ;
    assert(w * u <= (parts * u) * 0x200_0000_0000) by (nonlinear_arith)
        requires
            -u <= 2 * (w * u - p.size()) <= u,
            -u <= 64 * (p.size() - s * parts) <= u,
            s <= 0x100_0000_0000 * u,
            10 <= parts <= 100,
            u > 0,
    ;
    lemma_quotient_near(of_whole(w), t, 41);
    let r = of_whole(w).quotient(t);
    let z = r.size() * parts - w * u;
    assert(-(parts as int) * u <= 4096 * z <= parts * u) by (nonlinear_arith)
        requires
            -(parts * u) * u <= 2 * (2048 * (r.size() * (parts * u) - (w * u) * u)) <= (parts * u)
                * u,
            z == r.size() * parts - w * u,
            u > 0,
    ;
    assert(-100 * u <= 4096 * z <= 100 * u) by (nonlinear_arith)
        requires
            -(parts as int) * u <= 4096 * z <= parts * u,
            0 <= parts <= 100,
            u > 0,
    ;
    assert(parts * (r.size() - s) == x + y + z) by (nonlinear_arith)
        requires
            x == p.size() - s * parts,
            y == w * u - p.size(),
            z == r.size() * parts - w * u,
    ;
}

/// A reading with its decimal places, and a unit behind it.
pub open spec fn with_unit(x: Num, places: nat, unit: Seq<char>) -> Seq<char> {
    fixed_text(x, places) + unit
}

/// Writes a reading with its decimal places, and a unit behind it.
pub fn figure(x: Num, places: u32, unit: &str) -> (r: String)
    requires
        places <= 2,
    ensures
        r@ == with_unit(x, places as nat, unit@),
{
    let mut out = fixed(x, places);
    out.append(unit);
    out
}

pub open spec fn speed_text(bytes_sec: Num) -> Seq<char> {
    if !bytes_sec.finite() {
        "--"@
    } else if num_of(MEBI).at_most(bytes_sec) {
        with_unit(bytes_sec.quotient(num_of(MEBI)), 2, " MB/s"@)
    } else {
        with_unit(bytes_sec.quotient(num_of(KIBI)), 1, " KB/s"@)
    }
}

/// Transfer rate: from 1 MB/s on with two places in MB/s, below with one place
/// in KB/s. What is not finite is `--`.
pub fn speed(bytes_sec: Num) -> (r: String)
    ensures
        r@ == speed_text(bytes_sec),
{
    if !bytes_sec.is_finite() {
        "--".to_owned()
    } else if bytes_sec.ge(num(MEBI)) {
        figure(bytes_sec.over(num(MEBI)), 2, " MB/s")
    } else {
        figure(bytes_sec.over(num(KIBI)), 1, " KB/s")
    }
}

pub open spec fn disk_speed_text(bytes_sec: Num) -> Seq<char> {
    if !bytes_sec.finite() || bytes_sec.below(num_of(ZERO)) {
        "n/a"@
    } else {
        speed_text(bytes_sec)
    }
}

/// Disk rate: a negative reading stands for no data and is `n/a`.
pub fn disk_speed(bytes_sec: Num) -> (r: String)
    ensures
        r@ == disk_speed_text(bytes_sec),
{
    if !bytes_sec.is_finite() || bytes_sec.lt(num(ZERO)) {
        "n/a".to_owned()
    } else {
        speed(bytes_sec)
    }
}

pub open spec fn temp_text(celsius: Num) -> Seq<char> {
    if celsius.finite() && num_of(MINUS_ONE).below(celsius) {
        with_unit(celsius, 0, "°C"@)
    } else {
        "n/a"@
    }
}

/// Temperature in whole degrees; without a sensor the reading is -1 and the
/// text `n/a`.
pub fn temp(celsius: Num) -> (r: String)
    ensures
        r@ == temp_text(celsius),
{
    if celsius.is_finite() && celsius.gt(num(MINUS_ONE)) {
        figure(celsius, 0, "°C")
    } else {
        "n/a".to_owned()
    }
}

pub open spec fn gpu_text(percent: Num) -> Seq<char> {
    if percent.finite() && num_of(MINUS_ONE).below(percent) {
        with_unit(percent, 0, "%"@)
    } else {
        "n/a"@
    }
}

/// GPU use in whole percent; before the counters deliver the reading is -1 and
/// the text `n/a`.
pub fn gpu(percent: Num) -> (r: String)
    ensures
        r@ == gpu_text(percent),
{
    if percent.is_finite() && percent.gt(num(MINUS_ONE)) {
        figure(percent, 0, "%")
    } else {
        "n/a".to_owned()
    }
}

pub open spec fn pct_text(v: Num) -> Seq<char> {
    with_unit(rounded_to(to_number_of(v), num_of(TEN)), 1, "%"@)
}

/// Percentage with one place.
pub fn pct(v: Num) -> (r: String)
    ensures
        r@ == pct_text(v),
{
    figure(round1(v), 1, "%")
}

/// Gigabytes with two places.
pub fn gb(v: Num) -> (r: String)
    ensures
        r@ == with_unit(v, 2, " GB"@),
{
    figure(v, 2, " GB")
}

// --- Paths -------------------------------------------------------------------

pub open spec fn separator(c: char) -> bool {
    c == '\\' || c == '/'
}

pub open spec fn separators(path: Seq<char>) -> nat
    decreases path.len(),
{
    if path.len() == 0 {
        0
    } else {
        separators(path.drop_last()) + if separator(path.last()) {
            1nat
        } else {
            0nat
        }
    }
}

/// The part of a path from the `n`-th separator on, counted from the end.
pub open spec fn tail_from(path: Seq<char>, n: nat) -> Seq<char>
    decreases path.len(),
{
    if path.len() == 0 || n == 0 {
        Seq::empty()
    } else if separator(path.last()) {
        tail_from(path.drop_last(), (n - 1) as nat).push(path.last())
    } else {
        tail_from(path.drop_last(), n).push(path.last())
    }
}

pub open spec fn exe_path_text(exe: Option<Seq<char>>) -> Seq<char> {
    match exe {
        Some(path) => {
            let shown = trimmed(path);
            if shown.len() == 0 {
                "ruta no disponible"@
            } else if separators(shown) <= 2 {
                shown
            } else {
                seq!['…'] + tail_from(shown, 2)
            }
        },
        None => "ruta no disponible"@,
    }
}

fn is_separator(c: char) -> (r: bool)
    ensures
        r == separator(c),
{
    c == '\\' || c == '/'
}

fn count_separators(path: &Vec<char>) -> (r: usize)
    ensures
        r == separators(path@),
{
    let mut n: usize = 0;
    let mut i: usize = 0;
    assert(path@.take(0) == Seq::<char>::empty());
    while i < path.len()
        invariant
            i <= path.len(),
            n <= i,
            n == separators(path@.take(i as int)),
        decreases path.len() - i,
    {
        assert(path@.take(i + 1).drop_last() == path@.take(i as int));
        if is_separator(path[i]) {
            n = n + 1;
        }
        i = i + 1;
    }
    assert(path@.take(path@.len() as int) == path@);
    n
}

/// Index of the `n`-th separator, counted from the end.
fn nth_separator_from_end(path: &Vec<char>, n: usize) -> (r: usize)
    requires
        0 < n <= separators(path@),
    ensures
        r < path.len(),
        tail_from(path@, n as nat) == path@.skip(r as int),
{
    let mut left: usize = n;
    let mut to: usize = path.len();
    assert(path@.take(to as int) == path@);
    assert(path@.skip(to as int) == Seq::<char>::empty());
    assert(tail_from(path@, n as nat) == tail_from(path@.take(to as int), left as nat) + path@.skip(
        to as int,
    ));
    while to > 0
        invariant
            to <= path.len(),
            0 < left <= separators(path@.take(to as int)),
            tail_from(path@, n as nat) == tail_from(path@.take(to as int), left as nat)
                + path@.skip(to as int),
        decreases to,
    {
        let ghost head = path@.take(to as int);
        assert(head.drop_last() == path@.take(to - 1));
        assert(path@.skip(to - 1) == seq![path@[to - 1]] + path@.skip(to as int));
        to = to - 1;
        if is_separator(path[to]) {
            if left == 1 {
                assert(tail_from(path@.take(to as int), 0) == Seq::<char>::empty());
                assert(tail_from(path@, n as nat) == path@.skip(to as int));
                return to;
            }
            left = left - 1;
        }
        assert(tail_from(path@, n as nat) == tail_from(path@.take(to as int), left as nat)
            + path@.skip(to as int));
    }
    0
}

/// Shortens the path of an executable to its last two parts, each with the
/// separator before it. A path with at most two separators stays whole; without
/// a path there is a text that says so.
pub fn exe_path(exe: Option<&str>) -> (r: String)
    ensures
        r@ == exe_path_text(
            match exe {
                Some(path) => Some(path@),
                None => None,
            },
        ),
{
    match exe {
        Some(path) => {
            let chars = chars_of(path);
            let shown = trim_chars(&chars);
            if shown.len() == 0 {
                "ruta no disponible".to_owned()
            } else if count_separators(&shown) <= 2 {
                assert(shown@.subrange(0, shown@.len() as int) == shown@);
                string_of(&shown, 0, shown.len())
            } else {
                let at = nth_separator_from_end(&shown, 2);
                let tail = string_of(&shown, at, shown.len());
                let mut out: String = String::new();
                out.push('…');
                out.append(tail.as_str());
                assert(out@ == seq!['…'] + tail_from(shown@, 2));
                out
            }
        },
        None => "ruta no disponible".to_owned(),
    }
}

proof fn lemma_tail_separators(path: Seq<char>, n: nat)
    requires
        n <= separators(path),
    ensures
        separators(tail_from(path, n)) == n,
        tail_from(path, n).len() <= path.len(),
        tail_from(path, n) == path.skip(path.len() - tail_from(path, n).len()),
        n > 0 ==> tail_from(path, n).len() > 0 && separator(tail_from(path, n)[0]),
    decreases path.len(),
{
    if path.len() > 0 && n > 0 {
        let head = path.drop_last();
        let rest = if separator(path.last()) {
            (n - 1) as nat
        } else {
            n
        };
        lemma_tail_separators(head, rest);
        assert(tail_from(path, n).drop_last() == tail_from(head, rest));
        assert(tail_from(path, n) == path.skip(path.len() - tail_from(path, n).len()));
        if rest == 0 {
            assert(tail_from(head, rest) == Seq::<char>::empty());
        } else {
            assert(tail_from(path, n)[0] == tail_from(head, rest)[0]);
        }
    } else {
        assert(path.skip(path.len() as int) == Seq::<char>::empty());
    }
}

proof fn lemma_separators_behind(head: char, path: Seq<char>)
    requires
        !separator(head),
    ensures
        separators(seq![head] + path) == separators(path),
    decreases path.len(),
{
    if path.len() == 0 {
        assert((seq![head] + path).drop_last() == Seq::<char>::empty());
        assert((seq![head] + path).last() == head);
        assert(separators(Seq::<char>::empty()) == 0);
    } else {
        assert((seq![head] + path).drop_last() == seq![head] + path.drop_last());
        lemma_separators_behind(head, path.drop_last());
    }
}

/// A path that has been shortened stays as it is, as does the text for no path.
pub proof fn law_short_path_stays(exe: Option<Seq<char>>)
    ensures
        exe_path_text(Some(exe_path_text(exe))) == exe_path_text(exe),
{
    let none = "ruta no disponible"@;
    reveal_strlit("ruta no disponible");
    assert(trimmed(none) == none);
    assert(separators(none) == 0) by {
        assert forall|i: int| 0 <= i < none.len() implies !separator(#[trigger] none[i]) by {}
        lemma_no_separators(none);
    }
    if let Some(path) = exe {
        let shown = trimmed(path);
        lemma_trimmed_stays(path);
        if shown.len() > 0 && separators(shown) > 2 {
            lemma_tail_separators(shown, 2);
            let tail = tail_from(shown, 2);
            let short = seq!['…'] + tail;
            lemma_separators_behind('…', tail);
            assert(short.last() == shown.last());
            assert(short[0] == '…');
            assert(trimmed(short) == short);
        }
    }
}

proof fn lemma_no_separators(path: Seq<char>)
    requires
        forall|i: int| 0 <= i < path.len() ==> !separator(#[trigger] path[i]),
    ensures
        separators(path) == 0,
    decreases path.len(),
{
    if path.len() > 0 {
        assert(path.last() == path[path.len() - 1]);
        lemma_no_separators(path.drop_last());
    }
}

/// A shortened path is a mark and an end of the path: it starts at a separator
/// and holds exactly two.
pub proof fn law_short_path_keeps_two_parts(path: Seq<char>)
    requires
        separators(trimmed(path)) > 2,
    ensures
        ({
            let shown = exe_path_text(Some(path));
            let tail = shown.skip(1);
            &&& shown[0] == '…'
            &&& separators(tail) == 2
            &&& separator(tail[0])
            &&& tail == trimmed(path).skip(trimmed(path).len() - tail.len())
        }),
{
    lemma_tail_separators(trimmed(path), 2);
    let tail = tail_from(trimmed(path), 2);
    assert((seq!['…'] + tail).skip(1) == tail);
    assert(trimmed(path).len() > 0);
}

/// Rates are told in MB/s from one MB/s on, which is 2 to the power of 20 bytes, and in
/// KB/s of 1024 bytes below. A disk without data is told as `n/a`, a rate that is not
/// finite as `--`.
pub proof fn law_rates_are_told(v: Num, n: nat)
    requires
        n < 0x1_0000_0000,
    ensures
        n >= 1 ==> speed_text(of_whole(n * 0x10_0000)) == decimal(n) + seq!['.', '0', '0']
            + " MB/s"@,
        n < 1024 ==> speed_text(of_whole(n * 1024)) == decimal(n) + seq!['.', '0'] + " KB/s"@,
        !v.finite() ==> speed_text(v) == "--"@ && disk_speed_text(v) == "n/a"@,
        v.below(num_of(ZERO)) ==> disk_speed_text(v) == "n/a"@,
        v.finite() && num_of(ZERO).at_most(v) ==> disk_speed_text(v) == speed_text(v),
        v.finite() && num_of(MEBI).at_most(v) ==> speed_text(v) == fixed_text(
            v.quotient(of_whole(0x10_0000)),
            2,
        ) + " MB/s"@,
        v.finite() && v.below(num_of(MEBI)) ==> speed_text(v) == fixed_text(
            v.quotient(of_whole(1024)),
            1,
        ) + " KB/s"@,
{
    lemma_named_wholes();
    law_whole_arithmetic(n, 0x10_0000);
    law_whole_arithmetic(n, 1024);
    lemma_whole_exact(n * 0x10_0000);
    law_whole_numbers_are_written(n);
    law_whole_arithmetic(n * 0x10_0000, 0x10_0000);
    if n < 1024 {
        lemma_whole_exact(n * 1024);
        law_whole_arithmetic(n * 1024, 0x10_0000);
    }
}

/// Whole percentages and degrees are told as they are. A temperature or GPU use of -1 or
/// less, or one that is not finite, is told as `n/a`.
pub proof fn law_readings_are_told(v: Num, n: nat)
    requires
        n < 0x1_0000_0000,
    ensures
        temp_text(of_whole(n)) == decimal(n) + "°C"@,
        gpu_text(of_whole(n)) == decimal(n) + "%"@,
        pct_text(of_whole(n)) == decimal(n) + seq!['.', '0'] + "%"@,
        with_unit(of_whole(n), 2, " GB"@) == decimal(n) + seq!['.', '0', '0'] + " GB"@,
        !v.finite() || v.at_most(num_of(MINUS_ONE)) ==> temp_text(v) == "n/a"@ && gpu_text(v)
            == "n/a"@,
        v.finite() && num_of(MINUS_ONE).below(v) ==> temp_text(v) == fixed_text(v, 0) + "°C"@
            && gpu_text(v) == fixed_text(v, 0) + "%"@,
{
    lemma_named_wholes();
    law_whole_numbers_are_written(n);
    lemma_whole_exact(n);
    law_rounding_keeps_whole_numbers(n, 10);
}

/// A path with at most two separators is told as it is, without the blanks at its ends;
/// where there is none, or only blanks, a text says so.
pub proof fn law_paths_are_told(before: Seq<char>, path: Seq<char>, after: Seq<char>)
    requires
        all_blank(before),
        all_blank(after),
        path.len() > 0 ==> !blank(path[0]) && !blank(path.last()),
    ensures
        separators(path) == path.filter(|c: char| c == '\\' || c == '/').len(),
        path.len() > 0 && separators(path) <= 2 ==> exe_path_text(Some(before + path + after))
            == path,
        path.len() == 0 ==> exe_path_text(Some(before + path + after)) == "ruta no disponible"@,
        exe_path_text(None) == "ruta no disponible"@,
{
    law_trimmed(before, path, after);
    lemma_separators_counted(path);
}

proof fn lemma_separators_counted(path: Seq<char>)
    ensures
        separators(path) == path.filter(|c: char| c == '\\' || c == '/').len(),
    decreases path.len(),
{
    reveal(Seq::filter);
    if path.len() > 0 {
        lemma_separators_counted(path.drop_last());
    }
}

/// Percentages are told with one place; one that is not finite counts as zero.
pub proof fn law_percentages_are_told(v: Num)
    ensures
        v.finite() ==> pct_text(v) == fixed_text(rounded_to(v, of_whole(10)), 1) + "%"@,
        !v.finite() ==> pct_text(v) == seq!['0', '.', '0'] + "%"@,
{
    lemma_named_wholes();
    law_rounding_keeps_whole_numbers(0, 10);
    law_whole_numbers_are_written(0);
    assert(decimal(0) =~= seq!['0']);
    assert(seq!['0'] + seq!['.', '0'] =~= seq!['0', '.', '0']);
}

} // verus!
