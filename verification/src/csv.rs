//! The lines that `typeperf` writes: performance counters as comma separated
//! values in quotes.

use vstd::prelude::*;
use crate::arith::{added_up, lemma_added_up};
use crate::num::{num, num_of, Num, HUNDRED, INFINITY, ZERO};
use crate::reading::{number_named, parse_number};
use crate::text::{char_views, chars_of, contains, find_chars, first_index, law_first_index, lemma_first_index, lowercase, occurs_at, string_of, to_lowercase, trim_chars, trimmed, views};

verus! {

// --- Fields ------------------------------------------------------------------

/// Whether the end of a text lies inside quotes.
pub open spec fn quoted(text: Seq<char>) -> bool
    decreases text.len(),
{
    if text.len() == 0 {
        false
    } else if text.last() == '"' {
        !quoted(text.drop_last())
    } else {
        quoted(text.drop_last())
    }
}

/// The fields of a line: parted by the commas outside quotes, and without the
/// quotes.
pub open spec fn fields(line: Seq<char>) -> Seq<Seq<char>>
    decreases line.len(),
{
    if line.len() == 0 {
        seq![Seq::empty()]
    } else {
        let before = fields(line.drop_last());
        if line.last() == '"' {
            before
        } else if line.last() == ',' && !quoted(line.drop_last()) {
            before.push(Seq::empty())
        } else {
            before.drop_last().push(before.last().push(line.last()))
        }
    }
}

/// Parts a line into its fields.
pub fn split_csv(line: &Vec<char>) -> (r: Vec<Vec<char>>)
    ensures
        char_views(r@) == fields(line@),
{
    let mut cols: Vec<Vec<char>> = Vec::new();
    let mut cur: Vec<char> = Vec::new();
    let mut in_quotes: bool = false;
    let mut i: usize = 0;
    assert(line@.take(0) == Seq::<char>::empty());
    assert(char_views(cols@).push(cur@) == fields(line@.take(0)));
    while i < line.len()
        invariant
            i <= line.len(),
            in_quotes == quoted(line@.take(i as int)),
            char_views(cols@).push(cur@) == fields(line@.take(i as int)),
        decreases line.len() - i,
    {
        let c = line[i];
        let ghost done = char_views(cols@);
        let ghost open = cur@;
        assert(line@.take(i + 1).drop_last() == line@.take(i as int));
        assert(done.push(open).drop_last() == done);
        if c == '"' {
            in_quotes = !in_quotes;
        } else if c == ',' && !in_quotes {
            cols.push(cur);
            cur = Vec::new();
            assert(char_views(cols@) == done.push(open));
        } else {
            cur.push(c);
        }
        i = i + 1;
    }
    let ghost done = char_views(cols@);
    let ghost open = cur@;
    cols.push(cur);
    assert(char_views(cols@) == done.push(open));
    assert(line@.take(line@.len() as int) == line@);
    cols
}

proof fn lemma_fields_nonempty(line: Seq<char>)
    ensures
        fields(line).len() >= 1,
    decreases line.len(),
{
    if line.len() > 0 {
        lemma_fields_nonempty(line.drop_last());
    }
}

/// A field as it is written: in quotes.
pub open spec fn in_quotes(field: Seq<char>) -> Seq<char> {
    seq!['"'] + field + seq!['"']
}

/// A line with the given fields, each in quotes.
pub open spec fn line_of(values: Seq<Seq<char>>) -> Seq<char>
    decreases values.len(),
{
    if values.len() == 0 {
        Seq::empty()
    } else if values.len() == 1 {
        in_quotes(values[0])
    } else {
        line_of(values.drop_last()).push(',') + in_quotes(values.last())
    }
}

pub open spec fn without_quotes(field: Seq<char>) -> bool {
    forall|i: int| 0 <= i < field.len() ==> #[trigger] field[i] != '"'
}

proof fn lemma_open_field(head: Seq<char>, field: Seq<char>)
    requires
        quoted(head),
        without_quotes(field),
        fields(head).len() >= 1,
    ensures
        quoted(head + field),
        fields(head + field) == fields(head).drop_last().push(fields(head).last() + field),
    decreases field.len(),
{
    if field.len() == 0 {
        assert(head + field == head);
        assert(fields(head).last() + field == fields(head).last());
        assert(fields(head).drop_last().push(fields(head).last()) == fields(head));
    } else {
        lemma_open_field(head, field.drop_last());
        assert((head + field).drop_last() == head + field.drop_last());
        assert(field.last() != '"');
        let before = fields(head + field.drop_last());
        assert(before.drop_last() == fields(head).drop_last());
        assert((fields(head).last() + field.drop_last()).push(field.last()) == fields(head).last()
            + field);
    }
}

proof fn lemma_quoted_field(head: Seq<char>, field: Seq<char>)
    requires
        !quoted(head),
        without_quotes(field),
        fields(head).len() >= 1,
    ensures
        !quoted(head + in_quotes(field)),
        fields(head + in_quotes(field)) == fields(head).drop_last().push(
            fields(head).last() + field,
        ),
{
    let opened = head.push('"');
    assert(opened.drop_last() == head);
    lemma_open_field(opened, field);
    let whole = head + in_quotes(field);
    assert(whole.drop_last() == opened + field);
    assert(whole.last() == '"');
}

/// Fields without quotes in them, written in quotes with commas between, are read
/// back as they were.
pub proof fn law_fields_read_back(values: Seq<Seq<char>>)
    requires
        values.len() >= 1,
        forall|i: int| 0 <= i < values.len() ==> without_quotes(#[trigger] values[i]),
    ensures
        fields(line_of(values)) == values,
        !quoted(line_of(values)),
    decreases values.len(),
{
    if values.len() == 1 {
        let none = Seq::<char>::empty();
        assert(without_quotes(values[0]));
        lemma_quoted_field(none, values[0]);
        assert(none + in_quotes(values[0]) == in_quotes(values[0]));
        assert(none + values[0] == values[0]);
        assert(fields(line_of(values)) == values);
    } else {
        let before = values.drop_last();
        assert forall|i: int| 0 <= i < before.len() implies without_quotes(#[trigger] before[i]) by {
            assert(without_quotes(values[i]));
        }
        law_fields_read_back(before);
        let head = line_of(before).push(',');
        assert(head.drop_last() == line_of(before));
        assert(fields(head) == before.push(Seq::empty()));
        assert(without_quotes(values[values.len() - 1]));
        lemma_quoted_field(head, values.last());
        assert(before.push(Seq::empty()).drop_last() == before);
        assert(Seq::<char>::empty() + values.last() == values.last());
        assert(before.push(values.last()) == values);
    }
}

/// Fields with commas between them.
pub open spec fn joined(values: Seq<Seq<char>>) -> Seq<char>
    decreases values.len(),
{
    if values.len() == 0 {
        Seq::empty()
    } else if values.len() == 1 {
        values[0]
    } else {
        joined(values.drop_last()).push(',') + values.last()
    }
}

/// How many commas of a line lie outside quotes.
pub open spec fn parting_commas(line: Seq<char>) -> nat
    decreases line.len(),
{
    if line.len() == 0 {
        0
    } else {
        parting_commas(line.drop_last()) + if line.last() == ',' && !quoted(line.drop_last()) {
            1nat
        } else {
            0nat
        }
    }
}

/// Whatever a line holds, its fields with commas between them are the line without
/// its quotes, and there is one field more than commas outside quotes.
pub proof fn law_fields_hold_the_line(line: Seq<char>)
    ensures
        joined(fields(line)) == line.filter(|c: char| c != '"'),
        fields(line).len() == parting_commas(line) + 1,
    decreases line.len(),
{
    reveal(Seq::filter);
    if line.len() > 0 {
        let before = fields(line.drop_last());
        law_fields_hold_the_line(line.drop_last());
        if line.last() == '"' {
        } else if line.last() == ',' && !quoted(line.drop_last()) {
            assert(before.push(Seq::empty()).drop_last() == before);
            assert(joined(before).push(',') + Seq::<char>::empty() == joined(before).push(','));
        } else {
            let open = before.drop_last().push(before.last().push(line.last()));
            assert(open.drop_last() == before.drop_last());
            assert(joined(open) == joined(before).push(line.last()));
        }
    }
}

// --- Headers -----------------------------------------------------------------

/// Whether a line starts a new table.
pub open spec fn is_header(line: Seq<char>) -> bool {
    first_index(line, "\"(PDH-CSV"@) == Some(0int)
}

/// Whether a line starts a new table.
pub fn starts_table(line: &Vec<char>) -> (r: bool)
    ensures
        r == is_header(line@),
{
    match find_chars(line, &chars_of("\"(PDH-CSV")) {
        Some(i) => i == 0,
        None => false,
    }
}

/// The engine type that the name of a counter, in lower case, speaks of.
pub open spec fn engine_type_of(lower: Seq<char>) -> Seq<char> {
    match first_index(lower, "engtype_"@) {
        Some(i) => {
            let rest = lower.skip(i + 8);
            trimmed(
                rest.take(
                    match first_index(rest, ")"@) {
                        Some(end) => end,
                        None => rest.len() as int,
                    },
                ),
            )
        },
        None => "unknown"@,
    }
}

/// The engine type that the name of a counter, in lower case, speaks of; `unknown`
/// where it speaks of none.
pub fn engine_type(lower: &Vec<char>) -> (r: String)
    ensures
        r@ == engine_type_of(lower@),
{
    match find_chars(lower, &chars_of("engtype_")) {
        Some(i) => {
            proof {
                reveal_strlit("engtype_");
            }
            let mut rest: Vec<char> = Vec::new();
            let mut k: usize = i + 8;
            while k < lower.len()
                invariant
                    i + 8 <= k <= lower.len(),
                    rest@ == lower@.subrange(i + 8, k as int),
                decreases lower.len() - k,
            {
                assert(lower@.subrange(i + 8, k + 1) == lower@.subrange(i + 8, k as int).push(
                    lower@[k as int],
                ));
                rest.push(lower[k]);
                k = k + 1;
            }
            assert(rest@ == lower@.skip(i + 8));
            let end: usize = match find_chars(&rest, &chars_of(")")) {
                Some(end) => end,
                None => rest.len(),
            };
            let ghost all = rest@;
            rest.truncate(end);
            assert(rest@ == all.take(end as int));
            let kept = trim_chars(&rest);
            assert(kept@.subrange(0, kept@.len() as int) == kept@);
            string_of(&kept, 0, kept.len())
        },
        None => "unknown".to_owned(),
    }
}

/// The engine types of the columns after the first.
pub open spec fn header_types(line: Seq<char>) -> Seq<Seq<char>> {
    fields(line).skip(1).map_values(|h: Seq<char>| engine_type_of(lowercase(h)))
}

/// The engine type of each column after the first.
pub fn parse_header(line: &str) -> (r: Vec<String>)
    ensures
        views(r@) == header_types(line@),
{
    let cols = split_csv(&chars_of(line));
    let ghost all = char_views(cols@);
    proof {
        lemma_fields_nonempty(line@);
        assert(cols@.len() == all.len());
    }
    let mut out: Vec<String> = Vec::new();
    let mut i: usize = 1;
    while i < cols.len()
        invariant
            1 <= i <= cols.len(),
            all == char_views(cols@),
            views(out@) == all.subrange(1, i as int).map_values(
                |h: Seq<char>| engine_type_of(lowercase(h)),
            ),
        decreases cols.len() - i,
    {
        let ghost before = views(out@);
        let name = string_of(&cols[i], 0, cols[i].len());
        assert(name@ == all[i as int]) by {
            assert(cols@[i as int]@.subrange(0, cols@[i as int]@.len() as int) == cols@[i as int]@);
        }
        let lower = to_lowercase(name.as_str());
        let kind = engine_type(&chars_of(lower.as_str()));
        out.push(kind);
        assert(views(out@) == before.push(engine_type_of(lowercase(all[i as int]))));
        assert(all.subrange(1, i + 1) == all.subrange(1, i as int).push(all[i as int]));
        i = i + 1;
        assert(views(out@) == all.subrange(1, i as int).map_values(
            |h: Seq<char>| engine_type_of(lowercase(h)),
        ));
    }
    assert(all.subrange(1, i as int) == all.skip(1));
    out
}

// --- Data lines --------------------------------------------------------------

/// The first field of a data line is a time: not empty, and no table header.
pub open spec fn has_time(cols: Seq<Seq<char>>) -> bool {
    cols[0].len() > 0 && first_index(cols[0], "(PDH-CSV"@) != Some(0int)
}

pub open spec fn opens_with_quote(line: Seq<char>) -> bool {
    line.len() > 0 && line[0] == '"'
}

fn time_first(cols: &Vec<Vec<char>>) -> (r: bool)
    requires
        cols.len() >= 1,
    ensures
        r == has_time(char_views(cols@)),
{
    let header: bool = match find_chars(&cols[0], &chars_of("(PDH-CSV")) {
        Some(i) => i == 0,
        None => false,
    };
    cols[0].len() > 0 && !header
}

// --- GPU use -----------------------------------------------------------------

/// One engine at work: its type and its use.
pub struct Load {
    pub kind: Seq<char>,
    pub amount: Num,
}

/// The engine type of a column.
pub open spec fn kind_of(types: Seq<Seq<char>>, i: int) -> Seq<char> {
    if 0 <= i < types.len() {
        types[i]
    } else {
        "unknown"@
    }
}

pub open spec fn counts(field: Seq<char>) -> bool {
    match number_named(field) {
        Some(v) => v.finite() && num_of(ZERO).below(v),
        None => false,
    }
}

/// The engines at work: the columns with a number above zero.
pub open spec fn loads(values: Seq<Seq<char>>, types: Seq<Seq<char>>) -> Seq<Load>
    decreases values.len(),
{
    if values.len() == 0 {
        Seq::empty()
    } else {
        let before = loads(values.drop_last(), types);
        if counts(values.last()) {
            before.push(
                Load {
                    kind: kind_of(types, values.len() - 1),
                    amount: number_named(values.last())->0,
                },
            )
        } else {
            before
        }
    }
}

/// The use of all engines of one type together.
pub open spec fn total(work: Seq<Load>, kind: Seq<char>) -> Num
    decreases work.len(),
{
    if work.len() == 0 {
        num_of(ZERO)
    } else if work.last().kind == kind {
        total(work.drop_last(), kind).sum(work.last().amount)
    } else {
        total(work.drop_last(), kind)
    }
}

/// The largest total among the types of the first `n` engines.
pub open spec fn peak(work: Seq<Load>, n: nat) -> Num
    decreases n,
{
    if n == 0 {
        num_of(ZERO)
    } else {
        peak(work, (n - 1) as nat).larger(total(work, work[n - 1].kind))
    }
}

pub open spec fn gpu_line_value(line: Seq<char>, types: Seq<Seq<char>>) -> Option<Num> {
    let cols = fields(line);
    if opens_with_quote(line) && cols.len() >= 2 && has_time(cols) && types.len() > 0 {
        let work = loads(cols.skip(1), types);
        Some(peak(work, work.len()).held_within(num_of(ZERO), num_of(HUNDRED)))
    } else {
        None
    }
}

pub open spec fn load_views(kinds: Seq<String>, amounts: Seq<Num>) -> Seq<Load> {
    Seq::new(kinds.len(), |i: int| Load { kind: kinds[i]@, amount: amounts[i] })
}

fn total_of(kinds: &Vec<String>, amounts: &Vec<Num>, kind: &String) -> (r: Num)
    requires
        kinds.len() == amounts.len(),
    ensures
        r == total(load_views(kinds@, amounts@), kind@),
{
    let ghost work = load_views(kinds@, amounts@);
    let mut sum = num(ZERO);
    let mut i: usize = 0;
    assert(work.take(0).len() == 0);
    while i < kinds.len()
        invariant
            i <= kinds.len(),
            kinds.len() == amounts.len(),
            work == load_views(kinds@, amounts@),
            sum == total(work.take(i as int), kind@),
        decreases kinds.len() - i,
    {
        assert(work.take(i + 1).drop_last() == work.take(i as int));
        if kinds[i] == *kind {
            sum = sum.plus(amounts[i]);
        }
        i = i + 1;
    }
    assert(work.take(work.len() as int) == work);
    sum
}

/// The GPU use that a line tells, in percent: the engines of one type add up, and
/// the busiest type counts. Only a line of values under a known header tells one.
pub fn parse_gpu_csv_line(line: &str, column_types: &Vec<String>) -> (r: Option<Num>)
    ensures
        r == gpu_line_value(line@, views(column_types@)),
{
    let chars = chars_of(line);
    if chars.len() == 0 || chars[0] != '"' {
        return None;
    }
    let cols = split_csv(&chars);
    let ghost all = char_views(cols@);
    let ghost types = views(column_types@);
    assert(cols@.len() == all.len() && column_types@.len() == types.len());
    if cols.len() < 2 || !time_first(&cols) || column_types.len() == 0 {
        return None;
    }
    let mut kinds: Vec<String> = Vec::new();
    let mut amounts: Vec<Num> = Vec::new();
    let mut i: usize = 1;
    assert(all.subrange(1, 1).len() == 0);
    assert(load_views(kinds@, amounts@) == loads(all.subrange(1, 1), types));
    while i < cols.len()
        invariant
            1 <= i <= cols.len(),
            all == char_views(cols@),
            types == views(column_types@),
            kinds.len() == amounts.len(),
            load_views(kinds@, amounts@) == loads(all.subrange(1, i as int), types),
        decreases cols.len() - i,
    {
        let ghost before = load_views(kinds@, amounts@);
        assert(all.subrange(1, i + 1).drop_last() == all.subrange(1, i as int));
        assert(all.subrange(1, i + 1).last() == cols@[i as int]@);
        match parse_number(&cols[i]) {
            Some(v) => {
                if v.is_finite() && v.gt(num(ZERO)) {
                    let kind: String = if i - 1 < column_types.len() {
                        column_types[i - 1].clone()
                    } else {
                        "unknown".to_owned()
                    };
                    assert(kind@ == kind_of(types, i - 1));
                    kinds.push(kind);
                    amounts.push(v);
                    assert(load_views(kinds@, amounts@) == before.push(
                        Load { kind: kind_of(types, i - 1), amount: v },
                    ));
                }
            },
            None => {},
        }
        i = i + 1;
    }
    assert(all.subrange(1, i as int) == all.skip(1));
    let ghost work = loads(all.skip(1), types);
    let mut max = num(ZERO);
    let mut k: usize = 0;
    while k < kinds.len()
        invariant
            k <= kinds.len(),
            kinds.len() == amounts.len(),
            work == load_views(kinds@, amounts@),
            max == peak(work, k as nat),
        decreases kinds.len() - k,
    {
        let sum = total_of(&kinds, &amounts, &kinds[k]);
        max = max.max(sum);
        k = k + 1;
    }
    Some(max.clamp(num(ZERO), num(HUNDRED)))
}

// --- Disk transfer -----------------------------------------------------------

/// A column of a disk line: a finite number, at least zero.
pub open spec fn amount(field: Seq<char>) -> Option<Num> {
    match number_named(trimmed(field)) {
        Some(v) => if v.finite() {
            Some(v.larger(num_of(ZERO)))
        } else {
            None
        },
        None => None,
    }
}

/// The sum of the columns, added up in their order.
pub open spec fn amounts_sum(values: Seq<Seq<char>>) -> Num
    decreases values.len(),
{
    if values.len() == 0 {
        num_of(ZERO)
    } else {
        amounts_sum(values.drop_last()).sum(amount(values.last())->0)
    }
}

pub open spec fn disk_line_value(line: Seq<char>) -> Option<(Num, Num)> {
    let cols = fields(line);
    let values = cols.skip(1);
    let half = values.len() as int / 2;
    if opens_with_quote(line) && cols.len() >= 3 && has_time(cols) && (forall|i: int|
        0 <= i < values.len() ==> amount(#[trigger] values[i]) is Some) && values.len() % 2 == 0 {
        Some((amounts_sum(values.take(half)), amounts_sum(values.skip(half))))
    } else {
        None
    }
}

fn sum_of(values: &Vec<Num>, from: usize, to: usize, Ghost(cols): Ghost<Seq<Seq<char>>>) -> (r: Num)
    requires
        from <= to <= values.len(),
        values.len() == cols.len(),
        forall|i: int| 0 <= i < cols.len() ==> amount(#[trigger] cols[i]) == Some(values@[i]),
    ensures
        r == amounts_sum(cols.subrange(from as int, to as int)),
{
    let mut sum = num(ZERO);
    let mut i: usize = from;
    while i < to
        invariant
            from <= i <= to <= values.len(),
            values.len() == cols.len(),
            forall|i: int| 0 <= i < cols.len() ==> amount(#[trigger] cols[i]) == Some(values@[i]),
            sum == amounts_sum(cols.subrange(from as int, i as int)),
        decreases to - i,
    {
        let ghost part = cols.subrange(from as int, i + 1);
        assert(part.drop_last() == cols.subrange(from as int, i as int));
        assert(part.last() == cols[i as int]);
        sum = sum.plus(values[i]);
        i = i + 1;
    }
    sum
}

/// The bytes read and written per second that a line tells. The columns of one
/// counter stand together, those for reading first, so that the first half of the
/// columns adds up to one and the second half to the other. A column that is no
/// number, or an odd number of columns, is an unknown arrangement.
pub fn parse_disk_csv_line(line: &str) -> (r: Option<(Num, Num)>)
    ensures
        r == disk_line_value(line@),
{
    let chars = chars_of(line);
    if chars.len() == 0 || chars[0] != '"' {
        return None;
    }
    let cols = split_csv(&chars);
    let ghost all = char_views(cols@);
    assert(cols@.len() == all.len());
    if cols.len() < 3 || !time_first(&cols) {
        return None;
    }
    let ghost rest = all.skip(1);
    let mut values: Vec<Num> = Vec::new();
    let mut i: usize = 1;
    while i < cols.len()
        invariant
            1 <= i <= cols.len(),
            cols.len() >= 3,
            all == char_views(cols@),
            rest == all.skip(1),
            all == fields(line@),
            values.len() == i - 1,
            forall|k: int| 0 <= k < i - 1 ==> amount(#[trigger] rest[k]) == Some(values@[k]),
        decreases cols.len() - i,
    {
        let text = trim_chars(&cols[i]);
        assert(rest[i - 1] == cols@[i as int]@);
        match parse_number(&text) {
            Some(v) => {
                if !v.is_finite() {
                    assert(amount(rest[i - 1]) is None);
                    return None;
                }
                values.push(v.max(num(ZERO)));
            },
            None => {
                assert(amount(rest[i - 1]) is None);
                return None;
            },
        }
        i = i + 1;
    }
    assert(values.len() == rest.len());
    if values.len() % 2 != 0 {
        return None;
    }
    let half: usize = values.len() / 2;
    let read = sum_of(&values, 0, half, Ghost(rest));
    let write = sum_of(&values, half, values.len(), Ghost(rest));
    assert(rest.subrange(0, half as int) == rest.take(half as int));
    assert(rest.subrange(half as int, values@.len() as int) == rest.skip(half as int));
    Some((read, write))
}

// --- Laws --------------------------------------------------------------------

proof fn lemma_totals(work: Seq<Load>, kind: Seq<char>)
    requires
        forall|i: int| 0 <= i < work.len() ==> num_of(ZERO).at_most((#[trigger] work[i]).amount),
    ensures
        !total(work, kind).nan(),
        !total(work, kind).negative(),
    decreases work.len(),
{
    if work.len() > 0 {
        let before = work.drop_last();
        assert forall|i: int| 0 <= i < before.len() implies num_of(ZERO).at_most(
            (#[trigger] before[i]).amount,
        ) by {
            assert(num_of(ZERO).at_most(work[i].amount));
        }
        lemma_totals(before, kind);
        assert(num_of(ZERO).at_most(work[work.len() - 1].amount));
        crate::arith::lemma_sum_sign(total(before, kind), work.last().amount);
    }
}

proof fn lemma_loads_positive(values: Seq<Seq<char>>, types: Seq<Seq<char>>)
    ensures
        forall|i: int|
            0 <= i < loads(values, types).len() ==> num_of(ZERO).below(
                (#[trigger] loads(values, types)[i]).amount,
            ),
    decreases values.len(),
{
    if values.len() > 0 {
        let before = loads(values.drop_last(), types);
        lemma_loads_positive(values.drop_last(), types);
        assert forall|i: int| 0 <= i < loads(values, types).len() implies num_of(ZERO).below(
            (#[trigger] loads(values, types)[i]).amount,
        ) by {
            if i < before.len() {
                assert(loads(values, types)[i] == before[i]);
            }
        }
    }
}

proof fn lemma_peak(work: Seq<Load>, n: nat, k: int)
    requires
        forall|i: int| 0 <= i < work.len() ==> num_of(ZERO).at_most((#[trigger] work[i]).amount),
        n <= work.len(),
        0 <= k < n,
    ensures
        !peak(work, n).nan(),
        total(work, work[k].kind).at_most(peak(work, n)),
    decreases n,
{
    lemma_totals(work, work[n - 1].kind);
    if n == 1 {
        assert(peak(work, 0) == num_of(ZERO));
    } else {
        lemma_peak(work, (n - 1) as nat, if k < n - 1 {
            k
        } else {
            0
        });
    }
    lemma_totals(work, work[k].kind);
}

proof fn lemma_peak_sign(work: Seq<Load>, n: nat)
    requires
        forall|i: int| 0 <= i < work.len() ==> num_of(ZERO).at_most((#[trigger] work[i]).amount),
        n <= work.len(),
    ensures
        !peak(work, n).nan(),
        !peak(work, n).negative(),
    decreases n,
{
    if n > 0 {
        lemma_peak_sign(work, (n - 1) as nat);
        lemma_totals(work, work[n - 1].kind);
    }
}

/// GPU use lies between 0 and 100 percent.
pub proof fn law_gpu_percent_in_range(line: Seq<char>, types: Seq<Seq<char>>)
    requires
        gpu_line_value(line, types) is Some,
    ensures
        gpu_line_value(line, types)->0.from_zero(),
        gpu_line_value(line, types)->0.at_most(num_of(HUNDRED)),
{
    let work = loads(fields(line).skip(1), types);
    lemma_loads_positive(fields(line).skip(1), types);
    lemma_peak_sign(work, work.len());
}

/// GPU use is at least the total of every engine type at work, as far as that total
/// is at most 100 percent.
pub proof fn law_gpu_use_is_the_busiest_type(line: Seq<char>, types: Seq<Seq<char>>, k: int)
    requires
        gpu_line_value(line, types) is Some,
        0 <= k < loads(fields(line).skip(1), types).len(),
    ensures
        ({
            let work = loads(fields(line).skip(1), types);
            let shown = gpu_line_value(line, types)->0;
            total(work, work[k].kind).held_within(num_of(ZERO), num_of(HUNDRED)).at_most(shown)
        }),
{
    let work = loads(fields(line).skip(1), types);
    lemma_loads_positive(fields(line).skip(1), types);
    lemma_peak(work, work.len(), k);
    lemma_totals(work, work[k].kind);
}

proof fn lemma_bracket(kind: Seq<char>, after: Seq<char>)
    requires
        forall|i: int| 0 <= i < kind.len() ==> #[trigger] kind[i] != ')',
    ensures
        first_index(kind + seq![')'] + after, ")"@) == Some(kind.len() as int),
        first_index(kind, ")"@) is None,
{
    reveal_strlit(")");
    assert(")"@ == seq![')']);
    let text = kind + seq![')'] + after;
    assert forall|i: int| 0 <= i < kind.len() implies !occurs_at(text, ")"@, i) by {
        if occurs_at(text, ")"@, i) {
            assert(text.subrange(i, i + 1)[0] == kind[i]);
        }
    }
    law_first_index(kind, ")"@, after);
    lemma_first_index(kind, ")"@);
    if contains(kind, ")"@) {
        let i = choose|i: int| occurs_at(kind, ")"@, i);
        assert(kind.subrange(i, i + 1)[0] == kind[i]);
    }
}

/// The engine type that a counter speaks of is all that stands between `engtype_` and
/// the closing bracket, without the blanks at its ends; without a bracket, all that
/// follows. A name without `engtype_` speaks of none.
pub proof fn law_engine_type(before: Seq<char>, kind: Seq<char>, after: Seq<char>)
    requires
        forall|i: int| 0 <= i < kind.len() ==> #[trigger] kind[i] != ')',
    ensures
        ({
            let name = before + "engtype_"@ + (kind + seq![')'] + after);
            (forall|i: int| 0 <= i < before.len() ==> !occurs_at(name, "engtype_"@, i))
                ==> engine_type_of(name) == trimmed(kind)
        }),
        ({
            let name = before + "engtype_"@ + kind;
            (forall|i: int| 0 <= i < before.len() ==> !occurs_at(name, "engtype_"@, i))
                ==> engine_type_of(name) == trimmed(kind)
        }),
        !contains(before, "engtype_"@) ==> engine_type_of(before) == "unknown"@,
{
    reveal_strlit("engtype_");
    let word = "engtype_"@;
    let rest = kind + seq![')'] + after;
    lemma_bracket(kind, after);
    let name = before + word + rest;
    if forall|i: int| 0 <= i < before.len() ==> !occurs_at(name, word, i) {
        law_first_index(before, word, rest);
        assert(name.skip(before.len() as int + 8) == rest);
        assert(rest.take(kind.len() as int) == kind);
    }
    let open = before + word + kind;
    if forall|i: int| 0 <= i < before.len() ==> !occurs_at(open, word, i) {
        law_first_index(before, word, kind);
        assert(open.skip(before.len() as int + 8) == kind);
        assert(kind.take(kind.len() as int) == kind);
    }
    lemma_first_index(before, word);
}

/// Two columns are of one type only where the texts between `engtype_` and the closing
/// bracket are the same, up to the blanks at their ends.
pub proof fn law_engine_types_differ(
    p: Seq<char>,
    kind: Seq<char>,
    q: Seq<char>,
    r: Seq<char>,
    other: Seq<char>,
    s: Seq<char>,
)
    requires
        forall|i: int| 0 <= i < kind.len() ==> #[trigger] kind[i] != ')',
        forall|i: int| 0 <= i < other.len() ==> #[trigger] other[i] != ')',
        forall|i: int|
            0 <= i < p.len() ==> !occurs_at(
                p + "engtype_"@ + (kind + seq![')'] + q),
                "engtype_"@,
                i,
            ),
        forall|i: int|
            0 <= i < r.len() ==> !occurs_at(
                r + "engtype_"@ + (other + seq![')'] + s),
                "engtype_"@,
                i,
            ),
    ensures
        engine_type_of(p + "engtype_"@ + (kind + seq![')'] + q)) == engine_type_of(
            r + "engtype_"@ + (other + seq![')'] + s),
        ) <==> trimmed(kind) == trimmed(other),
{
    law_engine_type(p, kind, q);
    law_engine_type(r, other, s);
}

/// A header written in quotes gives each column behind the first the type of its own
/// name, in lower case.
pub proof fn law_columns_have_their_types(names: Seq<Seq<char>>, i: int)
    requires
        1 <= i < names.len(),
        forall|i: int| 0 <= i < names.len() ==> without_quotes(#[trigger] names[i]),
    ensures
        header_types(line_of(names)).len() == names.len() - 1,
        header_types(line_of(names))[i - 1] == engine_type_of(lowercase(names[i])),
{
    law_fields_read_back(names);
}

/// Whether a column shows an engine of one type at work: a number above zero. A column
/// without a type of its own is of the type `unknown`.
pub open spec fn works_as(
    values: Seq<Seq<char>>,
    types: Seq<Seq<char>>,
    kind: Seq<char>,
) -> spec_fn(int) -> bool {
    |i: int|
        (if i < types.len() {
            types[i]
        } else {
            "unknown"@
        }) == kind && number_named(values[i]) is Some && number_named(values[i])->0.finite()
            && num_of(ZERO).below(number_named(values[i])->0)
}

pub open spec fn number_at(values: Seq<Seq<char>>) -> spec_fn(int) -> Num {
    |i: int| number_named(values[i])->0
}

/// The readings of the engines of one type in a row of columns, in their order.
pub open spec fn engine_readings(
    values: Seq<Seq<char>>,
    types: Seq<Seq<char>>,
    kind: Seq<char>,
) -> Seq<Num> {
    Seq::new(values.len(), |i: int| i).filter(works_as(values, types, kind)).map_values(
        number_at(values),
    )
}

proof fn lemma_engine_readings(values: Seq<Seq<char>>, types: Seq<Seq<char>>, kind: Seq<char>)
    requires
        values.len() > 0,
    ensures
        engine_readings(values, types, kind) == ({
            let before = engine_readings(values.drop_last(), types, kind);
            if kind_of(types, values.len() - 1) == kind && counts(values.last()) {
                before.push(number_named(values.last())->0)
            } else {
                before
            }
        }),
{
    reveal(Seq::filter);
    let n = values.len();
    let rest = values.drop_last();
    let pred = works_as(values, types, kind);
    let pred_rest = works_as(rest, types, kind);
    let all = Seq::new(n, |i: int| i);
    let fewer = Seq::new(rest.len(), |i: int| i);
    assert(all.drop_last() == fewer);
    lemma_same_filter(fewer, pred, pred_rest, rest.len() as int);
    let kept = fewer.filter(pred);
    assert forall|k: int| 0 <= k < kept.len() implies 0 <= #[trigger] kept[k] < rest.len() by {
        fewer.lemma_filter_contains_rev(pred, kept[k]);
        let j = fewer.index_of(kept[k]);
        assert(fewer[j] == j);
    }
    let read = number_at(values);
    let read_rest = number_at(rest);
    assert(kept.map_values(read) == kept.map_values(read_rest));
    assert(engine_readings(rest, types, kind) == kept.map_values(read_rest));
    if pred(n - 1) {
        assert(all.filter(pred) == kept.push(n - 1));
        assert(kept.push(n - 1).map_values(read) == kept.map_values(read).push(read(n - 1)));
        assert(engine_readings(values, types, kind) == kept.push(n - 1).map_values(read));
    } else {
        assert(all.filter(pred) == kept);
        assert(engine_readings(values, types, kind) == kept.map_values(read));
    }
}

proof fn lemma_same_filter(items: Seq<int>, p: spec_fn(int) -> bool, q: spec_fn(int) -> bool, n: int)
    requires
        forall|k: int| 0 <= k < items.len() ==> 0 <= #[trigger] items[k] < n,
        forall|i: int| 0 <= i < n ==> #[trigger] p(i) == q(i),
    ensures
        items.filter(p) == items.filter(q),
    decreases items.len(),
{
    reveal(Seq::filter);
    if items.len() > 0 {
        let rest = items.drop_last();
        assert forall|k: int| 0 <= k < rest.len() implies 0 <= #[trigger] rest[k] < n by {
            assert(rest[k] == items[k]);
        }
        lemma_same_filter(rest, p, q, n);
        assert(0 <= items[items.len() - 1] < n);
        assert(p(items.last()) == q(items.last()));
    }
}

proof fn lemma_total_is_added_up(values: Seq<Seq<char>>, types: Seq<Seq<char>>, kind: Seq<char>)
    ensures
        total(loads(values, types), kind) == added_up(engine_readings(values, types, kind)),
    decreases values.len(),
{
    let work = loads(values, types);
    let readings = engine_readings(values, types, kind);
    lemma_added_up(readings);
    if values.len() == 0 {
        reveal(Seq::filter);
        assert(readings.len() == 0);
    } else {
        lemma_total_is_added_up(values.drop_last(), types, kind);
        lemma_engine_readings(values, types, kind);
        let before = loads(values.drop_last(), types);
        if counts(values.last()) {
            assert(work.drop_last() == before);
            if kind_of(types, values.len() - 1) == kind {
                assert(readings.drop_last() == engine_readings(values.drop_last(), types, kind));
            }
        }
    }
}

proof fn lemma_load_at(values: Seq<Seq<char>>, types: Seq<Seq<char>>, i: int) -> (k: int)
    requires
        0 <= i < values.len(),
        counts(values[i]),
    ensures
        0 <= k < loads(values, types).len(),
        loads(values, types)[k].kind == kind_of(types, i),
    decreases values.len(),
{
    let before = loads(values.drop_last(), types);
    if i == values.len() - 1 {
        before.len() as int
    } else {
        let k = lemma_load_at(values.drop_last(), types, i);
        assert(loads(values, types)[k] == before[k]);
        k
    }
}

proof fn lemma_load_from(values: Seq<Seq<char>>, types: Seq<Seq<char>>, k: int) -> (i: int)
    requires
        0 <= k < loads(values, types).len(),
    ensures
        0 <= i < values.len(),
        counts(values[i]),
        loads(values, types)[k].kind == kind_of(types, i),
    decreases values.len(),
{
    let before = loads(values.drop_last(), types);
    if k < before.len() {
        assert(loads(values, types)[k] == before[k]);
        lemma_load_from(values.drop_last(), types, k)
    } else {
        values.len() - 1
    }
}

proof fn lemma_peak_from(work: Seq<Load>, n: nat) -> (k: int)
    requires
        n <= work.len(),
        forall|i: int| 0 <= i < work.len() ==> num_of(ZERO).at_most((#[trigger] work[i]).amount),
    ensures
        peak(work, n) == num_of(ZERO) || 0 <= k < n && peak(work, n) == total(work, work[k].kind),
    decreases n,
{
    if n == 0 {
        0
    } else {
        let k = lemma_peak_from(work, (n - 1) as nat);
        lemma_peak_sign(work, (n - 1) as nat);
        if peak(work, n) == peak(work, (n - 1) as nat) {
            k
        } else {
            n - 1
        }
    }
}

/// The GPU use of a line is that of one engine type that occurs in it, held within 0 and
/// 100 percent, or zero: the readings of that type added up, in the order of the
/// columns. No other type that occurs has more.
pub proof fn law_gpu_use(line: Seq<char>, types: Seq<Seq<char>>) -> (shown: int)
    requires
        gpu_line_value(line, types) is Some,
    ensures
        ({
            let values = fields(line).skip(1);
            let value = gpu_line_value(line, types)->0;
            let (low, high) = (num_of(ZERO), num_of(HUNDRED));
            &&& value == num_of(ZERO) || (0 <= shown < values.len() && value == added_up(
                engine_readings(values, types, kind_of(types, shown)),
            ).held_within(low, high))
            &&& forall|i: int|
                0 <= i < values.len() && counts(#[trigger] values[i]) ==> added_up(
                    engine_readings(values, types, kind_of(types, i)),
                ).held_within(low, high).at_most(value)
        }),
{
    let values = fields(line).skip(1);
    let work = loads(values, types);
    lemma_loads_positive(values, types);
    assert forall|i: int| 0 <= i < values.len() && counts(#[trigger] values[i]) implies added_up(
        engine_readings(values, types, kind_of(types, i)),
    ).held_within(num_of(ZERO), num_of(HUNDRED)).at_most(gpu_line_value(line, types)->0) by {
        let k = lemma_load_at(values, types, i);
        law_gpu_use_is_the_busiest_type(line, types, k);
        lemma_total_is_added_up(values, types, kind_of(types, i));
    }
    let k = lemma_peak_from(work, work.len());
    if peak(work, work.len()) == num_of(ZERO) {
        0
    } else {
        let i = lemma_load_from(values, types, k);
        lemma_total_is_added_up(values, types, kind_of(types, i));
        i
    }
}

/// A line tells the GPU use just where it begins with a quote, has a column behind a
/// time that is no header, and the columns are known.
pub proof fn law_gpu_lines(line: Seq<char>, types: Seq<Seq<char>>)
    ensures
        gpu_line_value(line, types) is Some <==> {
            &&& line.len() > 0 && line[0] == '"'
            &&& types.len() > 0
            &&& fields(line).len() >= 2
            &&& fields(line)[0].len() > 0
            &&& !(fields(line)[0].len() >= 8 && fields(line)[0].take(8) == "(PDH-CSV"@)
        },
        is_header(line) <==> line.len() >= 9 && line.take(9) == "\"(PDH-CSV"@,
{
    lemma_starts_with(fields(line)[0], "(PDH-CSV"@);
    lemma_starts_with(line, "\"(PDH-CSV"@);
    reveal_strlit("(PDH-CSV");
    reveal_strlit("\"(PDH-CSV");
}

proof fn lemma_starts_with(text: Seq<char>, part: Seq<char>)
    ensures
        first_index(text, part) == Some(0int) <==> text.len() >= part.len() && text.take(
            part.len() as int,
        ) == part,
{
    lemma_first_index(text, part);
    if text.len() >= part.len() {
        assert(text.subrange(0, part.len() as int) == text.take(part.len() as int));
        if text.take(part.len() as int) == part {
            assert(occurs_at(text, part, 0));
            let i = first_index(text, part)->0;
            assert(contains(text, part));
            if i > 0 {
                assert(!occurs_at(text, part, 0));
            }
        }
    }
}

/// The columns of a disk line as numbers; what lies below zero counts as zero.
pub open spec fn disk_readings(values: Seq<Seq<char>>) -> Seq<Num> {
    values.map_values(
        |v: Seq<char>| number_named(trimmed(v))->0.held_within(num_of(ZERO), num_of(INFINITY)),
    )
}

proof fn lemma_amounts_added_up(values: Seq<Seq<char>>)
    requires
        forall|i: int| 0 <= i < values.len() ==> amount(#[trigger] values[i]) is Some,
    ensures
        amounts_sum(values) == added_up(disk_readings(values)),
    decreases values.len(),
{
    let readings = disk_readings(values);
    lemma_added_up(readings);
    if values.len() > 0 {
        let rest = values.drop_last();
        assert forall|i: int| 0 <= i < rest.len() implies amount(#[trigger] rest[i]) is Some by {
            assert(amount(values[i]) is Some);
        }
        assert(amount(values[values.len() - 1]) is Some);
        lemma_amounts_added_up(rest);
        assert(readings.drop_last() == disk_readings(rest));
    }
}

/// A line tells the disk rates just where it begins with a quote, and behind a time that
/// is no header stands an even number of columns, two at least, each of them a finite
/// number. The first half of the columns adds up to what is read, the second to what is
/// written.
pub proof fn law_disk_lines(line: Seq<char>)
    ensures
        ({
            let values = fields(line).skip(1);
            let half = values.len() as int / 2;
            &&& disk_line_value(line) is Some <==> {
                &&& line.len() > 0 && line[0] == '"'
                &&& values.len() >= 2 && values.len() % 2 == 0
                &&& fields(line)[0].len() > 0
                &&& !(fields(line)[0].len() >= 8 && fields(line)[0].take(8) == "(PDH-CSV"@)
                &&& forall|i: int|
                    0 <= i < values.len() ==> number_named(trimmed(#[trigger] values[i])) is Some
                        && number_named(trimmed(values[i]))->0.finite()
            }
            &&& disk_line_value(line) is Some ==> disk_line_value(line) == Some(
                (
                    added_up(disk_readings(values.take(half))),
                    added_up(disk_readings(values.skip(half))),
                ),
            )
        }),
{
    lemma_fields_nonempty(line);
    lemma_starts_with(fields(line)[0], "(PDH-CSV"@);
    reveal_strlit("(PDH-CSV");
    let values = fields(line).skip(1);
    let half = values.len() as int / 2;
    assert forall|i: int| 0 <= i < values.len() implies amount(#[trigger] values[i]) is Some
        == (number_named(trimmed(values[i])) is Some && number_named(trimmed(values[i]))->0.finite())
        by {}
    if disk_line_value(line) is Some {
        let (first, second) = (values.take(half), values.skip(half));
        assert forall|i: int| 0 <= i < first.len() implies amount(#[trigger] first[i]) is Some by {
            assert(amount(values[i]) is Some);
        }
        assert forall|i: int| 0 <= i < second.len() implies amount(#[trigger] second[i]) is Some by {
            assert(amount(values[i + half]) is Some);
        }
        lemma_amounts_added_up(first);
        lemma_amounts_added_up(second);
    }
}

} // verus!
