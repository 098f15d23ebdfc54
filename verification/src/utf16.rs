//! Text in UTF-16, as the system keeps it.

use vstd::prelude::*;
use crate::text::{chars_of, pieces, split_chars, string_of, views};
use crate::text::char_views;

verus! {

pub open spec fn scalar(i: u32) -> bool {
    i < 0xd800 || (0xe000 <= i <= 0x10ffff)
}

/// `char::from_u32` gives the character with a number, where the number is that of
/// one: every number up to 0x10FFFF but the surrogates.
pub assume_specification[ char::from_u32 ](i: u32) -> (r: Option<char>)
    ensures
        r == (if scalar(i) {
            Some(i as char)
        } else {
            None
        }),
;

// --- Encoding ----------------------------------------------------------------

/// The code units of one character.
pub open spec fn units_of(c: char) -> Seq<u16> {
    let n = c as u32;
    if n < 0x10000 {
        seq![n as u16]
    } else {
        seq![
            (0xd800 + (n - 0x10000) / 0x400) as u16,
            (0xdc00 + (n - 0x10000) % 0x400) as u16,
        ]
    }
}

/// The code units of a text.
pub open spec fn encoded(text: Seq<char>) -> Seq<u16>
    decreases text.len(),
{
    if text.len() == 0 {
        Seq::empty()
    } else {
        encoded(text.drop_last()) + units_of(text.last())
    }
}

/// The code units of a text.
pub fn encode(text: &str) -> (r: Vec<u16>)
    ensures
        r@ == encoded(text@),
{
    let chars = chars_of(text);
    let mut out: Vec<u16> = Vec::new();
    let mut i: usize = 0;
    assert(chars@.take(0) == Seq::<char>::empty());
    while i < chars.len()
        invariant
            i <= chars.len(),
            out@ == encoded(chars@.take(i as int)),
        decreases chars.len() - i,
    {
        assert(chars@.take(i + 1).drop_last() == chars@.take(i as int));
        let n: u32 = chars[i] as u32;
        let ghost before = out@;
        if n < 0x10000 {
            out.push(n as u16);
        } else {
            out.push((0xd800 + (n - 0x10000) / 0x400) as u16);
            out.push((0xdc00 + (n - 0x10000) % 0x400) as u16);
        }
        assert(out@ == before + units_of(chars@[i as int]));
        i = i + 1;
    }
    assert(chars@.take(chars@.len() as int) == chars@);
    out
}

/// The code units of a text with a null at the end, as the system asks for them.
pub fn wide_nul(s: &str) -> (r: Vec<u16>)
    ensures
        r@ == encoded(s@).push(0),
{
    let mut out = encode(s);
    out.push(0);
    out
}

/// The code units of a text for a field of `room` units: cut off so that a null
/// fits in behind them.
pub fn field_of(text: &str, room: usize) -> (r: Vec<u16>)
    requires
        room >= 1,
    ensures
        r@ == (if encoded(text@).len() < room {
            encoded(text@)
        } else {
            encoded(text@).take(room - 1)
        }).push(0),
        r.len() <= room,
{
    let mut out = encode(text);
    let ghost all = out@;
    if out.len() >= room {
        out.truncate(room - 1);
        assert(out@ == all.take(room - 1));
    }
    out.push(0);
    out
}

// --- Decoding ----------------------------------------------------------------

pub open spec fn high_half(u: u16) -> bool {
    0xd800 <= u < 0xdc00
}

pub open spec fn low_half(u: u16) -> bool {
    0xdc00 <= u < 0xe000
}

/// The number of the character that two halves stand for.
pub open spec fn joined(high: u16, low: u16) -> int {
    0x10000 + (high - 0xd800) * 0x400 + (low - 0xdc00)
}

/// The text that code units stand for. A half without its other half becomes a
/// replacement character.
pub open spec fn decoded(units: Seq<u16>) -> Seq<char>
    decreases units.len(),
{
    if units.len() == 0 {
        Seq::empty()
    } else if !high_half(units[0]) && !low_half(units[0]) {
        seq![units[0] as char] + decoded(units.skip(1))
    } else if high_half(units[0]) && units.len() > 1 && low_half(units[1]) {
        seq![joined(units[0], units[1]) as char] + decoded(units.skip(2))
    } else {
        seq!['\u{fffd}'] + decoded(units.skip(1))
    }
}

fn char_of(n: u32) -> (r: char)
    requires
        scalar(n),
    ensures
        r == n as char,
{
    match char::from_u32(n) {
        Some(c) => c,
        None => '\u{fffd}',
    }
}

/// The text that code units stand for.
pub fn decode(units: &Vec<u16>) -> (r: Vec<char>)
    ensures
        r@ == decoded(units@),
{
    let mut out: Vec<char> = Vec::new();
    let mut i: usize = 0;
    assert(units@.skip(0) == units@);
    while i < units.len()
        invariant
            i <= units.len(),
            out@ + decoded(units@.skip(i as int)) == decoded(units@),
        decreases units.len() - i,
    {
        let u: u16 = units[i];
        let ghost rest = units@.skip(i as int);
        let ghost before = out@;
        assert(rest[0] == u);
        assert(rest.skip(1) == units@.skip(i + 1));
        if u < 0xd800 || u >= 0xe000 {
            out.push(char_of(u as u32));
            assert(out@ + decoded(rest.skip(1)) == before + (seq![u as char] + decoded(
                rest.skip(1),
            )));
            i = i + 1;
        } else if u < 0xdc00 && i + 1 < units.len() && 0xdc00 <= units[i + 1] && units[i + 1]
            < 0xe000 {
            let low: u16 = units[i + 1];
            assert(rest[1] == low);
            assert(rest.skip(2) == units@.skip(i + 2));
            let n: u32 = 0x10000 + (u as u32 - 0xd800) * 0x400 + (low as u32 - 0xdc00);
            out.push(char_of(n));
            assert(out@ + decoded(rest.skip(2)) == before + (seq![joined(u, low) as char] + decoded(
                rest.skip(2),
            )));
            i = i + 2;
        } else {
            out.push('\u{fffd}');
            assert(out@ + decoded(rest.skip(1)) == before + (seq!['\u{fffd}'] + decoded(
                rest.skip(1),
            )));
            i = i + 1;
        }
    }
    assert(units@.skip(i as int).len() == 0);
    assert(out@ + Seq::<char>::empty() == out@);
    out
}

proof fn lemma_decode_front(c: char, rest: Seq<u16>)
    ensures
        decoded(units_of(c) + rest) == seq![c] + decoded(rest),
{
    let n = c as u32;
    let units = units_of(c) + rest;
    if n < 0x10000 {
        assert(units.skip(1) == rest);
        assert(units[0] == n as u16);
        assert((n as u16) as char == c);
    } else {
        let (high, low) = (units[0], units[1]);
        assert(high_half(high) && low_half(low));
        assert(units.skip(2) == rest);
        assert(joined(high, low) == n);
    }
}

proof fn lemma_decode_more(text: Seq<char>, rest: Seq<u16>)
    ensures
        decoded(encoded(text) + rest) == text + decoded(rest),
    decreases text.len(),
{
    if text.len() == 0 {
        assert(encoded(text) + rest == rest);
        assert(text + decoded(rest) == decoded(rest));
    } else {
        let before = text.drop_last();
        let last = units_of(text.last());
        lemma_decode_front(text.last(), rest);
        lemma_decode_more(before, last + rest);
        assert(encoded(text) + rest == encoded(before) + (last + rest));
        assert(text + decoded(rest) == before + (seq![text.last()] + decoded(rest)));
    }
}

/// Decoding undoes encoding, whether or not a null follows.
pub proof fn law_decoding_undoes_encoding(text: Seq<char>)
    ensures
        decoded(encoded(text)) == text,
        decoded(encoded(text).push(0)) == text.push('\0'),
{
    let none = Seq::<u16>::empty();
    lemma_decode_more(text, none);
    assert(encoded(text) + none == encoded(text));
    assert(text + decoded(none) == text);
    let nul = seq![0u16];
    lemma_decode_more(text, nul);
    assert(encoded(text) + nul == encoded(text).push(0));
    assert(nul.skip(1) == none);
    assert(decoded(none) == Seq::<char>::empty());
    assert(decoded(nul) == seq!['\0']);
    assert(text + seq!['\0'] == text.push('\0'));
}

// --- Lists of texts ----------------------------------------------------------

/// The texts of a list in which a null follows each.
pub open spec fn listed(units: Seq<u16>) -> Seq<Seq<char>> {
    pieces(decoded(units), '\0').filter(|t: Seq<char>| t.len() > 0)
}

/// The texts of a list in which a null follows each; empty ones do not count.
pub fn multi_sz(units: &Vec<u16>) -> (r: Vec<String>)
    ensures
        views(r@) == listed(units@),
{
    let parts = split_chars(&decode(units), '\0');
    let ghost all = char_views(parts@);
    let mut out: Vec<String> = Vec::new();
    let mut i: usize = 0;
    let ghost test = |t: Seq<char>| t.len() > 0;
    assert(all.take(0) == Seq::<Seq<char>>::empty());
    assert(views(out@) == all.take(0).filter(test)) by {
        reveal(Seq::filter);
    }
    while i < parts.len()
        invariant
            i <= parts.len(),
            all == char_views(parts@),
            test == (|t: Seq<char>| t.len() > 0),
            views(out@) == all.take(i as int).filter(test),
        decreases parts.len() - i,
    {
        let ghost before = views(out@);
        assert(all.take(i + 1).drop_last() == all.take(i as int));
        assert(all.take(i + 1).last() == parts@[i as int]@);
        proof {
            reveal(Seq::filter);
        }
        if parts[i].len() > 0 {
            let text = string_of(&parts[i], 0, parts[i].len());
            assert(text@ == parts@[i as int]@) by {
                assert(parts@[i as int]@.subrange(0, parts@[i as int]@.len() as int)
                    == parts@[i as int]@);
            }
            out.push(text);
            assert(views(out@) == before.push(parts@[i as int]@));
        }
        i = i + 1;
    }
    assert(all.take(i as int) == all);
    out
}

/// A character below 0x10000 is one code unit of its own number, every other one two
/// halves, of which the first holds the upper ten bits of what its number exceeds that
/// by.
pub proof fn law_code_units(c: char)
    ensures
        (c as u32) < 0x10000 ==> units_of(c) == seq![c as u16],
        c as u32 >= 0x10000 ==> units_of(c).len() == 2 && 0xd800 <= units_of(c)[0] < 0xdc00
            && 0xdc00 <= units_of(c)[1] < 0xe000 && c as u32 == 0x10000 + (units_of(c)[0] - 0xd800)
            * 0x400 + (units_of(c)[1] - 0xdc00),
{
}

/// The texts of a list, a null behind each.
pub open spec fn nulls_behind(texts: Seq<Seq<char>>) -> Seq<char>
    decreases texts.len(),
{
    if texts.len() == 0 {
        Seq::empty()
    } else {
        nulls_behind(texts.drop_last()) + texts.last().push('\0')
    }
}

proof fn lemma_listed_pieces(texts: Seq<Seq<char>>)
    requires
        forall|i: int, j: int|
            0 <= i < texts.len() && 0 <= j < texts[i].len() ==> #[trigger] texts[i][j] != '\0',
    ensures
        pieces(nulls_behind(texts), '\0') == texts.push(Seq::empty()),
    decreases texts.len(),
{
    let none = Seq::<char>::empty();
    let all = nulls_behind(texts);
    if texts.len() == 0 {
        assert(pieces(all, '\0') =~= texts.push(none));
    } else {
        let rest = texts.drop_last();
        let last = texts.last();
        assert forall|i: int, j: int| 0 <= i < rest.len() && 0 <= j < rest[i].len() implies
            #[trigger] rest[i][j] != '\0' by {
            assert(texts[i][j] != '\0');
        }
        assert forall|j: int| 0 <= j < last.len() implies #[trigger] last[j] != '\0' by {
            assert(texts[texts.len() - 1][j] != '\0');
        }
        lemma_listed_pieces(rest);
        let head = nulls_behind(rest);
        let open = head + last;
        lemma_open_piece(head, last, rest);
        assert(all =~= open.push('\0') + none);
        crate::text::lemma_last_piece(open, none, '\0');
        assert(pieces(open, '\0').push(none) =~= texts.push(none));
    }
}

proof fn lemma_open_piece(head: Seq<char>, text: Seq<char>, before: Seq<Seq<char>>)
    requires
        pieces(head, '\0') == before.push(Seq::empty()),
        forall|j: int| 0 <= j < text.len() ==> #[trigger] text[j] != '\0',
    ensures
        pieces(head + text, '\0') == before.push(text),
    decreases text.len(),
{
    if text.len() == 0 {
        assert(head + text =~= head);
        assert(text =~= Seq::<char>::empty());
    } else {
        let rest = text.drop_last();
        assert(text[text.len() - 1] != '\0');
        assert forall|j: int| 0 <= j < rest.len() implies #[trigger] rest[j] != '\0' by {
            assert(text[j] != '\0');
        }
        lemma_open_piece(head, rest, before);
        assert((head + text).drop_last() =~= head + rest);
        assert(before.push(rest).drop_last() =~= before);
        assert(rest.push(text.last()) =~= text);
    }
}

proof fn lemma_all_kept(texts: Seq<Seq<char>>)
    requires
        forall|i: int| 0 <= i < texts.len() ==> (#[trigger] texts[i]).len() > 0,
    ensures
        texts.filter(|t: Seq<char>| t.len() > 0) == texts,
    decreases texts.len(),
{
    reveal(Seq::filter);
    if texts.len() > 0 {
        let rest = texts.drop_last();
        assert(texts[texts.len() - 1].len() > 0);
        assert forall|i: int| 0 <= i < rest.len() implies (#[trigger] rest[i]).len() > 0 by {
            assert(texts[i].len() > 0);
        }
        lemma_all_kept(rest);
        assert(rest.push(texts.last()) =~= texts);
    }
}

/// A list of texts that are not empty and hold no null is read back as it was written:
/// a null behind each, and one more at the end.
pub proof fn law_lists_are_read_back(texts: Seq<Seq<char>>)
    requires
        forall|i: int| 0 <= i < texts.len() ==> (#[trigger] texts[i]).len() > 0,
        forall|i: int, j: int|
            0 <= i < texts.len() && 0 <= j < texts[i].len() ==> #[trigger] texts[i][j] != '\0',
    ensures
        listed(encoded(nulls_behind(texts))) == texts,
        listed(encoded(nulls_behind(texts)).push(0)) == texts,
{
    reveal(Seq::filter);
    let all = nulls_behind(texts);
    let none = Seq::<char>::empty();
    let keep = |t: Seq<char>| t.len() > 0;
    law_decoding_undoes_encoding(all);
    lemma_listed_pieces(texts);
    lemma_all_kept(texts);
    let one = texts.push(none);
    assert(one.drop_last() =~= texts);
    assert(one.filter(keep) == texts.filter(keep));
    crate::text::lemma_last_piece(all, none, '\0');
    assert(all.push('\0') + none =~= all.push('\0'));
    let two = one.push(none);
    assert(two.drop_last() =~= one);
    assert(two.filter(keep) == one.filter(keep));
}

/// A half without its other half becomes a replacement character, and what follows is
/// read as if it stood alone.
pub proof fn law_lone_halves(unit: u16, rest: Seq<u16>)
    requires
        0xd800 <= unit < 0xe000,
        unit < 0xdc00 ==> rest.len() == 0 || !(0xdc00 <= rest[0] < 0xe000),
    ensures
        decoded(seq![unit] + rest) == seq!['\u{fffd}'] + decoded(rest),
{
    let all = seq![unit] + rest;
    assert(all.skip(1) =~= rest);
    if all.len() > 1 {
        assert(all[1] == rest[0]);
    }
}

} // verus!
