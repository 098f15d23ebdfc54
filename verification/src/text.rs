//! Text: characters of strings, blanks, searching and splitting.

use vstd::prelude::*;

verus! {

/// `String::push` appends one character to the end of a string.
pub assume_specification[ String::push ](s: &mut String, c: char)
    ensures
        final(s)@ == old(s)@.push(c),
;

/// The lower-case form of a text under the Unicode rules, as
/// `str::to_lowercase` gives it.
pub uninterp spec fn lowercase(text: Seq<char>) -> Seq<char>;

pub open spec fn all_ascii(text: Seq<char>) -> bool {
    forall|i: int| 0 <= i < text.len() ==> (#[trigger] text[i] as u32) < 128
}

pub open spec fn ascii_lower(c: char) -> char {
    if 'A' <= c <= 'Z' {
        (c as u32 + 32) as char
    } else {
        c
    }
}

pub open spec fn ascii_lowered(text: Seq<char>) -> Seq<char> {
    text.map_values(|c: char| ascii_lower(c))
}

/// Calls `str::to_lowercase`, which maps every character to lower case by the
/// Unicode rules. Of those rules only the part for ASCII text is stated: the
/// letters `A` to `Z` become `a` to `z` and every other character stays.
#[verifier::external_body]
pub(crate) fn to_lowercase(text: &str) -> (r: String)
    ensures
        r@ == lowercase(text@),
        all_ascii(text@) ==> r@ == ascii_lowered(text@),
{
    text.to_lowercase()
}

/// The text that bytes stand for in UTF-8, with a replacement character for what
/// is not UTF-8, as `String::from_utf8_lossy` gives it.
pub uninterp spec fn utf8_text(bytes: Seq<u8>) -> Seq<char>;

/// Calls `String::from_utf8_lossy`, which decodes UTF-8 and puts U+FFFD for every
/// faulty sequence. Of the decoding only the part for ASCII is stated: bytes below
/// 128 are the characters of the same number.
#[verifier::external_body]
pub(crate) fn from_utf8_lossy(bytes: &Vec<u8>) -> (r: String)
    ensures
        r@ == utf8_text(bytes@),
        (forall|i: int| 0 <= i < bytes@.len() ==> #[trigger] bytes@[i] < 128) ==> r@
            == bytes@.map_values(|b: u8| b as char),
{
    String::from_utf8_lossy(bytes.as_slice()).into_owned()
}

/// The characters with the Unicode property `White_Space`.
pub open spec fn blank(c: char) -> bool {
    ||| '\u{9}' <= c <= '\u{d}'
    ||| c == ' '
    ||| c == '\u{85}'
    ||| c == '\u{a0}'
    ||| c == '\u{1680}'
    ||| '\u{2000}' <= c <= '\u{200a}'
    ||| c == '\u{2028}'
    ||| c == '\u{2029}'
    ||| c == '\u{202f}'
    ||| c == '\u{205f}'
    ||| c == '\u{3000}'
}

pub fn is_blank(c: char) -> (r: bool)
    ensures
        r == blank(c),
{
    ('\u{9}' <= c && c <= '\u{d}') || c == ' ' || c == '\u{85}' || c == '\u{a0}' || c == '\u{1680}'
        || ('\u{2000}' <= c && c <= '\u{200a}') || c == '\u{2028}' || c == '\u{2029}' || c
        == '\u{202f}' || c == '\u{205f}' || c == '\u{3000}'
}

/// The characters of a text.
pub fn chars_of(text: &str) -> (r: Vec<char>)
    ensures
        r@ == text@,
{
    let mut out: Vec<char> = Vec::new();
    for c in it: text.chars()
        invariant
            it.seq() == text@,
            out@ == text@.take(it.index()),
    {
        assert(text@.take(it.index() + 1) == text@.take(it.index()).push(c));
        out.push(c);
    }
    assert(text@.take(text@.len() as int) == text@);
    out
}

/// The text of the characters `from..to`.
pub fn string_of(chars: &Vec<char>, from: usize, to: usize) -> (r: String)
    requires
        from <= to <= chars.len(),
    ensures
        r@ == chars@.subrange(from as int, to as int),
{
    let mut out: String = String::new();
    let mut i: usize = from;
    while i < to
        invariant
            from <= i <= to <= chars.len(),
            out@ == chars@.subrange(from as int, i as int),
        decreases to - i,
    {
        assert(chars@.subrange(from as int, i + 1) == chars@.subrange(from as int, i as int).push(
            chars@[i as int],
        ));
        out.push(chars[i]);
        i = i + 1;
    }
    out
}

/// Whether two texts hold the same characters.
pub fn same_text(a: &str, b: &str) -> (r: bool)
    ensures
        r == (a@ == b@),
{
    a.to_owned() == b.to_owned()
}

pub open spec fn trim_start(text: Seq<char>) -> Seq<char>
    decreases text.len(),
{
    if text.len() > 0 && blank(text[0]) {
        trim_start(text.drop_first())
    } else {
        text
    }
}

pub open spec fn trim_end(text: Seq<char>) -> Seq<char>
    decreases text.len(),
{
    if text.len() > 0 && blank(text.last()) {
        trim_end(text.drop_last())
    } else {
        text
    }
}

/// A text without the blanks at its two ends.
pub open spec fn trimmed(text: Seq<char>) -> Seq<char> {
    trim_end(trim_start(text))
}

proof fn lemma_trim_start(text: Seq<char>)
    ensures
        trim_start(text).len() > 0 ==> !blank(trim_start(text)[0]),
    decreases text.len(),
{
    if text.len() > 0 && blank(text[0]) {
        lemma_trim_start(text.drop_first());
    }
}

proof fn lemma_trim_end(text: Seq<char>)
    ensures
        trim_end(text).len() <= text.len(),
        trim_end(text).len() > 0 ==> !blank(trim_end(text).last()) && trim_end(text)[0] == text[0],
    decreases text.len(),
{
    if text.len() > 0 && blank(text.last()) {
        lemma_trim_end(text.drop_last());
    }
}

/// A trimmed text has no blanks at its ends, and trimming it again changes nothing.
pub proof fn lemma_trimmed_stays(text: Seq<char>)
    ensures
        trimmed(text).len() > 0 ==> !blank(trimmed(text)[0]) && !blank(trimmed(text).last()),
        trimmed(trimmed(text)) == trimmed(text),
{
    lemma_trim_start(text);
    lemma_trim_end(trim_start(text));
}

pub open spec fn all_blank(text: Seq<char>) -> bool {
    forall|i: int| 0 <= i < text.len() ==> blank(#[trigger] text[i])
}

proof fn lemma_trim_start_of(before: Seq<char>, text: Seq<char>)
    requires
        all_blank(before),
    ensures
        trim_start(before + text) == trim_start(text),
    decreases before.len(),
{
    if before.len() == 0 {
        assert(before + text == text);
    } else {
        let rest = before.drop_first();
        assert(blank(before[0]));
        assert forall|i: int| 0 <= i < rest.len() implies blank(#[trigger] rest[i]) by {
            assert(blank(before[i + 1]));
        }
        assert((before + text).drop_first() == rest + text);
        lemma_trim_start_of(rest, text);
    }
}

proof fn lemma_trim_end_of(text: Seq<char>, after: Seq<char>)
    requires
        all_blank(after),
    ensures
        trim_end(text + after) == trim_end(text),
    decreases after.len(),
{
    if after.len() == 0 {
        assert(text + after == text);
    } else {
        let rest = after.drop_last();
        assert(blank(after[after.len() - 1]));
        assert forall|i: int| 0 <= i < rest.len() implies blank(#[trigger] rest[i]) by {
            assert(blank(after[i]));
        }
        assert((text + after).drop_last() == text + rest);
        lemma_trim_end_of(text, rest);
    }
}

/// Trimming takes the blanks at the two ends away and nothing else.
pub proof fn law_trimmed(before: Seq<char>, text: Seq<char>, after: Seq<char>)
    requires
        all_blank(before),
        all_blank(after),
        text.len() > 0 ==> !blank(text[0]) && !blank(text.last()),
    ensures
        trimmed(before + text + after) == text,
{
    if text.len() == 0 {
        assert(before + text + after == before + after);
        lemma_trim_start_of(before, after);
        lemma_trim_start_of(after, Seq::<char>::empty());
        assert(after + Seq::<char>::empty() == after);
        assert(trim_start(Seq::<char>::empty()) == Seq::<char>::empty());
        assert(text == Seq::<char>::empty());
    } else {
        assert(before + text + after == before + (text + after));
        lemma_trim_start_of(before, text + after);
        lemma_trim_end_of(text, after);
    }
}

/// Blanks are the white space of Unicode.
pub proof fn law_blanks(c: char)
    ensures
        blank(c) <==> {
            let n = c as u32;
            9 <= n <= 13 || n == 32 || n == 0x85 || n == 0xa0 || n == 0x1680 || 0x2000 <= n
                <= 0x200a || n == 0x2028 || n == 0x2029 || n == 0x202f || n == 0x205f || n == 0x3000
        },
{
}

/// Searching finds the first place: behind a text in which the part does not begin, it
/// is found where it stands.
pub proof fn law_first_index(before: Seq<char>, part: Seq<char>, after: Seq<char>)
    requires
        forall|i: int| 0 <= i < before.len() ==> !occurs_at(before + part + after, part, i),
    ensures
        first_index(before + part + after, part) == Some(before.len() as int),
{
    let text = before + part + after;
    let n = before.len() as int;
    assert(text.subrange(n, n + part.len()) == part);
    lemma_first_index(text, part);
    assert(occurs_at(text, part, n));
    let i = first_index(text, part)->0;
    assert(contains(text, part));
    if i < n {
        assert(occurs_at(text, part, i));
    }
    if i > n {
        assert(!occurs_at(text, part, n));
    }
}

/// The text without the blanks at its two ends.
pub fn trim_chars(chars: &Vec<char>) -> (r: Vec<char>)
    ensures
        r@ == trimmed(chars@),
{
    let mut from: usize = 0;
    assert(chars@.skip(0) == chars@);
    while from < chars.len() && is_blank(chars[from])
        invariant
            from <= chars.len(),
            trim_start(chars@.skip(from as int)) == trim_start(chars@),
        decreases chars.len() - from,
    {
        assert(chars@.skip(from as int).drop_first() == chars@.skip(from + 1));
        from = from + 1;
    }
    assert(trim_start(chars@) == chars@.skip(from as int));
    let mut to: usize = chars.len();
    assert(chars@.subrange(from as int, to as int) == chars@.skip(from as int));
    while from < to && is_blank(chars[to - 1])
        invariant
            from <= to <= chars.len(),
            trim_end(chars@.subrange(from as int, to as int)) == trimmed(chars@),
        decreases to - from,
    {
        assert(chars@.subrange(from as int, to as int).drop_last() == chars@.subrange(
            from as int,
            to - 1,
        ));
        to = to - 1;
    }
    let mut out: Vec<char> = Vec::new();
    let mut i: usize = from;
    while i < to
        invariant
            from <= i <= to <= chars.len(),
            out@ == chars@.subrange(from as int, i as int),
        decreases to - i,
    {
        assert(chars@.subrange(from as int, i + 1) == chars@.subrange(from as int, i as int).push(
            chars@[i as int],
        ));
        out.push(chars[i]);
        i = i + 1;
    }
    out
}

/// The text without the blanks at its two ends.
pub fn trim(text: &str) -> (r: String)
    ensures
        r@ == trimmed(text@),
{
    let chars = chars_of(text);
    let kept = trim_chars(&chars);
    assert(kept@.subrange(0, kept@.len() as int) == kept@);
    string_of(&kept, 0, kept.len())
}

/// Whether `part` stands in `text` from index `i` on.
pub open spec fn occurs_at(text: Seq<char>, part: Seq<char>, i: int) -> bool {
    &&& 0 <= i
    &&& i + part.len() <= text.len()
    &&& text.subrange(i, i + part.len()) == part
}

pub open spec fn contains(text: Seq<char>, part: Seq<char>) -> bool {
    exists|i: int| occurs_at(text, part, i)
}

/// The first index at or after `from` where `part` stands in `text`.
pub open spec fn find_from(text: Seq<char>, part: Seq<char>, from: int) -> Option<int>
    decreases text.len() + 1 - from,
{
    if from < 0 || from + part.len() > text.len() {
        None
    } else if occurs_at(text, part, from) {
        Some(from)
    } else {
        find_from(text, part, from + 1)
    }
}

/// The first index where `part` stands in `text`.
pub open spec fn first_index(text: Seq<char>, part: Seq<char>) -> Option<int> {
    find_from(text, part, 0)
}

proof fn lemma_find_from(text: Seq<char>, part: Seq<char>, from: int)
    requires
        0 <= from,
    ensures
        match find_from(text, part, from) {
            Some(i) => from <= i && occurs_at(text, part, i) && forall|j: int|
                from <= j < i ==> !occurs_at(text, part, j),
            None => forall|j: int| from <= j ==> !occurs_at(text, part, j),
        },
    decreases text.len() + 1 - from,
{
    if from + part.len() <= text.len() && !occurs_at(text, part, from) {
        lemma_find_from(text, part, from + 1);
    }
}

/// The first index is that of an occurrence before which there is none; there
/// is no first index just where there is no occurrence.
pub proof fn lemma_first_index(text: Seq<char>, part: Seq<char>)
    ensures
        match first_index(text, part) {
            Some(i) => occurs_at(text, part, i) && forall|j: int| j < i ==> !occurs_at(text, part, j),
            None => !contains(text, part),
        },
        contains(text, part) <==> first_index(text, part) is Some,
{
    lemma_find_from(text, part, 0);
}

fn stands_at(text: &Vec<char>, part: &Vec<char>, i: usize) -> (r: bool)
    requires
        i + part.len() <= text.len(),
    ensures
        r == occurs_at(text@, part@, i as int),
{
    let mut k: usize = 0;
    while k < part.len()
        invariant
            k <= part.len(),
            i + part.len() <= text.len(),
            forall|j: int| 0 <= j < k ==> text@[i + j] == part@[j],
        decreases part.len() - k,
    {
        if text[i + k] != part[k] {
            assert(text@.subrange(i as int, i + part@.len())[k as int] == text@[i + k]);
            return false;
        }
        k = k + 1;
    }
    assert(text@.subrange(i as int, i + part@.len()) == part@);
    true
}

/// The first index where `part` stands in `text`.
pub fn find_chars(text: &Vec<char>, part: &Vec<char>) -> (r: Option<usize>)
    ensures
        match r {
            Some(i) => first_index(text@, part@) == Some(i as int),
            None => first_index(text@, part@) is None,
        },
        r is Some ==> r->0 + part.len() <= text.len(),
{
    if part.len() > text.len() {
        return None;
    }
    let last: usize = text.len() - part.len();
    let mut i: usize = 0;
    while i <= last
        invariant
            i <= last + 1,
            last + part.len() == text.len(),
            first_index(text@, part@) == find_from(text@, part@, i as int),
        decreases last + 1 - i,
    {
        if stands_at(text, part, i) {
            return Some(i);
        }
        if i == last {
            return None;
        }
        i = i + 1;
    }
    None
}

/// Whether `part` stands somewhere in `text`.
pub fn contains_chars(text: &Vec<char>, part: &Vec<char>) -> (r: bool)
    ensures
        r == contains(text@, part@),
{
    proof {
        lemma_first_index(text@, part@);
    }
    find_chars(text, part).is_some()
}

/// The text with the first occurrence of `part` replaced by `by`.
pub open spec fn replaced_first(text: Seq<char>, part: Seq<char>, by: Seq<char>) -> Seq<char> {
    match first_index(text, part) {
        Some(i) => text.take(i) + by + text.skip(i + part.len()),
        None => text,
    }
}

/// The pieces of a text between the separators.
pub open spec fn pieces(text: Seq<char>, separator: char) -> Seq<Seq<char>>
    decreases text.len(),
{
    if text.len() == 0 {
        seq![Seq::empty()]
    } else {
        let before = pieces(text.drop_last(), separator);
        if text.last() == separator {
            before.push(Seq::empty())
        } else {
            before.drop_last().push(before.last().push(text.last()))
        }
    }
}

/// A piece behind a separator, without separators in it, is a piece of its own.
pub proof fn lemma_last_piece(text: Seq<char>, piece: Seq<char>, separator: char)
    requires
        forall|i: int| 0 <= i < piece.len() ==> #[trigger] piece[i] != separator,
    ensures
        pieces(text.push(separator) + piece, separator) == pieces(text, separator).push(piece),
    decreases piece.len(),
{
    let before = pieces(text, separator);
    if piece.len() == 0 {
        assert(text.push(separator) + piece == text.push(separator));
        assert(text.push(separator).drop_last() == text);
        assert(piece == Seq::<char>::empty());
    } else {
        let whole = text.push(separator) + piece;
        assert(whole.drop_last() == text.push(separator) + piece.drop_last());
        assert(whole.last() == piece.last() && piece.last() == piece[piece.len() - 1]);
        lemma_last_piece(text, piece.drop_last(), separator);
        assert(before.push(piece.drop_last()).drop_last() == before);
        assert(piece.drop_last().push(piece.last()) == piece);
    }
}

/// The characters of each text.
pub open spec fn views(texts: Seq<String>) -> Seq<Seq<char>> {
    texts.map_values(|t: String| t@)
}

pub open spec fn char_views(texts: Seq<Vec<char>>) -> Seq<Seq<char>> {
    texts.map_values(|t: Vec<char>| t@)
}

/// Splits a text at every separator.
pub fn split_chars(text: &Vec<char>, separator: char) -> (r: Vec<Vec<char>>)
    ensures
        char_views(r@) == pieces(text@, separator),
{
    let mut out: Vec<Vec<char>> = Vec::new();
    let mut cur: Vec<char> = Vec::new();
    let mut i: usize = 0;
    assert(text@.take(0) == Seq::<char>::empty());
    assert(char_views(out@).push(cur@) == pieces(text@.take(0), separator));
    while i < text.len()
        invariant
            i <= text.len(),
            char_views(out@).push(cur@) == pieces(text@.take(i as int), separator),
        decreases text.len() - i,
    {
        let c = text[i];
        let ghost done = char_views(out@);
        let ghost open = cur@;
        assert(text@.take(i + 1).drop_last() == text@.take(i as int));
        assert(done.push(open).drop_last() == done);
        if c == separator {
            out.push(cur);
            cur = Vec::new();
            assert(char_views(out@) == done.push(open));
        } else {
            cur.push(c);
        }
        i = i + 1;
    }
    let ghost done = char_views(out@);
    let ghost open = cur@;
    out.push(cur);
    assert(char_views(out@) == done.push(open));
    assert(text@.take(text@.len() as int) == text@);
    out
}

/// A text without separators is one piece; and behind a separator a new piece begins.
pub proof fn law_pieces(text: Seq<char>, piece: Seq<char>, separator: char)
    requires
        forall|i: int| 0 <= i < piece.len() ==> #[trigger] piece[i] != separator,
    ensures
        pieces(piece, separator) == seq![piece],
        pieces(text.push(separator) + piece, separator) == pieces(text, separator).push(piece),
    decreases piece.len(),
{
    lemma_last_piece(text, piece, separator);
    if piece.len() > 0 {
        let rest = piece.drop_last();
        assert(piece[piece.len() - 1] != separator);
        assert forall|i: int| 0 <= i < rest.len() implies #[trigger] rest[i] != separator by {
            assert(piece[i] != separator);
        }
        law_pieces(text, rest, separator);
        assert(pieces(piece, separator) =~= seq![piece]) by {
            assert(seq![rest].drop_last() =~= Seq::<Seq<char>>::empty());
            assert(rest.push(piece.last()) =~= piece);
        }
    } else {
        assert(piece =~= Seq::<char>::empty());
        assert(pieces(piece, separator) =~= seq![piece]);
    }
}

/// Replacing puts the new text in the place of the first occurrence, and leaves all else.
pub proof fn law_replaced_first(
    before: Seq<char>,
    part: Seq<char>,
    after: Seq<char>,
    by: Seq<char>,
)
    requires
        forall|i: int| 0 <= i < before.len() ==> !occurs_at(before + part + after, part, i),
    ensures
        replaced_first(before + part + after, part, by) == before + by + after,
{
    law_first_index(before, part, after);
    let text = before + part + after;
    assert(text.take(before.len() as int) =~= before);
    assert(text.skip((before.len() + part.len()) as int) =~= after);
}

} // verus!
