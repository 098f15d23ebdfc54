//! The names of the disk counters in the language of the system.
//!
//! The system keeps tables of counter names: a number before each name, the same
//! number in every language. A name is turned from English by way of its number.

use std::collections::HashMap;
use vstd::prelude::*;
use vstd::string::StringExecFns;
use crate::digits::{hex_text, padded_hex, parse_unsigned, unsigned_value};
use crate::text::{char_views, chars_of, find_chars, first_index, pieces, replaced_first, split_chars, string_of, trim_chars, trimmed, views};
use crate::utf16::{listed, multi_sz};

verus! {

// --- Tables of names ---------------------------------------------------------

/// The key under which the tables lie, and the table of one language by its code.
pub open spec fn table_key(code: Seq<char>) -> Seq<char> {
    "SOFTWARE\\Microsoft\\Windows NT\\CurrentVersion\\Perflib"@ + "\\"@ + code
}

fn table_key_of(code: &str) -> (r: String)
    ensures
        r@ == table_key(code@),
{
    let mut out = "SOFTWARE\\Microsoft\\Windows NT\\CurrentVersion\\Perflib".to_owned();
    out.append("\\");
    out.append(code);
    out
}

/// The key of the English table.
pub fn english_key() -> (r: String)
    ensures
        r@ == table_key("009"@),
{
    table_key_of("009")
}

/// The keys under which the table of a language may lie: by its number in three
/// digits, by the primary language alone, and by its number in four digits.
pub open spec fn local_keys(lcid: u16) -> Seq<Seq<char>> {
    seq![
        table_key(padded_hex(lcid as nat, 3)),
        table_key(padded_hex((lcid % 0x400) as nat, 3)),
        table_key(padded_hex(lcid as nat, 4)),
    ]
}

/// The keys under which the table of a language may lie.
pub fn localized_keys(lcid: u16) -> (r: Vec<String>)
    ensures
        views(r@) == local_keys(lcid),
{
    let mut out: Vec<String> = Vec::new();
    out.push(table_key_of(hex_text(lcid as u64, 3).as_str()));
    out.push(table_key_of(hex_text((lcid % 0x400) as u64, 3).as_str()));
    out.push(table_key_of(hex_text(lcid as u64, 4).as_str()));
    assert(views(out@) == local_keys(lcid));
    out
}

/// The first table there is.
pub open spec fn first_table(tables: Seq<Option<Vec<String>>>) -> Option<Vec<String>>
    decreases tables.len(),
{
    if tables.len() == 0 {
        None
    } else if tables[0] is Some {
        tables[0]
    } else {
        first_table(tables.drop_first())
    }
}

/// The first table there is among those read from the keys of the language.
pub fn localized_table(tables: Vec<Option<Vec<String>>>) -> (r: Option<Vec<String>>)
    ensures
        match r {
            Some(t) => first_table(tables@) is Some && views(t@) == views(
                first_table(tables@)->0@,
            ),
            None => first_table(tables@) is None,
        },
{
    let mut i: usize = 0;
    assert(tables@.skip(0) == tables@);
    while i < tables.len()
        invariant
            i <= tables.len(),
            first_table(tables@) == first_table(tables@.skip(i as int)),
        decreases tables.len() - i,
    {
        assert(tables@.skip(i as int)[0] == tables@[i as int]);
        assert(tables@.skip(i as int).drop_first() == tables@.skip(i + 1));
        match &tables[i] {
            Some(table) => {
                return Some(copy_table(table));
            },
            None => {},
        }
        i = i + 1;
    }
    None
}

fn copy_table(table: &Vec<String>) -> (r: Vec<String>)
    ensures
        views(r@) == views(table@),
{
    let mut out: Vec<String> = Vec::new();
    let mut i: usize = 0;
    while i < table.len()
        invariant
            i <= table.len(),
            views(out@) == views(table@).take(i as int),
        decreases table.len() - i,
    {
        let ghost before = views(out@);
        out.push(table[i].clone());
        assert(views(out@) == before.push(table@[i as int]@));
        assert(views(table@).take(i + 1) == before.push(views(table@)[i as int]));
        i = i + 1;
    }
    assert(views(table@).take(i as int) == views(table@));
    out
}

/// How many code units to make room for, after the system has told the size of a
/// table in bytes. There is nothing to read where the asking failed or the size is
/// zero.
pub fn table_room(failed: bool, size: u32) -> (r: Option<usize>)
    ensures
        r == (if failed || size == 0 {
            None
        } else {
            Some((size / 2 + 1) as usize)
        }),
{
    if failed || size == 0 {
        None
    } else {
        Some((size / 2) as usize + 1)
    }
}

/// The table in the first `got` bytes that the system has put into a buffer. It is
/// read as it stands, whatever nulls it ends with.
pub fn read_multi_sz(failed: bool, buffer: &Vec<u16>, got: u32) -> (r: Option<Vec<String>>)
    requires
        got / 2 <= buffer.len(),
    ensures
        match r {
            Some(table) => !failed && views(table@) == listed(buffer@.take((got / 2) as int)),
            None => failed,
        },
{
    if failed {
        return None;
    }
    let n: usize = (got / 2) as usize;
    let mut units: Vec<u16> = Vec::new();
    let mut i: usize = 0;
    while i < n
        invariant
            i <= n <= buffer.len(),
            units@ == buffer@.take(i as int),
        decreases n - i,
    {
        assert(buffer@.take(i + 1) == buffer@.take(i as int).push(buffer@[i as int]));
        units.push(buffer[i]);
        i = i + 1;
    }
    Some(multi_sz(&units))
}

// --- Numbers and names -------------------------------------------------------

/// The names by their numbers, from the first `n` pairs of a table. What is no
/// number is passed over; of two names for one number the later holds.
pub open spec fn names(table: Seq<Seq<char>>, n: nat) -> Map<u32, Seq<char>>
    decreases n,
{
    if n == 0 {
        Map::empty()
    } else {
        let before = names(table, (n - 1) as nat);
        match unsigned_value(trimmed(table[2 * n - 2])) {
            Some(index) => before.insert(index, table[2 * n - 1]),
            None => before,
        }
    }
}

/// The names of a map.
pub open spec fn name_views(map: Map<u32, String>) -> Map<u32, Seq<char>> {
    map.map_values(|name: String| name@)
}

/// The names by their numbers. A table without a pair has none.
pub fn index_map(table: &Vec<String>) -> (r: Option<HashMap<u32, String>>)
    ensures
        match r {
            Some(map) => table.len() >= 2 && name_views(map@) == names(
                views(table@),
                (table.len() / 2) as nat,
            ),
            None => table.len() < 2,
        },
{
    broadcast use vstd::std_specs::hash::group_hash_axioms;

    if table.len() < 2 {
        return None;
    }
    let ghost all = views(table@);
    let mut map: HashMap<u32, String> = HashMap::new();
    assert(name_views(map@) == names(all, 0));
    let pairs: usize = table.len() / 2;
    let mut k: usize = 0;
    while k < pairs
        invariant
            k <= pairs,
            2 * pairs <= table.len(),
            all == views(table@),
            name_views(map@) == names(all, k as nat),
        decreases pairs - k,
    {
        let text = trim_chars(&chars_of(table[2 * k].as_str()));
        assert(all[2 * k] == table@[2 * k]@ && all[2 * k + 1] == table@[2 * k + 1]@);
        match parse_unsigned(&text) {
            Some(index) => {
                let ghost before = map@;
                let name = table[2 * k + 1].clone();
                map.insert(index, name);
                assert(name_views(map@) == name_views(before).insert(index, name@));
            },
            None => {},
        }
        k = k + 1;
    }
    Some(map)
}

/// Whether a number is one of a name.
pub open spec fn is_number(map: Map<u32, Seq<char>>, name: Seq<char>, k: u32) -> bool {
    map.contains_key(k) && map[k] == name
}

pub open spec fn lowest_number(map: Map<u32, Seq<char>>, name: Seq<char>, k: u32) -> bool {
    is_number(map, name, k) && forall|j: u32| is_number(map, name, j) ==> k <= j
}

/// The lowest number of a name.
pub open spec fn number_of(map: Map<u32, Seq<char>>, name: Seq<char>) -> Option<u32> {
    if exists|k: u32| is_number(map, name, k) {
        Some(choose|k: u32| lowest_number(map, name, k))
    } else {
        None
    }
}

fn find_number(map: &HashMap<u32, String>, name: &String) -> (r: Option<u32>)
    ensures
        r == number_of(name_views(map@), name@),
{
    broadcast use vstd::std_specs::hash::group_hash_axioms;

    let ghost all = name_views(map@);
    let mut best: Option<u32> = None;
    for entry in it: map.iter()
        invariant
            all == name_views(map@),
            it.seq().len() == map@.dom().len(),
            forall|i: int|
                0 <= i < it.seq().len() ==> map@.contains_key(*(#[trigger] it.seq()[i]).0)
                    && map@[*it.seq()[i].0] == *it.seq()[i].1,
            forall|k: u32| #[trigger]
                map@.contains_key(k) ==> it.seq().contains((&k, &map@[k])),
            match best {
                Some(b) => is_number(all, name@, b) && forall|i: int|
                    0 <= i < it.index() && (*(#[trigger] it.seq()[i]).1)@ == name@ ==> b
                        <= *it.seq()[i].0,
                None => forall|i: int|
                    0 <= i < it.index() ==> (*(#[trigger] it.seq()[i]).1)@ != name@,
            },
    {
        let (k, v) = entry;
        assert(it.seq()[it.index() as int] == (k, v));
        if *v == *name {
            let closer: bool = match best {
                Some(b) => *k < b,
                None => true,
            };
            if closer {
                assert(is_number(all, name@, *k));
                best = Some(*k);
            }
        }
    }
    proof {
        assert forall|j: u32| is_number(all, name@, j) implies best is Some && best->0 <= j by {
            assert(map@.contains_key(j));
        }
        match best {
            Some(b) => {
                assert(lowest_number(all, name@, b));
                let c = choose|k: u32| lowest_number(all, name@, k);
                assert(is_number(all, name@, c));
                assert(is_number(all, name@, b));
            },
            None => {},
        }
    }
    best
}

// --- Paths -------------------------------------------------------------------

/// The name in a part of a path: what stands before the instances in brackets.
pub open spec fn name_in(part: Seq<char>) -> Seq<char> {
    trimmed(
        part.take(
            match first_index(part, "("@) {
                Some(i) => i,
                None => part.len() as int,
            },
        ),
    )
}

/// A part of a path with its name in the other language, where both tables have
/// the number.
pub open spec fn turned(
    part: Seq<char>,
    english: Map<u32, Seq<char>>,
    local: Map<u32, Seq<char>>,
) -> Option<Seq<char>> {
    match number_of(english, name_in(part)) {
        Some(k) if local.contains_key(k) => Some(replaced_first(part, name_in(part), local[k])),
        _ => None,
    }
}

/// The parts of a path.
pub open spec fn path_parts(path: Seq<char>) -> Seq<Seq<char>> {
    pieces(path, '\\').filter(|p: Seq<char>| p.len() > 0)
}

/// The path of the parts, each turned where it can be.
pub open spec fn turned_path(
    parts: Seq<Seq<char>>,
    english: Map<u32, Seq<char>>,
    local: Map<u32, Seq<char>>,
) -> Seq<char>
    decreases parts.len(),
{
    if parts.len() == 0 {
        Seq::empty()
    } else {
        turned_path(parts.drop_last(), english, local).push('\\') + (match turned(
            parts.last(),
            english,
            local,
        ) {
            Some(text) => text,
            None => parts.last(),
        })
    }
}

/// How many of the parts can be turned.
pub open spec fn turned_count(
    parts: Seq<Seq<char>>,
    english: Map<u32, Seq<char>>,
    local: Map<u32, Seq<char>>,
) -> nat
    decreases parts.len(),
{
    if parts.len() == 0 {
        0
    } else {
        turned_count(parts.drop_last(), english, local) + if turned(
            parts.last(),
            english,
            local,
        ) is Some {
            1nat
        } else {
            0nat
        }
    }
}

/// A path in the other language, where it has an object and a counter and all its
/// parts can be turned.
pub open spec fn localized(
    path: Seq<char>,
    english: Map<u32, Seq<char>>,
    local: Map<u32, Seq<char>>,
) -> Option<Seq<char>> {
    let parts = path_parts(path);
    if parts.len() >= 2 && turned_count(parts, english, local) == parts.len() {
        Some(turned_path(parts, english, local))
    } else {
        None
    }
}

fn name_of(part: &Vec<char>) -> (r: Vec<char>)
    ensures
        r@ == name_in(part@),
{
    let end: usize = match find_chars(part, &chars_of("(")) {
        Some(i) => i,
        None => part.len(),
    };
    let mut head: Vec<char> = Vec::new();
    let mut i: usize = 0;
    while i < end
        invariant
            i <= end <= part.len(),
            head@ == part@.take(i as int),
        decreases end - i,
    {
        assert(part@.take(i + 1) == part@.take(i as int).push(part@[i as int]));
        head.push(part[i]);
        i = i + 1;
    }
    trim_chars(&head)
}

fn whole_text(chars: &Vec<char>) -> (r: String)
    ensures
        r@ == chars@,
{
    assert(chars@.subrange(0, chars@.len() as int) == chars@);
    string_of(chars, 0, chars.len())
}

fn turn(part: &Vec<char>, english: &HashMap<u32, String>, local: &HashMap<u32, String>) -> (r:
    Option<String>)
    ensures
        match r {
            Some(text) => turned(part@, name_views(english@), name_views(local@)) == Some(text@),
            None => turned(part@, name_views(english@), name_views(local@)) is None,
        },
{
    broadcast use vstd::std_specs::hash::group_hash_axioms;

    let name = name_of(part);
    let text = whole_text(&name);
    match find_number(english, &text) {
        Some(k) => match local.get(&k) {
            Some(by) => {
                let mut out: String = String::new();
                match find_chars(part, &name) {
                    Some(i) => {
                        let head = string_of(part, 0, i);
                        let tail = string_of(part, i + name.len(), part.len());
                        out.append(head.as_str());
                        out.append(by.as_str());
                        out.append(tail.as_str());
                        proof {
                            assert(part@.subrange(0, i as int) == part@.take(i as int));
                            assert(part@.subrange(i + name@.len(), part@.len() as int)
                                == part@.skip(i + name@.len()));
                            assert(out@ == replaced_first(part@, name@, by@));
                        }
                    },
                    None => {
                        out = whole_text(part);
                    },
                }
                Some(out)
            },
            None => None,
        },
        None => None,
    }
}

/// Turns a path from English into the language of the other table, name by name.
/// Unless there are an object and a counter and all parts can be turned, there is no
/// path.
pub fn localize(path: &str, english: &HashMap<u32, String>, local: &HashMap<u32, String>) -> (r:
    Option<String>)
    ensures
        match r {
            Some(text) => localized(path@, name_views(english@), name_views(local@)) == Some(text@),
            None => localized(path@, name_views(english@), name_views(local@)) is None,
        },
{
    let all = split_chars(&chars_of(path), '\\');
    let ghost parts = char_views(all@);
    let ghost en = name_views(english@);
    let ghost loc = name_views(local@);
    let ghost test = |p: Seq<char>| p.len() > 0;
    let mut out: String = String::new();
    let mut count: usize = 0;
    let mut replaced: usize = 0;
    let mut i: usize = 0;
    assert(parts.take(0) == Seq::<Seq<char>>::empty());
    assert(parts.take(0).filter(test) == Seq::<Seq<char>>::empty()) by {
        reveal(Seq::filter);
    }
    while i < all.len()
        invariant
            i <= all.len(),
            replaced <= count <= i,
            parts == char_views(all@),
            en == name_views(english@),
            loc == name_views(local@),
            test == (|p: Seq<char>| p.len() > 0),
            out@ == turned_path(parts.take(i as int).filter(test), en, loc),
            count == parts.take(i as int).filter(test).len(),
            replaced == turned_count(parts.take(i as int).filter(test), en, loc),
        decreases all.len() - i,
    {
        let ghost before = parts.take(i as int).filter(test);
        assert(parts.take(i + 1).drop_last() == parts.take(i as int));
        assert(parts.take(i + 1).last() == all@[i as int]@);
        proof {
            reveal(Seq::filter);
        }
        if all[i].len() > 0 {
            assert(before.push(all@[i as int]@).drop_last() == before);
            count = count + 1;
            out.push('\\');
            match turn(&all[i], english, local) {
                Some(text) => {
                    out.append(text.as_str());
                    replaced = replaced + 1;
                },
                None => {
                    let text = whole_text(&all[i]);
                    out.append(text.as_str());
                },
            }
        }
        i = i + 1;
    }
    assert(parts.take(i as int) == parts);
    if count >= 2 && replaced == count {
        Some(out)
    } else {
        None
    }
}

// --- The two counters --------------------------------------------------------

/// Bytes read and bytes written by all physical disks, in English.
pub open spec fn english_paths() -> (Seq<char>, Seq<char>) {
    (
        "\\PhysicalDisk(*)\\Disk Read Bytes/sec"@,
        "\\PhysicalDisk(*)\\Disk Write Bytes/sec"@,
    )
}

/// The names of a table that has at least one pair.
pub open spec fn table_names(table: Option<Vec<String>>) -> Option<Map<u32, Seq<char>>> {
    match table {
        Some(t) if t.len() >= 2 => Some(names(views(t@), (t.len() / 2) as nat)),
        _ => None,
    }
}

/// The two counters: in the language of the system where both can be turned, else
/// in English.
pub open spec fn disk_paths(english: Option<Vec<String>>, local: Option<Vec<String>>) -> (
    Seq<char>,
    Seq<char>,
) {
    let (read, write) = english_paths();
    match (table_names(english), table_names(local)) {
        (Some(en), Some(loc)) => match (localized(read, en, loc), localized(write, en, loc)) {
            (Some(r), Some(w)) => (r, w),
            _ => (read, write),
        },
        _ => (read, write),
    }
}

fn map_of(table: &Option<Vec<String>>) -> (r: Option<HashMap<u32, String>>)
    ensures
        match r {
            Some(map) => table_names(*table) == Some(name_views(map@)),
            None => table_names(*table) is None,
        },
{
    match table {
        Some(t) => index_map(t),
        None => None,
    }
}

/// The counters of bytes read and bytes written by all physical disks, from the
/// English table and that of the system's language.
pub fn get(english: &Option<Vec<String>>, local: &Option<Vec<String>>) -> (r: (String, String))
    ensures
        (r.0@, r.1@) == disk_paths(*english, *local),
{
    let read = "\\PhysicalDisk(*)\\Disk Read Bytes/sec";
    let write = "\\PhysicalDisk(*)\\Disk Write Bytes/sec";
    match (map_of(english), map_of(local)) {
        (Some(en), Some(loc)) => match (localize(read, &en, &loc), localize(write, &en, &loc)) {
            (Some(r), Some(w)) => (r, w),
            _ => (read.to_owned(), write.to_owned()),
        },
        _ => (read.to_owned(), write.to_owned()),
    }
}

/// A path of two parts, an object and a counter, is turned just where both names
/// have a number that the other table has too; then it is the two turned parts.
pub proof fn law_path_of_object_and_counter(
    path: Seq<char>,
    english: Map<u32, Seq<char>>,
    local: Map<u32, Seq<char>>,
)
    requires
        path_parts(path).len() == 2,
    ensures
        ({
            let object = turned(path_parts(path)[0], english, local);
            let counter = turned(path_parts(path)[1], english, local);
            localized(path, english, local) == (match (object, counter) {
                (Some(a), Some(b)) => Some(seq!['\\'] + a + seq!['\\'] + b),
                _ => None,
            })
        }),
{
    let parts = path_parts(path);
    let (a, b) = (parts[0], parts[1]);
    reveal_with_fuel(turned_count, 3);
    reveal_with_fuel(turned_path, 3);
    assert(parts.drop_last() == seq![a]);
    assert(seq![a].drop_last() == Seq::<Seq<char>>::empty());
    match (turned(a, english, local), turned(b, english, local)) {
        (Some(x), Some(y)) => {
            assert(turned_path(seq![a], english, local) == seq!['\\'] + x);
            assert(turned_path(parts, english, local) == seq!['\\'] + x + seq!['\\'] + y);
        },
        _ => {},
    }
}

/// The text that the other table has for a name, where both tables have its number.
pub open spec fn local_name(
    name: Seq<char>,
    english: Map<u32, Seq<char>>,
    local: Map<u32, Seq<char>>,
) -> Option<Seq<char>> {
    match number_of(english, name) {
        Some(k) if local.contains_key(k) => Some(local[k]),
        _ => None,
    }
}

/// The counter's part of a path, which has no instances, is turned as a whole.
proof fn lemma_counter_turned(
    part: Seq<char>,
    english: Map<u32, Seq<char>>,
    local: Map<u32, Seq<char>>,
)
    requires
        part.len() > 0,
        !crate::text::blank(part[0]),
        !crate::text::blank(part.last()),
        forall|i: int| 0 <= i < part.len() ==> #[trigger] part[i] != '(',
    ensures
        turned(part, english, local) == local_name(part, english, local),
{
    reveal_strlit("(");
    crate::text::lemma_first_index(part, "("@);
    if let Some(i) = first_index(part, "("@) {
        assert(part.subrange(i, i + 1)[0] == part[i]);
        assert("("@[0] == '(');
    }
    assert(part.take(part.len() as int) == part);
    assert(trimmed(part) == part);
    assert(part.subrange(0, part.len() as int) == part);
    assert(first_index(part, part) == Some(0int));
    assert forall|by: Seq<char>| #[trigger] replaced_first(part, part, by) == by by {
        assert(part.take(0) + by + part.skip(part.len() as int) == by);
    }
}

/// The object's part of the paths: its name is turned and the instances stay.
proof fn lemma_object_turned(english: Map<u32, Seq<char>>, local: Map<u32, Seq<char>>)
    ensures
        turned("PhysicalDisk(*)"@, english, local) == (match local_name(
            "PhysicalDisk"@,
            english,
            local,
        ) {
            Some(by) => Some(by + "(*)"@),
            None => None,
        }),
{
    let part = "PhysicalDisk(*)"@;
    let name = "PhysicalDisk"@;
    reveal_strlit("PhysicalDisk(*)");
    reveal_strlit("PhysicalDisk");
    reveal_strlit("(*)");
    reveal_strlit("(");
    crate::text::lemma_first_index(part, "("@);
    assert(part.subrange(12, 13) == "("@);
    assert(crate::text::occurs_at(part, "("@, 12));
    let i = first_index(part, "("@)->0;
    assert(part.subrange(i, i + 1)[0] == part[i]);
    assert("("@[0] == '(');
    assert(i == 12);
    assert(part.take(12) == name);
    assert(trimmed(name) == name);
    assert(part.subrange(0, 12) == name);
    assert(first_index(part, name) == Some(0int));
    assert forall|by: Seq<char>| #[trigger] replaced_first(part, name, by) == by + "(*)"@ by {
        assert(part.take(0) + by + part.skip(12) == by + "(*)"@);
    }
}

proof fn lemma_parts_of(object: Seq<char>, counter: Seq<char>)
    requires
        object.len() > 0,
        counter.len() > 0,
        forall|i: int| 0 <= i < object.len() ==> #[trigger] object[i] != '\\',
        forall|i: int| 0 <= i < counter.len() ==> #[trigger] counter[i] != '\\',
    ensures
        path_parts(seq!['\\'] + object + seq!['\\'] + counter) == seq![object, counter],
{
    let none = Seq::<char>::empty();
    let test = |p: Seq<char>| p.len() > 0;
    crate::text::lemma_last_piece(none, object, '\\');
    crate::text::lemma_last_piece(none.push('\\') + object, counter, '\\');
    assert(seq!['\\'] + object + seq!['\\'] + counter == (none.push('\\') + object).push('\\')
        + counter);
    let all = seq![none, object, counter];
    assert(pieces(none, '\\') == seq![none]);
    assert(seq![none].push(object).push(counter) == all);
    assert(all.filter(test) == seq![object, counter]) by {
        reveal(Seq::filter);
        reveal_with_fuel(Seq::filter, 4);
        assert(all.drop_last() == seq![none, object]);
        assert(seq![none, object].drop_last() == seq![none]);
        assert(seq![none].drop_last() == Seq::<Seq<char>>::empty());
    }
}

/// Both counters of the disks start with a backslash. They come in the language of
/// the system where the object and both counters have a name in it, else both in
/// English; and they differ unless the language has one name for both counters.
pub proof fn law_disk_counters(english: Option<Vec<String>>, local: Option<Vec<String>>)
    ensures
        ({
            let (read, write) = disk_paths(english, local);
            let (en, loc) = (table_names(english), table_names(local));
            let by = |name: Seq<char>| local_name(name, en->0, loc->0);
            let object = by("PhysicalDisk"@);
            let reads = by("Disk Read Bytes/sec"@);
            let writes = by("Disk Write Bytes/sec"@);
            let turned = en is Some && loc is Some && object is Some && reads is Some && writes is Some;
            &&& read.len() > 0 && read[0] == '\\'
            &&& write.len() > 0 && write[0] == '\\'
            &&& (read, write) == (if turned {
                (
                    seq!['\\'] + object->0 + "(*)\\"@ + reads->0,
                    seq!['\\'] + object->0 + "(*)\\"@ + writes->0,
                )
            } else {
                (
                    "\\PhysicalDisk(*)\\Disk Read Bytes/sec"@,
                    "\\PhysicalDisk(*)\\Disk Write Bytes/sec"@,
                )
            })
            &&& read == write <==> turned && reads->0 == writes->0
        }),
{
    let (read, write) = english_paths();
    let object = "PhysicalDisk(*)"@;
    let (reads, writes) = ("Disk Read Bytes/sec"@, "Disk Write Bytes/sec"@);
    reveal_strlit("\\PhysicalDisk(*)\\Disk Read Bytes/sec");
    reveal_strlit("\\PhysicalDisk(*)\\Disk Write Bytes/sec");
    reveal_strlit("PhysicalDisk(*)");
    reveal_strlit("Disk Read Bytes/sec");
    reveal_strlit("Disk Write Bytes/sec");
    reveal_strlit("(*)\\");
    reveal_strlit("(*)");
    assert(read == seq!['\\'] + object + seq!['\\'] + reads);
    assert(write == seq!['\\'] + object + seq!['\\'] + writes);
    assert(read[22] != write[22]);
    lemma_parts_of(object, reads);
    lemma_parts_of(object, writes);
    if let (Some(en), Some(loc)) = (table_names(english), table_names(local)) {
        lemma_object_turned(en, loc);
        lemma_counter_turned(reads, en, loc);
        lemma_counter_turned(writes, en, loc);
        law_path_of_object_and_counter(read, en, loc);
        law_path_of_object_and_counter(write, en, loc);
        if let (Some(o), Some(r), Some(w)) = (
            local_name("PhysicalDisk"@, en, loc),
            local_name(reads, en, loc),
            local_name(writes, en, loc),
        ) {
            let head = seq!['\\'] + o + "(*)\\"@;
            assert(seq!['\\'] + (o + "(*)"@) + seq!['\\'] + r == head + r);
            assert(seq!['\\'] + (o + "(*)"@) + seq!['\\'] + w == head + w);
            if head + r == head + w {
                assert((head + r).skip(head.len() as int) == r);
                assert((head + w).skip(head.len() as int) == w);
            }
        }
    }
}

proof fn lemma_trimmed_within(text: Seq<char>)
    ensures
        crate::text::contains(text, trimmed(text)),
    decreases text.len(),
{
    let start = crate::text::trim_start(text);
    lemma_trim_start_within(text);
    lemma_trim_end_within(start);
    let (i, n) = (text.len() - start.len(), trimmed(text).len());
    assert(text.subrange(i, i + n) == start.take(n as int));
    assert(crate::text::occurs_at(text, trimmed(text), i));
}

proof fn lemma_trim_start_within(text: Seq<char>)
    ensures
        crate::text::trim_start(text).len() <= text.len(),
        crate::text::trim_start(text) == text.skip(
            text.len() - crate::text::trim_start(text).len(),
        ),
    decreases text.len(),
{
    if text.len() > 0 && crate::text::blank(text[0]) {
        lemma_trim_start_within(text.drop_first());
        let rest = text.drop_first();
        let n = crate::text::trim_start(text).len();
        assert(rest.skip(rest.len() - n) == text.skip(text.len() - n));
    } else {
        assert(text.skip(0) == text);
    }
}

proof fn lemma_trim_end_within(text: Seq<char>)
    ensures
        crate::text::trim_end(text).len() <= text.len(),
        crate::text::trim_end(text) == text.take(crate::text::trim_end(text).len() as int),
    decreases text.len(),
{
    if text.len() > 0 && crate::text::blank(text.last()) {
        lemma_trim_end_within(text.drop_last());
        let n = crate::text::trim_end(text).len();
        assert(text.drop_last().take(n as int) == text.take(n as int));
    } else {
        assert(text.take(text.len() as int) == text);
    }
}

/// Where the other table gives a name the same text, a part keeps its text.
pub proof fn law_same_name_same_part(
    part: Seq<char>,
    english: Map<u32, Seq<char>>,
    local: Map<u32, Seq<char>>,
)
    requires
        number_of(english, name_in(part)) is Some,
        local.contains_key(number_of(english, name_in(part))->0),
        local[number_of(english, name_in(part))->0] == name_in(part),
    ensures
        turned(part, english, local) == Some(part),
{
    let name = name_in(part);
    let head = part.take(
        match first_index(part, "("@) {
            Some(i) => i,
            None => part.len() as int,
        },
    );
    crate::text::lemma_first_index(part, "("@);
    lemma_trimmed_within(head);
    let i = choose|i: int| crate::text::occurs_at(head, name, i);
    assert(crate::text::occurs_at(part, name, i)) by {
        assert(part.subrange(i, i + name.len()) == head.subrange(i, i + name.len()));
    }
    crate::text::lemma_first_index(part, name);
    let k = first_index(part, name)->0;
    assert(part.subrange(k, k + name.len()) == name);
    assert(part.take(k) + name + part.skip(k + name.len()) == part);
}

/// The names of a table: a number has a name just where it stands before one, and the
/// last name behind it counts.
pub proof fn law_names(table: Seq<Seq<char>>, n: nat, k: u32)
    requires
        2 * n <= table.len(),
    ensures
        names(table, n).contains_key(k) <==> exists|i: int|
            0 <= i < n && unsigned_value(trimmed(#[trigger] table[2 * i])) == Some(k),
        forall|i: int|
            0 <= i < n && unsigned_value(trimmed(#[trigger] table[2 * i])) == Some(k) && (forall|
                j: int,
            |
                i < j < n ==> unsigned_value(trimmed(#[trigger] table[2 * j])) != Some(k))
                ==> names(table, n)[k] == table[2 * i + 1],
    decreases n,
{
    if n > 0 {
        let before = names(table, (n - 1) as nat);
        law_names(table, (n - 1) as nat, k);
        let last = n - 1;
        assert(table[2 * last] == table[2 * n - 2]);
        assert(table[2 * last + 1] == table[2 * n - 1]);
        if unsigned_value(trimmed(table[2 * last])) != Some(k) {
            assert(names(table, n).contains_key(k) == before.contains_key(k));
            if before.contains_key(k) {
                assert(names(table, n)[k] == before[k]);
            }
        }
    }
}

/// The number of a name is the lowest of those that the table has for it.
pub proof fn law_lowest_number(map: Map<u32, Seq<char>>, name: Seq<char>, k: u32)
    ensures
        match number_of(map, name) {
            Some(least) => map.contains_key(least) && map[least] == name && (map.contains_key(k)
                && map[k] == name ==> least <= k),
            None => !(map.contains_key(k) && map[k] == name),
        },
{
    if exists|j: u32| is_number(map, name, j) {
        let j = choose|j: u32| is_number(map, name, j);
        lemma_lowest(map, name, j);
    }
    if is_number(map, name, k) {
        assert(is_number(map, name, k));
    }
}

proof fn lemma_lowest(map: Map<u32, Seq<char>>, name: Seq<char>, k: u32)
    requires
        is_number(map, name, k),
    ensures
        exists|j: u32| lowest_number(map, name, j),
    decreases k,
{
    if !lowest_number(map, name, k) {
        let j = choose|j: u32| is_number(map, name, j) && j < k;
        lemma_lowest(map, name, j);
    }
}

/// Of the tables of a language the first that there is counts.
pub proof fn law_first_table(tables: Seq<Option<Vec<String>>>, i: int)
    requires
        0 <= i < tables.len(),
        forall|j: int| 0 <= j < i ==> (#[trigger] tables[j]) is None,
    ensures
        tables[i] is Some ==> first_table(tables) == tables[i],
        i == tables.len() - 1 && tables[i] is None ==> first_table(tables) is None,
    decreases i,
{
    if i > 0 {
        assert(tables[0] is None);
        let rest = tables.drop_first();
        assert forall|j: int| 0 <= j < i - 1 implies (#[trigger] rest[j]) is None by {
            assert(tables[j + 1] is None);
        }
        law_first_table(rest, i - 1);
    } else {
        assert(tables.drop_first().len() == tables.len() - 1);
        assert(tables.len() == 1 ==> first_table(tables.drop_first()) is None);
    }
}

/// The name in a part of a path is what stands before the first bracket, without the
/// blanks at its ends; without a bracket it is the whole part. Turning puts the name of
/// the other table in its place and leaves the rest.
pub proof fn law_parts_are_turned(
    name: Seq<char>,
    rest: Seq<char>,
    english: Map<u32, Seq<char>>,
    local: Map<u32, Seq<char>>,
    k: u32,
)
    requires
        name.len() > 0,
        !crate::text::blank(name[0]) && !crate::text::blank(name.last()),
        forall|i: int| 0 <= i < name.len() ==> #[trigger] name[i] != '(',
        number_of(english, name) == Some(k),
        local.contains_key(k),
    ensures
        name_in(name) == name,
        name_in(name + seq!['('] + rest) == name,
        turned(name, english, local) == Some(local[k]),
        turned(name + seq!['('] + rest, english, local) == Some(local[k] + seq!['('] + rest),
{
    reveal_strlit("(");
    assert("("@ =~= seq!['(']);
    let none = Seq::<char>::empty();
    let part = name + seq!['('] + rest;
    assert forall|i: int| 0 <= i < name.len() implies !crate::text::occurs_at(part, "("@, i) by {
        if crate::text::occurs_at(part, "("@, i) {
            assert(part.subrange(i, i + 1)[0] == name[i]);
        }
    }
    crate::text::law_first_index(name, "("@, rest);
    assert(part.take(name.len() as int) =~= name);
    crate::text::lemma_first_index(name, "("@);
    if crate::text::contains(name, "("@) {
        let i = choose|i: int| crate::text::occurs_at(name, "("@, i);
        assert(name.subrange(i, i + 1)[0] == name[i]);
    }
    assert(name.take(name.len() as int) =~= name);
    crate::text::law_trimmed(none, name, none);
    assert(none + name + none =~= name);
    crate::text::law_replaced_first(none, name, none, local[k]);
    assert(none + local[k] + none =~= local[k]);
    let tail = seq!['('] + rest;
    assert(none + name + tail =~= part);
    crate::text::law_replaced_first(none, name, tail, local[k]);
    assert(none + local[k] + tail =~= local[k] + seq!['('] + rest);
}

/// The tables lie under one key, that of English under the code 009, that of a language
/// under its number in three or four digits, or under its lower ten bits.
pub proof fn law_table_keys(lcid: u16, code: Seq<char>)
    ensures
        table_key(code) == "SOFTWARE\\Microsoft\\Windows NT\\CurrentVersion\\Perflib"@ + "\\"@
            + code,
        local_keys(lcid).len() == 3,
        local_keys(lcid)[0] == table_key(padded_hex(lcid as nat, 3)),
        local_keys(lcid)[1] == table_key(padded_hex(lcid as nat % 1024, 3)),
        local_keys(lcid)[2] == table_key(padded_hex(lcid as nat, 4)),
{
}

} // verus!
