use sysmon_core::counters::{english_key, get, index_map, localize, localized_keys, localized_table, read_multi_sz, table_room};
use sysmon_core::utf16::{decode, encode, field_of, multi_sz, wide_nul};

fn table(entries: &[&str]) -> Vec<String> {
    entries.iter().map(|t| t.to_string()).collect()
}

fn english() -> Vec<String> {
    table(&["1", "1847", "234", "PhysicalDisk", "220", "Disk Read Bytes/sec", "222", "Disk Write Bytes/sec"])
}

fn spanish() -> Vec<String> {
    table(&["1", "1847", "234", "Disco físico", "220", "Bytes de lectura de disco/s", "222", "Bytes de escritura en disco/s"])
}

#[test]
fn disk_counters_resuelve_dos_rutas_validas() {
    // The tables of a system in Spanish, language 0x0C0A.
    let (read, write) = get(&Some(english()), &Some(spanish()));
    assert!(read.starts_with('\\') && !read.is_empty(), "read={}", read);
    assert!(write.starts_with('\\') && !write.is_empty(), "write={}", write);
    assert_ne!(read, write);
    assert!(read.contains("Disco f\u{00ED}sico") && read.contains("Bytes de lectura"), "{}", read);
    assert_eq!(read, "\\Disco físico(*)\\Bytes de lectura de disco/s");
    assert_eq!(write, "\\Disco físico(*)\\Bytes de escritura en disco/s");
}

#[test]
fn counters_fall_back_to_english() {
    let fallback = ("\\PhysicalDisk(*)\\Disk Read Bytes/sec".to_string(), "\\PhysicalDisk(*)\\Disk Write Bytes/sec".to_string());
    assert_eq!(get(&None, &Some(spanish())), fallback);
    assert_eq!(get(&Some(english()), &None), fallback);
    assert_eq!(get(&Some(table(&["1"])), &Some(spanish())), fallback);
    // One name cannot be turned, so neither path is.
    let partial = table(&["234", "Disco físico", "220", "Bytes de lectura de disco/s"]);
    assert_eq!(get(&Some(english()), &Some(partial)), fallback);
    // One name for both counters gives one path.
    let same = table(&["234", "Disco", "220", "Bytes", "222", "Bytes"]);
    assert_eq!(get(&Some(english()), &Some(same)), ("\\Disco(*)\\Bytes".to_string(), "\\Disco(*)\\Bytes".to_string()));
    // An English system turns nothing.
    assert_eq!(get(&Some(english()), &Some(english())), fallback);
}

#[test]
fn tables_map_numbers_to_names() {
    let map = index_map(&table(&["1", "one", " 2 ", "two", "x", "none", "+3", "three", "1", "uno", "7"])).unwrap();
    assert_eq!(map.len(), 3);
    assert_eq!(map[&1], "uno");
    assert_eq!(map[&2], "two");
    assert_eq!(map[&3], "three");
    assert!(index_map(&table(&["1"])).is_none());
    assert!(index_map(&Vec::new()).is_none());
    assert_eq!(index_map(&table(&["a", "b"])).unwrap().len(), 0);
}

#[test]
fn paths_are_turned_part_by_part() {
    let en = index_map(&english()).unwrap();
    let loc = index_map(&spanish()).unwrap();
    assert_eq!(localize("\\PhysicalDisk( 0 C: )\\Disk Read Bytes/sec", &en, &loc).unwrap(), "\\Disco físico( 0 C: )\\Bytes de lectura de disco/s");
    // Half a path is none: the name of the host has no number.
    assert!(localize("\\\\HOST\\PhysicalDisk\\Disk Read Bytes/sec", &en, &loc).is_none());
    assert_eq!(localize("\\PhysicalDisk\\1847\\Disk Read Bytes/sec", &en, &loc).unwrap(), "\\Disco físico\\1847\\Bytes de lectura de disco/s");
    assert!(localize("\\PhysicalDisk(*)", &en, &loc).is_none());
    assert!(localize("\\PhysicalDisk(*)\\Unknown", &en, &loc).is_none());
    assert!(localize("", &en, &loc).is_none());
}

#[test]
fn keys_follow_the_language() {
    let base = "SOFTWARE\\Microsoft\\Windows NT\\CurrentVersion\\Perflib\\";
    assert_eq!(english_key(), format!("{}009", base));
    assert_eq!(localized_keys(0x0c0a), vec![format!("{}C0A", base), format!("{}00A", base), format!("{}0C0A", base)]);
    assert_eq!(localized_keys(0x0407), vec![format!("{}407", base), format!("{}007", base), format!("{}0407", base)]);
}

#[test]
fn the_first_table_there_is_counts() {
    assert_eq!(localized_table(vec![None, Some(table(&["a"])), Some(table(&["b"]))]), Some(table(&["a"])));
    assert_eq!(localized_table(vec![None, None, None]), None);
    assert_eq!(localized_table(vec![Some(Vec::new()), Some(table(&["b"]))]), Some(Vec::new()));
}

#[test]
fn tables_are_read_whatever_nulls_they_end_with() {
    assert_eq!(table_room(true, 10), None);
    assert_eq!(table_room(false, 0), None);
    assert_eq!(table_room(false, 10), Some(6));
    assert_eq!(table_room(false, 11), Some(6));
    let mut buffer = encode("1\0uno\0\0 2\0dos\0\0\0");
    let got = (buffer.len() * 2) as u32;
    buffer.push(0xffff);
    assert_eq!(read_multi_sz(false, &buffer, got), Some(table(&["1", "uno", " 2", "dos"])));
    assert_eq!(read_multi_sz(true, &buffer, got), None);
    assert_eq!(read_multi_sz(false, &buffer, 2), Some(table(&["1"])));
    assert_eq!(multi_sz(&Vec::new()), Vec::<String>::new());
}

#[test]
fn utf16_is_that_of_the_standard_library() {
    for text in ["", "Counter", "Disco físico", "⚠\u{FE0F} 🌡 \u{10FFFF}\u{10000}\u{FFFF}\u{E000}\u{D7FF}", "a\0b"] {
        let units: Vec<u16> = text.encode_utf16().collect();
        assert_eq!(encode(text), units);
        let back: String = decode(&units).into_iter().collect();
        assert_eq!(back, text);
        let mut with_nul = units.clone();
        with_nul.push(0);
        assert_eq!(wide_nul(text), with_nul);
    }
}

#[test]
fn lone_halves_become_replacement_characters() {
    for units in [
        vec![0xd800u16],
        vec![0xdc00],
        vec![0xdc00, 0xd800],
        vec![0x41, 0xd83d, 0x42],
        vec![0xd83d, 0xd83d, 0xde00],
        vec![0xd83d, 0xde00, 0xde00],
        vec![0xdbff, 0xdfff, 0],
    ] {
        let got: String = decode(&units).into_iter().collect();
        assert_eq!(got, String::from_utf16_lossy(&units));
    }
}

#[test]
fn fields_are_cut_so_that_a_null_fits() {
    let tip = "System Monitor Widget — Ctrl+Shift+M";
    let field = field_of(tip, 128);
    assert_eq!(field, wide_nul(tip));
    let long: String = "x".repeat(300);
    let field = field_of(&long, 64);
    assert_eq!(field.len(), 64);
    assert_eq!(field[63], 0);
    assert!(field[..63].iter().all(|u| *u == 'x' as u16));
    assert_eq!(field_of("abc", 4), vec![97, 98, 99, 0]);
    assert_eq!(field_of("abc", 3), vec![97, 98, 0]);
    assert_eq!(field_of("abc", 1), vec![0]);
}
