use script_entry_list::read_u32;
use script_entry_list::string_to_utf16;
use script_entry_list::ScriptEntry;
use script_entry_list::ScriptEntryList;
use script_entry_list::ScriptEntryListError;

fn entry(entity: &str, map: &str, lua: &str, plb: &str, flags: [u32; 4]) -> ScriptEntry {
    ScriptEntry {
        entity_name: entity.to_string(),
        map_name: map.to_string(),
        lua_path: lua.to_string(),
        plb_path: plb.to_string(),
        flags,
    }
}

fn encode(list: &ScriptEntryList) -> Vec<u8> {
    let mut out = Vec::new();
    list.write_to_file(&mut out).expect("encode failed");
    out
}

fn count_occurrences(haystack: &[u8], needle: &[u8]) -> usize {
    if needle.is_empty() || haystack.len() < needle.len() {
        return 0;
    }
    let mut found = 0;
    for start in 0..=(haystack.len() - needle.len()) {
        if &haystack[start..start + needle.len()] == needle {
            found += 1;
        }
    }
    found
}

#[test]
fn read_u32_little_endian() {
    let bytes = [0x01u8, 0x02, 0x03, 0x04, 0xFF];
    assert_eq!(read_u32(&bytes, 0).unwrap(), 0x04030201);
    assert_eq!(read_u32(&bytes, 1).unwrap(), 0xFF040302);
    assert!(matches!(read_u32(&bytes, 2), Err(ScriptEntryListError::IOError)));
}

#[test]
fn string_to_utf16_ascii() {
    assert_eq!(string_to_utf16("ab"), vec![0x61, 0x00, 0x62, 0x00]);
    assert_eq!(string_to_utf16(""), Vec::<u8>::new());
}

#[test]
fn string_to_utf16_surrogate_pair() {
    // U+10000 encodes as the surrogate pair D800 DC00.
    assert_eq!(string_to_utf16("\u{10000}"), vec![0x00, 0xD8, 0x00, 0xDC]);
}

#[test]
fn round_trip_single_entry() {
    // The scenario: one entry with exact field values survives a round trip.
    let list = ScriptEntryList {
        entries: vec![entry(
            "npc1",
            "m01",
            "script/m01.lua",
            "script/m01.plb",
            [0, 0, 0, 0],
        )],
    };
    let bytes = encode(&list);
    let back = ScriptEntryList::new_from_file(&bytes).expect("decode failed");
    assert_eq!(back.entries.len(), 1);
    assert_eq!(back.entries[0].entity_name, "npc1");
    assert_eq!(back.entries[0].map_name, "m01");
    assert_eq!(back.entries[0].lua_path, "script/m01.lua");
    assert_eq!(back.entries[0].plb_path, "script/m01.plb");
    assert_eq!(back.entries[0].flags, [0, 0, 0, 0]);
}

#[test]
fn round_trip_empty_list() {
    let list = ScriptEntryList { entries: vec![] };
    let bytes = encode(&list);
    let back = ScriptEntryList::new_from_file(&bytes).expect("decode failed");
    assert_eq!(back.entries.len(), 0);
}

#[test]
fn round_trip_two_entries_preserves_order() {
    let list = ScriptEntryList {
        entries: vec![
            entry("npc1", "m01", "script/a.lua", "script/a.plb", [1, 2, 3, 4]),
            entry("npc2", "m02", "script/b.lua", "script/b.plb", [5, 6, 7, 8]),
        ],
    };
    let bytes = encode(&list);
    let back = ScriptEntryList::new_from_file(&bytes).expect("decode failed");
    assert_eq!(back.entries.len(), 2);
    assert_eq!(back.entries[0].entity_name, "npc1");
    assert_eq!(back.entries[0].flags, [1, 2, 3, 4]);
    assert_eq!(back.entries[1].entity_name, "npc2");
    assert_eq!(back.entries[1].flags, [5, 6, 7, 8]);
}

#[test]
fn entry_count_field_matches() {
    let list = ScriptEntryList {
        entries: vec![
            entry("a", "b", "c", "d", [0; 4]),
            entry("e", "f", "g", "h", [0; 4]),
        ],
    };
    let bytes = encode(&list);
    // The content header at offset 16 stores the entry count.
    assert_eq!(read_u32(&bytes, 16).unwrap(), 2);
    let back = ScriptEntryList::new_from_file(&bytes).unwrap();
    assert_eq!(back.entries.len(), 2);
}

#[test]
fn shared_lua_path_stored_once() {
    // A second entry with the same lua_path must not duplicate the string.
    let list = ScriptEntryList {
        entries: vec![
            entry("npc1", "m01", "script/m01.lua", "script/m01.plb", [0; 4]),
            entry("npc2", "m01", "script/m01.lua", "other.plb", [0; 4]),
        ],
    };
    let bytes = encode(&list);
    let needle = string_to_utf16("script/m01.lua");
    assert_eq!(count_occurrences(&bytes, &needle), 1);
    // Both entries' lua-path pointers resolve to the same offset.
    let rec_area = 24 + 4 * 2;
    let lua0 = read_u32(&bytes, rec_area + 8).unwrap();
    let lua1 = read_u32(&bytes, rec_area + 20 + 8).unwrap();
    assert_eq!(lua0, lua1);
    // The shared narrow map name is also stored once.
    assert_eq!(count_occurrences(&bytes, b"m01\0"), 1);
    let back = ScriptEntryList::new_from_file(&bytes).unwrap();
    assert_eq!(back.entries[0].lua_path, back.entries[1].lua_path);
}

#[test]
fn identical_flags_not_shared() {
    let list = ScriptEntryList {
        entries: vec![
            entry("a", "b", "c", "d", [7, 7, 7, 7]),
            entry("e", "f", "g", "h", [7, 7, 7, 7]),
        ],
    };
    let bytes = encode(&list);
    let rec_area = 24 + 4 * 2;
    let flags0 = read_u32(&bytes, rec_area + 16).unwrap();
    let flags1 = read_u32(&bytes, rec_area + 20 + 16).unwrap();
    assert_ne!(flags0, flags1);
}

#[test]
fn footer_offset_aligned() {
    let list = ScriptEntryList {
        entries: vec![entry("npc1", "m1", "a.lua", "a.plb", [0; 4])],
    };
    let bytes = encode(&list);
    // The header's second offset field records where the footer begins.
    let footer_at = read_u32(&bytes, 8).unwrap();
    assert_eq!(footer_at % 4, 0);
    assert!((footer_at as usize) <= bytes.len());
    // Everything before the footer is content; the footer is non-empty.
    assert!((footer_at as usize) < bytes.len());
}

#[test]
fn header_rejected() {
    let bytes = b"NOPE\x10\x00\x00\x00\x00\x00\x00\x00".to_vec();
    match ScriptEntryList::new_from_file(&bytes) {
        Err(ScriptEntryListError::InvalidHeader(actual)) => {
            assert_eq!(&actual, b"NOPE");
        },
        other => panic!("expected InvalidHeader, got {:?}", other.map(|l| l.entries.len())),
    }
}

#[test]
fn truncated_stream_is_io_error() {
    assert!(matches!(
        ScriptEntryList::new_from_file(b"SI"),
        Err(ScriptEntryListError::IOError)
    ));
    assert!(matches!(
        ScriptEntryList::new_from_file(b"SIR0\x10\x00\x00\x00"),
        Err(ScriptEntryListError::IOError)
    ));
}

#[test]
fn bad_narrow_byte_is_invalid_narrow_text() {
    let list = ScriptEntryList {
        entries: vec![entry("npc1", "m1", "a.lua", "a.plb", [0; 4])],
    };
    let mut bytes = encode(&list);
    // Corrupt the first byte of the entity name (pointed at by the record's
    // first field) into a non-ASCII byte.
    let rec_area = 24 + 4;
    let entity_at = read_u32(&bytes, rec_area).unwrap() as usize;
    bytes[entity_at] = 0xC3;
    assert!(matches!(
        ScriptEntryList::new_from_file(&bytes),
        Err(ScriptEntryListError::InvalidNarrowText)
    ));
}

#[test]
fn surrogate_unit_is_invalid_wide_text() {
    let list = ScriptEntryList {
        entries: vec![entry("npc1", "m1", "a.lua", "a.plb", [0; 4])],
    };
    let mut bytes = encode(&list);
    // Corrupt the first unit of the lua path into a lone surrogate D800.
    let rec_area = 24 + 4;
    let lua_at = read_u32(&bytes, rec_area + 8).unwrap() as usize;
    bytes[lua_at] = 0x00;
    bytes[lua_at + 1] = 0xD8;
    assert!(matches!(
        ScriptEntryList::new_from_file(&bytes),
        Err(ScriptEntryListError::InvalidWideText)
    ));
}
