use libpart::name::{encode_utf16_units, name_field_vec, read_name_field, decode_utf16_units,
    truncate_at_nul};

#[test]
fn encode_matches_std_utf16() {
    for s in ["", "root", "Qu\u{00e9}", "\u{1F600} ok", "a\u{0800}b"] {
        let mine = encode_utf16_units(s);
        let std_units: Vec<u16> = s.encode_utf16().collect();
        assert_eq!(mine, std_units);
    }
}

#[test]
fn long_name_truncates_to_first_36_units() {
    // 40 ASCII characters encode to 40 units; the field keeps the first 36
    let name: String = "abcdefghij".repeat(4);
    let field = name_field_vec(&name);
    assert_eq!(field.len(), 72);
    let expected: Vec<u16> = name.encode_utf16().take(36).collect();
    for (i, unit) in expected.iter().enumerate() {
        assert_eq!(field[2 * i] as u16 | (field[2 * i + 1] as u16) << 8, *unit);
    }
}

#[test]
fn surrogate_pair_split_at_the_field_boundary_is_kept() {
    // 35 ASCII units then an emoji (2 units): unit 36 is the high surrogate
    let mut name: String = "x".repeat(35);
    name.push('\u{1F600}');
    let units: Vec<u16> = name.encode_utf16().collect();
    assert_eq!(units.len(), 37);
    let field = name_field_vec(&name);
    let unit35 = field[70] as u16 | (field[71] as u16) << 8;
    assert_eq!(unit35, units[35]);
}

#[test]
fn short_name_is_zero_padded() {
    let field = name_field_vec("root");
    assert_eq!(field.len(), 72);
    assert_eq!(&field[0..8], &[0x72, 0x00, 0x6f, 0x00, 0x6f, 0x00, 0x74, 0x00]);
    assert!(field[8..].iter().all(|b| *b == 0));
}

#[test]
fn decode_stops_at_first_nul() {
    let mut field = name_field_vec("root");
    // place another character after the terminating NUL
    field[10] = 0x78;
    let name = read_name_field(&field, 0).unwrap();
    assert_eq!(name, "root");
}

#[test]
fn decode_of_all_zero_field_is_empty() {
    let field = vec![0u8; 72];
    assert_eq!(read_name_field(&field, 0).unwrap(), "");
}

#[test]
fn round_trip_preserves_names() {
    for s in ["", "root", "EFI system partition", "Qu\u{00e9}bec", "\u{1F600}\u{1F600}"] {
        let field = name_field_vec(s);
        let back = read_name_field(&field, 0).unwrap();
        assert_eq!(back, s);
    }
}

#[test]
fn unpaired_surrogate_is_rejected() {
    let mut field = vec![0u8; 72];
    // a lone high surrogate 0xD800 as the first unit
    field[0] = 0x00;
    field[1] = 0xD8;
    assert!(read_name_field(&field, 0).is_none());
}

#[test]
fn decode_units_matches_std() {
    let units: Vec<u16> = "gr\u{00fc}n \u{1F600}".encode_utf16().collect();
    let chars = decode_utf16_units(&units).unwrap();
    let s: String = chars.iter().collect();
    assert_eq!(s, "gr\u{00fc}n \u{1F600}");
    let bad = vec![0xDC00u16, 0x0041];
    assert!(decode_utf16_units(&bad).is_none());
}

#[test]
fn truncate_at_nul_cuts_the_tail() {
    let cs: Vec<char> = vec!['a', 'b', '\0', 'c'];
    assert_eq!(truncate_at_nul(&cs), vec!['a', 'b']);
    let no_nul: Vec<char> = vec!['a', 'b'];
    assert_eq!(truncate_at_nul(&no_nul), vec!['a', 'b']);
}
