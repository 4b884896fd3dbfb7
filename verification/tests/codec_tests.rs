use cql_ls::codec::{char_to_unit, unit_to_char, PositionEncodingKind};

fn chars(s: &str) -> Vec<char> {
    s.chars().collect()
}

#[test]
fn utf32_units_are_characters() {
    let line = chars("SELECT * FROM t;\n");
    assert_eq!(unit_to_char(PositionEncodingKind::UTF32, &line, 7), Some(7));
    assert_eq!(char_to_unit(PositionEncodingKind::UTF32, &line, 7), 7);
    assert_eq!(unit_to_char(PositionEncodingKind::UTF32, &line, 17), Some(17));
    assert_eq!(unit_to_char(PositionEncodingKind::UTF32, &line, 18), None);
}

#[test]
fn utf8_units_count_bytes() {
    // '\u{e9}' is a two-byte character; 'a' follows it at byte 2.
    let line = chars("\u{e9}a");
    assert_eq!(unit_to_char(PositionEncodingKind::UTF8, &line, 0), Some(0));
    assert_eq!(unit_to_char(PositionEncodingKind::UTF8, &line, 2), Some(1));
    assert_eq!(unit_to_char(PositionEncodingKind::UTF8, &line, 3), Some(2));
    assert_eq!(char_to_unit(PositionEncodingKind::UTF8, &line, 1), 2);
    assert_eq!(char_to_unit(PositionEncodingKind::UTF8, &line, 2), 3);
}

#[test]
fn utf8_offset_inside_multibyte_character_is_rejected() {
    let line = chars("\u{e9}a");
    assert_eq!(unit_to_char(PositionEncodingKind::UTF8, &line, 1), None);
    assert_eq!(unit_to_char(PositionEncodingKind::UTF8, &line, 4), None);
}

#[test]
fn utf16_units_count_code_units() {
    // '\u{1F600}' is outside the Basic Multilingual Plane: two code units.
    let line = chars("a\u{1F600}b");
    assert_eq!(unit_to_char(PositionEncodingKind::UTF16, &line, 0), Some(0));
    assert_eq!(unit_to_char(PositionEncodingKind::UTF16, &line, 1), Some(1));
    assert_eq!(unit_to_char(PositionEncodingKind::UTF16, &line, 3), Some(2));
    assert_eq!(unit_to_char(PositionEncodingKind::UTF16, &line, 4), Some(3));
    assert_eq!(char_to_unit(PositionEncodingKind::UTF16, &line, 2), 3);
}

#[test]
fn utf16_offset_inside_surrogate_pair_is_rejected() {
    let line = chars("a\u{1F600}b");
    // Unit 2 addresses the second unit of the surrogate pair.
    assert_eq!(unit_to_char(PositionEncodingKind::UTF16, &line, 2), None);
    assert_eq!(unit_to_char(PositionEncodingKind::UTF16, &line, 5), None);
}

#[test]
fn round_trip_identity_on_every_character_offset() {
    let line = chars("a\u{e9}\u{1F600}z\n");
    for enc in [
        PositionEncodingKind::UTF8,
        PositionEncodingKind::UTF16,
        PositionEncodingKind::UTF32,
    ] {
        for c in 0..=line.len() {
            let u = char_to_unit(enc, &line, c);
            assert_eq!(unit_to_char(enc, &line, u), Some(c));
        }
    }
}
