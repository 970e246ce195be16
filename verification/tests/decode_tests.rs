use m1_workspace::{decode, decode_with_encoding, encode, encode_checked, Encoding, LossyEncoding};

#[test]
fn utf8_passes_through_unchanged() {
    let (s, enc) = decode_with_encoding("Qty=\"°/s\"".as_bytes().to_vec());
    assert_eq!(s, "Qty=\"°/s\"");
    assert_eq!(enc, Encoding::Utf8);
}

#[test]
fn utf16_le_bom_is_decoded_not_mojibaked() {
    let mut bytes = vec![0xFF, 0xFE];
    bytes.extend_from_slice(&[0x41, 0x00]);
    bytes.extend_from_slice(&[0xB0, 0x00]);
    let (s, enc) = decode_with_encoding(bytes);
    assert_eq!(s, "A°");
    assert_eq!(enc, Encoding::Utf8);
}

#[test]
fn utf16_be_bom_is_decoded() {
    let mut bytes = vec![0xFE, 0xFF];
    bytes.extend_from_slice(&[0x00, 0x41]);
    bytes.extend_from_slice(&[0x00, 0xB0]);
    let (s, enc) = decode_with_encoding(bytes);
    assert_eq!(s, "A°");
    assert_eq!(enc, Encoding::Utf8);
}

#[test]
fn windows_1252_degree_sign_is_recovered() {
    let mut bytes = b"Qty=\"".to_vec();
    bytes.push(0xB0);
    bytes.extend_from_slice(b"/s\"");
    let (s, enc) = decode_with_encoding(bytes);
    assert_eq!(s, "Qty=\"°/s\"");
    assert_eq!(enc, Encoding::Windows1252);
}

#[test]
fn windows_1252_c1_range_and_latin1() {
    let bytes = vec![0xB1, 0xB5, 0x80, 0x99];
    assert_eq!(decode(bytes), "±µ€™");
}

#[test]
fn encode_utf8_is_a_straight_copy() {
    assert_eq!(encode("°/s", Encoding::Utf8), "°/s".as_bytes());
}

#[test]
fn encode_windows_1252_degree_round_trips() {
    let bytes = vec![b'Q', 0xB0, b'/', b's'];
    let (s, enc) = decode_with_encoding(bytes.clone());
    assert_eq!(enc, Encoding::Windows1252);
    assert_eq!(encode(&s, enc), bytes);
}

#[test]
fn encode_windows_1252_c1_round_trips() {
    let bytes = vec![0x80, 0x99, 0x93, 0x94, 0xB1, 0xB5];
    let (s, _) = decode_with_encoding(bytes.clone());
    assert_eq!(encode(&s, Encoding::Windows1252), bytes);
}

#[test]
fn encode_windows_1252_unrepresentable_char_becomes_question_mark() {
    assert_eq!(encode("a🚗b", Encoding::Windows1252), b"a?b");
}

#[test]
fn utf8_bom_is_stripped() {
    let mut bytes = vec![0xEF, 0xBB, 0xBF];
    bytes.extend_from_slice(b"<Project/>");
    let (s, enc) = decode_with_encoding(bytes);
    assert_eq!(enc, Encoding::Utf8);
    assert_eq!(s, "<Project/>");
    assert!(!s.starts_with('\u{FEFF}'));
}

#[test]
fn encode_checked_reports_unrepresentable_char() {
    let err = encode_checked("12 Ω", Encoding::Windows1252).unwrap_err();
    assert_eq!(err.unrepresentable, vec!['\u{03A9}']);
}

#[test]
fn encode_checked_allows_latin1_and_literal_question_mark() {
    let ok = encode_checked("°±µ? ok", Encoding::Windows1252).unwrap();
    assert_eq!(ok, encode("°±µ? ok", Encoding::Windows1252));
}

#[test]
fn encode_checked_utf8_never_fails() {
    assert_eq!(encode_checked("a🚗Ω", Encoding::Utf8).unwrap(), "a🚗Ω".as_bytes());
}

#[test]
fn every_defined_windows_1252_byte_round_trips() {
    let undefined = [0x81u8, 0x8D, 0x8F, 0x90, 0x9D];
    let bytes: Vec<u8> = (0u8..=255).filter(|b| !undefined.contains(b)).collect();
    let (s, enc) = decode_with_encoding(bytes.clone());
    assert_eq!(enc, Encoding::Windows1252);
    assert_eq!(encode(&s, enc), bytes);
}

#[test]
fn undefined_windows_1252_bytes_become_replacement() {
    let (s, enc) = decode_with_encoding(vec![0x81, 0x8D, 0x8F, 0x90, 0x9D]);
    assert_eq!(enc, Encoding::Windows1252);
    assert_eq!(s, "\u{FFFD}\u{FFFD}\u{FFFD}\u{FFFD}\u{FFFD}");
    assert_eq!(encode(&s, Encoding::Windows1252), b"?????");
}

#[test]
fn utf8_round_trips_through_encode() {
    let text = "Ω 𝄞 °/s";
    let (s, enc) = decode_with_encoding(text.as_bytes().to_vec());
    assert_eq!(enc, Encoding::Utf8);
    assert_eq!(encode(&s, enc), text.as_bytes());
}

#[test]
fn utf16_surrogate_pair_and_lone_surrogate() {
    // G clef U+1D11E as a surrogate pair, then a lone high surrogate, then 'x'.
    let bytes = vec![0xFF, 0xFE, 0x34, 0xD8, 0x1E, 0xDD, 0x00, 0xD8, 0x78, 0x00];
    assert_eq!(decode(bytes), "𝄞\u{FFFD}x");
    // An odd trailing byte is ignored.
    assert_eq!(decode(vec![0xFE, 0xFF, 0x00, 0x41, 0x42]), "A");
}

#[test]
fn utf32_le_bom_is_not_taken_for_utf16() {
    let (s, enc) = decode_with_encoding(vec![0xFF, 0xFE, 0x00, 0x00]);
    assert_eq!(enc, Encoding::Windows1252);
    assert_eq!(s, "ÿþ\u{0}\u{0}");
}

#[test]
fn empty_input_is_empty_utf8() {
    let (s, enc) = decode_with_encoding(Vec::new());
    assert_eq!(s, "");
    assert_eq!(enc, Encoding::Utf8);
}

#[test]
fn encode_checked_lists_distinct_chars_in_order() {
    let err = encode_checked("Ω→Ω😀→", Encoding::Windows1252).unwrap_err();
    assert_eq!(err.unrepresentable, vec!['Ω', '→', '😀']);
    assert_eq!(
        err.to_string(),
        "3 character(s) cannot be represented in Windows-1252: 'Ω' (U+03A9), '→' (U+2192), '😀' (U+1F600)"
    );
}

#[test]
fn lossy_encoding_message_pads_code_points() {
    let e = LossyEncoding { unrepresentable: vec!['\u{100}'] };
    assert_eq!(e.to_string(), "1 character(s) cannot be represented in Windows-1252: 'Ā' (U+0100)");
}
