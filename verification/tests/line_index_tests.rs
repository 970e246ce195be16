use m1_workspace::{LineIndex, PositionEncoding};

#[test]
fn single_line() {
    let idx = LineIndex::new("hello");
    assert_eq!(idx.line_at(0), 0);
    assert_eq!(idx.line_at(4), 0);
    assert_eq!(idx.col_at(3), 3);
}

#[test]
fn multi_line() {
    let idx = LineIndex::new("ab\ncd\ne");
    assert_eq!(idx.line_at(0), 0);
    assert_eq!(idx.line_at(2), 0);
    assert_eq!(idx.line_at(3), 1);
    assert_eq!(idx.line_at(5), 1);
    assert_eq!(idx.line_at(6), 2);
    assert_eq!(idx.line_col(4), (1, 1));
    assert_eq!(idx.line_start(2), Some(6));
    assert_eq!(idx.line_start(3), None);
}

#[test]
fn multi_byte_chars() {
    let text = "abc\nédef";
    let idx = LineIndex::new(text);
    let d_off = text.find('d').unwrap();
    assert_eq!(d_off, 6);
    assert_eq!(idx.line_at(d_off), 1);
    assert_eq!(idx.col_at(d_off), 2);
    assert_eq!(idx.line_col(d_off), (1, 2));
}

#[test]
fn trailing_newline() {
    let idx = LineIndex::new("x\n");
    assert_eq!(idx.line_at(0), 0);
    assert_eq!(idx.line_at(2), 1);
}

#[test]
fn position_in_ascii() {
    let s = "ab\ncde\n";
    let li = LineIndex::new(s);
    assert_eq!(li.position_in(s, 0, PositionEncoding::Utf16), (0, 0));
    assert_eq!(li.position_in(s, 3, PositionEncoding::Utf16), (1, 0));
    assert_eq!(li.position_in(s, 5, PositionEncoding::Utf16), (1, 2));
    assert_eq!(li.position_in(s, 7, PositionEncoding::Utf16), (2, 0));
}

#[test]
fn position_in_utf16_counts_code_units_not_bytes() {
    let s = "é𝄞x";
    let li = LineIndex::new(s);
    assert_eq!(li.position_in(s, 7, PositionEncoding::Utf16), (0, 4));
    assert_eq!(li.position_in(s, 7, PositionEncoding::Utf8), (0, 7));
}

#[test]
fn offset_in_round_trips() {
    let s = "ab\né𝄞x\n";
    let li = LineIndex::new(s);
    for enc in [PositionEncoding::Utf16, PositionEncoding::Utf8] {
        for b in [0usize, 1, 3, 5, 9, s.len()] {
            if !s.is_char_boundary(b) {
                continue;
            }
            let (line, col) = li.position_in(s, b, enc);
            assert_eq!(li.offset_in(s, line, col, enc), b, "byte {b} via {enc:?}");
        }
    }
    assert_eq!(li.offset_in(s, 99, 0, PositionEncoding::Utf16), s.len());
}

#[test]
fn position_in_empty_document() {
    let li = LineIndex::new("");
    assert_eq!(li.position_in("", 0, PositionEncoding::Utf16), (0, 0));
}

#[test]
fn offset_in_out_of_range_column_clamps_to_end_of_line_not_next_line() {
    let s = "x\nsome other content";
    let li = LineIndex::new(s);
    let off = li.offset_in(s, 0, 100, PositionEncoding::Utf16);
    assert_eq!(off, 1, "out-of-range column must stop before the newline");
    assert_eq!(li.position_in(s, off, PositionEncoding::Utf16).0, 0);

    let off8 = li.offset_in(s, 0, 100, PositionEncoding::Utf8);
    assert_eq!(off8, 1);
    assert_eq!(li.position_in(s, off8, PositionEncoding::Utf8).0, 0);

    let m = "ab\ncd\nef";
    let mi = LineIndex::new(m);
    let line1_eol = mi.offset_in(m, 1, 50, PositionEncoding::Utf16);
    assert_eq!(line1_eol, 5, "line 1 ends at byte 5 (before its '\\n')");
    assert_eq!(mi.position_in(m, line1_eol, PositionEncoding::Utf16).0, 1);
}

#[test]
fn position_in_mid_codepoint_byte_does_not_panic() {
    let s = "/* é 𝄞";
    let li = LineIndex::new(s);
    assert_eq!(
        li.position_in(s, 7, PositionEncoding::Utf16),
        li.position_in(s, 6, PositionEncoding::Utf16)
    );
    assert_eq!(li.position_in(s, 7, PositionEncoding::Utf16), (0, 5));
    let _ = li.position_in(s, s.len(), PositionEncoding::Utf16);
    let _ = li.position_in(s, 9999, PositionEncoding::Utf8);
}

#[test]
fn offset_in_stops_before_a_wide_char_that_does_not_fit() {
    // '𝄞' takes two UTF-16 units and four UTF-8 bytes.
    let s = "a𝄞b";
    let li = LineIndex::new(s);
    assert_eq!(li.offset_in(s, 0, 2, PositionEncoding::Utf16), 1);
    assert_eq!(li.offset_in(s, 0, 3, PositionEncoding::Utf16), 5);
    assert_eq!(li.offset_in(s, 0, 4, PositionEncoding::Utf8), 1);
    assert_eq!(li.offset_in(s, 0, 5, PositionEncoding::Utf8), 5);
}

#[test]
fn every_boundary_round_trips() {
    let s = "first line\nsecond é line\r\n𝄞\n\nlast";
    let li = LineIndex::new(s);
    for b in 0..=s.len() {
        if !s.is_char_boundary(b) {
            continue;
        }
        for enc in [PositionEncoding::Utf16, PositionEncoding::Utf8] {
            let (line, col) = li.position_in(s, b, enc);
            assert_eq!(li.offset_in(s, line, col, enc), b);
        }
    }
}

#[test]
fn clone_keeps_line_starts() {
    let li = LineIndex::new("a\nb\nc");
    let copy = li.clone();
    for line in 0..4 {
        assert_eq!(li.line_start(line), copy.line_start(line));
    }
    assert_eq!(copy.line_start(2), Some(4));
}

#[test]
fn each_line_start_lies_on_its_line() {
    let text = "ab\n\nécd\n";
    let idx = LineIndex::new(text);
    let mut line = 0;
    while let Some(start) = idx.line_start(line) {
        assert_eq!(idx.line_at(start), line);
        assert_eq!(idx.col_at(start), 0);
        line += 1;
    }
    assert_eq!(line, 4);
}
