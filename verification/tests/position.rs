use csv_lsp::position::{LineIndex, Position, PositionEncoding};

fn starts(text: &str) -> Vec<usize> {
    LineIndex::new(text).line_starts().clone()
}

#[test]
fn empty_text_has_one_line() {
    assert_eq!(starts(""), vec![0]);
}

#[test]
fn lf_starts_a_new_line() {
    assert_eq!(starts("a\nb"), vec![0, 2]);
}

#[test]
fn crlf_counts_as_one_break() {
    assert_eq!(starts("a\r\nb"), vec![0, 3]);
}

#[test]
fn lone_cr_is_a_line_break() {
    assert_eq!(starts("a\rb"), vec![0, 2]);
}

#[test]
fn trailing_newline_opens_an_empty_last_line() {
    assert_eq!(starts("a\n"), vec![0, 2]);
}

/// Line 1 is `é😀,名`: é = 2 bytes / 1 utf-16 unit, 😀 = 4 bytes / 2
/// utf-16 units (surrogate pair), 名 = 3 bytes / 1 unit / 2 display cells.
const MIXED: &str = "id,x\né😀,名\n";

fn pos(line: u32, character: u32) -> Position {
    Position { line, character }
}

#[test]
fn position_counts_utf8_bytes() {
    let index = LineIndex::new(MIXED);
    let offset = MIXED.find('名').unwrap();
    assert_eq!(index.position(MIXED, offset, PositionEncoding::Utf8), pos(1, 7));
}

#[test]
fn position_counts_utf16_units() {
    let index = LineIndex::new(MIXED);
    let offset = MIXED.find('名').unwrap();
    assert_eq!(index.position(MIXED, offset, PositionEncoding::Utf16), pos(1, 4));
}

#[test]
fn position_counts_utf32_codepoints() {
    let index = LineIndex::new(MIXED);
    let offset = MIXED.find('名').unwrap();
    assert_eq!(index.position(MIXED, offset, PositionEncoding::Utf32), pos(1, 3));
}

#[test]
fn position_at_text_end_is_start_of_trailing_line() {
    let index = LineIndex::new(MIXED);
    assert_eq!(index.position(MIXED, MIXED.len(), PositionEncoding::Utf8), pos(2, 0));
}

#[test]
fn position_clamps_offsets_past_the_end() {
    let index = LineIndex::new(MIXED);
    assert_eq!(index.position(MIXED, 999, PositionEncoding::Utf16), pos(2, 0));
}

#[test]
fn offset_round_trips_positions_in_every_encoding() {
    let index = LineIndex::new(MIXED);
    for enc in [
        PositionEncoding::Utf8,
        PositionEncoding::Utf16,
        PositionEncoding::Utf32,
    ] {
        for (offset, _) in MIXED.char_indices() {
            let position = index.position(MIXED, offset, enc);
            assert_eq!(index.offset(MIXED, position, enc), offset, "{enc:?}");
        }
    }
}

#[test]
fn offset_clamps_line_past_the_end_to_document_end() {
    let index = LineIndex::new("ab\ncd");
    assert_eq!(index.offset("ab\ncd", pos(99, 0), PositionEncoding::Utf8), 5);
}

#[test]
fn offset_clamps_character_to_the_line_content_end() {
    let text = "ab\r\ncd";
    let index = LineIndex::new(text);
    assert_eq!(index.offset(text, pos(0, 99), PositionEncoding::Utf8), 2);
    assert_eq!(index.offset(text, pos(1, 99), PositionEncoding::Utf8), 6);
}

#[test]
fn offset_snaps_utf16_surrogate_halves_to_the_char_start() {
    let text = "😀x";
    let index = LineIndex::new(text);
    assert_eq!(index.offset(text, pos(0, 1), PositionEncoding::Utf16), 0);
    assert_eq!(index.offset(text, pos(0, 2), PositionEncoding::Utf16), 4);
}

#[test]
fn range_converts_both_ends() {
    let index = LineIndex::new(MIXED);
    let r = index.range(MIXED, 5, MIXED.len(), PositionEncoding::Utf16);
    assert_eq!(r.start, pos(1, 0));
    assert_eq!(r.end, pos(2, 0));
}

#[test]
fn every_addressable_offset_round_trips_with_crlf_and_lone_cr() {
    let text = "a\r\n\rb😀\n\r\nc";
    let index = LineIndex::new(text);
    for enc in [PositionEncoding::Utf8, PositionEncoding::Utf16, PositionEncoding::Utf32] {
        for offset in text.char_indices().map(|(i, _)| i).chain([text.len()]) {
            let bytes = text.as_bytes();
            if offset > 0 && bytes[offset - 1] == b'\r' && bytes.get(offset) == Some(&b'\n') {
                continue;
            }
            let position = index.position(text, offset, enc);
            assert_eq!(index.offset(text, position, enc), offset, "{enc:?} at {offset}");
        }
    }
}

#[test]
fn hostile_positions_clamp_onto_addressable_boundaries() {
    let text = "ab\r\n😀\rz";
    let index = LineIndex::new(text);
    for enc in [PositionEncoding::Utf8, PositionEncoding::Utf16, PositionEncoding::Utf32] {
        for line in [0u32, 1, 2, 3, 9, u32::MAX] {
            for character in [0u32, 1, 2, 3, 5, 64, u32::MAX] {
                let offset = index.offset(text, pos(line, character), enc);
                assert!(offset <= text.len());
                assert!(text.is_char_boundary(offset));
                let bytes = text.as_bytes();
                assert!(!(offset > 0 && bytes[offset - 1] == b'\r' && bytes.get(offset) == Some(&b'\n')));
            }
        }
    }
}
