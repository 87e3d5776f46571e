use lite_edit_editor::text_position::{
    byte_offset_to_position, find_next_match, position_to_byte_offset, Position,
};

#[test]
fn test_position_to_byte_offset() {
    let content = "ab\ncde\n\nf";
    assert_eq!(position_to_byte_offset(content, Position::new(0, 0)), 0);
    assert_eq!(position_to_byte_offset(content, Position::new(0, 9)), 2);
    assert_eq!(position_to_byte_offset(content, Position::new(1, 2)), 5);
    assert_eq!(position_to_byte_offset(content, Position::new(2, 3)), 7);
    assert_eq!(position_to_byte_offset(content, Position::new(3, 1)), 9);
    assert_eq!(position_to_byte_offset(content, Position::new(7, 0)), 9);
}

#[test]
fn test_position_to_byte_offset_multibyte() {
    let content = "é日x\nz";
    assert_eq!(position_to_byte_offset(content, Position::new(0, 1)), 2);
    assert_eq!(position_to_byte_offset(content, Position::new(0, 2)), 5);
    assert_eq!(position_to_byte_offset(content, Position::new(1, 0)), 7);
}

#[test]
fn test_byte_offset_to_position() {
    let content = "ab\ncde\n\nf";
    assert_eq!(byte_offset_to_position(content, 0), Position::new(0, 0));
    assert_eq!(byte_offset_to_position(content, 2), Position::new(0, 2));
    assert_eq!(byte_offset_to_position(content, 3), Position::new(1, 0));
    assert_eq!(byte_offset_to_position(content, 8), Position::new(3, 0));
    assert_eq!(byte_offset_to_position(content, 100), Position::new(3, 1));
}

#[test]
fn test_position_round_trip() {
    let content = "héllo\nwörld\n";
    for line in 0..3 {
        for col in 0..8 {
            let off = position_to_byte_offset(content, Position::new(line, col));
            let back = byte_offset_to_position(content, off);
            let line_len = [5, 5, 0][line];
            assert_eq!(back, Position::new(line, col.min(line_len)));
        }
    }
}

#[test]
fn test_find_next_match_forward() {
    let content = "hello world\nHello again";
    let r = find_next_match(content, "hello", Position::new(0, 1));
    assert_eq!(r, Some((Position::new(1, 0), Position::new(1, 5))));
}

#[test]
fn test_find_next_match_wraps_around() {
    let content = "abc abc";
    let r = find_next_match(content, "ABC", Position::new(0, 5));
    assert_eq!(r, Some((Position::new(0, 0), Position::new(0, 3))));
}

#[test]
fn test_find_next_match_at_start_position() {
    let content = "abc abc";
    let r = find_next_match(content, "abc", Position::new(0, 4));
    assert_eq!(r, Some((Position::new(0, 4), Position::new(0, 7))));
}

#[test]
fn test_find_next_match_empty_query_or_missing() {
    assert_eq!(find_next_match("abc", "", Position::new(0, 0)), None);
    assert_eq!(find_next_match("abc", "x", Position::new(0, 1)), None);
}

#[test]
fn test_find_next_match_range_is_in_original_text() {
    // 'İ' lower-cases to two characters ('i' and a combining dot above); the
    // range returned is that of the match in the original text.
    assert_eq!(
        find_next_match("İab", "AB", Position::new(0, 0)),
        Some((Position::new(0, 1), Position::new(0, 3)))
    );
    assert_eq!(
        find_next_match("xİy", "i\u{307}", Position::new(0, 0)),
        Some((Position::new(0, 1), Position::new(0, 2)))
    );
    assert_eq!(
        find_next_match("İa", "a", Position::new(0, 1)),
        Some((Position::new(0, 1), Position::new(0, 2)))
    );
    // Only whole characters match: 'i' alone is not the lower case of 'İ'.
    assert_eq!(find_next_match("İ", "i", Position::new(0, 0)), None);
}

#[test]
fn test_find_next_match_wrap_ends_before_start() {
    // From the middle of the only occurrence: nothing starts after it, and
    // on wrapping around the occurrence does not end before the start.
    assert_eq!(find_next_match("xabx", "ab", Position::new(0, 2)), None);
    assert_eq!(
        find_next_match("ab\nab", "AB", Position::new(1, 1)),
        Some((Position::new(0, 0), Position::new(0, 2)))
    );
}
