use twrap::text::{
    byte_to_char_idx, is_white_space, push_decimal, push_hex_byte, read_hex_digit, same_text,
    strip_prefix, to_lower, trim,
};

#[test]
fn white_space_is_that_of_unicode() {
    for code in 0..=0x10ffffu32 {
        if let Some(c) = char::from_u32(code) {
            assert_eq!(is_white_space(c), c.is_whitespace());
        }
    }
}

#[test]
fn trimming_is_that_of_the_standard_library() {
    for text in ["", "  ", " a b\u{3000}", "\u{a0}x", "\tline\n", "界"] {
        assert_eq!(trim(text), text.trim());
    }
}

#[test]
fn lower_case_is_that_of_ascii() {
    for text in ["", "AbZ", "ÄÖ@[`{", "x1Y"] {
        assert_eq!(to_lower(text), text.to_ascii_lowercase());
    }
}

#[test]
fn prefixes_and_equality() {
    assert_eq!(strip_prefix("text:ä", "text:"), Some("ä"));
    assert_eq!(strip_prefix("tex", "text:"), None);
    assert_eq!(strip_prefix("Text:", "text:"), None);
    assert!(same_text("äb", "äb"));
    assert!(!same_text("äb", "äc"));
    assert!(!same_text("a", "ab"));
}

#[test]
fn numbers() {
    for n in [0u128, 9, 10, 42, 1_000_000, u128::MAX] {
        let mut out = "n".to_string();
        push_decimal(&mut out, n);
        assert_eq!(out, format!("n{n}"));
    }
    for b in 0..=255u8 {
        let mut out = String::new();
        push_hex_byte(&mut out, b);
        assert_eq!(out, format!("{b:02x}"));
    }
    for code in 0..=0x2ffu32 {
        let c = char::from_u32(code).unwrap();
        assert_eq!(read_hex_digit(c).map(u32::from), c.to_digit(16));
    }
}

#[test]
fn byte_offsets() {
    assert_eq!(byte_to_char_idx("aé界b", 0), 0);
    assert_eq!(byte_to_char_idx("aé界b", 1), 1);
    assert_eq!(byte_to_char_idx("aé界b", 3), 2);
    assert_eq!(byte_to_char_idx("aé界b", 6), 3);
    assert_eq!(byte_to_char_idx("aé界b", 7), 4);
    assert_eq!(byte_to_char_idx("aé界b", 100), 4);
}
