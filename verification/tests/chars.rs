use speedier::chars::{chars_of, is_ascii_digit, is_whitespace, same_text, trim, trim_bounds};

#[test]
fn trims_unicode_whitespace() {
    assert_eq!(trim("  a b \t\n"), "a b");
    assert_eq!(trim("\u{2003}x\u{00a0}"), "x");
    assert_eq!(trim("   "), "");
    assert_eq!(trim(""), "");
}

#[test]
fn trim_bounds_of_chars() {
    let runes: Vec<char> = " ab ".chars().collect();
    assert_eq!(trim_bounds(&runes), (1, 3));
}

#[test]
fn digits_and_text() {
    assert!(is_ascii_digit('7'));
    assert!(!is_ascii_digit('a'));
    assert!(!is_ascii_digit('٣'));
    assert!(same_text("héllo", "héllo"));
    assert!(!same_text("a", "ab"));
    assert_eq!(chars_of("añb"), vec!['a', 'ñ', 'b']);
}

#[test]
fn whitespace_matches_std_for_every_char() {
    for code in 0u32..=0x10FFFF {
        if let Some(c) = char::from_u32(code) {
            assert_eq!(is_whitespace(c), c.is_whitespace(), "U+{:04X}", code);
        }
    }
}

#[test]
fn trimming_twice_is_trimming_once() {
    for s in ["  a b \t", "", "   ", "x", "\u{3000}y\u{85}"] {
        assert_eq!(trim(&trim(s)), trim(s));
    }
}
