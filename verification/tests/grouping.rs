use speedier::grouping::{
    canonical_cursor_from_display_cursor, display_cursor_from_canonical_cursor,
    format_expression_for_input, join_number_segments_with_separator, split_number_segments,
    strip_group_separators, trim_fraction_zeros, INPUT_GROUP_SEPARATOR,
};

fn to_grouped_text(input: &str) -> String {
    let mut out = String::new();
    for segment in split_number_segments(input) {
        if segment.pad_before {
            out.push(' ');
        }
        out.push_str(&segment.text);
    }
    out
}

#[test]
fn groups_integer_digits_every_three() {
    assert_eq!(to_grouped_text("160000"), "160 000");
    assert_eq!(to_grouped_text("123456789"), "123 456 789");
}

#[test]
fn groups_fraction_digits_every_three() {
    assert_eq!(to_grouped_text("0.004222"), "0.004 222");
    assert_eq!(to_grouped_text(".123456"), ".123 456");
}

#[test]
fn keeps_sign_and_exponent_ungrouped() {
    assert_eq!(to_grouped_text("-1234567.89012"), "-1 234 567.890 12");
    assert_eq!(to_grouped_text("1.234567e-10"), "1.234 567e-10");
}

#[test]
fn short_numbers_stay_whole() {
    assert_eq!(to_grouped_text("7"), "7");
    assert_eq!(to_grouped_text("123"), "123");
    assert_eq!(to_grouped_text("1234"), "1 234");
    assert_eq!(to_grouped_text("+12"), "+12");
}

#[test]
fn empty_number_is_one_empty_segment() {
    let segments = split_number_segments("");
    assert_eq!(segments.len(), 1);
    assert_eq!(segments[0].text, "");
    assert!(!segments[0].pad_before);
}

#[test]
fn segments_of_a_full_number() {
    let segments = split_number_segments("-12345.6789E+7");
    let texts: Vec<&str> = segments.iter().map(|s| s.text.as_str()).collect();
    let pads: Vec<bool> = segments.iter().map(|s| s.pad_before).collect();
    assert_eq!(texts, vec!["-", "12", "345", ".", "678", "9", "E+7"]);
    assert_eq!(pads, vec![false, false, true, false, false, true, false]);
}

#[test]
fn join_uses_the_separator() {
    assert_eq!(join_number_segments_with_separator("1234567.891", ','), "1,234,567.891");
    assert_eq!(join_number_segments_with_separator("1000", '_'), "1_000");
}

#[test]
fn formats_numbers_in_an_expression() {
    let sep = INPUT_GROUP_SEPARATOR;
    assert_eq!(
        format_expression_for_input("12345+sin(1000000)"),
        format!("12{sep}345+sin(1{sep}000{sep}000)")
    );
    assert_eq!(format_expression_for_input("abc 12"), "abc 12");
    assert_eq!(format_expression_for_input(""), "");
}

#[test]
fn strip_undoes_format() {
    for input in ["12345+sin(1000000)", "1.234567e-10 * 99999", "", "x y  z", "#1234$"] {
        let formatted = format_expression_for_input(input);
        assert_eq!(strip_group_separators(&formatted), input);
    }
}

#[test]
fn strip_removes_only_separators() {
    let text = format!("1{}000 2", INPUT_GROUP_SEPARATOR);
    assert_eq!(strip_group_separators(&text), "1000 2");
}

#[test]
fn cursor_maps_between_display_and_canonical() {
    let display = format!("12{}345", INPUT_GROUP_SEPARATOR);
    assert_eq!(canonical_cursor_from_display_cursor(&display, 0), 0);
    assert_eq!(canonical_cursor_from_display_cursor(&display, 2), 2);
    assert_eq!(canonical_cursor_from_display_cursor(&display, 3), 2);
    assert_eq!(canonical_cursor_from_display_cursor(&display, 4), 3);
    assert_eq!(canonical_cursor_from_display_cursor(&display, 99), 5);
    assert_eq!(display_cursor_from_canonical_cursor(&display, 0), 0);
    assert_eq!(display_cursor_from_canonical_cursor(&display, 2), 2);
    assert_eq!(display_cursor_from_canonical_cursor(&display, 3), 4);
    assert_eq!(display_cursor_from_canonical_cursor(&display, 5), 6);
    assert_eq!(display_cursor_from_canonical_cursor(&display, 9), 6);
}

#[test]
fn cursor_round_trip() {
    let display = format!("1{0}234{0}567.890{0}1", INPUT_GROUP_SEPARATOR);
    let kept = strip_group_separators(&display).chars().count();
    for c in 0..=kept {
        let d = display_cursor_from_canonical_cursor(&display, c);
        assert_eq!(canonical_cursor_from_display_cursor(&display, d), c);
    }
}

#[test]
fn segments_put_together_give_the_number() {
    for n in ["", "0", "-1234567.89012", "1.234567e-10", ".5", "12345678901234567890", "+1e+3", "1.2.3"] {
        let joined: String = split_number_segments(n).into_iter().map(|s| s.text).collect();
        assert_eq!(joined, n);
    }
}

#[test]
fn grouping_only_adds_separators() {
    for n in ["160000", "-1234567.89012", "1.234567e-10", "7"] {
        let grouped = join_number_segments_with_separator(n, INPUT_GROUP_SEPARATOR);
        assert_eq!(strip_group_separators(&grouped), n);
    }
}

#[test]
fn fraction_zeros_are_dropped() {
    assert_eq!(trim_fraction_zeros("2.500000000000000"), "2.5");
    assert_eq!(trim_fraction_zeros("3.000000000000000"), "3");
    assert_eq!(trim_fraction_zeros("-0.000000000000001"), "-0.000000000000001");
    assert_eq!(trim_fraction_zeros("1000"), "1000");
    assert_eq!(trim_fraction_zeros("10.0"), "10");
    assert_eq!(trim_fraction_zeros(""), "");
    assert_eq!(trim_fraction_zeros(&format!("{:.15}", 0.1 + 0.2)), "0.3");
}
