use local_mcp::text::{
    decimal_text, elide, is_white_space, pad_left, parse_number, same_text, signed_decimal_text,
    split_lines, split_list, trim, trim_right, truncate,
};

#[test]
fn white_space_is_what_std_says() {
    for u in 0..=0x10ffffu32 {
        if let Some(c) = char::from_u32(u) {
            assert_eq!(is_white_space(c), c.is_whitespace(), "{u:x}");
        }
    }
}

#[test]
fn trimming_is_what_std_does() {
    for s in ["", " ", "a", " a b\t\n", "\u{3000}x\u{a0}", "\r\n", "  lead", "trail  "] {
        assert_eq!(trim(s), s.trim());
        assert_eq!(trim_right(s), s.trim_end());
    }
}

#[test]
fn numbers_are_written_as_std_writes_them() {
    for n in [0u64, 7, 10, 99, 100, 2_592_000, u64::MAX] {
        assert_eq!(decimal_text(n), n.to_string());
    }
    for n in [0i32, -1, 137, i32::MIN, i32::MAX] {
        assert_eq!(signed_decimal_text(n), n.to_string());
    }
}

#[test]
fn numbers_are_read_as_std_reads_them() {
    for s in ["0", "42", "+7", "007", "18446744073709551615", "18446744073709551616", "", "+", "-1",
        " 1", "1 ", "1e3", "\u{0661}", "++1"]
    {
        assert_eq!(parse_number(s, u64::MAX), s.parse::<u64>().ok(), "{s}");
    }
    assert_eq!(parse_number("255", 255), Some(255));
    assert_eq!(parse_number("256", 255), None);
}

#[test]
fn lines_are_split_as_std_splits_them() {
    for s in ["", "\n", "a", "a\n", "a\nb", "a\r\nb\r\n", "a\r", "a\rb\n", "\r\n\r\n", "\n\n", "x\r\r\n"] {
        let expected: Vec<String> = s.lines().map(str::to_string).collect();
        assert_eq!(split_lines(s), expected, "{s:?}");
    }
}

#[test]
fn lists_are_split_at_commas() {
    assert_eq!(split_list(" a, b ,,c d, "), vec!["a", "b", "c d"]);
    assert_eq!(split_list("one"), vec!["one"]);
    assert!(split_list(" , ,").is_empty());
}

#[test]
fn a_text_is_padded_on_the_left() {
    assert_eq!(pad_left("7", 6), format!("{:>6}", 7));
    assert_eq!(pad_left("1234567", 6), format!("{:>6}", 1234567));
    assert_eq!(pad_left("", 2), "  ");
}

#[test]
fn a_long_text_is_cut_with_a_mark() {
    assert_eq!(truncate("hello".to_string(), 5), "hello");
    assert_eq!(truncate("hello".to_string(), 3), "hel\n... [truncated]");
    assert_eq!(truncate("hello".to_string(), 0), "\n... [truncated]");
    assert_eq!(truncate("h\u{e9}llo".to_string(), 3), "h\u{e9}\n... [truncated]");
}

#[test]
fn a_long_text_is_elided_by_characters() {
    assert_eq!(elide("short", 160), "short");
    assert_eq!(elide("12345", 5), "12345");
    assert_eq!(elide("123456", 5), "12345... [6 bytes]");
    assert_eq!(elide("\u{e9}\u{e9}\u{e9}", 2), "\u{e9}\u{e9}... [6 bytes]");
}

#[test]
fn texts_are_compared_as_they_are() {
    assert!(same_text("a\u{e9}", "a\u{e9}"));
    assert!(!same_text("a", "A"));
    assert!(!same_text("a", "ab"));
}
