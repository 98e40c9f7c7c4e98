use bitter_dotcom_generator::text;

const SAMPLES: [&str; 14] = [
    "",
    "\n",
    "a",
    "a\n",
    "a\nb",
    "a\r\nb\r\n",
    "\r\n",
    "a\r",
    "a\rb\n\nc",
    "  x \t\n  y  ",
    "\u{3000}wide\u{2003}",
    "é\n€\n",
    "\n\n\n",
    "\r\r\n",
];

#[test]
fn white_space_as_unicode_has_it() {
    for n in 0..=0x10ffffu32 {
        if let Some(c) = char::from_u32(n) {
            assert_eq!(text::white_space(c), c.is_whitespace());
        }
    }
}

#[test]
fn lines_as_std_splits_them() {
    for s in SAMPLES {
        let expected: Vec<String> = s.lines().map(String::from).collect();
        assert_eq!(text::lines(s), expected);
    }
}

#[test]
fn trim_as_std_does() {
    for s in SAMPLES {
        assert_eq!(text::trim(s), s.trim());
    }
}

#[test]
fn search_as_std_does() {
    for (t, part) in [
        ("", ""),
        ("abc", ""),
        ("", "a"),
        ("abcabd", "abd"),
        ("aaab", "aab"),
        ("abc", "abcd"),
        ("x[permanent] y", "[permanent]"),
        ("[perm]anent]", "[permanent]"),
    ] {
        assert_eq!(text::contains_text(t, part), t.contains(part));
    }
}

#[test]
fn slashes_are_trimmed_at_the_end_only() {
    assert_eq!(text::trim_slashes("http://x/v1//"), "http://x/v1");
    assert_eq!(text::trim_slashes("///"), "");
    assert_eq!(text::trim_slashes("/a"), "/a");
}

#[test]
fn joins_with_line_feeds() {
    let list: Vec<String> = vec!["a".into(), "".into(), "c".into()];
    assert_eq!(text::join_lines(&list), "a\n\nc");
    assert_eq!(text::join_lines(&[]), "");
}

#[test]
fn number_formats() {
    for n in [0u64, 1, 0xabc, 0xcbf2_9ce4_8422_2325, u64::MAX] {
        assert_eq!(text::hex16(n), format!("{n:016x}"));
    }
    for n in [0usize, 9, 10, 105, 99_999, usize::MAX] {
        assert_eq!(text::decimal(n), format!("{n}"));
    }
}

#[test]
fn compares_texts() {
    assert!(text::same_text("é€", "é€"));
    assert!(!text::same_text("a", "ab"));
    assert!(text::same_bytes(b"", b""));
}
