use tei_viewer::text::{
    is_ascii_digit, is_whitespace, normalize_whitespace, parse_u32, push_decimal, push_text,
    strip_leading, to_chars,
};

#[test]
fn whitespace_is_what_std_calls_whitespace() {
    for code in 0..=0x10FFFFu32 {
        if let Some(c) = char::from_u32(code) {
            assert_eq!(is_whitespace(c), c.is_whitespace(), "U+{:04X}", code);
        }
    }
}

#[test]
fn digits_are_the_ascii_digits() {
    for code in 0..=0x10FFFFu32 {
        if let Some(c) = char::from_u32(code) {
            assert_eq!(is_ascii_digit(c), c.is_ascii_digit(), "U+{:04X}", code);
        }
    }
}

#[test]
fn normalization_collapses_runs_and_keeps_boundaries() {
    assert_eq!(normalize_whitespace("  hello   world  "), " hello world ");
    assert_eq!(normalize_whitespace("   "), " ");
    assert_eq!(normalize_whitespace(""), "");
    assert_eq!(normalize_whitespace("hello"), "hello");
    assert_eq!(normalize_whitespace("hello world"), "hello world");
    assert_eq!(normalize_whitespace("a\n\t b"), "a b");
    assert_eq!(normalize_whitespace("\na"), " a");
    assert_eq!(normalize_whitespace("a\r\n"), "a ");
    assert_eq!(normalize_whitespace(" "), " ");
    assert_eq!(normalize_whitespace("\u{a0}x\u{2003}\u{3000}y"), " x y");
    assert_eq!(normalize_whitespace("  \u{3b1}\u{3b2}  \u{3b3} "), " \u{3b1}\u{3b2} \u{3b3} ");
}

fn reference_normalization(s: &str) -> String {
    let has_leading = s.chars().next().map(|c| c.is_whitespace()).unwrap_or(false);
    let has_trailing = s.chars().rev().next().map(|c| c.is_whitespace()).unwrap_or(false);
    let inner = s.split_whitespace().collect::<Vec<_>>().join(" ");
    if inner.is_empty() {
        if has_leading || has_trailing {
            return " ".to_string();
        } else {
            return String::new();
        }
    }
    let mut res = String::new();
    if has_leading {
        res.push(' ');
    }
    res.push_str(&inner);
    if has_trailing {
        res.push(' ');
    }
    res
}

fn all_texts(alphabet: &[char], max_len: usize) -> Vec<String> {
    let mut texts = vec![String::new()];
    let mut start = 0;
    for _ in 0..max_len {
        let end = texts.len();
        for i in start..end {
            for c in alphabet {
                let mut t = texts[i].clone();
                t.push(*c);
                texts.push(t);
            }
        }
        start = end;
    }
    texts
}

#[test]
fn normalization_is_join_of_words_with_boundary_spaces() {
    for text in all_texts(&['a', 'b', ' ', '\n', '\u{2003}'], 6) {
        assert_eq!(normalize_whitespace(&text), reference_normalization(&text), "{:?}", text);
    }
}

#[test]
fn normalization_is_idempotent() {
    for text in all_texts(&['a', ' ', '\t'], 8) {
        let once = normalize_whitespace(&text);
        assert_eq!(normalize_whitespace(&once), once, "{:?}", text);
    }
    let once = normalize_whitespace("  hello   world  ");
    assert_eq!(normalize_whitespace(&once), " hello world ");
}

#[test]
fn parse_u32_reads_what_std_reads() {
    let samples = [
        "", "0", "7", "42", "007", "+5", "+", "-5", "-0", " 5", "5 ", "5a", "a5", "4294967295",
        "4294967296", "+4294967295", "99999999999999999999999999", "0000000000000000000000001",
        "1_000", "1.0", "1e3", "0x10", "\u{663}", "++1", "+-1", "12345678",
    ];
    for text in samples {
        assert_eq!(parse_u32(text), text.parse::<u32>().ok(), "{:?}", text);
    }
    assert_eq!(parse_u32("42"), Some(42));
    assert_eq!(parse_u32("4294967295"), Some(u32::MAX));
    assert_eq!(parse_u32("4294967296"), None);
    assert_eq!(parse_u32(""), None);
    assert_eq!(parse_u32("-1"), None);
}

#[test]
fn decimal_notation_is_what_std_writes() {
    let samples: [u128; 12] =
        [0, 1, 9, 10, 11, 99, 100, 101, 12345, 4294967295, 18446744073709551616, u128::MAX];
    for n in samples {
        let mut out = String::from(">");
        push_decimal(&mut out, n);
        assert_eq!(out, format!(">{}", n));
    }
}

#[test]
fn push_text_appends() {
    let mut out = String::from("ab");
    push_text(&mut out, "");
    assert_eq!(out, "ab");
    push_text(&mut out, "c\u{e9}");
    assert_eq!(out, "abc\u{e9}");
}

#[test]
fn to_chars_lists_the_characters() {
    assert_eq!(to_chars(""), Vec::<char>::new());
    assert_eq!(to_chars("a\u{3b2}c"), vec!['a', '\u{3b2}', 'c']);
}

#[test]
fn strip_leading_removes_the_whole_leading_run() {
    assert_eq!(strip_leading("#z1", '#'), "z1");
    assert_eq!(strip_leading("##z#1", '#'), "z#1");
    assert_eq!(strip_leading("z1", '#'), "z1");
    assert_eq!(strip_leading("###", '#'), "");
    assert_eq!(strip_leading("", '#'), "");
    for text in all_texts(&['#', 'a', '/'], 5) {
        assert_eq!(strip_leading(&text, '#'), text.trim_start_matches('#'), "{:?}", text);
    }
}
