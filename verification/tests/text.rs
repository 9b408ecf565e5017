use rag_search::text::{is_whitespace, push_decimal, split_lines, split_whitespace};

#[test]
fn split_whitespace_drops_empty_pieces() {
    let words = split_whitespace("  alpha\tbeta\n\n gamma  ");
    assert_eq!(words, vec!["alpha".to_string(), "beta".to_string(), "gamma".to_string()]);
}

#[test]
fn split_whitespace_of_blank_text_is_empty() {
    assert!(split_whitespace("").is_empty());
    assert!(split_whitespace(" \t\r\n").is_empty());
}

#[test]
fn split_whitespace_knows_unicode_spaces() {
    let words = split_whitespace("a\u{3000}b\u{a0}c\u{2003}d");
    assert_eq!(words, vec!["a".to_string(), "b".to_string(), "c".to_string(), "d".to_string()]);
}

#[test]
fn whitespace_matches_std() {
    for code in 0u32..0x3100 {
        if let Some(c) = char::from_u32(code) {
            assert_eq!(is_whitespace(c), c.is_whitespace(), "code point {code:#x}");
        }
    }
}

#[test]
fn split_lines_matches_std() {
    let cases = ["", "one", "one\n", "one\ntwo", "one\r\ntwo\r\n", "a\n\nb", "trailing\r", "\n", "x\ry\n"];
    for case in cases {
        let expected: Vec<String> = case.lines().map(|l| l.to_string()).collect();
        assert_eq!(split_lines(case), expected, "case {case:?}");
    }
}

#[test]
fn decimal_matches_to_string() {
    for n in [0i64, 7, 10, 42, -1, -1000, i64::MAX, i64::MIN] {
        let mut s = String::new();
        push_decimal(&mut s, n);
        assert_eq!(s, n.to_string());
    }
}
