use lazyinstall::text::{joined, decimal_string, same_text, trim_str};

#[test]
fn decimals_are_written_like_format() {
    for n in [0usize, 7, 10, 99, 100, 12345, usize::MAX] {
        assert_eq!(decimal_string(n), n.to_string());
    }
}

#[test]
fn trimming_removes_unicode_whitespace() {
    assert_eq!(trim_str(" \t a b \u{3000}\n"), "a b");
    assert_eq!(trim_str("   "), "");
    for s in ["\u{a0}x\u{2028}", "\u{85} y", "z"] {
        assert_eq!(trim_str(s), s.trim());
    }
}

#[test]
fn texts_compare_and_join() {
    assert!(same_text("é", "é"));
    assert!(!same_text("a", "b"));
    assert!(!same_text("a", "ab"));
    assert_eq!(joined("ab", "cd"), "abcd");
}
