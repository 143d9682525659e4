use riddle::text::{char_is_space, contains, same, starts_with, strip_prefix_ci, trim};

#[test]
fn white_space_is_that_of_unicode() {
    for n in 0..=0x10FFFFu32 {
        if let Some(c) = char::from_u32(n) {
            assert_eq!(char_is_space(c), c.is_whitespace(), "{n:x}");
        }
    }
}

#[test]
fn trimming_takes_both_ends() {
    for s in ["", " ", "a", " a ", "\u{3000}a b\u{2003}\n", "\u{200b}x"] {
        assert_eq!(trim(s), s.trim());
    }
}

#[test]
fn searching_agrees_with_the_eye() {
    for s in ["", "a", "ab", "aab", "no oracle", "\u{e9}t\u{e9}"] {
        for p in ["", "a", "ab", "b", "oracle", "\u{e9}", "aabb"] {
            assert_eq!(starts_with(s, p), s.starts_with(p), "{s} {p}");
            assert_eq!(contains(s, p), s.contains(p), "{s} {p}");
            assert_eq!(same(s, p), s == p, "{s} {p}");
        }
    }
}

#[test]
fn prefixes_are_stripped_in_any_case() {
    assert_eq!(strip_prefix_ci("DrAw: 1", "draw"), Some(": 1"));
    assert_eq!(strip_prefix_ci("draw", "DRAW"), Some(""));
    assert_eq!(strip_prefix_ci("dra", "draw"), None);
    assert_eq!(strip_prefix_ci("drew", "draw"), None);
    assert_eq!(strip_prefix_ci("dra\u{20ac}", "draw"), None);
    assert_eq!(strip_prefix_ci("[raw", "{raw"), None);
    assert_eq!(strip_prefix_ci("\u{c9}x", "\u{e9}"), None);
    assert_eq!(strip_prefix_ci("x", ""), Some("x"));
}
