use riddle::memory::{build_ctx, parse_number, Context, CATALOG, USUAL_TURNS};

#[test]
fn numbers_read_as_usual() {
    for s in [
        "", "0", "6", "007", "+7", "-1", "+", "1 ", " 1", "1.5", "12a", "++1", "18446744073709551615",
        "18446744073709551616", "99999999999999999999999", "\u{661}",
    ] {
        assert_eq!(parse_number(s), s.parse::<usize>().ok(), "{s:?}");
    }
}

#[test]
fn context_holds_the_turns_that_are_set() {
    assert_eq!(build_ctx(true, Some("12")), Some(Context { turns: 12, pages: CATALOG }));
    assert_eq!(build_ctx(true, Some("0")), Some(Context { turns: 0, pages: 40 }));
    assert_eq!(build_ctx(true, Some("many")), Some(Context { turns: USUAL_TURNS, pages: 40 }));
    assert_eq!(build_ctx(true, None), Some(Context { turns: 6, pages: 40 }));
}

#[test]
fn a_diary_without_memory_hands_over_nothing() {
    assert_eq!(build_ctx(false, Some("12")), None);
    assert_eq!(build_ctx(false, None), None);
}
