use mdbook_godbolt::text::{
    find, matches_at, push_text, same_text, slice_text, strip_run_len, trim_end_len,
};

#[test]
fn pattern_is_found_at_its_first_place() {
    assert_eq!(find(b"abcabc", b"bc", 0), Some(1));
    assert_eq!(find(b"abcabc", b"bc", 1), Some(1));
    assert_eq!(find(b"abcabc", b"bc", 2), Some(4));
    assert_eq!(find(b"abcabc", b"bc", 5), None);
    assert_eq!(find(b"abcabc", b"abcabc", 0), Some(0));
}

#[test]
fn pattern_that_is_absent_is_not_found() {
    assert_eq!(find(b"abcabc", b"cb", 0), None);
    assert_eq!(find(b"abc", b"abcd", 0), None);
    assert_eq!(find(b"", b"a", 0), None);
    assert_eq!(find(b"abc", b"a", 7), None);
}

#[test]
fn empty_pattern_is_found_where_the_search_starts() {
    assert_eq!(find(b"abc", b"", 0), Some(0));
    assert_eq!(find(b"abc", b"", 3), Some(3));
    assert_eq!(find(b"abc", b"", 4), None);
    assert_eq!(find(b"", b"", 0), Some(0));
}

#[test]
fn pattern_is_matched_in_place() {
    assert!(matches_at(b"hello", b"ell", 1));
    assert!(matches_at(b"hello", b"", 5));
    assert!(!matches_at(b"hello", b"ell", 0));
    assert!(!matches_at(b"hello", b"lo!", 3));
    assert!(!matches_at(b"hello", b"", 6));
}

#[test]
fn texts_are_compared() {
    assert!(same_text("html", "html"));
    assert!(same_text("", ""));
    assert!(!same_text("html", "HTML"));
    assert!(!same_text("html", "htm"));
    assert!(!same_text("é", "e"));
}

#[test]
fn text_is_cut_between_boundaries() {
    assert_eq!(slice_text("aé日b", 1, 6), "é日");
    assert_eq!(slice_text("aé日b", 0, 0), "");
    assert_eq!(slice_text("aé日b", 7, 7), "");
    assert_eq!(slice_text("aé日b", 0, 7), "aé日b");
}

#[test]
fn text_is_appended() {
    let mut out = String::from("a→");
    push_text(&mut out, "日b");
    push_text(&mut out, "");
    assert_eq!(out, "a→日b");
}

#[test]
fn white_space_at_the_end_is_measured() {
    assert_eq!(trim_end_len(b"ab \t\r\n\x0b\x0c", 8), 2);
    assert_eq!(trim_end_len(b"ab \t\r\n\x0b\x0c", 3), 2);
    assert_eq!(trim_end_len(b"ab  c", 5), 5);
    assert_eq!(trim_end_len(b"ab  c", 4), 2);
    assert_eq!(trim_end_len(b"   ", 3), 0);
    assert_eq!(trim_end_len(b"", 0), 0);
    assert_eq!(trim_end_len("x\u{a0}\u{3000}".as_bytes(), 6), 1);
    assert_eq!(trim_end_len("x\u{1c}".as_bytes(), 2), 2);
}

#[test]
fn run_at_the_end_is_measured() {
    assert_eq!(strip_run_len(b"code```", 7, b'`'), 4);
    assert_eq!(strip_run_len(b"code```", 6, b'`'), 4);
    assert_eq!(strip_run_len(b"code```", 7, b'~'), 7);
    assert_eq!(strip_run_len(b"````", 4, b'`'), 0);
    assert_eq!(strip_run_len(b"", 0, b'`'), 0);
}
