use mdbook_godbolt::info::{parse_info_str, ParsedMeta};

fn meta(language: &str, compiler: Option<&str>, flags: Option<&str>) -> Option<ParsedMeta> {
    Some(ParsedMeta {
        language: language.to_string(),
        compiler: compiler.map(|v| v.to_string()),
        flags: flags.map(|v| v.to_string()),
    })
}

#[test]
fn bare_marker_gives_language_only() {
    assert_eq!(parse_info_str("rust,godbolt"), meta("rust", None, None));
}

#[test]
fn compiler_and_flags_are_read() {
    assert_eq!(
        parse_info_str("cpp,godbolt-compiler:g122,godbolt-flags:-O2"),
        meta("cpp", Some("g122"), Some("-O2"))
    );
}

#[test]
fn flags_before_compiler_are_read_too() {
    assert_eq!(
        parse_info_str("cpp,godbolt-flags:-O2,godbolt-compiler:g122"),
        meta("cpp", Some("g122"), Some("-O2"))
    );
}

#[test]
fn info_without_marker_is_no_annotation() {
    assert_eq!(parse_info_str("rust"), None);
    assert_eq!(parse_info_str("rust,editable"), None);
    assert_eq!(parse_info_str("rust,nogodbolt"), None);
    assert_eq!(parse_info_str(""), None);
}

#[test]
fn empty_language_is_no_annotation() {
    assert_eq!(parse_info_str(",godbolt"), None);
    assert_eq!(parse_info_str(",godbolt-compiler:g122"), None);
}

#[test]
fn marker_in_first_position_is_the_language() {
    assert_eq!(parse_info_str("godbolt"), None);
    assert_eq!(parse_info_str("godbolt,rust"), None);
    assert_eq!(parse_info_str("godbolt,godbolt"), meta("godbolt", None, None));
}

#[test]
fn marker_may_stand_in_any_later_position() {
    assert_eq!(parse_info_str("rust,editable,godbolt"), meta("rust", None, None));
    assert_eq!(
        parse_info_str("rust,editable,godbolt-flags:-g,ignore"),
        meta("rust", None, Some("-g"))
    );
}

#[test]
fn token_prefixed_by_marker_counts() {
    assert_eq!(parse_info_str("rust,godboltish"), meta("rust", None, None));
    assert_eq!(parse_info_str("rust,godbolt-other:1"), meta("rust", None, None));
}

#[test]
fn last_of_repeated_qualifiers_counts() {
    assert_eq!(
        parse_info_str("c,godbolt-compiler:a,godbolt-compiler:b,godbolt-flags:x,godbolt-flags:y"),
        meta("c", Some("b"), Some("y"))
    );
}

#[test]
fn values_are_taken_verbatim() {
    assert_eq!(
        parse_info_str("c,godbolt-flags:-O2 -Wall:\"x\"<>&"),
        meta("c", None, Some("-O2 -Wall:\"x\"<>&"))
    );
    assert_eq!(parse_info_str("c,godbolt-compiler:"), meta("c", Some(""), None));
}

#[test]
fn empty_tokens_are_passed_over() {
    assert_eq!(parse_info_str("rust,,godbolt,"), meta("rust", None, None));
}

#[test]
fn text_beyond_ascii_is_kept() {
    assert_eq!(
        parse_info_str("rüst,godbolt-compiler:gé→1,godbolt-flags:日本"),
        meta("rüst", Some("gé→1"), Some("日本"))
    );
}
