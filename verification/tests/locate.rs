use mdbook_godbolt::scan::{locate_code_blocks, CodeBlockSpan, FencedBlock, MarkdownEvent};

fn fence(start: usize, end: usize, info: &str) -> MarkdownEvent {
    MarkdownEvent { start, end, fence_info: Some(info.to_string()) }
}

fn other(start: usize, end: usize) -> MarkdownEvent {
    MarkdownEvent { start, end, fence_info: None }
}

fn block(start: usize, end: usize, info: &str) -> FencedBlock {
    FencedBlock { span: CodeBlockSpan { start, end }, info_string: info.to_string() }
}

#[test]
fn fence_events_become_blocks_in_order() {
    let content = "0123456789012345678901234567890123456789";
    let events = vec![
        other(0, 5),
        fence(5, 12, "rust"),
        other(6, 11),
        other(5, 12),
        fence(20, 30, "cpp,godbolt"),
        other(30, 40),
    ];
    assert_eq!(
        locate_code_blocks(content, &events),
        vec![block(5, 12, "rust"), block(20, 30, "cpp,godbolt")]
    );
}

#[test]
fn no_fence_event_no_block() {
    assert_eq!(locate_code_blocks("some text", &vec![other(0, 9), other(0, 4)]), vec![]);
    assert_eq!(locate_code_blocks("", &vec![]), vec![]);
}

#[test]
fn span_beyond_the_text_is_passed_over() {
    let events = vec![fence(0, 11, "rust"), fence(12, 12, "rust"), fence(2, 10, "ok")];
    assert_eq!(locate_code_blocks("0123456789", &events), vec![block(2, 10, "ok")]);
}

#[test]
fn empty_or_reversed_span_is_passed_over() {
    let events = vec![fence(3, 3, "rust"), fence(6, 4, "rust"), fence(6, 7, "ok")];
    assert_eq!(locate_code_blocks("0123456789", &events), vec![block(6, 7, "ok")]);
}

#[test]
fn span_that_reaches_into_the_block_before_is_passed_over() {
    let events = vec![fence(0, 5, "a"), fence(4, 8, "b"), fence(5, 8, "c"), fence(1, 2, "d")];
    assert_eq!(
        locate_code_blocks("0123456789", &events),
        vec![block(0, 5, "a"), block(5, 8, "c")]
    );
}

#[test]
fn span_that_cuts_a_character_is_passed_over() {
    let content = "aé日b";
    let events = vec![fence(0, 2, "x"), fence(2, 3, "y"), fence(1, 3, "z"), fence(3, 6, "w")];
    assert_eq!(
        locate_code_blocks(content, &events),
        vec![block(1, 3, "z"), block(3, 6, "w")]
    );
}
