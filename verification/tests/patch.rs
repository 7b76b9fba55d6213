use mdbook_godbolt::patch::{apply_patches, PatchEntry};

fn patch(start: usize, end: usize, replacement: &str) -> PatchEntry {
    PatchEntry { start, end, replacement: replacement.to_string() }
}

#[test]
fn no_patch_leaves_the_text() {
    assert_eq!(apply_patches("hello world", &vec![]), "hello world");
    assert_eq!(apply_patches("", &vec![]), "");
}

#[test]
fn one_span_is_replaced() {
    assert_eq!(apply_patches("hello world", &vec![patch(6, 11, "there")]), "hello there");
    assert_eq!(apply_patches("hello world", &vec![patch(0, 5, "")]), " world");
    assert_eq!(apply_patches("hello world", &vec![patch(0, 11, "x")]), "x");
}

#[test]
fn spans_are_replaced_whatever_the_lengths() {
    let patches = vec![patch(0, 1, "AAAA"), patch(2, 4, ""), patch(5, 6, "FF")];
    assert_eq!(apply_patches("abcdefg", &patches), "AAAAbeFFg");
}

#[test]
fn adjacent_spans_are_replaced() {
    let patches = vec![patch(1, 3, "X"), patch(3, 5, "YYY")];
    assert_eq!(apply_patches("abcdef", &patches), "aXYYYf");
}

#[test]
fn text_beyond_ascii_is_patched_by_byte_offsets() {
    let content = "é日本x";
    let patches = vec![patch(2, 5, "→"), patch(8, 9, "ü")];
    assert_eq!(apply_patches(content, &patches), "é→本ü");
}

#[test]
fn two_patches_give_the_stitched_text() {
    let content = "0123456789";
    let a = patch(2, 4, "aaaaa");
    let b = patch(6, 9, "b");
    let expected = format!("{}{}{}{}{}", &content[..2], "aaaaa", &content[4..6], "b", &content[9..]);
    assert_eq!(apply_patches(content, &vec![a.clone(), b.clone()]), expected);
    let later_first = apply_patches(content, &vec![b.clone()]);
    assert_eq!(apply_patches(&later_first, &vec![a.clone()]), expected);
    let earlier_first = apply_patches(content, &vec![a]);
    let moved = patch(6 + 3, 9 + 3, "b");
    assert_eq!(apply_patches(&earlier_first, &vec![moved]), expected);
}

#[test]
fn order_of_the_list_plays_no_part() {
    let content = "0123456789";
    let a = patch(2, 4, "aaaaa");
    let b = patch(6, 9, "b");
    let found_in_order = apply_patches(content, &vec![a.clone(), b.clone()]);
    let found_in_reverse = apply_patches(content, &vec![b, a]);
    assert_eq!(found_in_order, "01aaaaa45b9");
    assert_eq!(found_in_reverse, "01aaaaa45b9");
}

#[test]
fn three_patches_in_any_order_give_one_text() {
    let content = "abcdefghij";
    let p = patch(0, 2, "X");
    let q = patch(3, 3, "--");
    let r = patch(7, 10, "");
    let expected = "Xc--defg";
    let orders = [[0, 1, 2], [0, 2, 1], [1, 0, 2], [1, 2, 0], [2, 0, 1], [2, 1, 0]];
    let all = [p, q, r];
    for order in orders {
        let list = vec![all[order[0]].clone(), all[order[1]].clone(), all[order[2]].clone()];
        assert_eq!(apply_patches(content, &list), expected);
    }
}
