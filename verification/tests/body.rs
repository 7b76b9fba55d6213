use mdbook_godbolt::body::{
    body_end_index, body_start_index, extract_body, strip_godbolt_from_codeblock,
};

#[test]
fn body_starts_after_first_line_break() {
    assert_eq!(body_start_index("```rust,godbolt\nfn main() {}\n```"), 16);
    assert_eq!(body_start_index("a\nb\nc"), 2);
}

#[test]
fn body_start_is_zero_without_line_break() {
    assert_eq!(body_start_index("```rust,godbolt"), 0);
    assert_eq!(body_start_index(""), 0);
}

#[test]
fn body_start_is_zero_when_nothing_follows_the_line_break() {
    assert_eq!(body_start_index("```rust\n"), 0);
    assert_eq!(body_start_index("\n"), 0);
}

#[test]
fn body_end_drops_closing_fence_then_white_space() {
    assert_eq!(body_end_index("```rust\nfn main() {}\n```"), 20);
    assert_eq!(body_end_index("~~~rust\nfn main() {}  \n\n~~~~~"), 20);
}

#[test]
fn body_end_keeps_a_fence_that_white_space_follows() {
    assert_eq!(body_end_index("```rust\ncode\n```  \n"), 16);
}

#[test]
fn body_end_strips_nothing_without_a_fence_symbol() {
    assert_eq!(body_end_index("abca"), 4);
    assert_eq!(body_end_index("abc \t\n"), 3);
}

#[test]
fn body_is_cut_between_opening_line_and_closing_fence() {
    assert_eq!(extract_body("```rust,godbolt\nfn main() {}\n```"), "fn main() {}");
    assert_eq!(extract_body("~~~cpp\nint main(){}\n\n~~~"), "int main(){}");
    assert_eq!(extract_body("````md\n```\ninner\n```\n````"), "```\ninner\n```");
}

#[test]
fn body_of_an_empty_block_is_empty() {
    assert_eq!(extract_body("```rust,godbolt\n```"), "");
    assert_eq!(extract_body("```"), "");
    assert_eq!(extract_body(""), "");
}

#[test]
fn body_of_a_block_without_closing_fence_runs_to_the_end() {
    assert_eq!(extract_body("```rust\nlet x = 1;\nlet y = 2;\n"), "let x = 1;\nlet y = 2;");
}

#[test]
fn body_loses_white_space_beyond_ascii() {
    let block = "```\ncode\u{a0}\u{85}\u{1680}\u{2000}\u{200a}\u{2028}\u{2029}\u{202f}\u{205f}\u{3000} \n```";
    assert_eq!(extract_body(block), "code");
}

#[test]
fn body_keeps_characters_that_only_look_like_white_space() {
    let block = "```\ncode\u{200b}\n```";
    assert_eq!(extract_body(block), "code\u{200b}");
    let block = "```\ncodé\u{2060}\n```";
    assert_eq!(extract_body(block), "codé\u{2060}");
}

#[test]
fn body_end_agrees_with_trimming_of_the_text() {
    let samples = [
        "x \u{a0}",
        "x\u{3000}\u{2003}\n",
        "é\u{85}",
        "\u{2028}",
        "x\u{200b} ",
        "日本\u{2009}\t",
        "",
        "   ",
    ];
    for sample in samples {
        assert_eq!(body_end_index(sample), sample.trim_end().len(), "{:?}", sample);
    }
}

#[test]
fn plain_block_has_the_language_alone() {
    assert_eq!(
        strip_godbolt_from_codeblock("```rust,godbolt\nfn main() {}\n```", "rust"),
        "```rust\nfn main() {}"
    );
    assert_eq!(
        strip_godbolt_from_codeblock("~~~cpp,godbolt-flags:-O2\nint main(){}\n~~~", "cpp"),
        "```cpp\nint main(){}"
    );
}

#[test]
fn plain_block_of_an_empty_body_is_the_opening_line() {
    assert_eq!(strip_godbolt_from_codeblock("```rust,godbolt\n```", "rust"), "```rust");
    assert_eq!(strip_godbolt_from_codeblock("", ""), "```");
}
