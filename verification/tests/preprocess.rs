use mdbook_godbolt::preprocess::{collect_patches, preprocess, rewrite_blocks};
use mdbook_godbolt::render::RenderFailure;
use mdbook_godbolt::scan::{locate_code_blocks, MarkdownEvent};
use mdbook_godbolt::PatchEntry;

#[test]
fn chapter_without_fenced_block_is_unchanged() {
    let content = "# Title\n\nSome *text* with `inline code`.\n\n    indented code\n\n- a list\n";
    assert_eq!(preprocess(content), Ok(content.to_string()));
    assert_eq!(preprocess(""), Ok(String::new()));
}

#[test]
fn fenced_block_without_marker_is_unchanged() {
    let content = "before\n\n```rust\nfn main() {}\n```\n\n~~~cpp,editable\nint x;\n~~~\n\nafter\n";
    assert_eq!(preprocess(content), Ok(content.to_string()));
}

#[test]
fn marker_with_empty_language_is_unchanged() {
    let content = "```,godbolt\nfn main() {}\n```\n";
    assert_eq!(preprocess(content), Ok(content.to_string()));
}

#[test]
fn annotated_block_gives_way_to_its_fragment() {
    let content = "# T\n\n```rust,godbolt\nfn main() {}\n```\n\nafter\n";
    assert_eq!(
        preprocess(content),
        Ok("# T\n\n<pre><pre class=\"godbolt\"><code class=\"language-rust\">fn main() {}</code></pre></pre>\n\nafter\n".to_string())
    );
}

#[test]
fn qualifiers_become_attributes_compiler_first() {
    let content = "```cpp,godbolt-compiler:g122,godbolt-flags:-O2\nint main(){}\n```\n";
    let out = preprocess(content).unwrap();
    assert_eq!(
        out,
        "<pre><pre class=\"godbolt\" data-godbolt-compiler=\"g122\" data-godbolt-flags=\"-O2\"><code class=\"language-cpp\">int main(){}</code></pre></pre>\n"
    );
    let compiler = out.find("data-godbolt-compiler=\"g122\"").unwrap();
    let flags = out.find("data-godbolt-flags=\"-O2\"").unwrap();
    assert!(compiler < flags);
}

#[test]
fn only_annotated_blocks_are_rewritten() {
    let content = "é日本\n\n```rust\nlet a = 1;\n```\n\ntext →\n\n```rust,godbolt\nlet b = 2;\n```\n\n```c\nint c;\n```\n";
    assert_eq!(
        preprocess(content),
        Ok("é日本\n\n```rust\nlet a = 1;\n```\n\ntext →\n\n<pre><pre class=\"godbolt\"><code class=\"language-rust\">let b = 2;</code></pre></pre>\n\n```c\nint c;\n```\n".to_string())
    );
}

#[test]
fn every_annotated_block_is_rewritten() {
    let content = "```rust,godbolt\na\n```\nmid\n~~~c,godbolt-flags:-g\nb\n~~~\nend";
    assert_eq!(
        preprocess(content),
        Ok("<pre><pre class=\"godbolt\"><code class=\"language-rust\">a</code></pre></pre>\nmid\n<pre><pre class=\"godbolt\" data-godbolt-flags=\"-g\"><code class=\"language-c\">b</code></pre></pre>\nend".to_string())
    );
}

#[test]
fn block_without_closing_fence_is_rewritten_to_the_end() {
    let content = "intro\n\n```rust,godbolt\nfn main() {}\n";
    assert_eq!(
        preprocess(content),
        Ok("intro\n\n<pre><pre class=\"godbolt\"><code class=\"language-rust\">fn main() {}</code></pre></pre>".to_string())
    );
}

#[test]
fn block_that_renders_to_no_code_element_fails_the_chapter() {
    let content = "fine\n\n~~~a`b,godbolt\ncode\n~~~\n\n```rust,godbolt\nx\n```\n";
    assert_eq!(preprocess(content), Err(RenderFailure::MissingCodeOpen));
}

#[test]
fn second_run_changes_nothing() {
    let content = "# T\n\n```rust,godbolt\nfn main() {\n\n    let s = \"```\";\n}\n```\n\n```cpp,godbolt-compiler:g122\nint main(){}\n```\n\ntext\n";
    let once = preprocess(content).unwrap();
    assert_ne!(once, content);
    assert_eq!(preprocess(&once), Ok(once.clone()));
}

#[test]
fn given_events_decide_what_is_rewritten() {
    let content = "```rust,godbolt\na\n```\n```rust,godbolt\nb\n```\n";
    let second_only = vec![
        MarkdownEvent { start: 0, end: 21, fence_info: None },
        MarkdownEvent { start: 22, end: 43, fence_info: Some("rust,godbolt".to_string()) },
    ];
    assert_eq!(
        rewrite_blocks(content, &second_only),
        Ok("```rust,godbolt\na\n```\n<pre><pre class=\"godbolt\"><code class=\"language-rust\">b</code></pre></pre>\n".to_string())
    );
    assert_eq!(rewrite_blocks(content, &vec![]), Ok(content.to_string()));
}

#[test]
fn info_string_of_the_event_decides_not_the_text() {
    let content = "```rust\na\n```\n";
    let events = vec![MarkdownEvent {
        start: 0,
        end: 13,
        fence_info: Some("c,godbolt-flags:-O1".to_string()),
    }];
    assert_eq!(
        rewrite_blocks(content, &events),
        Ok("<pre><pre class=\"godbolt\" data-godbolt-flags=\"-O1\"><code class=\"language-c\">a</code></pre></pre>\n".to_string())
    );
}

#[test]
fn malformed_span_is_left_alone() {
    let content = "```rust,godbolt\na\n```\n";
    let events = vec![MarkdownEvent {
        start: 0,
        end: 400,
        fence_info: Some("rust,godbolt".to_string()),
    }];
    assert_eq!(rewrite_blocks(content, &events), Ok(content.to_string()));
}

#[test]
fn edits_are_collected_in_block_order() {
    let content = "```rust,godbolt\na\n```\n```rust\nb\n```\n```c,godbolt\nc\n```";
    let events = vec![
        MarkdownEvent { start: 0, end: 21, fence_info: Some("rust,godbolt".to_string()) },
        MarkdownEvent { start: 22, end: 35, fence_info: Some("rust".to_string()) },
        MarkdownEvent { start: 36, end: 54, fence_info: Some("c,godbolt".to_string()) },
    ];
    let blocks = locate_code_blocks(content, &events);
    assert_eq!(blocks.len(), 3);
    assert_eq!(
        collect_patches(content, &blocks),
        Ok(vec![
            PatchEntry {
                start: 0,
                end: 21,
                replacement: "<pre><pre class=\"godbolt\"><code class=\"language-rust\">a</code></pre></pre>".to_string()
            },
            PatchEntry {
                start: 36,
                end: 54,
                replacement: "<pre><pre class=\"godbolt\"><code class=\"language-c\">c</code></pre></pre>".to_string()
            },
        ])
    );
}
