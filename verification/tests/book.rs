use mdbook_godbolt::render::RenderFailure;
use mdbook_godbolt::{Chapter, GodboltPreprocessor};

fn chapter(name: &str, content: &str, draft: bool) -> Chapter {
    Chapter { name: name.to_string(), content: content.to_string(), draft }
}

#[test]
fn preprocessor_is_named() {
    assert_eq!(GodboltPreprocessor::new().name(), "mdbook-godbolt");
}

#[test]
fn html_renderer_is_supported() {
    let pre = GodboltPreprocessor::new();
    assert!(pre.supports_renderer("html"));
    assert!(pre.supports_renderer("HTML"));
}

#[test]
fn other_renderers_are_not_supported() {
    let pre = GodboltPreprocessor::new();
    assert!(!pre.supports_renderer("Html"));
    assert!(!pre.supports_renderer("markdown"));
    assert!(!pre.supports_renderer("html "));
    assert!(!pre.supports_renderer("htm"));
    assert!(!pre.supports_renderer(""));
}

#[test]
fn chapters_are_rewritten_and_keep_their_place() {
    let book = vec![
        chapter("one", "```rust,godbolt\na\n```\n", false),
        chapter("two", "plain text\n", false),
        chapter("three", "```c,godbolt\nb\n```", false),
    ];
    assert_eq!(
        GodboltPreprocessor::new().run(book),
        Ok(vec![
            chapter(
                "one",
                "<pre><pre class=\"godbolt\"><code class=\"language-rust\">a</code></pre></pre>\n",
                false
            ),
            chapter("two", "plain text\n", false),
            chapter(
                "three",
                "<pre><pre class=\"godbolt\"><code class=\"language-c\">b</code></pre></pre>",
                false
            ),
        ])
    );
}

#[test]
fn draft_chapter_is_left_alone() {
    let annotated = "```rust,godbolt\nfn main() {}\n```\n";
    let failing = "~~~a`b,godbolt\ncode\n~~~\n";
    let book = vec![chapter("draft", annotated, true), chapter("worse", failing, true)];
    assert_eq!(GodboltPreprocessor::new().run(book.clone()), Ok(book));
}

#[test]
fn empty_book_stays_empty() {
    assert_eq!(GodboltPreprocessor::new().run(vec![]), Ok(vec![]));
}

#[test]
fn first_failing_chapter_fails_the_run() {
    let book = vec![
        chapter("fine", "```rust,godbolt\na\n```\n", false),
        chapter("bad", "~~~a`b,godbolt\ncode\n~~~\n", false),
        chapter("never", "```rust,godbolt\nb\n```\n", false),
    ];
    assert_eq!(GodboltPreprocessor::new().run(book), Err(RenderFailure::MissingCodeOpen));
}
