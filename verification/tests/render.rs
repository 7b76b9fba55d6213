use mdbook_godbolt::render::{extract_code_element, wrap_code_element, Godbolt, RenderFailure};

#[test]
fn code_element_is_cut_out() {
    assert_eq!(
        extract_code_element("<pre><code class=\"language-rust\">fn main() {}\n</code></pre>\n"),
        Ok("<code class=\"language-rust\">fn main() {}\n</code>")
    );
    assert_eq!(extract_code_element("<code></code>"), Ok("<code></code>"));
}

#[test]
fn first_code_element_is_taken() {
    assert_eq!(
        extract_code_element("a<code>1</code>b<code>2</code>c"),
        Ok("<code>1</code>")
    );
}

#[test]
fn closing_tag_before_the_opening_one_does_not_count() {
    assert_eq!(
        extract_code_element("</code>x<code>y</code>"),
        Ok("<code>y</code>")
    );
    assert_eq!(
        extract_code_element("</code>x<code>y"),
        Err(RenderFailure::MissingCodeClose)
    );
}

#[test]
fn missing_opening_tag_fails() {
    assert_eq!(extract_code_element("<p>text</p>"), Err(RenderFailure::MissingCodeOpen));
    assert_eq!(extract_code_element(""), Err(RenderFailure::MissingCodeOpen));
    assert_eq!(extract_code_element("x</code>"), Err(RenderFailure::MissingCodeOpen));
}

#[test]
fn missing_closing_tag_fails() {
    assert_eq!(extract_code_element("<pre><code>x</pre>"), Err(RenderFailure::MissingCodeClose));
    assert_eq!(extract_code_element("<code"), Err(RenderFailure::MissingCodeClose));
}

#[test]
fn code_element_beyond_ascii_is_cut_out() {
    assert_eq!(
        extract_code_element("é<code>日本</code>→"),
        Ok("<code>日本</code>")
    );
}

#[test]
fn fragment_without_qualifiers_has_no_attribute() {
    assert_eq!(
        wrap_code_element(&None, &None, "<code>fn main() {}</code>"),
        "<pre><pre class=\"godbolt\"><code>fn main() {}</code></pre></pre>"
    );
}

#[test]
fn fragment_carries_compiler_before_flags() {
    assert_eq!(
        wrap_code_element(
            &Some("g122".to_string()),
            &Some("-O2".to_string()),
            "<code>int main(){}</code>"
        ),
        "<pre><pre class=\"godbolt\" data-godbolt-compiler=\"g122\" data-godbolt-flags=\"-O2\"><code>int main(){}</code></pre></pre>"
    );
}

#[test]
fn fragment_carries_one_qualifier_alone() {
    assert_eq!(
        wrap_code_element(&Some("g122".to_string()), &None, "<code></code>"),
        "<pre><pre class=\"godbolt\" data-godbolt-compiler=\"g122\"><code></code></pre></pre>"
    );
    assert_eq!(
        wrap_code_element(&None, &Some("".to_string()), "<code></code>"),
        "<pre><pre class=\"godbolt\" data-godbolt-flags=\"\"><code></code></pre></pre>"
    );
}

#[test]
fn fragment_values_are_not_escaped() {
    assert_eq!(
        wrap_code_element(&None, &Some("-D\"x\"<&>".to_string()), "<code></code>"),
        "<pre><pre class=\"godbolt\" data-godbolt-flags=\"-D\"x\"<&>\"><code></code></pre></pre>"
    );
}

#[test]
fn annotated_block_is_prepared() {
    let godbolt = Godbolt::new(
        "cpp,godbolt-compiler:g122,godbolt-flags:-O2",
        "```cpp,godbolt-compiler:g122,godbolt-flags:-O2\nint main(){}\n```",
    )
    .unwrap();
    assert_eq!(godbolt.codeblock(), "```cpp\nint main(){}");
    assert_eq!(godbolt.compiler(), &Some("g122".to_string()));
    assert_eq!(godbolt.flags(), &Some("-O2".to_string()));
}

#[test]
fn block_without_annotation_is_not_prepared() {
    assert!(Godbolt::new("rust", "```rust\nfn main() {}\n```").is_none());
    assert!(Godbolt::new(",godbolt", "```,godbolt\nfn main() {}\n```").is_none());
}

#[test]
fn rendered_html_is_wrapped() {
    let godbolt = Godbolt::new("rust,godbolt-flags:-g", "```rust,godbolt-flags:-g\nx\n```").unwrap();
    assert_eq!(
        godbolt.wrap_rendered("<pre><code class=\"language-rust\">x\n</code></pre>\n"),
        Ok("<pre><pre class=\"godbolt\" data-godbolt-flags=\"-g\"><code class=\"language-rust\">x\n</code></pre></pre>".to_string())
    );
    assert_eq!(godbolt.wrap_rendered("<p>x</p>"), Err(RenderFailure::MissingCodeOpen));
    assert_eq!(godbolt.wrap_rendered("<code>x"), Err(RenderFailure::MissingCodeClose));
}

#[test]
fn block_is_rendered_and_wrapped() {
    let godbolt = Godbolt::new("rust,godbolt", "```rust,godbolt\nfn main() {}\n```").unwrap();
    let html = godbolt.add_godbolt_pre().unwrap();
    assert_eq!(
        html,
        "<pre><pre class=\"godbolt\"><code class=\"language-rust\">fn main() {}</code></pre></pre>"
    );
}

#[test]
fn rendered_code_is_escaped_by_the_renderer() {
    let godbolt = Godbolt::new("cpp,godbolt", "```cpp,godbolt\nif (a < b && c > d) {}\n```").unwrap();
    let html = godbolt.add_godbolt_pre().unwrap();
    assert_eq!(
        html,
        "<pre><pre class=\"godbolt\"><code class=\"language-cpp\">if (a &lt; b &amp;&amp; c &gt; d) {}</code></pre></pre>"
    );
}

#[test]
fn block_that_renders_to_no_code_element_fails() {
    let godbolt = Godbolt::new("a`b,godbolt", "~~~a`b,godbolt\ncode\n~~~").unwrap();
    assert_eq!(godbolt.codeblock(), "```a`b\ncode");
    assert_eq!(godbolt.add_godbolt_pre(), Err(RenderFailure::MissingCodeOpen));
}

#[test]
fn failures_are_told_in_words() {
    assert_eq!(
        RenderFailure::MissingCodeOpen.message(),
        "the rendered block holds no <code> element"
    );
    assert_eq!(
        RenderFailure::MissingCodeClose.message(),
        "the <code> element of the rendered block is not closed"
    );
}
