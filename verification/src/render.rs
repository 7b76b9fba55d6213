//! From an annotated block to its HTML fragment: the block is rendered, its
//! `<code>` element is cut out and wrapped with the annotation's attributes.

use vstd::prelude::*;
use vstd::string::*;
use vstd::utf8::*;
use crate::body::{plain_block, strip_godbolt_from_codeblock};
use crate::info::{optional_bytes, parse_info, parse_info_str, ParsedMeta};
use crate::text::{
    find, find_from, lemma_ascii_boundaries, lemma_find_from, occurs_at, push_text, slice_text,
};

verus! {

/// Why a rendered block could not be wrapped.
#[derive(Debug, Clone, Copy, PartialEq, Eq)]
pub enum RenderFailure {
    /// The rendered HTML holds no `<code` tag.
    MissingCodeOpen,
    /// No `</code>` follows the first `<code` tag.
    MissingCodeClose,
}

/// What a failure says to the reader of a diagnostic.
pub open spec fn failure_text(failure: RenderFailure) -> Seq<char> {
    match failure {
        RenderFailure::MissingCodeOpen => "the rendered block holds no <code> element"@,
        RenderFailure::MissingCodeClose => "the <code> element of the rendered block is not closed"@,
    }
}

impl RenderFailure {
    /// The failure in words.
    pub fn message(&self) -> (text: String)
        ensures
            text@ == failure_text(*self),
    {
        match self {
            RenderFailure::MissingCodeOpen => "the rendered block holds no <code> element".to_owned(),
            RenderFailure::MissingCodeClose => {
                "the <code> element of the rendered block is not closed".to_owned()
            },
        }
    }
}

/// The HTML that the renderer returns for a markdown text.
pub uninterp spec fn rendered_html(markdown: Seq<char>) -> Seq<char>;

/// The bytes of the HTML that the renderer returns for the markdown text
/// with the bytes `markdown`.
pub open spec fn rendered(markdown: Seq<u8>) -> Seq<u8> {
    encode_utf8(rendered_html(decode_utf8(markdown)))
}

/// The renderer takes a text whose length it can multiply by three.
pub open spec fn renderer_accepts(markdown: Seq<u8>) -> bool {
    3 * markdown.len() <= usize::MAX
}

/// Renders markdown to HTML with `mdbook::utils::render_markdown`, smart
/// punctuation off. The result is a function of the text alone, and nothing
/// more is claimed of it. The renderer sizes its output buffer at one and a
/// half times the length of the text, so a text too long for that product is
/// kept away from it.
#[verifier::external_body]
fn render_markdown(markdown: &str) -> (html: String)
    requires
        renderer_accepts(encode_utf8(markdown@)),
    ensures
        html@ == rendered_html(markdown@),
{
    mdbook::utils::render_markdown(markdown, false)
}

/// The tag that opens a code element, without its closing bracket: the
/// element may carry attributes.
pub open spec fn code_open() -> Seq<u8> {
    encode_utf8("<code"@)
}

/// The tag that closes a code element.
pub open spec fn code_close() -> Seq<u8> {
    encode_utf8("</code>"@)
}

/// The code element of `html`: from its first `<code` to the end of the first
/// `</code>` after that.
pub open spec fn code_element(html: Seq<u8>) -> Result<Seq<u8>, RenderFailure> {
    match find_from(html, code_open(), 0) {
        None => Err(RenderFailure::MissingCodeOpen),
        Some(open) => match find_from(html, code_close(), open + code_open().len()) {
            None => Err(RenderFailure::MissingCodeClose),
            Some(close) => Ok(html.subrange(open, close + code_close().len())),
        },
    }
}

/// A code element that is found stands in the HTML as it is, begins with the
/// opening tag and ends with the closing tag; before it there is no opening
/// tag, and inside it no other closing tag.
pub proof fn lemma_code_element(html: Seq<u8>)
    requires
        code_element(html) is Ok,
    ensures
        ({
            let element = code_element(html)->Ok_0;
            let open = find_from(html, code_open(), 0)->0;
            &&& occurs_at(html, element, open)
            &&& occurs_at(element, code_open(), 0)
            &&& occurs_at(element, code_close(), element.len() - code_close().len())
            &&& forall|i: int| 0 <= i < open ==> !occurs_at(html, code_open(), i)
            &&& forall|i: int|
                code_open().len() <= i < element.len() - code_close().len() ==> !occurs_at(
                    element,
                    code_close(),
                    i,
                )
        }),
{
    let open = find_from(html, code_open(), 0)->0;
    let from = open + code_open().len();
    let close = find_from(html, code_close(), from)->0;
    let element = code_element(html)->Ok_0;
    lemma_find_from(html, code_open(), 0);
    lemma_find_from(html, code_close(), from);
    assert(element.subrange(0, code_open().len() as int) =~= html.subrange(
        open,
        open + code_open().len(),
    ));
    assert(element.subrange(element.len() - code_close().len(), element.len() as int)
        =~= html.subrange(close, close + code_close().len()));
    assert forall|i: int| code_open().len() <= i < element.len() - code_close().len()
        implies !occurs_at(element, code_close(), i) by {
        assert(element.subrange(i, i + code_close().len()) =~= html.subrange(
            open + i,
            open + i + code_close().len(),
        ));
        assert(!occurs_at(html, code_close(), open + i));
    }
}

/// One attribute: its opening up to the first quote, the value as it is, and
/// the closing quote. No attribute at all where there is no value.
pub open spec fn attribute(opening: Seq<u8>, value: Option<Seq<u8>>) -> Seq<u8> {
    match value {
        Some(v) => opening + v + encode_utf8("\""@),
        None => Seq::empty(),
    }
}

/// The fragment that replaces an annotated block.
pub open spec fn godbolt_pre(
    compiler: Option<Seq<u8>>,
    flags: Option<Seq<u8>>,
    code: Seq<u8>,
) -> Seq<u8> {
    encode_utf8("<pre><pre class=\"godbolt\""@) + attribute(
        encode_utf8(" data-godbolt-compiler=\""@),
        compiler,
    ) + attribute(encode_utf8(" data-godbolt-flags=\""@), flags) + encode_utf8(">"@) + code
        + encode_utf8("</pre></pre>"@)
}

/// The bytes of a text, or the failure in its place.
pub open spec fn text_result(r: Result<String, RenderFailure>) -> Result<Seq<u8>, RenderFailure> {
    match r {
        Ok(text) => Ok(encode_utf8(text@)),
        Err(e) => Err(e),
    }
}

/// Cuts the code element out of rendered HTML.
pub fn extract_code_element<'a>(html: &'a str) -> (r: Result<&'a str, RenderFailure>)
    ensures
        match r {
            Ok(code) => code_element(encode_utf8(html@)) == Ok::<Seq<u8>, RenderFailure>(
                encode_utf8(code@),
            ),
            Err(e) => code_element(encode_utf8(html@)) == Err::<Seq<u8>, RenderFailure>(e),
        },
{
    let bytes = html.as_bytes();
    let len: usize = bytes.len();
    let opening = "<code".as_bytes();
    let closing = "</code>".as_bytes();
    proof {
        reveal_strlit("<code");
        reveal_strlit("</code>");
        is_ascii_chars_encode_utf8("<code"@);
        is_ascii_chars_encode_utf8("</code>"@);
        encode_utf8_valid_utf8(html@);
    }
    let open: usize = match find(bytes, opening, 0) {
        Some(i) => i,
        None => {
            return Err(RenderFailure::MissingCodeOpen);
        },
    };
    proof {
        lemma_find_from(bytes@, opening@, 0);
        assert(bytes@.subrange(open as int, open + 5)[0] == opening@[0]);
        lemma_ascii_boundaries(bytes@, open as int);
        assert(open + 5 <= len);
    }
    let close: usize = match find(bytes, closing, open + 5) {
        Some(i) => i,
        None => {
            return Err(RenderFailure::MissingCodeClose);
        },
    };
    proof {
        lemma_find_from(bytes@, closing@, open + 5);
        assert(bytes@.subrange(close as int, close + 7)[6] == closing@[6]);
        lemma_ascii_boundaries(bytes@, close + 6);
        assert(close + 7 <= len);
    }
    Ok(slice_text(html, open, close + 7))
}

/// Appends one attribute to `out`, if it has a value.
fn push_attribute(out: &mut String, opening: &str, value: &Option<String>)
    ensures
        encode_utf8(final(out)@) == encode_utf8(old(out)@) + attribute(
            encode_utf8(opening@),
            optional_bytes(*value),
        ),
{
    match value {
        Some(v) => {
            let ghost start = encode_utf8(out@);
            push_text(out, opening);
            push_text(out, v.as_str());
            push_text(out, "\"");
            assert(encode_utf8(out@) =~= start + (encode_utf8(opening@) + encode_utf8(v@)
                + encode_utf8("\""@)));
        },
        None => {
            assert(encode_utf8(out@) =~= encode_utf8(out@) + Seq::<u8>::empty());
        },
    }
}

/// Wraps a rendered code element: an outer `<pre>`, an inner
/// `<pre class="godbolt">` that carries the compiler and the flags as
/// attributes, in that order and each only where it has a value, then the
/// element and the two closing tags. The values go in as they are.
pub fn wrap_code_element(compiler: &Option<String>, flags: &Option<String>, code: &str) -> (html:
    String)
    ensures
        encode_utf8(html@) == godbolt_pre(
            optional_bytes(*compiler),
            optional_bytes(*flags),
            encode_utf8(code@),
        ),
{
    let mut html = String::new();
    assert(encode_utf8(html@) =~= Seq::<u8>::empty());
    push_text(&mut html, "<pre><pre class=\"godbolt\"");
    push_attribute(&mut html, " data-godbolt-compiler=\"", compiler);
    push_attribute(&mut html, " data-godbolt-flags=\"", flags);
    push_text(&mut html, ">");
    push_text(&mut html, code);
    push_text(&mut html, "</pre></pre>");
    assert(encode_utf8(html@) =~= godbolt_pre(
        optional_bytes(*compiler),
        optional_bytes(*flags),
        encode_utf8(code@),
    ));
    html
}

/// An annotated block, as bytes: the plain block that is rendered, and the
/// qualifiers of the annotation.
pub struct GodboltModel {
    pub block: Seq<u8>,
    pub compiler: Option<Seq<u8>>,
    pub flags: Option<Seq<u8>>,
}

/// What a fenced block with the info string `info` and the text `block`
/// becomes: nothing where the info string is not an annotation, or where the
/// plain block is too long for the renderer.
pub open spec fn annotated_block(info: Seq<u8>, block: Seq<u8>) -> Option<GodboltModel> {
    match parse_info(info) {
        Some(meta) => if renderer_accepts(plain_block(block, meta.language)) {
            Some(
                GodboltModel {
                    block: plain_block(block, meta.language),
                    compiler: meta.compiler,
                    flags: meta.flags,
                },
            )
        } else {
            None
        },
        None => None,
    }
}

/// The fragment for an annotated block whose rendering is `html`.
pub open spec fn fragment_from_html(block: GodboltModel, html: Seq<u8>) -> Result<
    Seq<u8>,
    RenderFailure,
> {
    match code_element(html) {
        Ok(code) => Ok(godbolt_pre(block.compiler, block.flags, code)),
        Err(e) => Err(e),
    }
}

/// The fragment that replaces an annotated block.
pub open spec fn fragment(block: GodboltModel) -> Result<Seq<u8>, RenderFailure> {
    fragment_from_html(block, rendered(block.block))
}

/// An annotated block that is ready to be rendered.
#[derive(Debug)]
pub struct Godbolt {
    codeblock: String,
    compiler: Option<String>,
    flags: Option<String>,
}

impl View for Godbolt {
    type V = GodboltModel;

    closed spec fn view(&self) -> GodboltModel {
        GodboltModel {
            block: encode_utf8(self.codeblock@),
            compiler: optional_bytes(self.compiler),
            flags: optional_bytes(self.flags),
        }
    }
}

impl Godbolt {
    #[verifier::type_invariant]
    spec fn renderable(&self) -> bool {
        renderer_accepts(encode_utf8(self.codeblock@))
    }

    /// Reads the annotation of a fenced block and prepares the block for the
    /// renderer. `content` is the text of the whole block, fences included.
    pub fn new(info_string: &str, content: &str) -> (made: Option<Godbolt>)
        ensures
            match made {
                Some(godbolt) => annotated_block(encode_utf8(info_string@), encode_utf8(content@))
                    == Some(godbolt@),
                None => annotated_block(encode_utf8(info_string@), encode_utf8(content@)) is None,
            },
    {
        let meta: ParsedMeta = match parse_info_str(info_string) {
            Some(meta) => meta,
            None => {
                return None;
            },
        };
        let codeblock = strip_godbolt_from_codeblock(content, meta.language.as_str());
        if codeblock.as_str().as_bytes().len() > usize::MAX / 3 {
            return None;
        }
        Some(Godbolt { codeblock, compiler: meta.compiler, flags: meta.flags })
    }

    /// The plain block that goes to the renderer.
    pub fn codeblock(&self) -> (text: &str)
        ensures
            encode_utf8(text@) == self@.block,
    {
        self.codeblock.as_str()
    }

    /// The compiler that the annotation names, if any.
    pub fn compiler(&self) -> (value: &Option<String>)
        ensures
            optional_bytes(*value) == self@.compiler,
    {
        &self.compiler
    }

    /// The flags that the annotation carries, if any.
    pub fn flags(&self) -> (value: &Option<String>)
        ensures
            optional_bytes(*value) == self@.flags,
    {
        &self.flags
    }

    /// The fragment for this block, given the HTML that the renderer made of
    /// it. Fails where that HTML holds no code element.
    pub fn wrap_rendered(&self, html: &str) -> (r: Result<String, RenderFailure>)
        ensures
            text_result(r) == fragment_from_html(self@, encode_utf8(html@)),
    {
        match extract_code_element(html) {
            Ok(code) => Ok(wrap_code_element(&self.compiler, &self.flags, code)),
            Err(e) => Err(e),
        }
    }

    /// Renders the block and wraps its code element.
    pub fn add_godbolt_pre(self) -> (r: Result<String, RenderFailure>)
        ensures
            text_result(r) == fragment(self@),
    {
        proof {
            use_type_invariant(&self);
            encode_utf8_decode_utf8(self.codeblock@);
        }
        let html = render_markdown(self.codeblock.as_str());
        self.wrap_rendered(html.as_str())
    }
}

} // verus!
