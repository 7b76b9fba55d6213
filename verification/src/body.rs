//! The code body of a fenced block, and the plain block that is handed to the
//! renderer in its place.

use vstd::prelude::*;
use vstd::string::*;
use vstd::utf8::*;
use crate::text::{
    find, find_from, lemma_ascii_boundaries, lemma_find_from, lemma_strip_run, lemma_trim_end,
    push_text, slice_text, strip_run, strip_run_len, trim_end, trim_end_len,
};

verus! {

/// A line break.
pub open spec fn newline() -> Seq<u8> {
    encode_utf8("\n"@)
}

/// The fence that opens the block handed to the renderer.
pub open spec fn opening_fence() -> Seq<u8> {
    encode_utf8("```"@)
}

/// Offset of the first byte after the first line break of `block`; 0 where
/// there is no line break, or nothing after it.
pub open spec fn body_start(block: Seq<u8>) -> int {
    match find_from(block, newline(), 0) {
        Some(i) => if i + 1 < block.len() {
            i + 1
        } else {
            0
        },
        None => 0,
    }
}

/// The symbol that fences `block`: its first byte, where that is a backtick
/// or a tilde.
pub open spec fn fence_symbol(block: Seq<u8>) -> Option<u8> {
    if block.len() > 0 && (block[0] == 0x60 || block[0] == 0x7e) {
        Some(block[0])
    } else {
        None
    }
}

/// `block` without the run of fence symbols at its end.
pub open spec fn without_closing_fence(block: Seq<u8>) -> Seq<u8> {
    match fence_symbol(block) {
        Some(symbol) => strip_run(block, symbol),
        None => block,
    }
}

/// Offset at which the body of `block` ends: what is left once the closing
/// run of fence symbols, and then the white space before it, are gone.
pub open spec fn body_end(block: Seq<u8>) -> int {
    trim_end(without_closing_fence(block)).len() as int
}

/// The code body of `block`. It is empty where the body would end before it
/// starts.
pub open spec fn body_bytes(block: Seq<u8>) -> Seq<u8> {
    if body_start(block) <= body_end(block) {
        block.subrange(body_start(block), body_end(block))
    } else {
        Seq::empty()
    }
}

/// The block that the renderer gets: a fence of three backticks with the
/// language alone as its info string, a line break, and the code body; white
/// space at the end of the whole is dropped.
pub open spec fn plain_block(block: Seq<u8>, lang: Seq<u8>) -> Seq<u8> {
    trim_end(opening_fence() + lang + newline() + body_bytes(block))
}

/// `s` is empty or ends with no white space.
pub open spec fn trailing_space_free(s: Seq<u8>) -> bool {
    trim_end(s) == s
}

/// The body lies in the block and ends with no white space.
pub proof fn lemma_body_in_block(block: Seq<u8>)
    ensures
        0 <= body_start(block) <= block.len(),
        0 <= body_end(block) <= block.len(),
        body_bytes(block).len() <= block.len(),
        trailing_space_free(body_bytes(block)),
{
    lemma_find_from(block, newline(), 0);
    lemma_trim_end(without_closing_fence(block));
    if fence_symbol(block) is Some {
        lemma_strip_run(block, fence_symbol(block)->0);
    }
    if body_start(block) <= body_end(block) {
        let kept = trim_end(without_closing_fence(block));
        assert(kept =~= block.subrange(0, body_end(block)));
    }
}

/// Where the code body starts in the text of a fenced block.
pub fn body_start_index(content: &str) -> (index: usize)
    ensures
        index == body_start(encode_utf8(content@)),
        index <= encode_utf8(content@).len(),
        is_char_boundary(encode_utf8(content@), index as int),
{
    let bytes = content.as_bytes();
    let n: usize = bytes.len();
    let line_break = "\n".as_bytes();
    proof {
        reveal_strlit("\n");
        is_ascii_chars_encode_utf8("\n"@);
        lemma_find_from(bytes@, line_break@, 0);
        encode_utf8_valid_utf8(content@);
        is_char_boundary_start_end_of_seq(bytes@);
    }
    match find(bytes, line_break, 0) {
        Some(i) => {
            proof {
                assert(bytes@.subrange(i as int, i + 1)[0] == line_break@[0]);
                lemma_ascii_boundaries(bytes@, i as int);
            }
            if i + 1 < n {
                i + 1
            } else {
                0
            }
        },
        None => 0,
    }
}

/// Where the code body ends in the text of a fenced block.
pub fn body_end_index(content: &str) -> (index: usize)
    ensures
        index == body_end(encode_utf8(content@)),
        index <= encode_utf8(content@).len(),
        is_char_boundary(encode_utf8(content@), index as int),
{
    let bytes = content.as_bytes();
    let n: usize = bytes.len();
    let mut end: usize = n;
    assert(bytes@.subrange(0, n as int) =~= bytes@);
    if n > 0 && (bytes[0] == 0x60 || bytes[0] == 0x7e) {
        end = strip_run_len(bytes, n, bytes[0]);
    }
    let index = trim_end_len(bytes, end);
    proof {
        encode_utf8_valid_utf8(content@);
        if index == n {
            is_char_boundary_start_end_of_seq(bytes@);
        } else {
            if index == end {
                assert(bytes@[index as int] < 0x80);
            }
            is_char_boundary_iff_not_is_continuation_byte(bytes@, index as int);
        }
    }
    index
}

/// The code body of a fenced block: what stands after its opening line and
/// before its closing fence, without the white space at its end.
pub fn extract_body<'a>(content: &'a str) -> (body: &'a str)
    ensures
        encode_utf8(body@) == body_bytes(encode_utf8(content@)),
{
    let start = body_start_index(content);
    let end = body_end_index(content);
    if start <= end {
        slice_text(content, start, end)
    } else {
        proof {
            assert(encode_utf8(""@) =~= Seq::<u8>::empty()) by {
                reveal_strlit("");
            }
        }
        ""
    }
}

/// The fenced block that stands for `content` before the renderer: the
/// annotation is gone from its info string, which holds `lang` alone.
pub fn strip_godbolt_from_codeblock(content: &str, lang: &str) -> (block: String)
    ensures
        encode_utf8(block@) == plain_block(encode_utf8(content@), encode_utf8(lang@)),
{
    let mut whole = String::new();
    assert(encode_utf8(whole@) =~= Seq::<u8>::empty());
    push_text(&mut whole, "```");
    push_text(&mut whole, lang);
    push_text(&mut whole, "\n");
    push_text(&mut whole, extract_body(content));
    let bytes = whole.as_str().as_bytes();
    let n: usize = bytes.len();
    assert(bytes@ =~= opening_fence() + encode_utf8(lang@) + newline() + body_bytes(
        encode_utf8(content@),
    ));
    assert(bytes@.subrange(0, n as int) =~= bytes@);
    let kept = trim_end_len(bytes, n);
    proof {
        encode_utf8_valid_utf8(whole@);
        is_char_boundary_start_end_of_seq(bytes@);
        if kept < n {
            is_char_boundary_iff_not_is_continuation_byte(bytes@, kept as int);
        }
    }
    slice_text(whole.as_str(), 0, kept).to_owned()
}

} // verus!
