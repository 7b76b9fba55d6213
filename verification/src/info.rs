//! The info-string micro-format: `<language>,godbolt[-compiler:<value>][-flags:<value>]`.

use vstd::prelude::*;
use vstd::string::*;
use vstd::utf8::*;
use crate::text::{
    find, find_from, lemma_ascii_boundaries, lemma_find_from, matches_at, occurs_at, slice_text,
};

verus! {

/// The separator between the tokens of an info string.
pub open spec fn comma() -> Seq<u8> {
    encode_utf8(","@)
}

/// The keyword that marks a block as annotated.
pub open spec fn marker() -> Seq<u8> {
    encode_utf8("godbolt"@)
}

/// The prefix of the token that names a compiler.
pub open spec fn compiler_prefix() -> Seq<u8> {
    encode_utf8("godbolt-compiler:"@)
}

/// The prefix of the token that carries compiler flags.
pub open spec fn flags_prefix() -> Seq<u8> {
    encode_utf8("godbolt-flags:"@)
}

/// The separator is the one byte of the ASCII comma.
pub proof fn lemma_comma()
    ensures
        comma() == seq![0x2cu8],
{
    reveal_strlit(",");
    is_ascii_chars_encode_utf8(","@);
    assert(comma() =~= seq![0x2cu8]);
}

/// What an annotated info string says, as bytes.
pub struct MetaModel {
    pub language: Seq<u8>,
    pub compiler: Option<Seq<u8>>,
    pub flags: Option<Seq<u8>>,
}

/// The metadata of an annotated block. The language is never empty.
#[derive(Debug, Clone, PartialEq, Eq)]
pub struct ParsedMeta {
    pub language: String,
    pub compiler: Option<String>,
    pub flags: Option<String>,
}

/// The model of an optional result of the parser.
pub open spec fn optional_meta(meta: Option<ParsedMeta>) -> Option<MetaModel> {
    match meta {
        Some(m) => Some(m@),
        None => None,
    }
}

/// The bytes of an optional text.
pub open spec fn optional_bytes(text: Option<String>) -> Option<Seq<u8>> {
    match text {
        Some(t) => Some(encode_utf8(t@)),
        None => None,
    }
}

impl View for ParsedMeta {
    type V = MetaModel;

    open spec fn view(&self) -> MetaModel {
        MetaModel {
            language: encode_utf8(self.language@),
            compiler: optional_bytes(self.compiler),
            flags: optional_bytes(self.flags),
        }
    }
}

/// The comma-separated tokens of `s`, in order. There is always at least one;
/// between two commas, or beside one at either end, stands an empty token.
pub open spec fn split_commas(s: Seq<u8>) -> Seq<Seq<u8>>
    decreases s.len(),
{
    let first = find_from(s, comma(), 0);
    if first is Some && 0 <= first->0 < s.len() {
        seq![s.subrange(0, first->0)] + split_commas(s.subrange(first->0 + 1, s.len() as int))
    } else {
        seq![s]
    }
}

/// The tokens with a comma between each two.
pub open spec fn join_commas(tokens: Seq<Seq<u8>>) -> Seq<u8>
    decreases tokens.len(),
{
    if tokens.len() == 0 {
        Seq::empty()
    } else if tokens.len() == 1 {
        tokens[0]
    } else {
        tokens[0] + comma() + join_commas(tokens.drop_first())
    }
}

/// Splitting takes the text apart at every comma and loses nothing: no token
/// holds a comma, and the tokens joined by commas are the text again.
pub proof fn lemma_split_commas(s: Seq<u8>)
    ensures
        split_commas(s).len() >= 1,
        forall|i: int, j: int|
            0 <= i < split_commas(s).len() && 0 <= j < split_commas(s)[i].len() ==> (
            #[trigger] split_commas(s)[i][j]) != 0x2c,
        join_commas(split_commas(s)) == s,
    decreases s.len(),
{
    lemma_comma();
    lemma_find_from(s, comma(), 0);
    let first = find_from(s, comma(), 0);
    let tokens = split_commas(s);
    if first is Some {
        let at = first->0;
        let head = s.subrange(0, at);
        let rest = s.subrange(at + 1, s.len() as int);
        assert(s.subrange(at, at + 1)[0] == 0x2c);
        lemma_split_commas(rest);
        let others = split_commas(rest);
        assert(tokens.drop_first() =~= others);
        assert(tokens[0] == head);
        assert forall|i: int, j: int| 0 <= i < tokens.len() && 0 <= j < tokens[i].len() implies (
        #[trigger] tokens[i][j]) != 0x2c by {
            if i == 0 {
                if head[j] == 0x2c {
                    assert(s.subrange(j, j + 1) =~= seq![0x2cu8]);
                    assert(occurs_at(s, comma(), j));
                }
            } else {
                assert(tokens[i] == others[i - 1]);
            }
        }
        assert(join_commas(tokens) =~= s);
    } else {
        assert forall|j: int| 0 <= j < s.len() implies s[j] != 0x2c by {
            if s[j] == 0x2c {
                assert(s.subrange(j, j + 1) =~= seq![0x2cu8]);
                assert(occurs_at(s, comma(), j));
            }
        }
    }
}

/// `token` begins with `prefix`.
pub open spec fn has_prefix(token: Seq<u8>, prefix: Seq<u8>) -> bool {
    occurs_at(token, prefix, 0)
}

/// The value of the last of `tokens` that begins with `prefix`: all that
/// follows the prefix, verbatim.
pub open spec fn last_qualifier(tokens: Seq<Seq<u8>>, prefix: Seq<u8>) -> Option<Seq<u8>>
    decreases tokens.len(),
{
    if tokens.len() == 0 {
        None
    } else if has_prefix(tokens.last(), prefix) {
        Some(tokens.last().subrange(prefix.len() as int, tokens.last().len() as int))
    } else {
        last_qualifier(tokens.drop_last(), prefix)
    }
}

/// One of `tokens` begins with the marker keyword.
pub open spec fn has_marker(tokens: Seq<Seq<u8>>) -> bool {
    exists|i: int| 0 <= i < tokens.len() && has_prefix(#[trigger] tokens[i], marker())
}

/// No token after the first begins with the marker keyword.
pub open spec fn lacks_marker(info: Seq<u8>) -> bool {
    !has_marker(split_commas(info).drop_first())
}

/// The meaning of an info string. The first token is the language; the block
/// is annotated when the language is not empty and a later token begins with
/// the marker keyword. Of several compiler tokens, or several flags tokens,
/// the last one counts.
pub open spec fn parse_info(info: Seq<u8>) -> Option<MetaModel> {
    let tokens = split_commas(info);
    let qualifiers = tokens.drop_first();
    if tokens[0].len() > 0 && has_marker(qualifiers) {
        Some(
            MetaModel {
                language: tokens[0],
                compiler: last_qualifier(qualifiers, compiler_prefix()),
                flags: last_qualifier(qualifiers, flags_prefix()),
            },
        )
    } else {
        None
    }
}

/// The token at the head of `rest` and, where a comma ends it, the text after
/// that comma.
fn next_token<'a>(rest: &'a str) -> (r: (&'a str, Option<&'a str>))
    ensures
        match r.1 {
            Some(after) => split_commas(encode_utf8(rest@)) == seq![encode_utf8(r.0@)]
                + split_commas(encode_utf8(after@)),
            None => split_commas(encode_utf8(rest@)) == seq![encode_utf8(r.0@)],
        },
        r.1 is Some ==> encode_utf8(r.1->0@).len() < encode_utf8(rest@).len(),
{
    let bytes = rest.as_bytes();
    let sep = ",".as_bytes();
    let n: usize = bytes.len();
    match find(bytes, sep, 0) {
        Some(i) => {
            proof {
                lemma_comma();
                lemma_find_from(bytes@, sep@, 0);
                assert(occurs_at(bytes@, sep@, i as int));
                assert(bytes@.subrange(i as int, i + 1)[0] == sep@[0]);
                encode_utf8_valid_utf8(rest@);
                lemma_ascii_boundaries(bytes@, i as int);
                is_char_boundary_start_end_of_seq(bytes@);
            }
            let token = slice_text(rest, 0, i);
            let after = slice_text(rest, i + 1, n);
            (token, Some(after))
        },
        None => {
            proof {
                lemma_find_from(bytes@, sep@, 0);
            }
            (rest, None)
        },
    }
}

/// What follows `prefix` in a token that begins with it.
fn qualifier_value(token: &str, prefix: &str) -> (value: String)
    requires
        has_prefix(encode_utf8(token@), encode_utf8(prefix@)),
        prefix@.len() > 0,
        is_ascii_chars(prefix@),
    ensures
        encode_utf8(value@) == encode_utf8(token@).subrange(
            encode_utf8(prefix@).len() as int,
            encode_utf8(token@).len() as int,
        ),
{
    let bytes = token.as_bytes();
    let skip: usize = prefix.as_bytes().len();
    proof {
        is_ascii_chars_encode_utf8(prefix@);
        let p = encode_utf8(prefix@);
        assert(bytes@.subrange(0, p.len() as int)[skip - 1] == p[skip - 1]);
        encode_utf8_valid_utf8(token@);
        lemma_ascii_boundaries(bytes@, skip - 1);
        is_char_boundary_start_end_of_seq(bytes@);
    }
    slice_text(token, skip, bytes.len()).to_owned()
}

/// Parses the info string of a fenced code block: the metadata of an
/// annotated block, or nothing where the string is no annotation.
pub fn parse_info_str(info_string: &str) -> (meta: Option<ParsedMeta>)
    ensures
        optional_meta(meta) == parse_info(encode_utf8(info_string@)),
        meta is Some ==> meta->0.language@.len() > 0,
{
    let (language, mut rest) = next_token(info_string);
    let ghost tokens = split_commas(encode_utf8(info_string@));
    let ghost mut done: Seq<Seq<u8>> = Seq::empty();
    let mut annotated = false;
    let mut compiler: Option<String> = None;
    let mut flags: Option<String> = None;
    proof {
        reveal_strlit("godbolt");
        reveal_strlit("godbolt-compiler:");
        reveal_strlit("godbolt-flags:");
        assert(tokens.drop_first() =~= match rest {
            Some(after) => split_commas(encode_utf8(after@)),
            None => Seq::empty(),
        });
    }
    while rest.is_some()
        invariant
            tokens.drop_first() =~= done + match rest {
                Some(after) => split_commas(encode_utf8(after@)),
                None => Seq::empty(),
            },
            annotated == has_marker(done),
            optional_bytes(compiler) == last_qualifier(done, compiler_prefix()),
            optional_bytes(flags) == last_qualifier(done, flags_prefix()),
            is_ascii_chars("godbolt-compiler:"@),
            "godbolt-compiler:"@.len() > 0,
            is_ascii_chars("godbolt-flags:"@),
            "godbolt-flags:"@.len() > 0,
        decreases
            match rest {
                Some(after) => encode_utf8(after@).len() + 1,
                None => 0,
            },
    {
        let (token, after) = next_token(rest.unwrap());
        let ghost before = done;
        proof {
            done = done.push(encode_utf8(token@));
            assert(done.drop_last() =~= before);
            assert(done.last() == encode_utf8(token@));
        }
        if matches_at(token.as_bytes(), "godbolt".as_bytes(), 0) {
            annotated = true;
        } else {
            assert forall|i: int| 0 <= i < done.len() && has_prefix(#[trigger] done[i], marker())
                implies has_marker(before) by {
                assert(before[i] == done[i]);
            }
        }
        if matches_at(token.as_bytes(), "godbolt-compiler:".as_bytes(), 0) {
            compiler = Some(qualifier_value(token, "godbolt-compiler:"));
        }
        if matches_at(token.as_bytes(), "godbolt-flags:".as_bytes(), 0) {
            flags = Some(qualifier_value(token, "godbolt-flags:"));
        }
        proof {
            if has_marker(before) {
                let i = choose|i: int| 0 <= i < before.len() && has_prefix(#[trigger] before[i], marker());
                assert(done[i] == before[i]);
            }
        }
        rest = after;
    }
    assert(tokens.drop_first() =~= done);
    if language.as_bytes().len() == 0 || !annotated {
        return None;
    }
    assert(language@.len() > 0) by {
        if language@.len() == 0 {
            assert(encode_utf8(language@) =~= Seq::<u8>::empty());
        }
    }
    Some(ParsedMeta { language: language.to_owned(), compiler, flags })
}

} // verus!
