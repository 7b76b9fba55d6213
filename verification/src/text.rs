//! Byte-level vocabulary for UTF-8 text: searching, prefixes, and the
//! character-boundary facts that slicing a `&str` by byte offsets needs.

use vstd::prelude::*;
use vstd::string::*;
use vstd::utf8::*;

verus! {

/// `pat` stands in `s` at byte offset `i`.
pub open spec fn occurs_at(s: Seq<u8>, pat: Seq<u8>, i: int) -> bool {
    0 <= i && i + pat.len() <= s.len() && s.subrange(i, i + pat.len()) == pat
}

/// Offset of the first occurrence of `pat` in `s` at or after `from`.
pub open spec fn find_from(s: Seq<u8>, pat: Seq<u8>, from: int) -> Option<int>
    decreases s.len() + 1 - from,
{
    if from < 0 || from + pat.len() > s.len() {
        None
    } else if occurs_at(s, pat, from) {
        Some(from)
    } else {
        find_from(s, pat, from + 1)
    }
}

/// `find_from` returns the least offset at or after `from` where `pat`
/// stands, and `None` exactly when there is no such offset.
pub proof fn lemma_find_from(s: Seq<u8>, pat: Seq<u8>, from: int)
    requires
        0 <= from,
    ensures
        match find_from(s, pat, from) {
            Some(i) => from <= i && occurs_at(s, pat, i) && forall|j: int|
                from <= j < i ==> !occurs_at(s, pat, j),
            None => forall|j: int| from <= j ==> !occurs_at(s, pat, j),
        },
    decreases s.len() + 1 - from,
{
    if from + pat.len() > s.len() {
    } else if occurs_at(s, pat, from) {
    } else {
        lemma_find_from(s, pat, from + 1);
    }
}

/// Does `pat` stand in `hay` at offset `at`?
pub fn matches_at(hay: &[u8], pat: &[u8], at: usize) -> (r: bool)
    ensures
        r == occurs_at(hay@, pat@, at as int),
{
    if pat.len() > hay.len() || at > hay.len() - pat.len() {
        return false;
    }
    let mut k: usize = 0;
    while k < pat.len()
        invariant
            k <= pat.len(),
            at + pat.len() <= hay.len(),
            forall|j: int| 0 <= j < k ==> hay@[at + j] == pat@[j],
        decreases pat.len() - k,
    {
        if hay[at + k] != pat[k] {
            assert(hay@.subrange(at as int, at + pat@.len())[k as int] != pat@[k as int]);
            return false;
        }
        k += 1;
    }
    assert(hay@.subrange(at as int, at + pat@.len()) =~= pat@);
    true
}

/// First offset at or after `from` where `pat` stands in `hay`.
pub fn find(hay: &[u8], pat: &[u8], from: usize) -> (r: Option<usize>)
    ensures
        match r {
            Some(i) => find_from(hay@, pat@, from as int) == Some(i as int),
            None => find_from(hay@, pat@, from as int) is None,
        },
{
    if pat.len() > hay.len() {
        return None;
    }
    let last: usize = hay.len() - pat.len();
    let mut i: usize = from;
    while i <= last
        invariant
            from <= i,
            last + pat.len() == hay.len(),
            find_from(hay@, pat@, from as int) == find_from(hay@, pat@, i as int),
        decreases last + 1 - i,
    {
        if matches_at(hay, pat, i) {
            return Some(i);
        }
        if i == last {
            assert(find_from(hay@, pat@, i + 1) is None);
            return None;
        }
        i += 1;
    }
    None
}

/// The UTF-8 encoding of a concatenation is the concatenation of the
/// encodings.
pub proof fn lemma_encode_concat(a: Seq<char>, b: Seq<char>)
    ensures
        encode_utf8(a + b) == encode_utf8(a) + encode_utf8(b),
    decreases a.len(),
{
    if a.len() == 0 {
        assert(a + b =~= b);
        assert(encode_utf8(a) + encode_utf8(b) =~= encode_utf8(b));
    } else {
        lemma_encode_concat(a.drop_first(), b);
        assert((a + b).drop_first() =~= a.drop_first() + b);
        assert(encode_utf8(a + b) =~= encode_utf8(a) + encode_utf8(b));
    }
}

/// In valid UTF-8 an ASCII byte is a whole character: the offsets before and
/// after it are both character boundaries.
pub proof fn lemma_ascii_boundaries(bytes: Seq<u8>, i: int)
    requires
        valid_utf8(bytes),
        0 <= i < bytes.len(),
        bytes[i] < 0x80,
    ensures
        is_char_boundary(bytes, i),
        is_char_boundary(bytes, i + 1),
{
    is_char_boundary_iff_not_is_continuation_byte(bytes, i);
    valid_utf8_split(bytes, i);
    let suffix = bytes.subrange(i, bytes.len() as int);
    assert(suffix[0] == bytes[i]);
    assert(valid_utf8(pop_first_scalar(suffix)));
    let rest = bytes.subrange(i + 1, bytes.len() as int);
    assert(pop_first_scalar(suffix) =~= rest);
    if i + 1 == bytes.len() {
        is_char_boundary_start_end_of_seq(bytes);
    } else {
        assert(rest[0] == bytes[i + 1]);
        assert(valid_first_scalar(rest));
        is_char_boundary_iff_not_is_continuation_byte(bytes, i + 1);
    }
}

/// A character boundary of a text is one of each of its prefixes that
/// reaches it, when the prefix ends on a boundary too.
pub proof fn lemma_boundary_in_prefix(bytes: Seq<u8>, from: int, to: int)
    requires
        valid_utf8(bytes),
        0 <= from <= to <= bytes.len(),
        is_char_boundary(bytes, from),
        is_char_boundary(bytes, to),
    ensures
        valid_utf8(bytes.subrange(0, to)),
        is_char_boundary(bytes.subrange(0, to), from),
        valid_utf8(bytes.subrange(from, to)),
{
    valid_utf8_split(bytes, to);
    let head = bytes.subrange(0, to);
    if from == to {
        is_char_boundary_start_end_of_seq(head);
    } else {
        is_char_boundary_iff_not_is_continuation_byte(bytes, from);
        assert(head[from] == bytes[from]);
        is_char_boundary_iff_not_is_continuation_byte(head, from);
    }
    valid_utf8_split(head, from);
    assert(head.subrange(from, head.len() as int) =~= bytes.subrange(from, to));
}

/// The part of `text` between two byte offsets that lie on character
/// boundaries.
pub fn slice_text<'a>(text: &'a str, from: usize, to: usize) -> (part: &'a str)
    requires
        from <= to <= encode_utf8(text@).len(),
        is_char_boundary(encode_utf8(text@), from as int),
        is_char_boundary(encode_utf8(text@), to as int),
    ensures
        encode_utf8(part@) == encode_utf8(text@).subrange(from as int, to as int),
{
    proof {
        encode_utf8_valid_utf8(text@);
        lemma_boundary_in_prefix(encode_utf8(text@), from as int, to as int);
    }
    let (head, _) = text.split_at(to);
    let (_, part) = head.split_at(from);
    assert(encode_utf8(part@) =~= encode_utf8(text@).subrange(from as int, to as int));
    part
}

/// The three bytes encode one of the white-space characters U+1680,
/// U+2000 to U+200A, U+2028, U+2029, U+202F, U+205F and U+3000.
pub open spec fn is_wide_space(a: u8, b: u8, c: u8) -> bool {
    ||| a == 0xe1 && b == 0x9a && c == 0x80
    ||| a == 0xe2 && b == 0x80 && (0x80 <= c <= 0x8a || c == 0xa8 || c == 0xa9 || c == 0xaf)
    ||| a == 0xe2 && b == 0x81 && c == 0x9f
    ||| a == 0xe3 && b == 0x80 && c == 0x80
}

/// Length in bytes of the white-space character that `s` ends with, 0 where
/// it ends with none. White space is what Unicode gives the property
/// White_Space: U+0009 to U+000D and U+0020 in one byte, U+0085 and U+00A0
/// in two, the rest in three.
pub open spec fn trailing_space_width(s: Seq<u8>) -> int {
    let n = s.len() as int;
    if n >= 1 && (s[n - 1] == 0x20 || 0x09 <= s[n - 1] <= 0x0d) {
        1
    } else if n >= 2 && s[n - 2] == 0xc2 && (s[n - 1] == 0x85 || s[n - 1] == 0xa0) {
        2
    } else if n >= 3 && is_wide_space(s[n - 3], s[n - 2], s[n - 1]) {
        3
    } else {
        0
    }
}

/// `s` without the white space at its end.
pub open spec fn trim_end(s: Seq<u8>) -> Seq<u8>
    decreases s.len(),
{
    let width = trailing_space_width(s);
    if width > 0 {
        trim_end(s.subrange(0, s.len() - width))
    } else {
        s
    }
}

/// Unicode gives `c` the property White_Space.
pub open spec fn is_white_space(c: char) -> bool {
    let v = c as u32;
    ||| 0x09 <= v <= 0x0d
    ||| v == 0x20
    ||| v == 0x85
    ||| v == 0xa0
    ||| v == 0x1680
    ||| 0x2000 <= v <= 0x200a
    ||| v == 0x2028
    ||| v == 0x2029
    ||| v == 0x202f
    ||| v == 0x205f
    ||| v == 0x3000
}

/// `s` without the white-space characters at its end.
pub open spec fn trim_end_chars(s: Seq<char>) -> Seq<char>
    decreases s.len(),
{
    if s.len() > 0 && is_white_space(s.last()) {
        trim_end_chars(s.drop_last())
    } else {
        s
    }
}

proof fn lemma_space_in_one_byte(v: u32)
    by (bit_vector)
    requires
        v <= 0x7f,
    ensures
        ({
            let c = (v & 0x7f) as u8;
            &&& c < 0x80
            &&& (c == 0x20 || (0x09 <= c && c <= 0x0d)) == (v == 0x20 || (0x09 <= v && v <= 0x0d))
        }),
{
}

proof fn lemma_space_in_two_bytes(v: u32)
    by (bit_vector)
    requires
        0x80 <= v && v <= 0x7ff,
    ensures
        ({
            let b = 0xc0u8 | ((v >> 6) & 0x1f) as u8;
            let c = 0x80u8 | (v & 0x3f) as u8;
            &&& 0xc0 <= b
            &&& 0x80 <= c && c <= 0xbf
            &&& (b == 0xc2 && (c == 0x85 || c == 0xa0)) == (v == 0x85 || v == 0xa0)
        }),
{
}

proof fn lemma_space_in_three_bytes(v: u32)
    by (bit_vector)
    requires
        0x800 <= v && v <= 0xffff,
    ensures
        ({
            let a = 0xe0u8 | ((v >> 12) & 0x0f) as u8;
            let b = 0x80u8 | ((v >> 6) & 0x3f) as u8;
            let c = 0x80u8 | (v & 0x3f) as u8;
            &&& 0xe0 <= a
            &&& 0x80 <= b && b <= 0xbf
            &&& 0x80 <= c && c <= 0xbf
            &&& ((a == 0xe1 && b == 0x9a && c == 0x80) || (a == 0xe2 && b == 0x80 && ((0x80 <= c
                && c <= 0x8a) || c == 0xa8 || c == 0xa9 || c == 0xaf)) || (a == 0xe2 && b == 0x81
                && c == 0x9f) || (a == 0xe3 && b == 0x80 && c == 0x80)) == (v == 0x1680 || (0x2000
                <= v && v <= 0x200a) || v == 0x2028 || v == 0x2029 || v == 0x202f || v == 0x205f
                || v == 0x3000)
        }),
{
}

proof fn lemma_no_space_in_four_bytes(v: u32)
    by (bit_vector)
    requires
        0x10000 <= v && v <= 0x10ffff,
    ensures
        ({
            let b = 0x80u8 | ((v >> 12) & 0x3f) as u8;
            let c = 0x80u8 | ((v >> 6) & 0x3f) as u8;
            let d = 0x80u8 | (v & 0x3f) as u8;
            &&& 0x80 <= b && b <= 0xbf
            &&& 0x80 <= c && c <= 0xbf
            &&& 0x80 <= d && d <= 0xbf
        }),
{
}

/// A text ends with white space, as the bytes tell it, exactly where its
/// last character is a white-space character, and the width is the length of
/// that character's encoding.
pub proof fn lemma_trailing_space_is_last_char(before: Seq<u8>, c: char)
    ensures
        trailing_space_width(before + encode_scalar(c as u32)) == if is_white_space(c) {
            encode_scalar(c as u32).len() as int
        } else {
            0
        },
{
    let v = c as u32;
    let s = before + encode_scalar(v);
    let n = s.len() as int;
    if has_width_1_encoding(v) {
        lemma_space_in_one_byte(v);
        assert(s[n - 1] == encode_scalar(v)[0]);
    } else if has_width_2_encoding(v) {
        lemma_space_in_two_bytes(v);
        assert(s[n - 1] == encode_scalar(v)[1]);
        assert(s[n - 2] == encode_scalar(v)[0]);
    } else if has_width_3_encoding(v) {
        lemma_space_in_three_bytes(v);
        assert(s[n - 1] == encode_scalar(v)[2]);
        assert(s[n - 2] == encode_scalar(v)[1]);
        assert(s[n - 3] == encode_scalar(v)[0]);
    } else {
        lemma_no_space_in_four_bytes(v);
        assert(s[n - 1] == encode_scalar(v)[3]);
        assert(s[n - 2] == encode_scalar(v)[2]);
        assert(s[n - 3] == encode_scalar(v)[1]);
    }
}

/// Trimming the bytes of a text trims its characters: what is left is the
/// encoding of the text without the white-space characters at its end.
pub proof fn lemma_trim_end_is_by_character(s: Seq<char>)
    ensures
        trim_end(encode_utf8(s)) == encode_utf8(trim_end_chars(s)),
    decreases s.len(),
{
    if s.len() == 0 {
        assert(encode_utf8(s) =~= Seq::<u8>::empty());
    } else {
        let last = s.last();
        let init = s.drop_last();
        let scalar = encode_scalar(last as u32);
        assert(encode_utf8(s) == encode_utf8(init) + scalar) by {
            assert(s =~= init + seq![last]);
            lemma_encode_concat(init, seq![last]);
            assert(seq![last].drop_first() =~= Seq::<char>::empty());
            assert(seq![last][0] == last);
            assert(encode_utf8(Seq::<char>::empty()) =~= Seq::<u8>::empty());
            assert(encode_utf8(seq![last]) =~= scalar + Seq::<u8>::empty());
        }
        lemma_trailing_space_is_last_char(encode_utf8(init), last);
        lemma_trim_end_is_by_character(init);
        if is_white_space(last) {
            assert(encode_utf8(s).subrange(0, encode_utf8(s).len() - scalar.len())
                =~= encode_utf8(init));
        }
    }
}

/// `s` without the run of bytes `b` at its end.
pub open spec fn strip_run(s: Seq<u8>, b: u8) -> Seq<u8>
    decreases s.len(),
{
    if s.len() > 0 && s.last() == b {
        strip_run(s.drop_last(), b)
    } else {
        s
    }
}

/// What `trim_end` returns is a prefix of its argument that ends with no
/// white space; trimming it again changes nothing.
pub proof fn lemma_trim_end(s: Seq<u8>)
    ensures
        trim_end(s).len() <= s.len(),
        trim_end(s) == s.subrange(0, trim_end(s).len() as int),
        trailing_space_width(trim_end(s)) == 0,
        trim_end(trim_end(s)) == trim_end(s),
    decreases s.len(),
{
    let width = trailing_space_width(s);
    if width > 0 {
        let shorter = s.subrange(0, s.len() - width);
        lemma_trim_end(shorter);
        assert(trim_end(s) =~= s.subrange(0, trim_end(s).len() as int));
    } else {
        assert(s =~= s.subrange(0, s.len() as int));
    }
}

/// What `strip_run` returns is a prefix of its argument that does not end
/// with `b`.
pub proof fn lemma_strip_run(s: Seq<u8>, b: u8)
    ensures
        strip_run(s, b).len() <= s.len(),
        strip_run(s, b) == s.subrange(0, strip_run(s, b).len() as int),
        strip_run(s, b).len() > 0 ==> strip_run(s, b).last() != b,
        forall|i: int| strip_run(s, b).len() <= i < s.len() ==> s[i] == b,
    decreases s.len(),
{
    if s.len() > 0 && s.last() == b {
        lemma_strip_run(s.drop_last(), b);
        assert(strip_run(s, b) =~= s.subrange(0, strip_run(s, b).len() as int));
        assert forall|i: int| strip_run(s, b).len() <= i < s.len() implies s[i] == b by {
            if i < s.len() - 1 {
                assert(s.drop_last()[i] == s[i]);
            }
        }
    } else {
        assert(s =~= s.subrange(0, s.len() as int));
    }
}

/// Width of the white-space character that ends the first `end` bytes.
fn space_width_before(bytes: &[u8], end: usize) -> (width: usize)
    requires
        end <= bytes.len(),
    ensures
        width == trailing_space_width(bytes@.subrange(0, end as int)),
        width <= end,
        width > 0 ==> !is_continuation_byte(bytes@[end - width]),
{
    let ghost s = bytes@.subrange(0, end as int);
    if end >= 1 {
        let c: u8 = bytes[end - 1];
        assert(s[end - 1] == c);
        if c == 0x20 || (0x09 <= c && c <= 0x0d) {
            return 1;
        }
        if end >= 2 {
            let b: u8 = bytes[end - 2];
            assert(s[end - 2] == b);
            if b == 0xc2 && (c == 0x85 || c == 0xa0) {
                return 2;
            }
            if end >= 3 {
                let a: u8 = bytes[end - 3];
                assert(s[end - 3] == a);
                if (a == 0xe1 && b == 0x9a && c == 0x80) || (a == 0xe2 && b == 0x80 && ((0x80 <= c
                    && c <= 0x8a) || c == 0xa8 || c == 0xa9 || c == 0xaf)) || (a == 0xe2 && b
                    == 0x81 && c == 0x9f) || (a == 0xe3 && b == 0x80 && c == 0x80) {
                    return 3;
                }
            }
        }
    }
    0
}

/// Length of what is left of the first `end` bytes once the white space at
/// their end is gone.
pub fn trim_end_len(bytes: &[u8], end: usize) -> (len: usize)
    requires
        end <= bytes.len(),
    ensures
        len <= end,
        bytes@.subrange(0, len as int) == trim_end(bytes@.subrange(0, end as int)),
        len == end || !is_continuation_byte(bytes@[len as int]),
{
    let mut len: usize = end;
    loop
        invariant
            len <= end <= bytes.len(),
            trim_end(bytes@.subrange(0, len as int)) == trim_end(bytes@.subrange(0, end as int)),
            len == end || !is_continuation_byte(bytes@[len as int]),
        decreases len,
    {
        let width = space_width_before(bytes, len);
        if width == 0 {
            return len;
        }
        assert(bytes@.subrange(0, len as int).subrange(0, len - width) =~= bytes@.subrange(
            0,
            len - width,
        ));
        len = len - width;
    }
}

/// Length of what is left of the first `end` bytes once the run of bytes `b`
/// at their end is gone.
pub fn strip_run_len(bytes: &[u8], end: usize, b: u8) -> (len: usize)
    requires
        end <= bytes.len(),
    ensures
        len <= end,
        bytes@.subrange(0, len as int) == strip_run(bytes@.subrange(0, end as int), b),
        len == end || bytes@[len as int] == b,
{
    let mut len: usize = end;
    while len > 0 && bytes[len - 1] == b
        invariant
            len <= end <= bytes.len(),
            strip_run(bytes@.subrange(0, len as int), b) == strip_run(
                bytes@.subrange(0, end as int),
                b,
            ),
            len == end || bytes@[len as int] == b,
        decreases len,
    {
        assert(bytes@.subrange(0, len as int).drop_last() =~= bytes@.subrange(0, len - 1));
        len = len - 1;
    }
    len
}

/// Are the two texts the same?
pub fn same_text(a: &str, b: &str) -> (same: bool)
    ensures
        same == (a@ == b@),
{
    let left = a.as_bytes();
    let right = b.as_bytes();
    proof {
        encode_utf8_decode_utf8(a@);
        encode_utf8_decode_utf8(b@);
    }
    if left.len() != right.len() {
        return false;
    }
    let same = matches_at(left, right, 0);
    assert(left@.subrange(0, left@.len() as int) =~= left@);
    same
}

/// Appends `piece` to `out`.
pub fn push_text(out: &mut String, piece: &str)
    ensures
        encode_utf8(final(out)@) == encode_utf8(old(out)@) + encode_utf8(piece@),
{
    proof {
        lemma_encode_concat(out@, piece@);
    }
    out.append(piece);
}

} // verus!
