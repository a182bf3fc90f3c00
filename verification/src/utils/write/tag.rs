//! Unicode normalization (NFKC) and replacement of delimiters in a single tag.
use vstd::prelude::*;
use vstd::utf8::*;
use vstd::string::*;
use crate::tokenizer_core::{ESCAPE, TAG, TOKEN, Tag, TagView};
use crate::text::{lemma_ascii_boundaries, substr};
use super::replace;
use super::unicode::{char_is_whitespace, is_white_space, nfkc, nfkc_chars, string_from_chars};

verus! {

broadcast use vstd::utf8::encode_utf8_valid_utf8, vstd::utf8::encode_utf8_decode_utf8;

/// The delimiter bytes: `ESCAPE`, `TAG` and `TOKEN`.
pub open spec fn is_special(b: u8) -> bool {
    b == ESCAPE || b == TAG || b == TOKEN
}

/// Index of the first delimiter byte in `s`, or `s.len()`.
pub open spec fn find_special(s: Seq<u8>) -> int
    decreases s.len(),
{
    if s.len() == 0 {
        0
    } else if is_special(s[0]) {
        0
    } else {
        1 + find_special(s.drop_first())
    }
}

/// The replacement of a character of normalized text: `/` and whitespace are replaced so that
/// the text holds no delimiter.
pub open spec fn map_char(c: char) -> char {
    if c == '\\' {
        '\\'
    } else if c == '/' {
        replace::TAG
    } else if c == '\t' || is_white_space(c) {
        replace::TOKEN
    } else {
        c
    }
}

pub open spec fn map_chars(s: Seq<char>) -> Seq<char> {
    s.map_values(|c: char| map_char(c))
}

/// A run of bytes without delimiters, NFKC-normalized and with replacements.
pub open spec fn norm_segment(b: Seq<u8>) -> Seq<char> {
    map_chars(nfkc(decode_utf8(b)))
}

/// The replacement of a delimiter byte.
pub open spec fn replace_special(b: u8) -> char {
    if b == ESCAPE {
        '\\'
    } else if b == TAG {
        replace::TAG
    } else {
        replace::TOKEN
    }
}

/// Normalization of an unescaped tag: every delimiter byte stands for itself.
pub open spec fn normalize_unescaped(b: Seq<u8>) -> Seq<char>
    decreases b.len(),
{
    let i = find_special(b);
    if i >= b.len() {
        norm_segment(b)
    } else {
        proof {
            lemma_find_special(b);
        }
        norm_segment(b.take(i)) + seq![replace_special(b[i])] + normalize_unescaped(b.skip(i + 1))
    }
}

/// Index of the second delimiter byte of `b` when there is a first one at `i`, or `b.len()`.
pub open spec fn second_special(b: Seq<u8>, i: int) -> int {
    i + 1 + find_special(b.skip(i + 1))
}

/// Normalization of an escaped tag: delimiter bytes are taken in pairs, the first of a pair being
/// the escape and the second the escaped byte.
pub open spec fn normalize_escaped(b: Seq<u8>) -> Seq<char>
    decreases b.len(),
{
    let i = find_special(b);
    if i >= b.len() {
        norm_segment(b)
    } else {
        proof {
            lemma_find_special(b);
            lemma_find_special(b.skip(i + 1));
        }
        let j = second_special(b, i);
        if j >= b.len() {
            norm_segment(b)
        } else {
            norm_segment(b.take(j - 1)) + seq![replace_special(b[j])] + normalize_escaped(
                b.skip(j + 1),
            )
        }
    }
}

/// The byte before the second of each pair of delimiters starts a character, so that the text
/// before it can be cut there.
pub open spec fn escaped_sliceable(b: Seq<u8>) -> bool
    decreases b.len(),
{
    let i = find_special(b);
    if i >= b.len() {
        true
    } else {
        proof {
            lemma_find_special(b);
            lemma_find_special(b.skip(i + 1));
        }
        let j = second_special(b, i);
        if j >= b.len() {
            true
        } else {
            is_char_boundary(b, j - 1) && escaped_sliceable(b.skip(j + 1))
        }
    }
}

/// The normalized text of a tag.
pub open spec fn normalize_tag_view(v: TagView) -> Seq<char> {
    match v {
        TagView::Escaped(c) => normalize_escaped(encode_utf8(c)),
        TagView::Unescaped(c) => normalize_unescaped(encode_utf8(c)),
    }
}

/// A tag that normalization accepts: an escaped tag must be cuttable before each escaped byte.
pub open spec fn tag_normalizable(v: TagView) -> bool {
    match v {
        TagView::Escaped(c) => escaped_sliceable(encode_utf8(c)),
        TagView::Unescaped(c) => true,
    }
}

pub proof fn lemma_find_special(s: Seq<u8>)
    ensures
        0 <= find_special(s) <= s.len(),
        find_special(s) < s.len() ==> is_special(s[find_special(s)]),
        forall|j: int| 0 <= j < find_special(s) ==> !is_special(s[j]),
    decreases s.len(),
{
    if s.len() > 0 && !is_special(s[0]) {
        lemma_find_special(s.drop_first());
        assert forall|j: int| 0 <= j < find_special(s) implies !is_special(s[j]) by {
            if j > 0 {
                assert(s[j] == s.drop_first()[j - 1]);
            }
        }
    }
}

pub proof fn lemma_find_special_is(s: Seq<u8>, i: int)
    requires
        0 <= i <= s.len(),
        i < s.len() ==> is_special(s[i]),
        forall|j: int| 0 <= j < i ==> !is_special(s[j]),
    ensures
        find_special(s) == i,
    decreases s.len(),
{
    if s.len() > 0 && !is_special(s[0]) {
        assert forall|j: int| 0 <= j < i - 1 implies !is_special(s.drop_first()[j]) by {
            assert(!is_special(s[j + 1]));
        }
        lemma_find_special_is(s.drop_first(), i - 1);
    }
}

/// A boundary of a suffix that starts on a boundary is a boundary of the whole.
pub proof fn lemma_boundary_from_suffix(bytes: Seq<u8>, from: int, k: int)
    requires
        valid_utf8(bytes),
        0 <= from <= bytes.len(),
        0 <= k <= bytes.len() - from,
        is_char_boundary(bytes, from),
        is_char_boundary(bytes.skip(from), k),
    ensures
        is_char_boundary(bytes, from + k),
{
    valid_utf8_split(bytes, from);
    let rest = bytes.skip(from);
    assert(rest =~= bytes.subrange(from, bytes.len() as int));
    if from + k == bytes.len() {
        is_char_boundary_start_end_of_seq(bytes);
    } else {
        is_char_boundary_iff_not_is_continuation_byte(bytes, from + k);
        is_char_boundary_iff_not_is_continuation_byte(rest, k);
        assert(rest[k] == bytes[from + k]);
    }
}

/// Position of the first of three bytes in `hay`, if any.
///
/// Calls `memchr::memchr3`, whose documentation promises the first position holding any of
/// the three bytes; the contract states exactly that.
#[verifier::external_body]
pub(crate) fn first_of_three(a: u8, b: u8, c: u8, hay: &[u8]) -> (r: Option<usize>)
    ensures
        match r {
            Some(i) => i < hay@.len() && (hay@[i as int] == a || hay@[i as int] == b || hay@[i as int]
                == c) && forall|j: int|
                0 <= j < i ==> hay@[j] != a && hay@[j] != b && hay@[j] != c,
            None => forall|j: int| 0 <= j < hay@.len() ==> hay@[j] != a && hay@[j] != b && hay@[j] != c,
        },
{
    memchr::memchr3(a, b, c, hay)
}

/// Absolute index of the first delimiter byte at or after `start`, or the length.
fn find_special_from(hay: &[u8], start: usize) -> (r: usize)
    requires
        start <= hay@.len(),
    ensures
        r == start + find_special(hay@.skip(start as int)),
        start <= r <= hay@.len(),
{
    let tail = vstd::slice::slice_subrange(hay, start, hay.len());
    let ghost t = hay@.skip(start as int);
    assert(tail@ =~= t);
    match first_of_three(ESCAPE, TAG, TOKEN, tail) {
        Some(i) => {
            proof {
                lemma_find_special_is(t, i as int);
            }
            start + i
        },
        None => {
            proof {
                lemma_find_special_is(t, t.len() as int);
            }
            hay.len()
        },
    }
}

pub fn map_char_exec(c: char) -> (r: char)
    ensures
        r == map_char(c),
{
    if c == '\\' {
        '\\'
    } else if c == '/' {
        replace::TAG
    } else if c == '\t' || char_is_whitespace(c) {
        replace::TOKEN
    } else {
        c
    }
}

fn replace_special_exec(b: u8) -> (r: char)
    ensures
        r == replace_special(b),
{
    if b == ESCAPE {
        '\\'
    } else if b == TAG {
        replace::TAG
    } else {
        replace::TOKEN
    }
}

/// Appends the normalized characters of a delimiter-free segment.
fn push_segment(out: &mut Vec<char>, seg: &str)
    ensures
        final(out)@ == old(out)@ + norm_segment(seg.spec_bytes()),
{
    let n = nfkc_chars(seg);
    let ghost base = out@;
    let mut k: usize = 0;
    while k < n.len()
        invariant
            k <= n@.len(),
            n@ == nfkc(seg@),
            out@ == base + map_chars(n@.take(k as int)),
        decreases n@.len() - k,
    {
        let c = map_char_exec(n[k]);
        out.push(c);
        k = k + 1;
        assert(map_chars(n@.take(k as int)) =~= map_chars(n@.take(k - 1)) + seq![map_char(n@[k - 1])]);
    }
    assert(n@.take(k as int) =~= n@);
    assert(decode_utf8(seg.spec_bytes()) == seg@);
}

/// Appends the normalization of an unescaped tag.
fn push_unescaped(out: &mut Vec<char>, s: &str)
    ensures
        final(out)@ == old(out)@ + normalize_unescaped(s.spec_bytes()),
{
    let bytes = s.as_bytes();
    let n = bytes.len();
    let ghost b = s.spec_bytes();
    let ghost base = out@;
    let mut from: usize = 0;
    proof {
        is_char_boundary_start_end_of_seq(b);
        assert(b.skip(0) =~= b);
    }
    loop
        invariant_except_break
            base + normalize_unescaped(b) == out@ + normalize_unescaped(b.skip(from as int)),
        invariant
            n == b.len(),
            bytes@ == b,
            b == s.spec_bytes(),
            from <= n,
            is_char_boundary(b, from as int),
        ensures
            out@ == base + normalize_unescaped(b),
        decreases n - from,
    {
        let ghost rest = b.skip(from as int);
        let i = find_special_from(bytes, from);
        proof {
            lemma_find_special(rest);
            is_char_boundary_start_end_of_seq(b);
        }
        if i == n {
            let seg = substr(s, from, n);
            assert(seg.spec_bytes() =~= rest);
            push_segment(out, seg);
            break;
        }
        proof {
            lemma_ascii_boundaries(b, i as int);
        }
        let seg = substr(s, from, i);
        assert(seg.spec_bytes() =~= rest.take(i - from));
        push_segment(out, seg);
        out.push(replace_special_exec(bytes[i]));
        proof {
            assert(rest.skip(i - from + 1) =~= b.skip(i as int + 1));
            assert(rest[i - from] == b[i as int]);
        }
        from = i + 1;
    }
}

/// Appends the normalization of an escaped tag.
fn push_escaped(out: &mut Vec<char>, s: &str)
    requires
        escaped_sliceable(s.spec_bytes()),
    ensures
        final(out)@ == old(out)@ + normalize_escaped(s.spec_bytes()),
{
    let bytes = s.as_bytes();
    let n = bytes.len();
    let ghost b = s.spec_bytes();
    let ghost base = out@;
    let mut from: usize = 0;
    proof {
        is_char_boundary_start_end_of_seq(b);
        assert(b.skip(0) =~= b);
    }
    loop
        invariant_except_break
            base + normalize_escaped(b) == out@ + normalize_escaped(b.skip(from as int)),
        invariant
            n == b.len(),
            bytes@ == b,
            b == s.spec_bytes(),
            from <= n,
            is_char_boundary(b, from as int),
            escaped_sliceable(b.skip(from as int)),
        ensures
            out@ == base + normalize_escaped(b),
        decreases n - from,
    {
        let ghost rest = b.skip(from as int);
        let i = find_special_from(bytes, from);
        proof {
            lemma_find_special(rest);
            is_char_boundary_start_end_of_seq(b);
        }
        if i == n {
            let seg = substr(s, from, n);
            assert(seg.spec_bytes() =~= rest);
            push_segment(out, seg);
            break;
        }
        let j = find_special_from(bytes, i + 1);
        proof {
            let ri = i - from;
            assert(rest.skip(ri + 1) =~= b.skip(i as int + 1));
            lemma_find_special(b.skip(i as int + 1));
            assert(second_special(rest, ri as int) == j - from);
        }
        if j == n {
            let seg = substr(s, from, n);
            assert(seg.spec_bytes() =~= rest);
            push_segment(out, seg);
            break;
        }
        proof {
            lemma_ascii_boundaries(b, j as int);
            lemma_boundary_from_suffix(b, from as int, (j - 1 - from) as int);
        }
        let seg = substr(s, from, j - 1);
        assert(seg.spec_bytes() =~= rest.take(j - 1 - from));
        push_segment(out, seg);
        out.push(replace_special_exec(bytes[j]));
        proof {
            assert(rest.skip(j - from + 1) =~= b.skip(j as int + 1));
            assert(rest[j - from] == b[j as int]);
        }
        from = j + 1;
    }
}

/// Appends the normalization of a tag.
pub fn push_normalized_tag(out: &mut Vec<char>, tag: Tag)
    requires
        tag_normalizable(tag@),
    ensures
        final(out)@ == old(out)@ + normalize_tag_view(tag@),
{
    match tag {
        Tag::Escaped(s) => push_escaped(out, s),
        Tag::Unescaped(s) => push_unescaped(out, s),
    }
}

/// A tag to be written out, normalized.
pub struct NormalizedTag<'t> {
    tag: Tag<'t>,
}

impl<'t> NormalizedTag<'t> {
    pub fn new(tag: Tag<'t>) -> (r: NormalizedTag<'t>)
        ensures
            r.tag() == tag,
    {
        NormalizedTag { tag }
    }

    /// The tag to be normalized.
    pub closed spec fn tag(self) -> Tag<'t> {
        self.tag
    }

    /// The normalized characters.
    ///
    /// Each run of text between delimiters is put in NFKC; then `/` becomes `╱`, the tab and
    /// every whitespace become `␣`, and `\` stays. A delimiter byte of an unescaped tag, or an
    /// escaped byte of an escaped tag, is replaced in the same way.
    pub fn chars(&self) -> (r: Vec<char>)
        requires
            tag_normalizable(self.tag()@),
        ensures
            r@ == normalize_tag_view(self.tag()@),
    {
        let mut out: Vec<char> = Vec::new();
        push_normalized_tag(&mut out, self.tag);
        out
    }

    /// The normalized text.
    pub fn to_string(&self) -> (r: String)
        requires
            tag_normalizable(self.tag()@),
        ensures
            r@ == normalize_tag_view(self.tag()@),
    {
        let v = self.chars();
        string_from_chars(&v)
    }
}

/// Applies the Unicode normalization and special character replacement.
///
/// Alias to `NormalizedTag::new()`.
pub fn normalize_tag<'t>(tag: Tag<'t>) -> (r: NormalizedTag<'t>)
    ensures
        r.tag() == tag,
{
    NormalizedTag::new(tag)
}

} // verus!
