//! What normalized output guarantees: the text written for a tag holds no delimiter, so that the
//! written tokens and token streams can be read back unambiguously.
use vstd::prelude::*;
use crate::tokenizer_core::{ESCAPE, TAG_CHAR, TOKEN_CHAR, TagView, TokenPosition, TokenView};
use crate::text::{
    join_seq, split_seq, lemma_split_join, lemma_ascii_boundaries,
    lemma_boundary_in_suffix, lemma_find_ascii, lemma_find_byte, lemma_find_first_is,
};
use vstd::utf8::valid_utf8;
use super::replace;
use super::unicode::{is_white_space, nfkc};
use super::tag::{
    escaped_sliceable, find_special, is_special, lemma_find_special, map_char, tag_normalizable, map_chars, norm_segment, normalize_escaped,
    normalize_tag_view, normalize_unescaped, replace_special, second_special,
};
use super::token_chars::{normalize_stream_view, normalize_token_view, position_delim, tags_text};

verus! {

/// No character of `s` is white space (in particular neither `TOKEN` nor a newline).
pub open spec fn whitespace_free(s: Seq<char>) -> bool {
    forall|i: int| 0 <= i < s.len() ==> !is_white_space(#[trigger] s[i])
}

/// No character of `s` is `TAG` or white space.
pub open spec fn delimiter_free(s: Seq<char>) -> bool {
    &&& whitespace_free(s)
    &&& forall|i: int| 0 <= i < s.len() ==> #[trigger] s[i] != TAG_CHAR
}

/// The end of a written token: `TOKEN` after a normal token, a newline after the end of a
/// sentence.
pub open spec fn is_token_end(c: char) -> bool {
    c == TOKEN_CHAR || c == '\n'
}

/// Index of the first token end in `s`, or `s.len()`.
pub open spec fn find_token_end(s: Seq<char>) -> int
    decreases s.len(),
{
    if s.len() == 0 {
        0
    } else if is_token_end(s[0]) {
        0
    } else {
        1 + find_token_end(s.drop_first())
    }
}

/// Reads written text back as tokens: each token runs up to the next `TOKEN` or newline, and the
/// delimiter gives its position. Text after the last delimiter is not a token.
pub open spec fn read_written(s: Seq<char>) -> Seq<(TokenPosition, Seq<char>)>
    decreases s.len(),
{
    let i = find_token_end(s);
    if i >= s.len() {
        seq![]
    } else {
        proof {
            lemma_find_token_end(s);
        }
        let pos = if s[i] == TOKEN_CHAR {
            TokenPosition::Normal
        } else {
            TokenPosition::Eos
        };
        seq![(pos, s.take(i))] + read_written(s.skip(i + 1))
    }
}

/// The normalized texts of tags.
pub open spec fn normalized_tags(tags: Seq<TagView>) -> Seq<Seq<char>> {
    tags.map_values(|v: TagView| normalize_tag_view(v))
}

/// The tokens of a stream as they are written: each position with the normalized token text.
pub open spec fn written_tokens(items: Seq<(TokenPosition, TokenView)>) -> Seq<(TokenPosition, Seq<char>)> {
    items.map_values(|it: (TokenPosition, TokenView)| (it.0, normalize_token_view(it.1)))
}

pub proof fn lemma_find_token_end(s: Seq<char>)
    ensures
        0 <= find_token_end(s) <= s.len(),
        find_token_end(s) < s.len() ==> is_token_end(s[find_token_end(s)]),
    decreases s.len(),
{
    if s.len() > 0 && !is_token_end(s[0]) {
        lemma_find_token_end(s.drop_first());
    }
}

proof fn lemma_find_token_end_is(s: Seq<char>, i: int)
    requires
        0 <= i < s.len(),
        is_token_end(s[i]),
        forall|j: int| 0 <= j < i ==> !is_token_end(#[trigger] s[j]),
    ensures
        find_token_end(s) == i,
    decreases s.len(),
{
    if !is_token_end(s[0]) {
        assert forall|j: int| 0 <= j < i - 1 implies !is_token_end(#[trigger] s.drop_first()[j]) by {
            assert(s.drop_first()[j] == s[j + 1]);
        }
        lemma_find_token_end_is(s.drop_first(), i - 1);
    }
}

proof fn lemma_map_char_safe(c: char)
    ensures
        map_char(c) != TAG_CHAR,
        !is_white_space(map_char(c)),
{
    assert(replace::TAG as u32 == 0x2571);
    assert(replace::TOKEN as u32 == 0x2423);
}

proof fn lemma_replace_special_safe(b: u8)
    ensures
        replace_special(b) != TAG_CHAR,
        !is_white_space(replace_special(b)),
{
    assert(replace::TAG as u32 == 0x2571);
    assert(replace::TOKEN as u32 == 0x2423);
}

proof fn lemma_segment_safe(b: Seq<u8>)
    ensures
        delimiter_free(norm_segment(b)),
{
    let s = norm_segment(b);
    assert forall|i: int| 0 <= i < s.len() implies !is_white_space(#[trigger] s[i]) && s[i]
        != TAG_CHAR by {
        let n = super::unicode::nfkc(vstd::utf8::decode_utf8(b));
        assert(s[i] == map_char(n[i]));
        lemma_map_char_safe(n[i]);
    }
}

proof fn lemma_concat_safe(a: Seq<char>, b: Seq<char>)
    requires
        delimiter_free(a),
        delimiter_free(b),
    ensures
        delimiter_free(a + b),
{
    let s = a + b;
    assert forall|i: int| 0 <= i < s.len() implies !is_white_space(#[trigger] s[i]) && s[i]
        != TAG_CHAR by {
        if i < a.len() {
            assert(s[i] == a[i]);
        } else {
            assert(s[i] == b[i - a.len()]);
        }
    }
}

proof fn lemma_unescaped_safe(b: Seq<u8>)
    ensures
        delimiter_free(normalize_unescaped(b)),
    decreases b.len(),
{
    lemma_find_special(b);
    let i = find_special(b);
    if i >= b.len() {
        lemma_segment_safe(b);
    } else {
        lemma_segment_safe(b.take(i));
        lemma_replace_special_safe(b[i]);
        lemma_unescaped_safe(b.skip(i + 1));
        let c = seq![replace_special(b[i])];
        lemma_concat_safe(norm_segment(b.take(i)), c);
        lemma_concat_safe(norm_segment(b.take(i)) + c, normalize_unescaped(b.skip(i + 1)));
    }
}

proof fn lemma_escaped_safe(b: Seq<u8>)
    ensures
        delimiter_free(normalize_escaped(b)),
    decreases b.len(),
{
    lemma_find_special(b);
    let i = find_special(b);
    if i >= b.len() {
        lemma_segment_safe(b);
    } else {
        lemma_find_special(b.skip(i + 1));
        let j = second_special(b, i);
        if j >= b.len() {
            lemma_segment_safe(b);
        } else {
            lemma_segment_safe(b.take(j - 1));
            lemma_replace_special_safe(b[j]);
            lemma_escaped_safe(b.skip(j + 1));
            let c = seq![replace_special(b[j])];
            lemma_concat_safe(norm_segment(b.take(j - 1)), c);
            lemma_concat_safe(norm_segment(b.take(j - 1)) + c, normalize_escaped(b.skip(j + 1)));
        }
    }
}

/// The normalized text of any tag, escaped or not, holds neither `TAG` nor white space: every
/// delimiter of the input has been replaced by a safe character.
pub proof fn normalized_tag_is_delimiter_free(v: TagView)
    ensures
        delimiter_free(normalize_tag_view(v)),
{
    match v {
        TagView::Escaped(c) => lemma_escaped_safe(vstd::utf8::encode_utf8(c)),
        TagView::Unescaped(c) => lemma_unescaped_safe(vstd::utf8::encode_utf8(c)),
    }
}

proof fn lemma_join_tags(a: Seq<char>, tags: Seq<TagView>)
    ensures
        join_seq(seq![a] + normalized_tags(tags), TAG_CHAR) == a + tags_text(tags),
    decreases tags.len(),
{
    let pieces = seq![a] + normalized_tags(tags);
    if tags.len() == 0 {
        assert(pieces =~= seq![a]);
        assert(a + tags_text(tags) =~= a);
    } else {
        let head = normalize_tag_view(tags[0]);
        let rest = tags.drop_first();
        lemma_join_tags(head, rest);
        assert(pieces.drop_first() =~= seq![head] + normalized_tags(rest));
        assert(a + tags_text(tags) =~= a + seq![TAG_CHAR] + (head + tags_text(rest)));
    }
}

/// The text written for a token, split at `TAG`, gives back the normalized surface followed by
/// the normalized tags, in order: a written token can be read back unambiguously.
pub proof fn normalized_token_splits_into_tags(t: TokenView)
    ensures
        split_seq(normalize_token_view(t), TAG_CHAR) == seq![normalize_tag_view(t.surface)]
            + normalized_tags(t.tags),
{
    let pieces = seq![normalize_tag_view(t.surface)] + normalized_tags(t.tags);
    lemma_join_tags(normalize_tag_view(t.surface), t.tags);
    assert forall|k: int, j: int| 0 <= k < pieces.len() && 0 <= j < pieces[k].len() implies #[trigger] pieces[k][j]
        != TAG_CHAR by {
        if k == 0 {
            normalized_tag_is_delimiter_free(t.surface);
        } else {
            assert(pieces[k] == normalize_tag_view(t.tags[k - 1]));
            normalized_tag_is_delimiter_free(t.tags[k - 1]);
        }
    }
    lemma_split_join(pieces, TAG_CHAR);
}

proof fn lemma_tags_text_whitespace_free(tags: Seq<TagView>)
    ensures
        whitespace_free(tags_text(tags)),
    decreases tags.len(),
{
    if tags.len() > 0 {
        lemma_tags_text_whitespace_free(tags.drop_first());
        normalized_tag_is_delimiter_free(tags[0]);
        let a = seq![TAG_CHAR] + normalize_tag_view(tags[0]);
        let s = a + tags_text(tags.drop_first());
        assert forall|i: int| 0 <= i < s.len() implies !is_white_space(#[trigger] s[i]) by {
            if i == 0 {
                assert(s[i] == TAG_CHAR);
            } else if i < a.len() {
                assert(s[i] == normalize_tag_view(tags[0])[i - 1]);
            } else {
                assert(s[i] == tags_text(tags.drop_first())[i - a.len()]);
            }
        }
    }
}

/// The text written for a token holds no white space, hence neither `TOKEN` nor a newline.
pub proof fn normalized_token_is_whitespace_free(t: TokenView)
    ensures
        whitespace_free(normalize_token_view(t)),
{
    normalized_tag_is_delimiter_free(t.surface);
    lemma_tags_text_whitespace_free(t.tags);
    let a = normalize_tag_view(t.surface);
    let b = tags_text(t.tags);
    let s = a + b;
    assert forall|i: int| 0 <= i < s.len() implies !is_white_space(#[trigger] s[i]) by {
        if i < a.len() {
            assert(s[i] == a[i]);
        } else {
            assert(s[i] == b[i - a.len()]);
        }
    }
}

/// Reading back the text written for a token stream gives each token's normalized text with its
/// position, in order: `TOKEN` ends a normal token and a newline ends a sentence.
pub proof fn written_stream_reads_back(items: Seq<(TokenPosition, TokenView)>)
    ensures
        read_written(normalize_stream_view(items)) == written_tokens(items),
    decreases items.len(),
{
    if items.len() == 0 {
        assert(read_written(normalize_stream_view(items)) =~= written_tokens(items));
    } else {
        let tok = normalize_token_view(items[0].1);
        let d = position_delim(items[0].0);
        let rest = normalize_stream_view(items.drop_first());
        let s = normalize_stream_view(items);
        written_stream_reads_back(items.drop_first());
        normalized_token_is_whitespace_free(items[0].1);
        assert(s == tok + seq![d] + rest);
        assert(s[tok.len() as int] == d);
        assert forall|j: int| 0 <= j < tok.len() implies !is_token_end(#[trigger] s[j]) by {
            assert(s[j] == tok[j]);
            assert(!is_white_space(tok[j]));
        }
        lemma_find_token_end_is(s, tok.len() as int);
        assert(s.take(tok.len() as int) =~= tok);
        assert(s.skip(tok.len() as int + 1) =~= rest);
        assert(written_tokens(items).drop_first() =~= written_tokens(items.drop_first()));
        assert(read_written(s) =~= written_tokens(items));
    }
}

/// Bytes escaped as the grammar of an escaped tag asks: every `ESCAPE` is followed by a delimiter
/// byte (`ESCAPE`, `TAG` or `TOKEN`), and no `TAG` or `TOKEN` stands alone.
pub open spec fn well_escaped(b: Seq<u8>) -> bool
    decreases b.len(),
{
    if b.len() == 0 {
        true
    } else if b[0] == ESCAPE {
        b.len() >= 2 && is_special(b[1]) && well_escaped(b.skip(2))
    } else if is_special(b[0]) {
        false
    } else {
        well_escaped(b.drop_first())
    }
}

/// The unescaped form of escaped bytes: each escape pair becomes the byte it escapes.
pub open spec fn unescape(b: Seq<u8>) -> Seq<u8>
    decreases b.len(),
{
    if b.len() == 0 {
        b
    } else if b[0] == ESCAPE && b.len() >= 2 {
        seq![b[1]] + unescape(b.skip(2))
    } else {
        seq![b[0]] + unescape(b.drop_first())
    }
}

proof fn lemma_unescape_plain_prefix(b: Seq<u8>, k: int)
    requires
        0 <= k <= b.len(),
        forall|j: int| 0 <= j < k ==> !is_special(#[trigger] b[j]),
    ensures
        well_escaped(b) == well_escaped(b.skip(k)),
        unescape(b) == b.take(k) + unescape(b.skip(k)),
    decreases k,
{
    if k == 0 {
        assert(b.skip(0) =~= b);
        assert(b.take(0) + unescape(b) =~= unescape(b));
    } else {
        let t = b.drop_first();
        assert(!is_special(b[0]));
        assert forall|j: int| 0 <= j < k - 1 implies !is_special(#[trigger] t[j]) by {
            assert(t[j] == b[j + 1]);
            assert(!is_special(b[j + 1]));
        }
        lemma_unescape_plain_prefix(t, k - 1);
        assert(t.skip(k - 1) =~= b.skip(k));
        assert(seq![b[0]] + t.take(k - 1) =~= b.take(k));
        assert(unescape(b) == seq![b[0]] + unescape(t));
        assert(unescape(b) =~= b.take(k) + unescape(b.skip(k)));
    }
}

/// An escaped tag is normalized exactly as its unescaped form: an escape pair gives the same
/// character as the byte it escapes written alone.
pub proof fn escaped_tag_normalizes_as_unescaped(b: Seq<u8>)
    requires
        well_escaped(b),
    ensures
        normalize_escaped(b) == normalize_unescaped(unescape(b)),
    decreases b.len(),
{
    lemma_find_special(b);
    let i = find_special(b);
    lemma_unescape_plain_prefix(b, i);
    if i >= b.len() {
        assert(b.skip(i) =~= Seq::<u8>::empty());
        assert(b.take(i) =~= b);
        assert(unescape(b) =~= b);
    } else {
        let r = b.skip(i);
        assert(r[0] == b[i]);
        assert(well_escaped(r));
        assert(r[0] == ESCAPE);
        assert(r.len() >= 2 && is_special(r[1]));
        let rest = b.skip(i + 2);
        assert(r.skip(2) =~= rest);
        assert(unescape(r) == seq![r[1]] + unescape(rest));
        escaped_tag_normalizes_as_unescaped(rest);
        lemma_find_special(b.skip(i + 1));
        assert(b.skip(i + 1)[0] == b[i + 1]);
        assert(second_special(b, i) == i + 1);
        assert(b.take(i + 1 - 1) =~= b.take(i));
        assert(b.skip(i + 1 + 1) =~= rest);
        let u = unescape(b);
        assert(u =~= b.take(i) + seq![b[i + 1]] + unescape(rest));
        lemma_find_special(u);
        assert forall|j: int| 0 <= j < i implies !is_special(#[trigger] u[j]) by {
            assert(u[j] == b[j]);
        }
        assert(u[i] == b[i + 1]);
        lemma_find_special_eq(u, i);
        assert(u.take(i) =~= b.take(i));
        assert(u.skip(i + 1) =~= unescape(rest));
    }
}

/// Well-escaped UTF-8 can be cut before each escaped byte: the escape before it is a character
/// of its own.
pub proof fn well_escaped_is_sliceable(b: Seq<u8>)
    requires
        valid_utf8(b),
        well_escaped(b),
    ensures
        escaped_sliceable(b),
    decreases b.len(),
{
    lemma_find_special(b);
    let i = find_special(b);
    lemma_unescape_plain_prefix(b, i);
    if i < b.len() {
        let r = b.skip(i);
        assert(r[0] == b[i]);
        assert(r[1] == b[i + 1]);
        lemma_find_special(b.skip(i + 1));
        assert(b.skip(i + 1)[0] == b[i + 1]);
        assert(second_special(b, i) == i + 1);
        lemma_ascii_boundaries(b, i);
        lemma_ascii_boundaries(b, i + 1);
        lemma_boundary_in_suffix(b, i + 2, i + 2);
        assert(b.subrange(i + 2, b.len() as int) =~= b.skip(i + 2));
        assert(r.skip(2) =~= b.skip(i + 2));
        well_escaped_is_sliceable(b.skip(i + 2));
    }
}

/// The same for tags: an escaped tag whose text is well escaped can be normalized, and it gives
/// the same normalized text as the unescaped tag whose text is its unescaped form. So
/// `NormalizedTag::chars` accepts both and returns the same characters for them.
pub proof fn escaped_tag_view_normalizes_as_unescaped(c: Seq<char>, u: Seq<char>)
    requires
        well_escaped(vstd::utf8::encode_utf8(c)),
        vstd::utf8::encode_utf8(u) == unescape(vstd::utf8::encode_utf8(c)),
    ensures
        tag_normalizable(TagView::Escaped(c)),
        tag_normalizable(TagView::Unescaped(u)),
        normalize_tag_view(TagView::Escaped(c)) == normalize_tag_view(TagView::Unescaped(u)),
{
    vstd::utf8::encode_utf8_valid_utf8(c);
    well_escaped_is_sliceable(vstd::utf8::encode_utf8(c));
    escaped_tag_normalizes_as_unescaped(vstd::utf8::encode_utf8(c));
}

proof fn lemma_find_special_eq(s: Seq<u8>, i: int)
    requires
        0 <= i < s.len(),
        is_special(s[i]),
        forall|j: int| 0 <= j < i ==> !is_special(#[trigger] s[j]),
    ensures
        find_special(s) == i,
{
    super::tag::lemma_find_special_is(s, i);
}

/// Normalization changes a character only when it is `/` or white space: `/` becomes `╱`
/// (U+2571), a tab or any other white space becomes `␣` (U+2423), and every other character,
/// the backslash and letters of any case among them, is kept as it is.
pub proof fn normalization_changes_only_slash_and_space(c: char)
    ensures
        c == '/' ==> map_char(c) == '\u{2571}',
        is_white_space(c) ==> map_char(c) == '\u{2423}',
        c == '\t' ==> map_char(c) == '\u{2423}',
        c != '/' && !is_white_space(c) ==> map_char(c) == c,
{
}

proof fn lemma_ascii_absent(c: Seq<char>, d: char)
    requires
        (d as u32) < 128,
        forall|i: int| 0 <= i < c.len() ==> #[trigger] c[i] != d,
    ensures
        forall|j: int|
            0 <= j < vstd::utf8::encode_utf8(c).len() ==> #[trigger] vstd::utf8::encode_utf8(c)[j]
                != d as u32 as u8,
{
    lemma_find_first_is(c, d, c.len() as int);
    lemma_find_ascii(c, d);
    assert(c.take(c.len() as int) =~= c);
    lemma_find_byte(vstd::utf8::encode_utf8(c), d as u32 as u8);
}

/// A tag whose text holds no backslash, `/` or white space and is already in NFKC is written as it
/// is, escaped or not.
pub proof fn plain_normalized_text_is_kept(c: Seq<char>)
    requires
        forall|i: int| 0 <= i < c.len() ==> #[trigger] c[i] != '\\' && c[i] != '/' && !is_white_space(c[i]),
        nfkc(c) == c,
    ensures
        normalize_tag_view(TagView::Unescaped(c)) == c,
        normalize_tag_view(TagView::Escaped(c)) == c,
{
    let e = vstd::utf8::encode_utf8(c);
    assert(is_white_space('\t'));
    lemma_ascii_absent(c, '\\');
    lemma_ascii_absent(c, '/');
    lemma_ascii_absent(c, '\t');
    assert forall|j: int| 0 <= j < e.len() implies !is_special(#[trigger] e[j]) by {
        assert(e[j] != ('\\' as u32 as u8));
        assert(e[j] != ('/' as u32 as u8));
        assert(e[j] != ('\t' as u32 as u8));
    }
    super::tag::lemma_find_special_is(e, e.len() as int);
    vstd::utf8::encode_utf8_decode_utf8(c);
    assert forall|i: int| 0 <= i < c.len() implies map_char(c[i]) == c[i] by {}
    assert(map_chars(c) =~= c);
}

} // verus!
