//! A tokenizer that does nothing but parse its input by the delimiters:
//! tokens are separated by `TOKEN`, and a token's surface and tags by `TAG`.
//!
//! It does not recognize newlines; it is meant for testing.
use vstd::prelude::*;
use vstd::utf8::*;
use vstd::string::*;
use crate::tokenizer_core::{TAG, TAG_CHAR, TOKEN, TOKEN_CHAR, Tag, TagView, tag_views, Token, TokenPosition, TokenStream, TokenView};
use crate::text::{
    find_byte_from, join_seq, lemma_ascii_boundaries, lemma_find_byte, lemma_join_split, lemma_split_ascii,
    lemma_split_bytes, lemma_split_seq, split_bytes, split_seq, substr,
};
use crate::utils::str_utils::{ends_with_eos_marker, spec_ends_with_eos_marker};

verus! {

broadcast use vstd::utf8::encode_utf8_valid_utf8, vstd::utf8::encode_utf8_decode_utf8;

/// The tags view of a sequence of unescaped pieces.
pub open spec fn unescaped_views(pieces: Seq<Seq<u8>>) -> Seq<TagView> {
    pieces.map_values(|p: Seq<u8>| TagView::Unescaped(decode_utf8(p)))
}

/// The token that a piece between two `TOKEN`s stands for.
pub open spec fn noop_token_view(piece: Seq<u8>) -> TokenView {
    let parts = split_bytes(piece, TAG);
    TokenView {
        surface: TagView::Unescaped(decode_utf8(parts[0])),
        tags: unescaped_views(parts.drop_first()),
    }
}

/// The position of the `k`-th of the pieces.
pub open spec fn noop_position(pieces: Seq<Seq<u8>>, k: int) -> TokenPosition {
    if k == pieces.len() - 1 || spec_ends_with_eos_marker(decode_utf8(pieces[k])) {
        TokenPosition::Eos
    } else {
        TokenPosition::Normal
    }
}

/// The tokens of an input text.
pub open spec fn noop_stream_view(input: Seq<u8>) -> Seq<(TokenPosition, TokenView)> {
    let pieces = split_bytes(input, TOKEN);
    Seq::new(pieces.len(), |k: int| (noop_position(pieces, k), noop_token_view(pieces[k])))
}

#[derive(Debug, Clone, Copy)]
pub struct NoopTokenizer;

impl NoopTokenizer {
    /// Starts tokenization; never fails.
    pub fn builder(&mut self) -> (r: NoopTokenizer) {
        NoopTokenizer
    }

    /// Wraps the input as a stream; never fails.
    pub fn tokenize<'s>(&mut self, input: &'s str) -> (r: NoopStream<'s>)
        ensures
            r.input == input,
    {
        NoopStream { input }
    }
}

#[derive(Debug, Clone, Copy)]
pub struct NoopStream<'s> {
    pub input: &'s str,
}

impl<'s> NoopStream<'s> {
    /// An iterator over the tokens of the input.
    pub fn iter(&self) -> (r: NoopTokenIter<'s>)
        ensures
            r.remaining() == split_bytes(self.input.spec_bytes(), TOKEN),
    {
        proof {
            is_char_boundary_start_end_of_seq(self.input.spec_bytes());
            assert(self.input.spec_bytes().skip(0) =~= self.input.spec_bytes());
        }
        NoopTokenIter { haystack: Some(self.input), start: 0 }
    }
}

impl<'s> TokenStream<'s> for NoopStream<'s> {
    type Tok = NoopToken<'s>;

    open spec fn stream_view(&self) -> Seq<(TokenPosition, TokenView)> {
        noop_stream_view(self.input.spec_bytes())
    }

    fn tokens(&self) -> (r: Vec<(TokenPosition, NoopToken<'s>)>) {
        let ghost pieces = split_bytes(self.input.spec_bytes(), TOKEN);
        let mut it = self.iter();
        let mut out: Vec<(TokenPosition, NoopToken<'s>)> = Vec::new();
        proof {
            lemma_split_bytes(self.input.spec_bytes(), TOKEN);
        }
        loop
            invariant
                out@.len() + it.remaining().len() == pieces.len(),
                it.remaining() == pieces.skip(out@.len() as int),
                forall|k: int|
                    0 <= k < out@.len() ==> #[trigger] out@[k].0 == noop_position(pieces, k)
                        && out@[k].1.token_view() == noop_token_view(pieces[k]),
            ensures
                out@.len() == pieces.len(),
                forall|k: int|
                    0 <= k < out@.len() ==> #[trigger] out@[k].0 == noop_position(pieces, k)
                        && out@[k].1.token_view() == noop_token_view(pieces[k]),
            decreases it.remaining().len(),
        {
            let ghost before = it.remaining();
            match it.next() {
                Some(item) => {
                    proof {
                        assert(before[0] == pieces[out@.len() as int]);
                        assert(it.remaining() =~= pieces.skip(out@.len() as int + 1));
                    }
                    out.push(item);
                },
                None => {
                    break;
                },
            }
        }
        assert(out@.len() == pieces.len());
        out
    }
}

/// Iterator over the tokens of a `NoopStream`.
#[derive(Debug)]
pub struct NoopTokenIter<'s> {
    haystack: Option<&'s str>,
    start: usize,
}

impl<'s> NoopTokenIter<'s> {
    #[verifier::type_invariant]
    spec fn inv(self) -> bool {
        match self.haystack {
            Some(h) => self.start <= h.spec_bytes().len() && is_char_boundary(
                h.spec_bytes(),
                self.start as int,
            ),
            None => true,
        }
    }

    /// The pieces between `TOKEN`s that are still to come.
    pub closed spec fn remaining(self) -> Seq<Seq<u8>> {
        match self.haystack {
            Some(h) => split_bytes(h.spec_bytes().skip(self.start as int), TOKEN),
            None => seq![],
        }
    }

    /// The next token with its position; `None` once the input is used up, and from then on.
    ///
    /// A token is at the end of a sentence when it is the last one or when its text ends with an
    /// end-of-sentence mark.
    pub fn next(&mut self) -> (r: Option<(TokenPosition, NoopToken<'s>)>)
        ensures
            old(self).remaining().len() == 0 ==> r is None && final(self).remaining().len() == 0,
            old(self).remaining().len() > 0 ==> {
                &&& r matches Some((pos, tok))
                &&& final(self).remaining() == old(self).remaining().drop_first()
                &&& pos == noop_position(old(self).remaining(), 0)
                &&& tok.token_view() == noop_token_view(old(self).remaining()[0])
            },
    {
        proof {
            use_type_invariant(&*self);
        }
        let h = match self.haystack {
            None => {
                return None;
            },
            Some(h) => h,
        };
        let start = self.start;
        let bytes = h.as_bytes();
        let ghost hb = h.spec_bytes();
        let ghost rest = hb.skip(start as int);
        let idx = find_byte_from(bytes, start, TOKEN);
        proof {
            lemma_find_byte(rest, TOKEN);
            lemma_split_bytes(rest, TOKEN);
            is_char_boundary_start_end_of_seq(hb);
        }
        let token;
        let last;
        if idx < bytes.len() {
            proof {
                lemma_ascii_boundaries(hb, idx as int);
            }
            token = substr(h, start, idx);
            *self = NoopTokenIter { haystack: Some(h), start: idx + 1 };
            last = false;
            proof {
                assert(rest.skip(idx - start + 1) =~= hb.skip(idx as int + 1));
                lemma_split_bytes(hb.skip(idx as int + 1), TOKEN);
            }
        } else {
            token = substr(h, start, bytes.len());
            *self = NoopTokenIter { haystack: None, start: 0 };
            last = true;
        }
        proof {
            assert(token.spec_bytes() =~= split_bytes(rest, TOKEN)[0]);
        }
        let position = if last || ends_with_eos_marker(token) {
            TokenPosition::Eos
        } else {
            TokenPosition::Normal
        };
        Some((position, NoopToken::from_piece(token)))
    }
}

/// A token of the `NoopTokenizer`.
#[derive(Debug, Clone, Copy)]
pub struct NoopToken<'s> {
    pub surface: &'s str,
    pub tags: Option<&'s str>,
}

impl<'s> NoopToken<'s> {
    /// Splits a piece at its first `TAG` into surface and tags.
    fn from_piece(token: &'s str) -> (r: NoopToken<'s>)
        ensures
            r.token_view() == noop_token_view(token.spec_bytes()),
    {
        let ghost tb = token.spec_bytes();
        let bytes = token.as_bytes();
        let t = find_byte_from(bytes, 0, TAG);
        proof {
            assert(tb.skip(0) =~= tb);
            lemma_find_byte(tb, TAG);
            is_char_boundary_start_end_of_seq(tb);
        }
        if t < bytes.len() {
            proof {
                lemma_ascii_boundaries(tb, t as int);
            }
            let surface = substr(token, 0, t);
            let tags = substr(token, t + 1, bytes.len());
            proof {
                assert(surface.spec_bytes() =~= tb.take(t as int));
                assert(tags.spec_bytes() =~= tb.skip(t as int + 1));
                assert(split_bytes(tb, TAG).drop_first() =~= split_bytes(tb.skip(t as int + 1), TAG));
            }
            assert(split_bytes(tb, TAG)[0] == tb.take(t as int));
            NoopToken { surface, tags: Some(tags) }
        } else {
            assert(split_bytes(tb, TAG) =~= seq![tb]);
            assert(split_bytes(tb, TAG).drop_first() =~= Seq::<Seq<u8>>::empty());
            assert(unescaped_views(Seq::<Seq<u8>>::empty()) =~= Seq::<TagView>::empty());
            NoopToken { surface: token, tags: None }
        }
    }
}

impl<'s> Token<'s> for NoopToken<'s> {
    open spec fn token_view(&self) -> TokenView {
        TokenView {
            surface: TagView::Unescaped(self.surface@),
            tags: match self.tags {
                Some(t) => unescaped_views(split_bytes(t.spec_bytes(), TAG)),
                None => seq![],
            },
        }
    }

    fn surface(&self) -> (r: Tag<'s>) {
        Tag::Unescaped(self.surface)
    }

    fn tags(&self) -> (r: Vec<Tag<'s>>) {
        let mut it = self.tag_iter();
        let ghost all = it.remaining();
        let mut out: Vec<Tag<'s>> = Vec::new();
        loop
            invariant
                all == match self.tags {
                    Some(t) => split_bytes(t.spec_bytes(), TAG),
                    None => Seq::<Seq<u8>>::empty(),
                },
                out@.len() + it.remaining().len() == all.len(),
                it.remaining() == all.skip(out@.len() as int),
                forall|k: int|
                    0 <= k < out@.len() ==> #[trigger] out@[k]@ == TagView::Unescaped(decode_utf8(all[k])),
            ensures
                out@.len() == all.len(),
                forall|k: int|
                    0 <= k < out@.len() ==> #[trigger] out@[k]@ == TagView::Unescaped(decode_utf8(all[k])),
            decreases it.remaining().len(),
        {
            let ghost before = it.remaining();
            match it.next() {
                Some(tag) => {
                    proof {
                        assert(before[0] == all[out@.len() as int]);
                        assert(it.remaining() =~= all.skip(out@.len() as int + 1));
                    }
                    out.push(tag);
                },
                None => {
                    break;
                },
            }
        }
        assert(tag_views(out@) =~= unescaped_views(all));
        out
    }
}

impl<'s> NoopToken<'s> {
    /// An iterator over the tags.
    pub fn tag_iter(&self) -> (r: NoopTags<'s>)
        ensures
            r.remaining() == match self.tags {
                Some(t) => split_bytes(t.spec_bytes(), TAG),
                None => Seq::<Seq<u8>>::empty(),
            },
    {
        match self.tags {
            Some(t) => {
                proof {
                    is_char_boundary_start_end_of_seq(t.spec_bytes());
                    assert(t.spec_bytes().skip(0) =~= t.spec_bytes());
                }
                NoopTags { haystack: Some(t), start: 0 }
            },
            None => NoopTags { haystack: None, start: 0 },
        }
    }
}

/// Iterator over the tags of a `NoopToken`.
#[derive(Debug)]
pub struct NoopTags<'s> {
    haystack: Option<&'s str>,
    start: usize,
}

impl<'s> NoopTags<'s> {
    #[verifier::type_invariant]
    spec fn inv(self) -> bool {
        match self.haystack {
            Some(h) => self.start <= h.spec_bytes().len() && is_char_boundary(
                h.spec_bytes(),
                self.start as int,
            ),
            None => true,
        }
    }

    /// The tags that are still to come.
    pub closed spec fn remaining(self) -> Seq<Seq<u8>> {
        match self.haystack {
            Some(h) => split_bytes(h.spec_bytes().skip(self.start as int), TAG),
            None => seq![],
        }
    }

    /// The next tag; `None` once all are used up, and from then on.
    pub fn next(&mut self) -> (r: Option<Tag<'s>>)
        ensures
            old(self).remaining().len() == 0 ==> r is None && final(self).remaining().len() == 0,
            old(self).remaining().len() > 0 ==> {
                &&& r matches Some(tag)
                &&& final(self).remaining() == old(self).remaining().drop_first()
                &&& tag@ == TagView::Unescaped(decode_utf8(old(self).remaining()[0]))
            },
    {
        proof {
            use_type_invariant(&*self);
        }
        let h = match self.haystack {
            None => {
                return None;
            },
            Some(h) => h,
        };
        let start = self.start;
        let bytes = h.as_bytes();
        let ghost hb = h.spec_bytes();
        let ghost rest = hb.skip(start as int);
        let idx = find_byte_from(bytes, start, TAG);
        proof {
            lemma_find_byte(rest, TAG);
            is_char_boundary_start_end_of_seq(hb);
        }
        let tag;
        if idx < bytes.len() {
            proof {
                lemma_ascii_boundaries(hb, idx as int);
            }
            tag = substr(h, start, idx);
            *self = NoopTags { haystack: Some(h), start: idx + 1 };
            proof {
                assert(rest.skip(idx - start + 1) =~= hb.skip(idx as int + 1));
            }
        } else {
            tag = substr(h, start, bytes.len());
            *self = NoopTags { haystack: None, start: 0 };
        }
        proof {
            assert(tag.spec_bytes() =~= split_bytes(rest, TAG)[0]);
        }
        Some(Tag::Unescaped(tag))
    }
}

} // verus!

verus! {

/// The characters of a tag, whatever its kind.
pub open spec fn raw_tag_text(v: TagView) -> Seq<char> {
    match v {
        TagView::Escaped(c) => c,
        TagView::Unescaped(c) => c,
    }
}

/// A token put back together: its surface, then each tag after a `TAG`.
pub open spec fn raw_token_text(t: TokenView) -> Seq<char> {
    join_seq(
        seq![raw_tag_text(t.surface)] + t.tags.map_values(|v: TagView| raw_tag_text(v)),
        TAG_CHAR,
    )
}

/// A piece between two `TOKEN`s, read as a token and put back together, is the piece itself.
proof fn lemma_token_rebuilds(pc: Seq<char>)
    ensures
        raw_token_text(noop_token_view(encode_utf8(pc))) == pc,
{
    let pb = encode_utf8(pc);
    lemma_split_ascii(pc, '/');
    lemma_split_seq(pc, '/');
    let cparts = split_seq(pc, '/');
    let bparts = split_bytes(pb, TAG);
    assert(bparts == cparts.map_values(|p: Seq<char>| encode_utf8(p)));
    let tv = noop_token_view(pb);
    let pieces = seq![raw_tag_text(tv.surface)] + tv.tags.map_values(|v: TagView| raw_tag_text(v));
    assert(raw_tag_text(tv.surface) == cparts[0]) by {
        assert(bparts[0] == encode_utf8(cparts[0]));
    }
    assert forall|j: int| 0 <= j < cparts.len() implies pieces[j] == cparts[j] by {
        if j > 0 {
            assert(bparts[j] == encode_utf8(cparts[j]));
            assert(bparts.drop_first()[j - 1] == bparts[j]);
        }
    }
    assert(pieces =~= cparts);
    lemma_join_split(pc, '/');
}

/// Reading a text with the noop tokenizer and putting each token back together, with `TOKEN`
/// between tokens, gives back the text: the tokenizer only parses its input by the delimiters.
pub proof fn noop_tokens_rebuild_input(input: Seq<char>)
    ensures
        join_seq(
            noop_stream_view(encode_utf8(input)).map_values(
                |it: (TokenPosition, TokenView)| raw_token_text(it.1),
            ),
            TOKEN_CHAR,
        ) == input,
{
    let b = encode_utf8(input);
    lemma_split_ascii(input, '\t');
    let cpieces = split_seq(input, '\t');
    let bpieces = split_bytes(b, TOKEN);
    let texts = noop_stream_view(b).map_values(|it: (TokenPosition, TokenView)| raw_token_text(it.1));
    assert forall|k: int| 0 <= k < cpieces.len() implies texts[k] == cpieces[k] by {
        assert(bpieces[k] == encode_utf8(cpieces[k]));
        lemma_token_rebuilds(cpieces[k]);
    }
    assert(texts =~= cpieces);
    lemma_join_split(input, '\t');
}

/// The noop tokens of a text are its pieces between tabs, as `str::split('\t')` gives them: one
/// token per piece, whose surface is the piece up to its first `/` and whose tags are the rest of
/// its pieces between `/`s; a token ends a sentence when it is the last or its piece ends with an
/// end-of-sentence mark. The empty text gives one empty token.
pub proof fn noop_tokens_are_the_split_pieces(input: Seq<char>)
    ensures
        ({
            let f = split_seq(input, '\t');
            let t = noop_stream_view(encode_utf8(input));
            &&& t.len() == f.len()
            &&& forall|k: int|
                0 <= k < f.len() ==> {
                    let parts = split_seq(f[k], '/');
                    &&& (#[trigger] t[k]).1.surface == TagView::Unescaped(parts[0])
                    &&& t[k].1.tags == parts.drop_first().map_values(
                        |p: Seq<char>| TagView::Unescaped(p),
                    )
                    &&& (t[k].0 is Eos) == (k == f.len() - 1 || spec_ends_with_eos_marker(f[k]))
                }
        }),
{
    let b = encode_utf8(input);
    lemma_split_ascii(input, '\t');
    let f = split_seq(input, '\t');
    let bp = split_bytes(b, TOKEN);
    let t = noop_stream_view(b);
    assert forall|k: int| 0 <= k < f.len() implies {
        let parts = split_seq(f[k], '/');
        &&& (#[trigger] t[k]).1.surface == TagView::Unescaped(parts[0])
        &&& t[k].1.tags == parts.drop_first().map_values(|p: Seq<char>| TagView::Unescaped(p))
        &&& (t[k].0 is Eos) == (k == f.len() - 1 || spec_ends_with_eos_marker(f[k]))
    } by {
        assert(bp[k] == encode_utf8(f[k]));
        lemma_split_ascii(f[k], '/');
        lemma_split_seq(f[k], '/');
        let parts = split_seq(f[k], '/');
        let bparts = split_bytes(bp[k], TAG);
        assert(bparts == parts.map_values(|p: Seq<char>| encode_utf8(p)));
        assert(bparts[0] == encode_utf8(parts[0]));
        assert(unescaped_views(bparts.drop_first()) =~= parts.drop_first().map_values(
            |p: Seq<char>| TagView::Unescaped(p),
        )) by {
            assert forall|j: int| 0 <= j < parts.len() - 1 implies bparts.drop_first()[j]
                == encode_utf8(parts.drop_first()[j]) by {
                assert(bparts[j + 1] == encode_utf8(parts[j + 1]));
            }
        }
    }
}

} // verus!
