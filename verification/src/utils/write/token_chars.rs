//! Normalized output of whole tokens and token streams.
use vstd::prelude::*;
use crate::tokenizer_core::{TAG_CHAR, TOKEN_CHAR, Tag, TagView, Token, TokenPosition, TokenStream, TokenView, tag_views};
use super::tag::{normalize_tag_view, push_normalized_tag, tag_normalizable};
use super::unicode::string_from_chars;

verus! {

/// The tags of a token, each preceded by `TAG`.
pub open spec fn tags_text(tags: Seq<TagView>) -> Seq<char>
    decreases tags.len(),
{
    if tags.len() == 0 {
        seq![]
    } else {
        seq![TAG_CHAR] + normalize_tag_view(tags[0]) + tags_text(tags.drop_first())
    }
}

/// The normalized text of a token: its surface, then each tag after a `TAG`.
pub open spec fn normalize_token_view(t: TokenView) -> Seq<char> {
    normalize_tag_view(t.surface) + tags_text(t.tags)
}

/// Every tag of the token, and its surface, can be normalized.
pub open spec fn token_normalizable(t: TokenView) -> bool {
    &&& tag_normalizable(t.surface)
    &&& forall|i: int| 0 <= i < t.tags.len() ==> #[trigger] tag_normalizable(t.tags[i])
}

/// The character written after a token: `TOKEN` after a normal token and a newline after the
/// end of a sentence.
pub open spec fn position_delim(p: TokenPosition) -> char {
    match p {
        TokenPosition::Normal => TOKEN_CHAR,
        TokenPosition::Eos => '\n',
    }
}

/// The normalized text of a token stream.
pub open spec fn normalize_stream_view(items: Seq<(TokenPosition, TokenView)>) -> Seq<char>
    decreases items.len(),
{
    if items.len() == 0 {
        seq![]
    } else {
        normalize_token_view(items[0].1) + seq![position_delim(items[0].0)] + normalize_stream_view(
            items.drop_first(),
        )
    }
}

/// Every token of the stream can be normalized.
pub open spec fn stream_normalizable(items: Seq<(TokenPosition, TokenView)>) -> bool {
    forall|i: int| 0 <= i < items.len() ==> #[trigger] token_normalizable(items[i].1)
}

/// Appends the normalization of a token.
pub fn push_normalized_token<'o, T: Token<'o>>(out: &mut Vec<char>, token: &T)
    requires
        token_normalizable(token.token_view()),
    ensures
        final(out)@ == old(out)@ + normalize_token_view(token.token_view()),
{
    let ghost tv = token.token_view();
    let ghost base = out@;
    let surface = token.surface();
    push_normalized_tag(out, surface);
    let tags = token.tags();
    assert(tag_views(tags@) == tv.tags);
    let mut k: usize = 0;
    assert(tv.tags.skip(0) =~= tv.tags);
    while k < tags.len()
        invariant
            k <= tags@.len(),
            tv == token.token_view(),
            token_normalizable(tv),
            tag_views(tags@) == tv.tags,
            base + normalize_token_view(tv) == out@ + tags_text(tv.tags.skip(k as int)),
        decreases tags@.len() - k,
    {
        assert(tv.tags[k as int] == tags@[k as int]@);
        out.push(TAG_CHAR);
        push_normalized_tag(out, tags[k]);
        assert(tv.tags.skip(k as int).drop_first() =~= tv.tags.skip(k as int + 1));
        k = k + 1;
    }
    assert(tv.tags.skip(k as int) =~= Seq::<TagView>::empty());
}

/// A token to be written out, normalized: `NormalizedTag` applied to its surface and tags, with
/// `TAG` between them.
pub struct NormalizedToken<T> {
    token: T,
}

impl<T> NormalizedToken<T> {
    pub fn new(token: T) -> (r: NormalizedToken<T>)
        ensures
            r.token() == token,
    {
        NormalizedToken { token }
    }

    /// The token to be normalized.
    pub closed spec fn token(self) -> T {
        self.token
    }
}

impl<T> NormalizedToken<T> {
    /// The normalized characters.
    pub fn chars<'o>(&self) -> (r: Vec<char>)
        where T: Token<'o>,
        requires
            token_normalizable(self.token().token_view()),
        ensures
            r@ == normalize_token_view(self.token().token_view()),
    {
        let mut out: Vec<char> = Vec::new();
        push_normalized_token(&mut out, &self.token);
        out
    }

    /// The normalized text.
    pub fn to_string<'o>(&self) -> (r: String)
        where T: Token<'o>,
        requires
            token_normalizable(self.token().token_view()),
        ensures
            r@ == normalize_token_view(self.token().token_view()),
    {
        let v = self.chars();
        string_from_chars(&v)
    }
}

/// Applies the Unicode normalization and special character replacement to a token.
///
/// Alias to `NormalizedToken::new()`.
pub fn normalize_token<T>(token: T) -> (r: NormalizedToken<T>)
    ensures
        r.token() == token,
{
    NormalizedToken::new(token)
}

/// A token stream to be written out: `NormalizedToken` applied to each token, each followed by
/// `TOKEN`, or by a newline when it ends a sentence.
pub struct NormalizedTokenStream<S> {
    stream: S,
}

impl<S> NormalizedTokenStream<S> {
    pub fn new(stream: S) -> (r: NormalizedTokenStream<S>)
        ensures
            r.stream() == stream,
    {
        NormalizedTokenStream { stream }
    }

    /// The stream to be normalized.
    pub closed spec fn stream(self) -> S {
        self.stream
    }
}

impl<S> NormalizedTokenStream<S> {
    /// The normalized characters.
    pub fn chars<'o>(&self) -> (r: Vec<char>)
        where S: TokenStream<'o>,
        requires
            stream_normalizable(self.stream().stream_view()),
        ensures
            r@ == normalize_stream_view(self.stream().stream_view()),
    {
        let ghost sv = self.stream.stream_view();
        let tokens = self.stream.tokens();
        let mut out: Vec<char> = Vec::new();
        let mut k: usize = 0;
        assert(sv.skip(0) =~= sv);
        assert(tokens@.len() == sv.len());
        assert(forall|i: int|
                    0 <= i < tokens@.len() ==> #[trigger] tokens@[i].0 == sv[i].0
                        && tokens@[i].1.token_view() == sv[i].1);
        while k < tokens.len()
            invariant
                k <= tokens@.len(),
                sv == self.stream().stream_view(),
                stream_normalizable(sv),
                tokens@.len() == sv.len(),
                forall|i: int|
                    0 <= i < tokens@.len() ==> #[trigger] tokens@[i].0 == sv[i].0
                        && tokens@[i].1.token_view() == sv[i].1,
                normalize_stream_view(sv) == out@ + normalize_stream_view(sv.skip(k as int)),
            decreases tokens@.len() - k,
        {
            let (pos, ref tok) = tokens[k];
            assert(tokens@[k as int].1.token_view() == sv[k as int].1);
            assert(token_normalizable(sv[k as int].1));
            push_normalized_token(&mut out, tok);
            match pos {
                TokenPosition::Normal => out.push(TOKEN_CHAR),
                TokenPosition::Eos => out.push('\n'),
            }
            assert(sv.skip(k as int).drop_first() =~= sv.skip(k as int + 1));
            k = k + 1;
        }
        assert(sv.skip(k as int) =~= Seq::<(TokenPosition, TokenView)>::empty());
        out
    }

    /// The normalized text.
    pub fn to_string<'o>(&self) -> (r: String)
        where S: TokenStream<'o>,
        requires
            stream_normalizable(self.stream().stream_view()),
        ensures
            r@ == normalize_stream_view(self.stream().stream_view()),
    {
        let v = self.chars();
        string_from_chars(&v)
    }
}

/// Applies the Unicode normalization and special character replacement to a token stream.
///
/// Alias to `NormalizedTokenStream::new()`.
pub fn normalize_token_stream<S>(stream: S) -> (r: NormalizedTokenStream<S>)
    ensures
        r.stream() == stream,
{
    NormalizedTokenStream::new(stream)
}

} // verus!
