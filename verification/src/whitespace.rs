//! The whitespace tokenizer: tokens are the maximal runs of characters that are not white space;
//! a token ends a sentence when it ends with an end-of-sentence mark or when nothing but white
//! space follows it on its line; the surface of a token is what precedes its first `/`, and its
//! tags are what follows, split at each further `/`.
use vstd::prelude::*;
use vstd::string::*;
use crate::tokenizer_core::{Tag, TagView, Token, TokenPosition, TokenStream, TokenView, tag_views};
use crate::text::{
    char_slice, char_table, find_first, find_byte_from, lemma_find_byte, lemma_find_first,
    lemma_find_first_is, lemma_find_first_concat, lemma_find_ascii, lemma_prefix_boundary,
    lemma_ascii_boundaries,
    split_seq, split_str, str_views, substr,
};
use crate::utils::str_utils::{
    documented_eos_mark, end_of_sentence_marks_are_the_documented_ones, ends_with_eos_marker,
    spec_ends_with_eos_marker,
};
use crate::utils::write::unicode::{char_is_whitespace, is_white_space};

verus! {

broadcast use vstd::utf8::encode_utf8_valid_utf8, vstd::utf8::encode_utf8_decode_utf8;

/// Index of the first character of `s` that is not white space, or `s.len()`.
pub open spec fn skip_space(s: Seq<char>) -> int
    decreases s.len(),
{
    if s.len() == 0 {
        0
    } else if !is_white_space(s[0]) {
        0
    } else {
        1 + skip_space(s.drop_first())
    }
}

/// Index of the first white-space character of `s`, or `s.len()`.
pub open spec fn word_end(s: Seq<char>) -> int
    decreases s.len(),
{
    if s.len() == 0 {
        0
    } else if is_white_space(s[0]) {
        0
    } else {
        1 + word_end(s.drop_first())
    }
}

/// Nothing but white space comes before the next newline (or the end) of `s`.
pub open spec fn line_rest_blank(s: Seq<char>) -> bool {
    forall|k: int| 0 <= k < find_first(s, '\n') ==> is_white_space(#[trigger] s[k])
}

/// The words of a text, in order, each with its position.
pub open spec fn ws_words(s: Seq<char>) -> Seq<(TokenPosition, Seq<char>)>
    decreases s.len(),
{
    let i = skip_space(s);
    if i >= s.len() {
        seq![]
    } else {
        proof {
            lemma_skip_space(s);
            lemma_word_end(s.skip(i));
        }
        let rest = s.skip(i);
        let j = word_end(rest);
        let word = rest.take(j);
        let pos = if spec_ends_with_eos_marker(word) || line_rest_blank(rest.skip(j)) {
            TokenPosition::Eos
        } else {
            TokenPosition::Normal
        };
        seq![(pos, word)] + ws_words(rest.skip(j))
    }
}

/// Length of `s` without its trailing white space.
pub open spec fn trim_end_len(s: Seq<char>) -> int
    decreases s.len(),
{
    if s.len() == 0 {
        0
    } else if is_white_space(s.last()) {
        trim_end_len(s.drop_last())
    } else {
        s.len() as int
    }
}

/// `s` without its leading and trailing white space.
pub open spec fn spec_trim(s: Seq<char>) -> Seq<char> {
    if skip_space(s) >= s.len() {
        seq![]
    } else {
        s.subrange(skip_space(s), trim_end_len(s))
    }
}

/// Unescaped tags with the given characters.
pub open spec fn unescaped_tags(pieces: Seq<Seq<char>>) -> Seq<TagView> {
    pieces.map_values(|p: Seq<char>| TagView::Unescaped(p))
}

/// The token that a word stands for: the surface before the first `/`, the tags after it.
pub open spec fn ws_token_view(word: Seq<char>) -> TokenView {
    let parts = split_seq(word, '/');
    TokenView { surface: TagView::Unescaped(parts[0]), tags: unescaped_tags(parts.drop_first()) }
}

/// The tokens of a text.
pub open spec fn ws_stream_view(s: Seq<char>) -> Seq<(TokenPosition, TokenView)> {
    ws_words(s).map_values(|w: (TokenPosition, Seq<char>)| (w.0, ws_token_view(w.1)))
}

pub proof fn lemma_skip_space(s: Seq<char>)
    ensures
        0 <= skip_space(s) <= s.len(),
        skip_space(s) < s.len() ==> !is_white_space(s[skip_space(s)]),
        forall|j: int| 0 <= j < skip_space(s) ==> is_white_space(#[trigger] s[j]),
    decreases s.len(),
{
    if s.len() > 0 && is_white_space(s[0]) {
        lemma_skip_space(s.drop_first());
        assert forall|j: int| 0 <= j < skip_space(s) implies is_white_space(#[trigger] s[j]) by {
            if j > 0 {
                assert(s[j] == s.drop_first()[j - 1]);
            }
        }
    }
}

pub proof fn lemma_skip_space_is(s: Seq<char>, i: int)
    requires
        0 <= i <= s.len(),
        i < s.len() ==> !is_white_space(s[i]),
        forall|j: int| 0 <= j < i ==> is_white_space(#[trigger] s[j]),
    ensures
        skip_space(s) == i,
    decreases s.len(),
{
    if s.len() > 0 && is_white_space(s[0]) {
        assert forall|j: int| 0 <= j < i - 1 implies is_white_space(#[trigger] s.drop_first()[j]) by {
            assert(s.drop_first()[j] == s[j + 1]);
        }
        lemma_skip_space_is(s.drop_first(), i - 1);
    }
}

pub proof fn lemma_word_end(s: Seq<char>)
    ensures
        0 <= word_end(s) <= s.len(),
        word_end(s) < s.len() ==> is_white_space(s[word_end(s)]),
        forall|j: int| 0 <= j < word_end(s) ==> !is_white_space(#[trigger] s[j]),
        s.len() > 0 && !is_white_space(s[0]) ==> word_end(s) >= 1,
    decreases s.len(),
{
    if s.len() > 0 && !is_white_space(s[0]) {
        lemma_word_end(s.drop_first());
        assert forall|j: int| 0 <= j < word_end(s) implies !is_white_space(#[trigger] s[j]) by {
            if j > 0 {
                assert(s[j] == s.drop_first()[j - 1]);
            }
        }
    }
}

pub proof fn lemma_word_end_is(s: Seq<char>, i: int)
    requires
        0 <= i <= s.len(),
        i < s.len() ==> is_white_space(s[i]),
        forall|j: int| 0 <= j < i ==> !is_white_space(#[trigger] s[j]),
    ensures
        word_end(s) == i,
    decreases s.len(),
{
    if s.len() > 0 && !is_white_space(s[0]) {
        assert forall|j: int| 0 <= j < i - 1 implies !is_white_space(#[trigger] s.drop_first()[j]) by {
            assert(s.drop_first()[j] == s[j + 1]);
        }
        lemma_word_end_is(s.drop_first(), i - 1);
    }
}

pub proof fn lemma_trim_end_len_is(s: Seq<char>, e: int)
    requires
        0 <= e <= s.len(),
        e > 0 ==> !is_white_space(s[e - 1]),
        forall|j: int| e <= j < s.len() ==> is_white_space(#[trigger] s[j]),
    ensures
        trim_end_len(s) == e,
    decreases s.len(),
{
    if s.len() > 0 && e < s.len() {
        assert(is_white_space(s[s.len() - 1]));
        assert forall|j: int| e <= j < s.len() - 1 implies is_white_space(#[trigger] s.drop_last()[j]) by {
            assert(s.drop_last()[j] == s[j]);
        }
        lemma_trim_end_len_is(s.drop_last(), e);
    }
}

/// `s` without leading and trailing white space.
pub fn trim(s: &str) -> (r: &str)
    ensures
        r@ == spec_trim(s@),
{
    let (chars, offs) = char_table(s);
    let n = chars.len();
    let mut i: usize = 0;
    while i < n && char_is_whitespace(chars[i])
        invariant
            i <= n,
            n == chars@.len(),
            forall|k: int| 0 <= k < i ==> is_white_space(#[trigger] chars@[k]),
        decreases n - i,
    {
        i = i + 1;
    }
    proof {
        lemma_skip_space_is(s@, i as int);
    }
    if i == n {
        return char_slice(s, &offs, 0, 0);
    }
    let mut e: usize = n;
    while e > i && char_is_whitespace(chars[e - 1])
        invariant
            i < e <= n || e == i,
            i < n,
            !is_white_space(chars@[i as int]),
            n == chars@.len(),
            forall|k: int| e <= k < n ==> is_white_space(#[trigger] chars@[k]),
        decreases e,
    {
        e = e - 1;
    }
    proof {
        lemma_trim_end_len_is(s@, e as int);
    }
    char_slice(s, &offs, i, e)
}

/// The tokenizer that splits at white space.
#[derive(Debug, Clone, Copy)]
pub struct Whitespace;

impl Whitespace {
    /// Starts tokenization; never fails.
    pub fn builder(&mut self) -> (r: Whitespace) {
        Whitespace
    }

    /// Wraps the input, without leading and trailing white space, as a stream; never fails.
    pub fn tokenize<'s>(&mut self, input: &'s str) -> (r: WhitespaceStream<'s>)
        ensures
            r.input()@ == spec_trim(input@),
    {
        WhitespaceStream { input: trim(input) }
    }
}

/// The text to split at white space.
#[derive(Debug, Clone, Copy)]
pub struct WhitespaceStream<'s> {
    input: &'s str,
}

impl<'s> WhitespaceStream<'s> {
    /// The text that the stream splits.
    pub closed spec fn input(self) -> &'s str {
        self.input
    }

    /// An iterator over the tokens.
    pub fn iter(&self) -> (r: WhitespaceIter<'s>)
        ensures
            r.remaining() == ws_stream_view(self.input()@),
    {
        let (chars, offs) = char_table(self.input);
        assert(chars@.skip(0) =~= chars@);
        WhitespaceIter { input: self.input, chars, offs, pos: 0 }
    }
}

impl<'s> TokenStream<'s> for WhitespaceStream<'s> {
    type Tok = WhitespaceToken<'s>;

    open spec fn stream_view(&self) -> Seq<(TokenPosition, TokenView)> {
        ws_stream_view(self.input()@)
    }

    fn tokens(&self) -> (r: Vec<(TokenPosition, WhitespaceToken<'s>)>) {
        let ghost all = ws_stream_view(self.input()@);
        let mut it = self.iter();
        let mut out: Vec<(TokenPosition, WhitespaceToken<'s>)> = Vec::new();
        loop
            invariant
                all == self.stream_view(),
                out@.len() + it.remaining().len() == all.len(),
                it.remaining() == all.skip(out@.len() as int),
                forall|k: int|
                    0 <= k < out@.len() ==> #[trigger] out@[k].0 == all[k].0
                        && out@[k].1.token_view() == all[k].1,
            ensures
                out@.len() == all.len(),
                forall|k: int|
                    0 <= k < out@.len() ==> #[trigger] out@[k].0 == all[k].0
                        && out@[k].1.token_view() == all[k].1,
            decreases it.remaining().len(),
        {
            let ghost before = it.remaining();
            match it.next() {
                Some(item) => {
                    proof {
                        assert(before[0] == all[out@.len() as int]);
                        assert(it.remaining() =~= all.skip(out@.len() as int + 1));
                    }
                    out.push(item);
                },
                None => {
                    break;
                },
            }
        }
        out
    }
}

/// Iterator over the tokens of a `WhitespaceStream`.
#[derive(Debug)]
pub struct WhitespaceIter<'s> {
    input: &'s str,
    chars: Vec<char>,
    offs: Vec<usize>,
    pos: usize,
}

/// Nothing but white space comes before the next newline after index `j`.
fn rest_of_line_blank(chars: &Vec<char>, j: usize) -> (r: bool)
    requires
        j <= chars@.len(),
    ensures
        r == line_rest_blank(chars@.skip(j as int)),
{
    let ghost t = chars@.skip(j as int);
    let n = chars.len();
    let mut k: usize = j;
    proof {
        lemma_find_first(t, '\n');
    }
    while k < n && chars[k] != '\n'
        invariant
            j <= k <= n,
            n == chars@.len(),
            t == chars@.skip(j as int),
            forall|m: int| j <= m < k ==> #[trigger] chars@[m] != '\n' && is_white_space(chars@[m]),
        decreases n - k,
    {
        if !char_is_whitespace(chars[k]) {
            proof {
                lemma_find_first(t, '\n');
                let f = find_first(t, '\n');
                if f <= k - j {
                    assert(t[f] == chars@[j + f]);
                }
                assert(t[k - j] == chars@[k as int]);
            }
            return false;
        }
        k = k + 1;
    }
    proof {
        assert forall|m: int| 0 <= m < k - j implies t[m] != '\n' by {
            assert(t[m] == chars@[j + m]);
        }
        if k < n {
            assert(t[k - j] == chars@[k as int]);
        }
        lemma_find_first_is(t, '\n', k - j);
        assert forall|m: int| 0 <= m < find_first(t, '\n') implies is_white_space(#[trigger] t[m]) by {
            assert(t[m] == chars@[j + m]);
        }
    }
    true
}

impl<'s> WhitespaceIter<'s> {
    #[verifier::type_invariant]
    spec fn inv(self) -> bool {
        &&& self.chars@ == self.input@
        &&& self.offs@.len() == self.input@.len() + 1
        &&& forall|k: int|
            0 <= k <= self.input@.len() ==> #[trigger] self.offs@[k] == vstd::utf8::encode_utf8(
                self.input@.take(k),
            ).len()
        &&& self.pos <= self.chars@.len()
    }

    /// The tokens that are still to come.
    pub closed spec fn remaining(self) -> Seq<(TokenPosition, TokenView)> {
        ws_stream_view(self.chars@.skip(self.pos as int))
    }

    /// The next token with its position; `None` once the text is used up, and from then on.
    pub fn next(&mut self) -> (r: Option<(TokenPosition, WhitespaceToken<'s>)>)
        ensures
            old(self).remaining().len() == 0 ==> r is None && final(self).remaining().len() == 0,
            old(self).remaining().len() > 0 ==> {
                &&& r matches Some((pos, tok))
                &&& final(self).remaining() == old(self).remaining().drop_first()
                &&& pos == old(self).remaining()[0].0
                &&& tok.token_view() == old(self).remaining()[0].1
            },
    {
        proof {
            use_type_invariant(&*self);
        }
        let n = self.chars.len();
        let p = self.pos;
        let ghost s = self.chars@.skip(p as int);
        let mut i: usize = p;
        while i < n && char_is_whitespace(self.chars[i])
            invariant
                p <= i <= n,
                n == self.chars@.len(),
                forall|k: int| p <= k < i ==> is_white_space(#[trigger] self.chars@[k]),
            decreases n - i,
        {
            i = i + 1;
        }
        proof {
            assert forall|k: int| 0 <= k < i - p implies is_white_space(#[trigger] s[k]) by {
                assert(s[k] == self.chars@[p + k]);
            }
            if i < n {
                assert(s[i - p] == self.chars@[i as int]);
            }
            lemma_skip_space_is(s, i - p);
        }
        if i == n {
            self.pos = n;
            proof {
                assert(self.chars@.skip(n as int) =~= Seq::<char>::empty());
                assert(ws_words(Seq::<char>::empty()) =~= Seq::<(TokenPosition, Seq<char>)>::empty());
            }
            return None;
        }
        let mut j: usize = i + 1;
        while j < n && !char_is_whitespace(self.chars[j])
            invariant
                i < j <= n,
                n == self.chars@.len(),
                !is_white_space(self.chars@[i as int]),
                forall|k: int| i <= k < j ==> !is_white_space(#[trigger] self.chars@[k]),
            decreases n - j,
        {
            j = j + 1;
        }
        let ghost rest = s.skip(i - p);
        proof {
            assert(rest =~= self.chars@.skip(i as int));
            assert forall|k: int| 0 <= k < j - i implies !is_white_space(#[trigger] rest[k]) by {
                assert(rest[k] == self.chars@[i + k]);
            }
            if j < n {
                assert(rest[j - i] == self.chars@[j as int]);
            }
            lemma_word_end_is(rest, j - i);
        }
        let word = char_slice(self.input, &self.offs, i, j);
        let blank = rest_of_line_blank(&self.chars, j);
        let position = if ends_with_eos_marker(word) || blank {
            TokenPosition::Eos
        } else {
            TokenPosition::Normal
        };
        self.pos = j;
        proof {
            assert(word@ =~= rest.take(j - i));
            assert(rest.skip(j - i) =~= self.chars@.skip(j as int));
            lemma_skip_space(s);
            let w = ws_words(s);
            assert(w == seq![(position, word@)] + ws_words(self.chars@.skip(j as int)));
            assert(ws_stream_view(s).drop_first() =~= ws_stream_view(self.chars@.skip(j as int)));
        }
        Some((position, WhitespaceToken::from_token(word)))
    }
}

/// A token of the whitespace tokenizer: its surface and, after the first `/`, its tags.
#[derive(Debug, Clone, Copy)]
pub struct WhitespaceToken<'s> {
    surface: &'s str,
    tags: Option<&'s str>,
}

impl<'s> WhitespaceToken<'s> {
    /// Splits a word at its first `/` into surface and tags.
    pub fn from_token(token: &'s str) -> (r: WhitespaceToken<'s>)
        ensures
            r.token_view() == ws_token_view(token@),
    {
        let ghost tb = token.spec_bytes();
        let ghost tc = token@;
        let bytes = token.as_bytes();
        let t = find_byte_from(bytes, 0, 47u8);
        proof {
            assert(tb.skip(0) =~= tb);
            lemma_find_byte(tb, 47u8);
            lemma_find_first(tc, '/');
            lemma_find_ascii(tc, '/');
            vstd::utf8::is_char_boundary_start_end_of_seq(tb);
        }
        let ghost f = find_first(tc, '/');
        if t < bytes.len() {
            proof {
                lemma_ascii_boundaries(tb, t as int);
                lemma_prefix_boundary(tc, f);
                assert(tc.skip(f) =~= seq!['/'] + tc.skip(f + 1));
                crate::text::lemma_encode_concat(seq!['/'], tc.skip(f + 1));
                crate::text::lemma_encode_single('/');
            }
            let surface = substr(token, 0, t);
            let tags = substr(token, t + 1, bytes.len());
            proof {
                assert(surface.spec_bytes() =~= vstd::utf8::encode_utf8(tc.take(f)));
                assert(tags.spec_bytes() =~= vstd::utf8::encode_utf8(tc.skip(f + 1)));
                vstd::utf8::encode_utf8_decode_utf8(surface@);
                vstd::utf8::encode_utf8_decode_utf8(tc.take(f));
                vstd::utf8::encode_utf8_decode_utf8(tags@);
                vstd::utf8::encode_utf8_decode_utf8(tc.skip(f + 1));
                assert(surface@ == tc.take(f));
                assert(tags@ == tc.skip(f + 1));
                assert(split_seq(tc, '/').drop_first() =~= split_seq(tc.skip(f + 1), '/'));
            }
            WhitespaceToken { surface, tags: Some(tags) }
        } else {
            proof {
                if f < tc.len() {
                    lemma_prefix_boundary(tc, f);
                    crate::text::lemma_encode_scalar_ascii(tc.skip(f)[0]);
                    assert(vstd::utf8::encode_utf8(tc.skip(f)).len() >= 1);
                }
                assert(tc.take(f) =~= tc);
                assert(split_seq(tc, '/') =~= seq![tc]);
                assert(unescaped_tags(split_seq(tc, '/').drop_first()) =~= Seq::<TagView>::empty());
            }
            WhitespaceToken { surface: token, tags: None }
        }
    }

    /// An iterator over the tags.
    pub fn tag_iter(&self) -> (r: WhitespaceTags<'s>)
        ensures
            r.remaining() == self.token_view().tags,
    {
        match self.tags {
            Some(t) => {
                let pieces = split_str(t, '/');
                assert(unescaped_tags(str_views(pieces@).skip(0)) =~= unescaped_tags(split_seq(t@, '/')));
                WhitespaceTags { pieces, next: 0 }
            },
            None => {
                let pieces: Vec<&'s str> = Vec::new();
                assert(unescaped_tags(str_views(pieces@).skip(0)) =~= Seq::<TagView>::empty());
                WhitespaceTags { pieces, next: 0 }
            },
        }
    }
}

impl<'s> Token<'s> for WhitespaceToken<'s> {
    closed spec fn token_view(&self) -> TokenView {
        TokenView {
            surface: TagView::Unescaped(self.surface@),
            tags: match self.tags {
                Some(t) => unescaped_tags(split_seq(t@, '/')),
                None => seq![],
            },
        }
    }

    fn surface(&self) -> (r: Tag<'s>) {
        Tag::Unescaped(self.surface)
    }

    fn tags(&self) -> (r: Vec<Tag<'s>>) {
        let mut it = self.tag_iter();
        let ghost all = it.remaining();
        let mut out: Vec<Tag<'s>> = Vec::new();
        loop
            invariant
                all == self.token_view().tags,
                out@.len() + it.remaining().len() == all.len(),
                it.remaining() == all.skip(out@.len() as int),
                forall|k: int| 0 <= k < out@.len() ==> #[trigger] out@[k]@ == all[k],
            ensures
                out@.len() == all.len(),
                forall|k: int| 0 <= k < out@.len() ==> #[trigger] out@[k]@ == all[k],
            decreases it.remaining().len(),
        {
            let ghost before = it.remaining();
            match it.next() {
                Some(tag) => {
                    proof {
                        assert(before[0] == all[out@.len() as int]);
                        assert(it.remaining() =~= all.skip(out@.len() as int + 1));
                    }
                    out.push(tag);
                },
                None => {
                    break;
                },
            }
        }
        assert(tag_views(out@) =~= all);
        out
    }
}

/// Iterator over the tags of a `WhitespaceToken`.
#[derive(Debug)]
pub struct WhitespaceTags<'s> {
    pieces: Vec<&'s str>,
    next: usize,
}

impl<'s> WhitespaceTags<'s> {
    #[verifier::type_invariant]
    spec fn inv(self) -> bool {
        self.next <= self.pieces@.len()
    }

    /// The tags that are still to come.
    pub closed spec fn remaining(self) -> Seq<TagView> {
        unescaped_tags(str_views(self.pieces@).skip(self.next as int))
    }

    /// The next tag; `None` once all are used up, and from then on.
    pub fn next(&mut self) -> (r: Option<Tag<'s>>)
        ensures
            old(self).remaining().len() == 0 ==> r is None && final(self).remaining().len() == 0,
            old(self).remaining().len() > 0 ==> {
                &&& r matches Some(tag)
                &&& final(self).remaining() == old(self).remaining().drop_first()
                &&& tag@ == old(self).remaining()[0]
            },
    {
        proof {
            use_type_invariant(&*self);
        }
        if self.next >= self.pieces.len() {
            return None;
        }
        let piece = self.pieces[self.next];
        let ghost before = self.remaining();
        self.next = self.next + 1;
        proof {
            assert(str_views(self.pieces@)[self.next - 1] == piece@);
            assert(self.remaining() =~= before.drop_first());
        }
        Some(Tag::Unescaped(piece))
    }
}

} // verus!

verus! {

/// The characters of `s` that are not white space, in order.
pub open spec fn non_space(s: Seq<char>) -> Seq<char>
    decreases s.len(),
{
    if s.len() == 0 {
        seq![]
    } else if is_white_space(s[0]) {
        non_space(s.drop_first())
    } else {
        seq![s[0]] + non_space(s.drop_first())
    }
}

/// The words joined together, without anything between them.
pub open spec fn concat_words(w: Seq<(TokenPosition, Seq<char>)>) -> Seq<char>
    decreases w.len(),
{
    if w.len() == 0 {
        seq![]
    } else {
        w[0].1 + concat_words(w.drop_first())
    }
}

proof fn lemma_non_space_concat(a: Seq<char>, b: Seq<char>)
    ensures
        non_space(a + b) == non_space(a) + non_space(b),
    decreases a.len(),
{
    if a.len() == 0 {
        assert(a + b =~= b);
        assert(non_space(a) + non_space(b) =~= non_space(b));
    } else {
        lemma_non_space_concat(a.drop_first(), b);
        assert((a + b).drop_first() =~= a.drop_first() + b);
        assert((a + b)[0] == a[0]);
        if !is_white_space(a[0]) {
            assert(seq![a[0]] + (non_space(a.drop_first()) + non_space(b)) =~= (seq![a[0]]
                + non_space(a.drop_first())) + non_space(b));
        }
    }
}

proof fn lemma_non_space_blank(s: Seq<char>)
    requires
        forall|i: int| 0 <= i < s.len() ==> is_white_space(#[trigger] s[i]),
    ensures
        non_space(s) == Seq::<char>::empty(),
    decreases s.len(),
{
    if s.len() > 0 {
        assert forall|i: int| 0 <= i < s.drop_first().len() implies is_white_space(
            #[trigger] s.drop_first()[i],
        ) by {
            assert(s.drop_first()[i] == s[i + 1]);
        }
        lemma_non_space_blank(s.drop_first());
    }
}

proof fn lemma_non_space_word(s: Seq<char>)
    requires
        forall|i: int| 0 <= i < s.len() ==> !is_white_space(#[trigger] s[i]),
    ensures
        non_space(s) == s,
    decreases s.len(),
{
    if s.len() > 0 {
        assert forall|i: int| 0 <= i < s.drop_first().len() implies !is_white_space(
            #[trigger] s.drop_first()[i],
        ) by {
            assert(s.drop_first()[i] == s[i + 1]);
        }
        lemma_non_space_word(s.drop_first());
        assert(seq![s[0]] + s.drop_first() =~= s);
    }
}

/// The words of a text are not empty and hold no white space, and together they are its
/// characters that are not white space, in order.
pub proof fn words_are_the_non_space_text(s: Seq<char>)
    ensures
        concat_words(ws_words(s)) == non_space(s),
        forall|k: int|
            0 <= k < ws_words(s).len() ==> #[trigger] ws_words(s)[k].1.len() > 0 && forall|i: int|
                0 <= i < ws_words(s)[k].1.len() ==> !is_white_space(ws_words(s)[k].1[i]),
    decreases s.len(),
{
    lemma_skip_space(s);
    let i = skip_space(s);
    if i >= s.len() {
        lemma_non_space_blank(s);
    } else {
        let rest = s.skip(i);
        lemma_word_end(rest);
        let j = word_end(rest);
        let word = rest.take(j);
        let after = rest.skip(j);
        words_are_the_non_space_text(after);
        assert(s =~= s.take(i) + (word + after));
        assert(rest =~= word + after);
        lemma_non_space_concat(s.take(i), word + after);
        lemma_non_space_concat(word, after);
        assert forall|m: int| 0 <= m < s.take(i).len() implies is_white_space(#[trigger] s.take(i)[m]) by {
            assert(s.take(i)[m] == s[m]);
        }
        lemma_non_space_blank(s.take(i));
        assert forall|m: int| 0 <= m < word.len() implies !is_white_space(#[trigger] word[m]) by {
            assert(word[m] == rest[m]);
        }
        lemma_non_space_word(word);
        let w = ws_words(s);
        assert(w.drop_first() == ws_words(after));
        assert(w[0].1 == word);
        assert(concat_words(w) == word + concat_words(ws_words(after)));
        assert(non_space(s) =~= word + non_space(after));
        assert forall|k: int| 0 <= k < w.len() implies #[trigger] w[k].1.len() > 0 && forall|m: int|
            0 <= m < w[k].1.len() ==> !is_white_space(w[k].1[m]) by {
            if k > 0 {
                assert(w[k] == ws_words(after)[k - 1]);
            }
        }
    }
}

/// Trimming a text keeps all its characters that are not white space.
pub proof fn trim_keeps_the_non_space_text(s: Seq<char>)
    ensures
        non_space(spec_trim(s)) == non_space(s),
{
    lemma_skip_space(s);
    let i = skip_space(s);
    if i >= s.len() {
        lemma_non_space_blank(s);
    } else {
        lemma_trim_end(s);
        let e = trim_end_len(s);
        assert(s =~= s.take(i) + (s.subrange(i, e) + s.skip(e)));
        lemma_non_space_concat(s.take(i), s.subrange(i, e) + s.skip(e));
        lemma_non_space_concat(s.subrange(i, e), s.skip(e));
        assert forall|m: int| 0 <= m < s.take(i).len() implies is_white_space(#[trigger] s.take(i)[m]) by {
            assert(s.take(i)[m] == s[m]);
        }
        lemma_non_space_blank(s.take(i));
        assert forall|m: int| 0 <= m < s.skip(e).len() implies is_white_space(#[trigger] s.skip(e)[m]) by {
            assert(s.skip(e)[m] == s[e + m]);
        }
        lemma_non_space_blank(s.skip(e));
        assert(non_space(s) =~= non_space(s.subrange(i, e)));
    }
}

proof fn lemma_trim_end(s: Seq<char>)
    ensures
        0 <= trim_end_len(s) <= s.len(),
        forall|m: int| trim_end_len(s) <= m < s.len() ==> is_white_space(#[trigger] s[m]),
        trim_end_len(s) > 0 ==> !is_white_space(s[trim_end_len(s) - 1]),
        skip_space(s) < s.len() ==> skip_space(s) < trim_end_len(s),
    decreases s.len(),
{
    lemma_skip_space(s);
    if s.len() > 0 && is_white_space(s.last()) {
        lemma_trim_end(s.drop_last());
        lemma_skip_space(s.drop_last());
        assert forall|m: int| trim_end_len(s) <= m < s.len() implies is_white_space(#[trigger] s[m]) by {
            if m < s.len() - 1 {
                assert(s[m] == s.drop_last()[m]);
            }
        }
        if skip_space(s) < s.len() {
            assert(skip_space(s) < s.len() - 1);
            assert forall|m: int| 0 <= m < skip_space(s) implies is_white_space(#[trigger] s.drop_last()[m]) by {
                assert(s.drop_last()[m] == s[m]);
            }
            assert(!is_white_space(s.drop_last()[skip_space(s)]));
            lemma_skip_space_is(s.drop_last(), skip_space(s));
        }
        if trim_end_len(s) > 0 {
            assert(s[trim_end_len(s) - 1] == s.drop_last()[trim_end_len(s) - 1]);
        }
    }
}

/// The whitespace tokenizer loses and adds no character but white space: the words of the
/// trimmed input, joined, are the characters of the input that are not white space.
pub proof fn whitespace_tokens_keep_the_text(input: Seq<char>)
    ensures
        concat_words(ws_words(spec_trim(input))) == non_space(input),
{
    words_are_the_non_space_text(spec_trim(input));
    trim_keeps_the_non_space_text(input);
}

/// Every character of `s` is white space.
pub open spec fn all_white(s: Seq<char>) -> bool {
    forall|i: int| 0 <= i < s.len() ==> is_white_space(#[trigger] s[i])
}

/// The pieces of `s` between white-space characters (always at least one piece).
pub open spec fn white_pieces(s: Seq<char>) -> Seq<Seq<char>>
    decreases s.len(),
{
    let j = word_end(s);
    if j >= s.len() {
        seq![s]
    } else {
        proof {
            lemma_word_end(s);
        }
        seq![s.take(j)] + white_pieces(s.skip(j + 1))
    }
}

/// The pieces that are not empty, in order.
pub open spec fn non_empty_pieces(ps: Seq<Seq<char>>) -> Seq<Seq<char>>
    decreases ps.len(),
{
    if ps.len() == 0 {
        ps
    } else if ps[0].len() == 0 {
        non_empty_pieces(ps.drop_first())
    } else {
        seq![ps[0]] + non_empty_pieces(ps.drop_first())
    }
}

/// The words of `s` as `str::split_whitespace` gives them: the pieces between white-space
/// characters, without the empty ones.
pub open spec fn whitespace_split(s: Seq<char>) -> Seq<Seq<char>> {
    non_empty_pieces(white_pieces(s))
}

/// The texts of some words.
pub open spec fn word_texts(w: Seq<(TokenPosition, Seq<char>)>) -> Seq<Seq<char>> {
    w.map_values(|x: (TokenPosition, Seq<char>)| x.1)
}

/// The words of each line on its own, one line after the other.
pub open spec fn lines_words(ls: Seq<Seq<char>>) -> Seq<(TokenPosition, Seq<char>)>
    decreases ls.len(),
{
    if ls.len() == 0 {
        seq![]
    } else {
        ws_words(ls[0]) + lines_words(ls.drop_first())
    }
}

/// `s` holds no newline.
pub open spec fn no_newline(s: Seq<char>) -> bool {
    forall|i: int| 0 <= i < s.len() ==> #[trigger] s[i] != '\n'
}

proof fn lemma_words_after_white_prefix(x: Seq<char>, k: int)
    requires
        0 <= k <= x.len(),
        forall|j: int| 0 <= j < k ==> is_white_space(#[trigger] x[j]),
    ensures
        ws_words(x) == ws_words(x.skip(k)),
{
    let y = x.skip(k);
    lemma_skip_space(y);
    let m = skip_space(y);
    assert forall|j: int| 0 <= j < k + m implies is_white_space(#[trigger] x[j]) by {
        if j >= k {
            assert(x[j] == y[j - k]);
        }
    }
    if k + m < x.len() {
        assert(x[k + m] == y[m]);
    }
    lemma_skip_space_is(x, k + m);
    assert(x.skip(k + m) =~= y.skip(m));
}

proof fn lemma_no_words_iff_white(x: Seq<char>)
    ensures
        (ws_words(x).len() == 0) == all_white(x),
{
    lemma_skip_space(x);
    if skip_space(x) < x.len() {
        assert(!is_white_space(x[skip_space(x)]));
    }
}

proof fn lemma_line_rest_append_white(a: Seq<char>, t: Seq<char>)
    requires
        all_white(t),
    ensures
        line_rest_blank(a + t) == line_rest_blank(a),
{
    lemma_find_first(a, '\n');
    let f = find_first(a, '\n');
    let at = a + t;
    if f < a.len() {
        assert forall|j: int| 0 <= j < f implies at[j] != '\n' by {
            assert(at[j] == a[j]);
        }
        assert(at[f] == a[f]);
        lemma_find_first_is(at, '\n', f);
        assert forall|k: int| 0 <= k < f implies at[k] == a[k] by {}
        assert(line_rest_blank(a + t) == line_rest_blank(a));
    } else {
        lemma_find_first_concat(a, t, '\n');
        lemma_find_first(at, '\n');
        let g = find_first(at, '\n');
        if line_rest_blank(a) {
            assert forall|k: int| 0 <= k < g implies is_white_space(#[trigger] at[k]) by {
                if k < a.len() {
                    assert(at[k] == a[k]);
                } else {
                    assert(at[k] == t[k - a.len()]);
                }
            }
        } else {
            let k0 = choose|k: int| 0 <= k < f && !is_white_space(#[trigger] a[k]);
            assert(at[k0] == a[k0]);
        }
    }
}

proof fn lemma_words_append_white(x: Seq<char>, t: Seq<char>)
    requires
        all_white(t),
    ensures
        ws_words(x + t) == ws_words(x),
    decreases x.len(),
{
    let xt = x + t;
    lemma_skip_space(x);
    let i = skip_space(x);
    if i >= x.len() {
        assert forall|j: int| 0 <= j < xt.len() implies is_white_space(#[trigger] xt[j]) by {
            if j < x.len() {
                assert(xt[j] == x[j]);
            } else {
                assert(xt[j] == t[j - x.len()]);
            }
        }
        lemma_no_words_iff_white(xt);
        lemma_no_words_iff_white(x);
        assert(ws_words(xt) =~= ws_words(x));
    } else {
        assert forall|j: int| 0 <= j < i implies is_white_space(#[trigger] xt[j]) by {
            assert(xt[j] == x[j]);
        }
        assert(xt[i] == x[i]);
        lemma_skip_space_is(xt, i);
        let rest = x.skip(i);
        let rest_t = xt.skip(i);
        assert(rest_t =~= rest + t);
        lemma_word_end(rest);
        let j = word_end(rest);
        assert forall|m: int| 0 <= m < j implies !is_white_space(#[trigger] rest_t[m]) by {
            assert(rest_t[m] == rest[m]);
        }
        if j < rest.len() {
            assert(rest_t[j] == rest[j]);
        } else if j < rest_t.len() {
            assert(rest_t[j] == t[0]);
        }
        lemma_word_end_is(rest_t, j);
        assert(rest_t.take(j) =~= rest.take(j));
        let a = rest.skip(j);
        assert(rest_t.skip(j) =~= a + t);
        lemma_line_rest_append_white(a, t);
        lemma_words_append_white(a, t);
    }
}

proof fn lemma_words_over_newline(l: Seq<char>, r: Seq<char>)
    requires
        no_newline(l),
    ensures
        ws_words(l + seq!['\n'] + r) == ws_words(l) + ws_words(r),
    decreases l.len(),
{
    let x = l + seq!['\n'] + r;
    lemma_skip_space(l);
    let i = skip_space(l);
    assert(is_white_space('\n'));
    if i >= l.len() {
        assert forall|j: int| 0 <= j < l.len() + 1 implies is_white_space(#[trigger] x[j]) by {
            if j < l.len() {
                assert(x[j] == l[j]);
            } else {
                assert(x[j] == '\n');
            }
        }
        lemma_words_after_white_prefix(x, l.len() + 1int);
        assert(x.skip(l.len() + 1int) =~= r);
        lemma_no_words_iff_white(l);
        assert(ws_words(l) + ws_words(r) =~= ws_words(r));
    } else {
        assert forall|j: int| 0 <= j < i implies is_white_space(#[trigger] x[j]) by {
            assert(x[j] == l[j]);
        }
        assert(x[i] == l[i]);
        lemma_skip_space_is(x, i);
        let rest = l.skip(i);
        let rest_x = x.skip(i);
        assert(rest_x =~= rest + seq!['\n'] + r);
        lemma_word_end(rest);
        let j = word_end(rest);
        assert forall|m: int| 0 <= m < j implies !is_white_space(#[trigger] rest_x[m]) by {
            assert(rest_x[m] == rest[m]);
        }
        if j < rest.len() {
            assert(rest_x[j] == rest[j]);
        } else {
            assert(rest_x[j] == '\n');
        }
        lemma_word_end_is(rest_x, j);
        assert(rest_x.take(j) =~= rest.take(j));
        let a = rest.skip(j);
        assert(rest_x.skip(j) =~= a + seq!['\n'] + r);
        assert forall|m: int| 0 <= m < a.len() implies #[trigger] a[m] != '\n' by {
            assert(a[m] == l[i + j + m]);
        }
        lemma_find_first_is(a, '\n', a.len() as int);
        assert forall|m: int| 0 <= m < a.len() implies (a + seq!['\n'] + r)[m] != '\n' by {
            assert((a + seq!['\n'] + r)[m] == a[m]);
        }
        assert((a + seq!['\n'] + r)[a.len() as int] == '\n');
        lemma_find_first_is(a + seq!['\n'] + r, '\n', a.len() as int);
        assert forall|m: int| 0 <= m < a.len() implies (a + seq!['\n'] + r)[m] == a[m] by {}
        assert(line_rest_blank(a + seq!['\n'] + r) == line_rest_blank(a));
        lemma_words_over_newline(a, r);
        let w = ws_words(l);
        assert(ws_words(x) =~= seq![w[0]] + (ws_words(a) + ws_words(r)));
        assert(w =~= seq![w[0]] + ws_words(a));
    }
}

proof fn lemma_words_by_lines(s: Seq<char>)
    ensures
        ws_words(s) == lines_words(split_seq(s, '\n')),
    decreases s.len(),
{
    lemma_find_first(s, '\n');
    let f = find_first(s, '\n');
    if f >= s.len() {
        let ls = split_seq(s, '\n');
        assert(ls =~= seq![s]);
        assert(ls.drop_first() =~= Seq::<Seq<char>>::empty());
        assert(lines_words(ls) =~= ws_words(s) + lines_words(ls.drop_first()));
        assert(lines_words(ls) =~= ws_words(s));
    } else {
        let l = s.take(f);
        let r = s.skip(f + 1);
        assert(s =~= l + seq!['\n'] + r);
        assert forall|m: int| 0 <= m < l.len() implies #[trigger] l[m] != '\n' by {
            assert(l[m] == s[m]);
        }
        lemma_words_over_newline(l, r);
        lemma_words_by_lines(r);
        let ls = split_seq(s, '\n');
        assert(ls =~= seq![l] + split_seq(r, '\n'));
        assert(ls[0] == l);
        assert(ls.drop_first() =~= split_seq(r, '\n'));
    }
}

proof fn lemma_words_are_split(s: Seq<char>)
    ensures
        word_texts(ws_words(s)) == whitespace_split(s),
    decreases s.len(),
{
    if s.len() == 0 {
        assert(white_pieces(s) =~= seq![s]);
        assert(white_pieces(s).drop_first() =~= Seq::<Seq<char>>::empty());
        assert(word_texts(ws_words(s)) =~= Seq::<Seq<char>>::empty());
        assert(non_empty_pieces(Seq::<Seq<char>>::empty()) =~= Seq::<Seq<char>>::empty());
        assert(whitespace_split(s) =~= Seq::<Seq<char>>::empty());
    } else if is_white_space(s[0]) {
        lemma_word_end_is(s, 0);
        let t = s.skip(1);
        assert(white_pieces(s) =~= seq![s.take(0)] + white_pieces(t));
        assert(white_pieces(s).drop_first() =~= white_pieces(t));
        lemma_words_after_white_prefix(s, 1);
        lemma_words_are_split(t);
    } else {
        lemma_skip_space_is(s, 0);
        assert(s.skip(0) =~= s);
        lemma_word_end(s);
        let j = word_end(s);
        let w = ws_words(s);
        if j >= s.len() {
            assert(s.take(j) =~= s);
            assert(white_pieces(s) =~= seq![s]);
            assert(white_pieces(s).drop_first() =~= Seq::<Seq<char>>::empty());
            assert(s.skip(j).len() == 0);
            lemma_no_words_iff_white(s.skip(j));
            assert(word_texts(w) =~= seq![s]);
            assert(non_empty_pieces(Seq::<Seq<char>>::empty()) =~= Seq::<Seq<char>>::empty());
            assert(whitespace_split(s) =~= seq![s] + non_empty_pieces(Seq::<Seq<char>>::empty()));
            assert(whitespace_split(s) =~= seq![s]);
        } else {
            let t = s.skip(j + 1);
            assert(white_pieces(s) =~= seq![s.take(j)] + white_pieces(t));
            assert(white_pieces(s).drop_first() =~= white_pieces(t));
            assert(s.take(j).len() > 0);
            assert(s.skip(j)[0] == s[j]);
            lemma_words_after_white_prefix(s.skip(j), 1);
            assert(s.skip(j).skip(1) =~= t);
            lemma_words_are_split(t);
            assert(w =~= seq![w[0]] + ws_words(t));
            assert(word_texts(w) =~= seq![s.take(j)] + word_texts(ws_words(t)));
            assert(whitespace_split(s) =~= seq![s.take(j)] + whitespace_split(t));
        }
    }
}

proof fn lemma_words_of_trim(s: Seq<char>)
    ensures
        ws_words(spec_trim(s)) == ws_words(s),
{
    lemma_skip_space(s);
    let i = skip_space(s);
    if i >= s.len() {
        lemma_no_words_iff_white(spec_trim(s));
        assert(ws_words(spec_trim(s)) =~= ws_words(s));
    } else {
        lemma_trim_end(s);
        let e = trim_end_len(s);
        lemma_words_after_white_prefix(s, i);
        let mid = s.subrange(i, e);
        let tail = s.skip(e);
        assert(s.skip(i) =~= mid + tail);
        assert forall|m: int| 0 <= m < tail.len() implies is_white_space(#[trigger] tail[m]) by {
            assert(tail[m] == s[e + m]);
        }
        lemma_words_append_white(mid, tail);
    }
}

/// The words that the whitespace tokenizer reads from its input are what `str::split_whitespace`
/// gives, and it reads them line by line: its words are those of each line on its own, the lines
/// being the pieces between newlines (as `str::lines` gives them, up to a trailing `\r`, which is
/// white space and so holds no word).
pub proof fn whitespace_words_follow_split_and_lines(input: Seq<char>)
    ensures
        word_texts(ws_words(spec_trim(input))) == whitespace_split(input),
        ws_words(spec_trim(input)) == lines_words(split_seq(input, '\n')),
{
    lemma_words_of_trim(input);
    lemma_words_are_split(input);
    lemma_words_by_lines(input);
}

/// Within a line, a word ends a sentence exactly when it ends with an end-of-sentence mark or
/// is the last word of the line; blank lines have no words.
pub proof fn line_words_end_sentences(l: Seq<char>)
    requires
        no_newline(l),
    ensures
        (ws_words(l).len() == 0) == all_white(l),
        forall|k: int|
            0 <= k < ws_words(l).len() ==> (#[trigger] ws_words(l)[k]).0 == (if spec_ends_with_eos_marker(
                ws_words(l)[k].1,
            ) || k == ws_words(l).len() - 1 {
                TokenPosition::Eos
            } else {
                TokenPosition::Normal
            }),
    decreases l.len(),
{
    lemma_no_words_iff_white(l);
    lemma_skip_space(l);
    let i = skip_space(l);
    if i < l.len() {
        let rest = l.skip(i);
        lemma_word_end(rest);
        let j = word_end(rest);
        let a = rest.skip(j);
        assert forall|m: int| 0 <= m < a.len() implies #[trigger] a[m] != '\n' by {
            assert(a[m] == l[i + j + m]);
        }
        lemma_find_first_is(a, '\n', a.len() as int);
        line_words_end_sentences(a);
        assert(line_rest_blank(a) == all_white(a));
        let w = ws_words(l);
        assert(w.drop_first() =~= ws_words(a));
        assert forall|k: int| 0 <= k < w.len() implies (#[trigger] w[k]).0 == (if spec_ends_with_eos_marker(
            w[k].1,
        ) || k == w.len() - 1 {
            TokenPosition::Eos
        } else {
            TokenPosition::Normal
        }) by {
            if k > 0 {
                assert(w[k] == ws_words(a)[k - 1]);
            }
        }
    }
}

/// Every word that ends with one of the documented end-of-sentence marks (such as `?`) ends a
/// sentence, wherever it stands in the text.
pub proof fn words_ending_with_a_mark_end_sentences(s: Seq<char>)
    ensures
        forall|k: int|
            0 <= k < ws_words(s).len() && (#[trigger] ws_words(s)[k]).1.len() > 0
                && documented_eos_mark(ws_words(s)[k].1.last()) ==> ws_words(s)[k].0 is Eos,
    decreases s.len(),
{
    lemma_skip_space(s);
    let i = skip_space(s);
    if i < s.len() {
        let rest = s.skip(i);
        lemma_word_end(rest);
        let j = word_end(rest);
        let a = rest.skip(j);
        words_ending_with_a_mark_end_sentences(a);
        let w = ws_words(s);
        assert(w.drop_first() =~= ws_words(a));
        end_of_sentence_marks_are_the_documented_ones(w[0].1);
        assert forall|k: int|
            0 <= k < w.len() && (#[trigger] w[k]).1.len() > 0 && documented_eos_mark(w[k].1.last())
                implies w[k].0 is Eos by {
            if k > 0 {
                assert(w[k] == ws_words(a)[k - 1]);
            }
        }
    }
}

} // verus!
