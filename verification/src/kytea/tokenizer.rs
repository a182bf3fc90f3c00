//! Reading the output of a KyTea prediction as a token stream.
//!
//! The output is read line by line; lines holding nothing but white space are skipped. A line is
//! split at its open `TOKEN`s into tokens, and a token at its first open `TAG` into its surface
//! and its tags text. The last token of a line ends a sentence, and so does any token whose
//! surface is exactly one end-of-sentence mark.
use vstd::prelude::*;
use vstd::string::*;
use vstd::utf8::*;
use escaped_delimiter::Iter;
use crate::tokenizer_core::{ESCAPE, TAG, TOKEN, Tag, TagView, Token, TokenPosition, TokenStream, TokenView};
use crate::text::{find_byte, find_byte_from, lemma_ascii_boundaries, lemma_find_byte, substr};
use crate::utils::decode::{from_utf8_lossy, utf8_lossy};
use crate::utils::io::io_error_text;
use crate::utils::str_utils::{matches_eos_marker, spec_matches_eos_marker};
use crate::utils::write::unicode::{char_is_whitespace, is_white_space};
use crate::text::char_table;
use super::escaped::{escaped_iter, escaped_split, find_open_delim, iter_as_slice, iter_next, iter_view, lemma_next_open};
use super::sys::TrainConfigError;
use super::tags::{KyTeaTags, TagOrder};

verus! {

broadcast use vstd::utf8::encode_utf8_valid_utf8, vstd::utf8::encode_utf8_decode_utf8;

/// The lines of `s` as `str::lines` gives them: split at each newline, without a final empty
/// line, and without the carriage return before a newline.
pub open spec fn text_lines(s: Seq<u8>) -> Seq<Seq<u8>>
    decreases s.len(),
{
    if s.len() == 0 {
        seq![]
    } else {
        let i = find_byte(s, 10u8);
        if i >= s.len() {
            seq![s]
        } else {
            proof {
                lemma_find_byte(s, 10u8);
            }
            let line = s.take(i);
            let line = if line.len() > 0 && line.last() == 13u8 {
                line.drop_last()
            } else {
                line
            };
            seq![line] + text_lines(s.skip(i + 1))
        }
    }
}

/// A line that holds nothing but white space.
pub open spec fn blank_line(b: Seq<u8>) -> bool {
    forall|i: int| 0 <= i < decode_utf8(b).len() ==> is_white_space(#[trigger] decode_utf8(b)[i])
}

/// The lines that remain after the leading blank ones.
pub open spec fn drop_blank(ls: Seq<Seq<u8>>) -> Seq<Seq<u8>>
    decreases ls.len(),
{
    if ls.len() == 0 {
        ls
    } else if blank_line(ls[0]) {
        drop_blank(ls.drop_first())
    } else {
        ls
    }
}

/// The surface of a token: what precedes its first open `TAG`.
pub open spec fn kytea_surface(t: Seq<u8>) -> Seq<u8> {
    t.take(find_open_delim(t, TAG, ESCAPE))
}

/// The tags text of a token: what follows its first open `TAG`, or nothing.
pub open spec fn kytea_tags_text(t: Seq<u8>) -> Seq<u8> {
    let i = find_open_delim(t, TAG, ESCAPE);
    if i < t.len() {
        t.skip(i + 1)
    } else {
        seq![]
    }
}

/// The token that the bytes `t` stand for, with its tags in the order `ord`.
pub open spec fn kytea_token_view<O: TagOrder>(t: Seq<u8>, ord: O) -> TokenView {
    TokenView {
        surface: TagView::Escaped(decode_utf8(kytea_surface(t))),
        tags: ord.order_tags(kytea_tags_text(t)),
    }
}

/// The position of the `k`-th of the tokens of a line.
pub open spec fn line_position(pieces: Seq<Seq<u8>>, k: int) -> TokenPosition {
    if k + 1 < pieces.len() && !spec_matches_eos_marker(decode_utf8(kytea_surface(pieces[k]))) {
        TokenPosition::Normal
    } else {
        TokenPosition::Eos
    }
}

/// The tokens of a line whose pieces between open `TOKEN`s are `pieces`.
pub open spec fn line_tokens<O: TagOrder>(pieces: Seq<Seq<u8>>, ord: O) -> Seq<
    (TokenPosition, TokenView),
> {
    Seq::new(pieces.len(), |k: int| (line_position(pieces, k), kytea_token_view(pieces[k], ord)))
}

/// The tokens of some lines; blank lines have none.
pub open spec fn lines_tokens<O: TagOrder>(ls: Seq<Seq<u8>>, ord: O) -> Seq<(TokenPosition, TokenView)>
    decreases ls.len(),
{
    if ls.len() == 0 {
        seq![]
    } else {
        (if blank_line(ls[0]) {
            seq![]
        } else {
            line_tokens(escaped_split(ls[0], TOKEN, ESCAPE), ord)
        }) + lines_tokens(ls.drop_first(), ord)
    }
}

/// The tokens of the output of a prediction.
pub open spec fn kytea_stream_view<O: TagOrder>(output: Seq<u8>, ord: O) -> Seq<(TokenPosition, TokenView)> {
    lines_tokens(text_lines(output), ord)
}

/// The input handed to KyTea: the text, ending with a newline.
pub open spec fn spec_prepare_input(input: Seq<char>) -> Seq<char> {
    if input.len() > 0 && input.last() == '\n' {
        input
    } else {
        input.push('\n')
    }
}

/// The text repr that `{:?}` gives for a string.
pub uninterp spec fn debug_repr(s: Seq<char>) -> Seq<char>;

/// Calls `simdutf8::basic::from_utf8`, which succeeds exactly on valid UTF-8.
#[verifier::external_body]
fn validate_utf8(bytes: &[u8]) -> (r: Option<&str>)
    ensures
        match r {
            Some(s) => valid_utf8(bytes@) && s.spec_bytes() == bytes@,
            None => !valid_utf8(bytes@),
        },
{
    simdutf8::basic::from_utf8(bytes).ok()
}

/// Formats a string with `{:?}`; the result is named `debug_repr`.
#[verifier::external_body]
fn debug_text(s: &str) -> (r: String)
    ensures
        r@ == debug_repr(s@),
{
    format!("{s:?}")
}

/// Errors of a KyTea tokenization.
#[derive(Debug)]
pub enum Error {
    InvalidConfig(TrainConfigError),
    Predict(std::io::Error),
    InvalidUtf8Output(String),
}

/// Whether `r` is the message of `e`: a fixed text for each invalid configuration, the text of
/// the I/O error (which the operating system supplies) after a fixed start for a failed
/// prediction, and the `{:?}` form of the output for invalid UTF-8.
pub open spec fn kytea_error_text(e: &Error, r: Seq<char>) -> bool {
    match e {
        Error::InvalidConfig(TrainConfigError::DoNothing) => r
            == "invalid config: neither word segmentation nor tag prediction are enabled"@,
        Error::InvalidConfig(TrainConfigError::RawWithoutWordSegmentation) => r
            == "invalid config: word segmentation is disabled"@,
        Error::InvalidConfig(TrainConfigError::NoWordSegmentationModel) => r
            == "invalid config: no model has been loaded"@,
        Error::Predict(_) => exists|t: Seq<char>| r == "error on prediction: "@ + t,
        Error::InvalidUtf8Output(s) => r == "output is invalid UTF-8: "@ + debug_repr(s@),
    }
}

impl Error {
    /// The error message.
    pub fn to_string(&self) -> (r: String)
        ensures
            kytea_error_text(self, r@),
    {
        match self {
            Error::InvalidConfig(TrainConfigError::DoNothing) => {
                "invalid config: neither word segmentation nor tag prediction are enabled".to_owned()
            },
            Error::InvalidConfig(TrainConfigError::RawWithoutWordSegmentation) => {
                "invalid config: word segmentation is disabled".to_owned()
            },
            Error::InvalidConfig(TrainConfigError::NoWordSegmentationModel) => {
                "invalid config: no model has been loaded".to_owned()
            },
            Error::Predict(e) => {
                let t = io_error_text(e);
                let mut r = "error on prediction: ".to_owned();
                r.append(t.as_str());
                r
            },
            Error::InvalidUtf8Output(s) => {
                let t = debug_text(s.as_str());
                let mut r = "output is invalid UTF-8: ".to_owned();
                r.append(t.as_str());
                r
            },
        }
    }
}

/// The input to hand to KyTea: the text, with a newline appended unless it ends with one.
pub fn prepare_input(input: &str) -> (r: String)
    ensures
        r@ == spec_prepare_input(input@),
{
    let mut r = input.to_owned();
    let n = input.unicode_len();
    if n == 0 || input.get_char(n - 1) != '\n' {
        r.append("\n");
        proof {
            reveal_strlit("\n");
        }
        assert(r@ =~= input@.push('\n'));
    }
    r
}

/// Turns the output of a KyTea prediction into a token stream, with the tag order `ord`.
pub struct KyTeaStreamBuilder<'t, O> {
    ord: &'t O,
}

impl<'t, O: TagOrder> KyTeaStreamBuilder<'t, O> {
    pub fn new(ord: &'t O) -> (r: KyTeaStreamBuilder<'t, O>)
        ensures
            r.ord() == ord,
    {
        KyTeaStreamBuilder { ord }
    }

    pub closed spec fn ord(self) -> &'t O {
        self.ord
    }

    /// The token stream of the output of a prediction, which must be valid UTF-8.
    pub fn from_output(&self, output: &'t [u8]) -> (r: Result<KyTeaStream<'t, O>, Error>)
        ensures
            match r {
                Ok(s) => valid_utf8(output@) && s.output().spec_bytes() == output@ && s.ord() == self.ord(),
                Err(e) => !valid_utf8(output@) && (e matches Error::InvalidUtf8Output(t) && t@
                    == utf8_lossy(output@)),
            },
    {
        match validate_utf8(output) {
            Some(s) => Ok(KyTeaStream { output: s, ord: self.ord }),
            None => Err(Error::InvalidUtf8Output(from_utf8_lossy(output))),
        }
    }
}

/// The tokens of the output of a prediction.
pub struct KyTeaStream<'t, O> {
    output: &'t str,
    ord: &'t O,
}

impl<'t, O: TagOrder> KyTeaStream<'t, O> {
    pub closed spec fn output(self) -> &'t str {
        self.output
    }

    pub closed spec fn ord(self) -> &'t O {
        self.ord
    }

    /// An iterator over the tokens.
    pub fn iter(&self) -> (r: KyTeaTokenIter<'t, O>)
        ensures
            r.wf(),
            r.remaining() == kytea_stream_view(self.output().spec_bytes(), *self.ord()),
    {
        let it = KyTeaTokenIter { line: None, line_str: self.output, off: 0, rest: self.output, ord: self.ord };
        assert(it.remaining() =~= kytea_stream_view(self.output.spec_bytes(), *self.ord));
        it
    }
}

impl<'t, O: TagOrder> TokenStream<'t> for KyTeaStream<'t, O> {
    type Tok = KyTeaToken<'t, O>;

    open spec fn stream_view(&self) -> Seq<(TokenPosition, TokenView)> {
        kytea_stream_view(self.output().spec_bytes(), *self.ord())
    }

    fn tokens(&self) -> (r: Vec<(TokenPosition, KyTeaToken<'t, O>)>) {
        let ghost all = self.stream_view();
        let mut it = self.iter();
        let mut out: Vec<(TokenPosition, KyTeaToken<'t, O>)> = Vec::new();
        loop
            invariant
                it.wf(),
                all == self.stream_view(),
                out@.len() + it.remaining().len() == all.len(),
                it.remaining() == all.skip(out@.len() as int),
                forall|k: int|
                    0 <= k < out@.len() ==> #[trigger] out@[k].0 == all[k].0
                        && out@[k].1.token_view() == all[k].1,
            ensures
                out@.len() == all.len(),
                forall|k: int|
                    0 <= k < out@.len() ==> #[trigger] out@[k].0 == all[k].0
                        && out@[k].1.token_view() == all[k].1,
            decreases it.remaining().len(),
        {
            let ghost before = it.remaining();
            match it.next() {
                Some(item) => {
                    proof {
                        assert(before[0] == all[out@.len() as int]);
                        assert(it.remaining() =~= all.skip(out@.len() as int + 1));
                    }
                    out.push(item);
                },
                None => {
                    break;
                },
            }
        }
        out
    }
}

/// Whether a line holds nothing but white space.
fn is_blank(line: &str) -> (r: bool)
    ensures
        r == blank_line(line.spec_bytes()),
{
    let (chars, _) = char_table(line);
    let n = chars.len();
    let mut i: usize = 0;
    while i < n
        invariant
            i <= n,
            n == chars@.len(),
            chars@ == line@,
            forall|k: int| 0 <= k < i ==> is_white_space(#[trigger] chars@[k]),
        decreases n - i,
    {
        if !char_is_whitespace(chars[i]) {
            proof {
                assert(decode_utf8(line.spec_bytes()) == line@);
                assert(!is_white_space(decode_utf8(line.spec_bytes())[i as int]));
            }
            return false;
        }
        i = i + 1;
    }
    proof {
        assert(decode_utf8(line.spec_bytes()) == line@);
    }
    true
}

/// Takes the first line off `rest`.
fn take_line<'o>(rest: &'o str) -> (r: (&'o str, &'o str))
    requires
        rest.spec_bytes().len() > 0,
    ensures
        text_lines(rest.spec_bytes()) == seq![r.0.spec_bytes()] + text_lines(r.1.spec_bytes()),
        r.1.spec_bytes().len() < rest.spec_bytes().len(),
{
    let ghost b = rest.spec_bytes();
    let bytes = rest.as_bytes();
    let n = bytes.len();
    let i = find_byte_from(bytes, 0, 10u8);
    proof {
        assert(b.skip(0) =~= b);
        lemma_find_byte(b, 10u8);
        is_char_boundary_start_end_of_seq(b);
    }
    if i == n {
        let tail = substr(rest, n, n);
        assert(tail.spec_bytes() =~= Seq::<u8>::empty());
        assert(text_lines(tail.spec_bytes()) =~= Seq::<Seq<u8>>::empty());
        assert(text_lines(b) =~= seq![b]);
        let whole = substr(rest, 0, n);
        assert(whole.spec_bytes() =~= b);
        return (whole, tail);
    }
    proof {
        lemma_ascii_boundaries(b, i as int);
    }
    let tail = substr(rest, i + 1, n);
    assert(tail.spec_bytes() =~= b.skip(i + 1));
    if i > 0 && bytes[i - 1] == 13u8 {
        proof {
            lemma_ascii_boundaries(b, i - 1);
        }
        let line = substr(rest, 0, i - 1);
        assert(line.spec_bytes() =~= b.take(i as int).drop_last());
        (line, tail)
    } else {
        let line = substr(rest, 0, i);
        assert(line.spec_bytes() =~= b.take(i as int));
        (line, tail)
    }
}

/// Every line is blank, or the first that is not comes first after the blank ones.
pub proof fn lemma_lines_tokens_drop_blank<O: TagOrder>(ls: Seq<Seq<u8>>, ord: O)
    ensures
        lines_tokens(ls, ord) == lines_tokens(drop_blank(ls), ord),
    decreases ls.len(),
{
    if ls.len() > 0 && blank_line(ls[0]) {
        lemma_lines_tokens_drop_blank(ls.drop_first(), ord);
        assert(lines_tokens(ls, ord) =~= lines_tokens(ls.drop_first(), ord));
    }
}

/// Skips blank lines of `rest`; returns the first line that is not blank and what follows it.
fn first_non_whitespace_line<'o>(rest: &'o str) -> (r: Option<(&'o str, &'o str)>)
    ensures
        match r {
            Some((line, tail)) => drop_blank(text_lines(rest.spec_bytes())) == seq![line.spec_bytes()]
                + text_lines(tail.spec_bytes()) && !blank_line(line.spec_bytes()),
            None => drop_blank(text_lines(rest.spec_bytes())) == Seq::<Seq<u8>>::empty(),
        },
{
    let mut cur = rest;
    loop
        invariant
            drop_blank(text_lines(rest.spec_bytes())) == drop_blank(text_lines(cur.spec_bytes())),
        decreases cur.spec_bytes().len(),
    {
        if cur.as_bytes().len() == 0 {
            assert(text_lines(cur.spec_bytes()) =~= Seq::<Seq<u8>>::empty());
            return None;
        }
        let (line, tail) = take_line(cur);
        let ghost ls = text_lines(cur.spec_bytes());
        proof {
            assert(ls[0] == line.spec_bytes());
            assert(ls.drop_first() =~= text_lines(tail.spec_bytes()));
        }
        if !is_blank(line) {
            return Some((line, tail));
        }
        cur = tail;
    }
}

} // verus!

verus! {

/// Iterator over the tokens of a `KyTeaStream`.
pub struct KyTeaTokenIter<'o, O> {
    line: Option<Iter<'o>>,
    line_str: &'o str,
    off: usize,
    rest: &'o str,
    ord: &'o O,
}

impl<'o, O: TagOrder> KyTeaTokenIter<'o, O> {
    /// The iterator over the current line splits what follows `off`.
    pub closed spec fn wf(self) -> bool {
        match self.line {
            None => true,
            Some(it) => {
                let v = iter_view(it);
                let lb = self.line_str.spec_bytes();
                &&& v.delim == TOKEN
                &&& v.escape == ESCAPE
                &&& (v.rest matches Some(r) ==> self.off <= lb.len() && is_char_boundary(
                    lb,
                    self.off as int,
                ) && r == lb.skip(self.off as int))
            },
        }
    }

    /// The tokens still to come on the current line.
    pub closed spec fn line_rest(self) -> Seq<(TokenPosition, TokenView)> {
        match self.line {
            Some(it) => match iter_view(it).rest {
                Some(r) => line_tokens(escaped_split(r, TOKEN, ESCAPE), *self.ord),
                None => seq![],
            },
            None => seq![],
        }
    }

    /// The tokens still to come.
    pub closed spec fn remaining(self) -> Seq<(TokenPosition, TokenView)> {
        self.line_rest() + lines_tokens(text_lines(self.rest.spec_bytes()), *self.ord)
    }

    fn next_token_on_curr_line(&mut self) -> (r: Option<(TokenPosition, KyTeaToken<'o, O>)>)
        requires
            old(self).wf(),
        ensures
            final(self).wf(),
            final(self).rest == old(self).rest,
            final(self).ord == old(self).ord,
            old(self).line_rest().len() == 0 ==> r is None && final(self).line_rest().len() == 0,
            old(self).line_rest().len() > 0 ==> {
                &&& r matches Some((pos, tok))
                &&& final(self).line_rest() == old(self).line_rest().drop_first()
                &&& pos == old(self).line_rest()[0].0
                &&& tok.token_view() == old(self).line_rest()[0].1
            },
    {
        let ghost lb = self.line_str.spec_bytes();
        let ghost ord = *self.ord;
        let ghost before = self.line_rest();
        let line_str = self.line_str;
        let off = self.off;
        let mut it = match self.line {
            None => {
                return None;
            },
            Some(it) => it,
        };
        let ghost r0 = iter_view(it).rest;
        let p = iter_next(&mut it);
        let after = iter_as_slice(&it);
        self.line = Some(it);
        proof {
            if let Some(r) = r0 {
                lemma_next_open(r, 0, TOKEN, ESCAPE);
            }
        }
        let piece = match p {
            None => {
                assert(self.line_rest() =~= Seq::<(TokenPosition, TokenView)>::empty());
                return None;
            },
            Some(p) => p,
        };
        let lbn = line_str.as_bytes().len();
        let ghost r = lb.skip(off as int);
        let ghost i = find_open_delim(r, TOKEN, ESCAPE);
        assert(r0 == Some(r));
        assert(piece@.len() <= r.len());
        let end = off + piece.len();
        proof {
            is_char_boundary_start_end_of_seq(lb);
            if i < r.len() {
                assert(lb[off + i] == r[i]);
                lemma_ascii_boundaries(lb, off + i);
            }
        }
        let token = substr(line_str, off, end);
        if after.is_some() {
            self.off = end + 1;
            proof {
                assert(lb.skip(end + 1) =~= r.skip(i + 1));
            }
        }
        let tok = KyTeaToken::from_token(token, self.ord);
        let position = if after.is_some() && !matches_eos_marker(tok.surface) {
            TokenPosition::Normal
        } else {
            TokenPosition::Eos
        };
        proof {
            let pieces = escaped_split(r, TOKEN, ESCAPE);
            assert(token.spec_bytes() =~= pieces[0]);
            assert(tok.surface@ == decode_utf8(kytea_surface(pieces[0])));
            assert(self.line_rest() =~= before.drop_first());
        }
        Some((position, tok))
    }

    /// The next token with its position; `None` once the output is used up, and from then on.
    pub fn next(&mut self) -> (r: Option<(TokenPosition, KyTeaToken<'o, O>)>)
        requires
            old(self).wf(),
        ensures
            final(self).wf(),
            old(self).remaining().len() == 0 ==> r is None && final(self).remaining().len() == 0,
            old(self).remaining().len() > 0 ==> {
                &&& r matches Some((pos, tok))
                &&& final(self).remaining() == old(self).remaining().drop_first()
                &&& pos == old(self).remaining()[0].0
                &&& tok.token_view() == old(self).remaining()[0].1
            },
    {
        let ghost ord = *self.ord;
        let ghost lines = lines_tokens(text_lines(self.rest.spec_bytes()), ord);
        let ghost before = self.remaining();
        if let Some(ret) = self.next_token_on_curr_line() {
            proof {
                assert(self.remaining() =~= before.drop_first());
            }
            return Some(ret);
        }
        assert(before =~= lines);
        proof {
            lemma_lines_tokens_drop_blank(text_lines(self.rest.spec_bytes()), ord);
        }
        match first_non_whitespace_line(self.rest) {
            None => {
                let n = self.rest.as_bytes().len();
                proof {
                    is_char_boundary_start_end_of_seq(self.rest.spec_bytes());
                }
                let empty = substr(self.rest, n, n);
                self.line = None;
                self.rest = empty;
                proof {
                    assert(empty.spec_bytes() =~= Seq::<u8>::empty());
                    assert(text_lines(empty.spec_bytes()) =~= Seq::<Seq<u8>>::empty());
                    assert(self.remaining() =~= Seq::<(TokenPosition, TokenView)>::empty());
                }
                None
            },
            Some((line, tail)) => {
                let it = escaped_iter(line.as_bytes(), TOKEN, ESCAPE);
                self.line = Some(it);
                self.line_str = line;
                self.off = 0;
                self.rest = tail;
                proof {
                    let lb = line.spec_bytes();
                    is_char_boundary_start_end_of_seq(lb);
                    assert(lb.skip(0) =~= lb);
                    let ls = seq![lb] + text_lines(tail.spec_bytes());
                    assert(ls.drop_first() =~= text_lines(tail.spec_bytes()));
                    assert(lines_tokens(ls, ord) =~= self.remaining());
                    lemma_next_open(lb, 0, TOKEN, ESCAPE);
                }
                self.next_token_on_curr_line()
            },
        }
    }
}

/// A token of the KyTea output: its surface, its tags text and the order of its tags.
pub struct KyTeaToken<'o, O> {
    surface: &'o str,
    tags: &'o str,
    ord: &'o O,
}

impl<'o, O: TagOrder> KyTeaToken<'o, O> {
    /// The surface text.
    pub closed spec fn surface_str(self) -> &'o str {
        self.surface
    }

    /// Splits a token at its first open `TAG` into surface and tags text.
    pub fn from_token(token: &'o str, ord: &'o O) -> (r: KyTeaToken<'o, O>)
        ensures
            r.token_view() == kytea_token_view(token.spec_bytes(), *ord),
            r.surface_str()@ == decode_utf8(kytea_surface(token.spec_bytes())),
    {
        let ghost t = token.spec_bytes();
        let bytes = token.as_bytes();
        let n = bytes.len();
        let mut it = escaped_iter(bytes, TAG, ESCAPE);
        let first = iter_next(&mut it);
        let rest = iter_as_slice(&it);
        proof {
            lemma_next_open(t, 0, TAG, ESCAPE);
            is_char_boundary_start_end_of_seq(t);
        }
        let ghost i = find_open_delim(t, TAG, ESCAPE);
        let sl = match first {
            Some(p) => p.len(),
            None => n,
        };
        proof {
            if i < t.len() {
                lemma_ascii_boundaries(t, i);
            }
        }
        let surface = substr(token, 0, sl);
        let tags = match rest {
            Some(_) => substr(token, sl + 1, n),
            None => substr(token, n, n),
        };
        proof {
            assert(surface.spec_bytes() =~= kytea_surface(t));
            assert(tags.spec_bytes() =~= kytea_tags_text(t));
        }
        KyTeaToken { surface, tags, ord }
    }
}

impl<'o, O: TagOrder> Token<'o> for KyTeaToken<'o, O> {
    closed spec fn token_view(&self) -> TokenView {
        TokenView {
            surface: TagView::Escaped(self.surface@),
            tags: self.ord.order_tags(self.tags.spec_bytes()),
        }
    }

    fn surface(&self) -> (r: Tag<'o>) {
        Tag::Escaped(self.surface)
    }

    fn tags(&self) -> (r: Vec<Tag<'o>>) {
        let tags = KyTeaTags::new(self.tags);
        self.ord.reorder(tags)
    }
}

} // verus!

verus! {

/// A token is its surface, then, when it has an open `TAG`, that `TAG` and its tags text:
/// splitting a token loses nothing.
pub proof fn token_split_rejoins(t: Seq<u8>)
    ensures
        find_open_delim(t, TAG, ESCAPE) < t.len() ==> kytea_surface(t) + seq![TAG] + kytea_tags_text(t) == t,
        find_open_delim(t, TAG, ESCAPE) >= t.len() ==> kytea_surface(t) == t && kytea_tags_text(t)
            == Seq::<u8>::empty(),
{
    lemma_next_open(t, 0, TAG, ESCAPE);
    let i = find_open_delim(t, TAG, ESCAPE);
    if i < t.len() {
        assert(t =~= t.take(i) + seq![TAG] + t.skip(i + 1));
    } else {
        assert(t.take(i) =~= t);
    }
}

/// The tokens of some lines are those of each line, one line after the other.
pub proof fn lines_are_read_one_by_one<O: TagOrder>(a: Seq<Seq<u8>>, b: Seq<Seq<u8>>, ord: O)
    ensures
        lines_tokens(a + b, ord) == lines_tokens(a, ord) + lines_tokens(b, ord),
    decreases a.len(),
{
    if a.len() == 0 {
        assert(a + b =~= b);
        assert(lines_tokens(a, ord) + lines_tokens(b, ord) =~= lines_tokens(b, ord));
    } else {
        lines_are_read_one_by_one(a.drop_first(), b, ord);
        assert((a + b).drop_first() =~= a.drop_first() + b);
        assert((a + b)[0] == a[0]);
    }
}

/// The tokens of one line of KyTea output: none for a blank line; otherwise one per piece between
/// open `TOKEN`s, in order, whose surface is the piece up to its first open `TAG`, and which ends
/// a sentence exactly when it is the last of the line or its surface is an end-of-sentence mark.
pub proof fn line_tokens_end_sentences<O: TagOrder>(line: Seq<u8>, ord: O)
    ensures
        blank_line(line) ==> lines_tokens(seq![line], ord).len() == 0,
        !blank_line(line) ==> {
            let p = escaped_split(line, TOKEN, ESCAPE);
            let t = lines_tokens(seq![line], ord);
            &&& t.len() == p.len()
            &&& forall|k: int|
                0 <= k < p.len() ==> {
                    &&& (#[trigger] t[k]).1.surface == TagView::Escaped(
                        decode_utf8(kytea_surface(p[k])),
                    )
                    &&& (t[k].0 is Eos) == (k == p.len() - 1 || spec_matches_eos_marker(
                        decode_utf8(kytea_surface(p[k])),
                    ))
                }
        },
{
    let ls = seq![line];
    assert(ls.drop_first() =~= Seq::<Seq<u8>>::empty());
    assert(ls[0] == line);
    assert(lines_tokens(ls.drop_first(), ord) =~= Seq::<(TokenPosition, TokenView)>::empty());
    if blank_line(line) {
        assert(lines_tokens(ls, ord) =~= Seq::<(TokenPosition, TokenView)>::empty());
    } else {
        let p = escaped_split(line, TOKEN, ESCAPE);
        assert(lines_tokens(ls, ord) =~= line_tokens(p, ord));
    }
}

} // verus!
