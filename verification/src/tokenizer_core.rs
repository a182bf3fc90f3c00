//! Core types shared by all tokenizers: delimiters, token positions and tags.
use vstd::prelude::*;

verus! {

/// Delimiter of tokens: `Sentence = Token (TOKEN Token)* \n`.
pub const TOKEN: u8 = 9u8;
/// Delimiter of tags: `Token = Surface (TAG Tag)*`.
pub const TAG: u8 = 47u8;
/// Escape byte that escapes `TOKEN`, `TAG` and itself.
pub const ESCAPE: u8 = 92u8;

/// String representation of `TOKEN`.
pub const TOKEN_STR: &'static str = "\t";
/// String representation of `TAG`.
pub const TAG_STR: &'static str = "/";
/// String representation of `ESCAPE`.
pub const ESCAPE_STR: &'static str = "\\";

/// Unicode codepoint of `TOKEN`.
pub const TOKEN_CHAR: char = '\t';
/// Unicode codepoint of `TAG`.
pub const TAG_CHAR: char = '/';
/// Unicode codepoint of `ESCAPE`.
pub const ESCAPE_CHAR: char = '\\';

/// Each delimiter is a single ASCII byte, and its string and `char` forms stand for that same
/// byte: the string is the one character whose code is the byte.
pub proof fn delimiter_forms_agree()
    ensures
        TOKEN < 0x80 && TAG < 0x80 && ESCAPE < 0x80,
        TOKEN_CHAR as u32 == TOKEN as u32 && TAG_CHAR as u32 == TAG as u32 && ESCAPE_CHAR as u32
            == ESCAPE as u32,
        TOKEN_STR@ == seq![TOKEN_CHAR] && TAG_STR@ == seq![TAG_CHAR] && ESCAPE_STR@ == seq![
            ESCAPE_CHAR,
        ],
        TOKEN != TAG && TAG != ESCAPE && TOKEN != ESCAPE,
{
    reveal_strlit("\t");
    reveal_strlit("/");
    reveal_strlit("\\");
}

/// Whether a token is an end-of-sentence token or not.
#[derive(Debug, Clone, Copy, PartialEq, Eq, PartialOrd, Ord, Hash, Structural)]
pub enum TokenPosition {
    Normal,
    Eos,
}

/// A surface or a tag, either escaped or unescaped.
#[derive(Debug, Clone, Copy)]
pub enum Tag<'o> {
    Escaped(&'o str),
    Unescaped(&'o str),
}

/// The mathematical value of a tag: its kind and its characters.
pub enum TagView {
    Escaped(Seq<char>),
    Unescaped(Seq<char>),
}

impl<'o> View for Tag<'o> {
    type V = TagView;

    open spec fn view(&self) -> TagView {
        match self {
            Tag::Escaped(s) => TagView::Escaped(s@),
            Tag::Unescaped(s) => TagView::Unescaped(s@),
        }
    }
}

impl<'o> Tag<'o> {
    /// The inner string of the tag, whatever its kind.
    pub open spec fn spec_str(self) -> &'o str {
        match self {
            Tag::Escaped(s) => s,
            Tag::Unescaped(s) => s,
        }
    }

    pub fn as_str(self) -> (r: &'o str)
        ensures
            r == self.spec_str(),
    {
        match self {
            Tag::Escaped(s) => s,
            Tag::Unescaped(s) => s,
        }
    }
}

/// The mathematical value of a token: its surface and its tags, in order.
pub struct TokenView {
    pub surface: TagView,
    pub tags: Seq<TagView>,
}

/// The views of a sequence of tags.
pub open spec fn tag_views<'o>(tags: Seq<Tag<'o>>) -> Seq<TagView> {
    tags.map_values(|t: Tag<'o>| t@)
}

/// A token: a surface together with zero or more tags.
pub trait Token<'o> {
    /// What the token stands for.
    spec fn token_view(&self) -> TokenView;

    fn surface(&self) -> (r: Tag<'o>)
        ensures
            r@ == self.token_view().surface,
    ;

    fn tags(&self) -> (r: Vec<Tag<'o>>)
        ensures
            tag_views(r@) == self.token_view().tags,
    ;
}

/// A tokenized text: a sequence of tokens, each with its position.
pub trait TokenStream<'o> {
    type Tok: Token<'o>;

    /// The tokens the stream produces, in order.
    spec fn stream_view(&self) -> Seq<(TokenPosition, TokenView)>;

    fn tokens(&self) -> (r: Vec<(TokenPosition, Self::Tok)>)
        ensures
            r@.len() == self.stream_view().len(),
            forall|k: int|
                0 <= k < r@.len() ==> #[trigger] r@[k].0 == self.stream_view()[k].0
                    && r@[k].1.token_view() == self.stream_view()[k].1,
    ;
}

} // verus!
