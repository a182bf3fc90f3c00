//! The Unicode services that normalization relies on.
use vstd::prelude::*;
use unicode_normalization::UnicodeNormalization;

verus! {

/// The NFKC normal form of a character sequence, as computed by `unicode-normalization`.
pub uninterp spec fn nfkc(s: Seq<char>) -> Seq<char>;

/// Whether a character has the Unicode `White_Space` property (PropList.txt): the
/// controls U+0009 to U+000D, the space, U+0085, U+00A0, U+1680, U+2000 to U+200A, the line
/// and paragraph separators U+2028 and U+2029, U+202F, U+205F and U+3000.
pub open spec fn is_white_space(c: char) -> bool {
    let u = c as u32;
    ||| 0x09 <= u <= 0x0d
    ||| u == 0x20
    ||| u == 0x85
    ||| u == 0xa0
    ||| u == 0x1680
    ||| 0x2000 <= u <= 0x200a
    ||| u == 0x2028
    ||| u == 0x2029
    ||| u == 0x202f
    ||| u == 0x205f
    ||| u == 0x3000
}

/// Calls `str::nfkc` of `unicode-normalization` and collects the characters.
///
/// The result is a function of the input alone and is named `nfkc`; nothing more is
/// claimed of it here.
#[verifier::external_body]
pub(crate) fn nfkc_chars(s: &str) -> (r: Vec<char>)
    ensures
        r@ == nfkc(s@),
{
    s.nfkc().collect()
}

/// Whether the character has the Unicode `White_Space` property, as `char::is_whitespace` tells.
pub(crate) fn char_is_whitespace(c: char) -> (r: bool)
    ensures
        r == is_white_space(c),
{
    let u = c as u32;
    (0x09 <= u && u <= 0x0d) || u == 0x20 || u == 0x85 || u == 0xa0 || u == 0x1680 || (0x2000 <= u
        && u <= 0x200a) || u == 0x2028 || u == 0x2029 || u == 0x202f || u == 0x205f || u == 0x3000
}

/// Calls `String::push`, documented to append the character to the end of the string.
#[verifier::external_body]
pub(crate) fn push_char(s: &mut String, c: char)
    ensures
        final(s)@ == old(s)@.push(c),
{
    s.push(c)
}

/// The string of the characters `v`.
pub fn string_from_chars(v: &Vec<char>) -> (r: String)
    ensures
        r@ == v@,
{
    let mut r = String::new();
    let mut k: usize = 0;
    while k < v.len()
        invariant
            k <= v@.len(),
            r@ == v@.take(k as int),
        decreases v@.len() - k,
    {
        push_char(&mut r, v[k]);
        k = k + 1;
        assert(v@.take(k as int) =~= v@.take(k - 1).push(v@[k - 1]));
    }
    assert(v@.take(k as int) =~= v@);
    r
}

} // verus!
