//! Pure string predicates about end-of-sentence punctuation.
use vstd::prelude::*;
use vstd::string::*;

verus! {

/// The end-of-sentence punctuation marks: `.`, `!`, `?`, their full-width forms,
/// the ideographic full stop, `‼` and `⁉`.
pub open spec fn is_eos_char(c: char) -> bool {
    ||| c == '.'
    ||| c == '!'
    ||| c == '?'
    ||| c == '\u{FF0E}'
    ||| c == '\u{FF01}'
    ||| c == '\u{FF1F}'
    ||| c == '\u{3002}'
    ||| c == '\u{203C}'
    ||| c == '\u{2049}'
}

/// The last character of `s` is an end-of-sentence mark.
pub open spec fn spec_ends_with_eos_marker(s: Seq<char>) -> bool {
    s.len() > 0 && is_eos_char(s.last())
}

/// `s` is exactly one end-of-sentence mark.
pub open spec fn spec_matches_eos_marker(s: Seq<char>) -> bool {
    s.len() == 1 && is_eos_char(s[0])
}

pub fn eos_char(c: char) -> (r: bool)
    ensures
        r == is_eos_char(c),
{
    c == '.' || c == '!' || c == '?' || c == '\u{FF0E}' || c == '\u{FF01}' || c == '\u{FF1F}'
        || c == '\u{3002}' || c == '\u{203C}' || c == '\u{2049}'
}

/// Returns true if the input string ends with an end-of-sentence punctuation mark.
pub fn ends_with_eos_marker(s: &str) -> (r: bool)
    ensures
        r == spec_ends_with_eos_marker(s@),
{
    let n = s.unicode_len();
    if n == 0 {
        false
    } else {
        eos_char(s.get_char(n - 1))
    }
}

/// Returns true if the input string is exactly one end-of-sentence punctuation mark.
pub fn matches_eos_marker(s: &str) -> (r: bool)
    ensures
        r == spec_matches_eos_marker(s@),
{
    let n = s.unicode_len();
    if n != 1 {
        false
    } else {
        eos_char(s.get_char(0))
    }
}

/// The documented end-of-sentence marks, listed: `.`, `!`, `?`, `．`, `！`, `？`, `。`, `‼` and `⁉`.
pub open spec fn documented_eos_mark(c: char) -> bool {
    c == '.' || c == '!' || c == '?' || c == '\u{FF0E}' || c == '\u{FF01}' || c == '\u{FF1F}'
        || c == '\u{3002}' || c == '\u{203C}' || c == '\u{2049}'
}

/// A text ends a sentence exactly when its last character is one of the documented marks, and
/// it is an end-of-sentence mark exactly when it is one of them alone. In particular a word
/// ending in `?` ends a sentence, and so does `?` alone.
pub proof fn end_of_sentence_marks_are_the_documented_ones(s: Seq<char>)
    ensures
        spec_ends_with_eos_marker(s) == (s.len() > 0 && documented_eos_mark(s.last())),
        spec_matches_eos_marker(s) == (s.len() == 1 && documented_eos_mark(s[0])),
        s.len() > 0 && s.last() == '?' ==> spec_ends_with_eos_marker(s),
        s.len() > 0 && s.last() == '.' ==> spec_ends_with_eos_marker(s),
        s.len() > 0 && s.last() == '!' ==> spec_ends_with_eos_marker(s),
{
}

} // verus!
