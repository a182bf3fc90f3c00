//! Safe replacements for the delimiters in normalized text.
use vstd::prelude::*;

verus! {

/// Box Drawings Light Diagonal Upper Right to Lower Left, "╱", replaces `TAG`.
pub const TAG: char = '\u{2571}';
/// Open Box, "␣", replaces `TOKEN` and whitespace.
pub const TOKEN: char = '\u{2423}';

} // verus!
