//! Writing tokenized output as a single string: NFKC normalization and replacement of the
//! delimiters inside surfaces and tags.
pub mod replace;
pub mod unicode;
pub mod tag;
pub mod token_chars;
pub mod laws;
