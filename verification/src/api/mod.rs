//! The choices that the high-level tokenization entry points make: where input and output go,
//! which tags are written, how model paths are handed to the C libraries, and their errors.
pub mod common;
pub mod error;
pub mod kytea;
pub mod mecab;
