//! Tokenizer-independent utilities: string predicates, decoding, formatting, the errors of
//! tokenizing inputs into outputs, and a delimiter-only tokenizer.
pub mod str_utils;
pub mod noop_tokenizer;
pub mod write;
pub mod decode;
pub mod io;
pub mod fs;
pub mod walk;
