//! Tokenizer utilities with a verified core: delimiters, tag normalization,
//! token-stream formatting and the post-processing of several tokenizers.

pub mod tokenizer_core;
pub mod text;
pub mod utils;
pub mod whitespace;
pub mod kytea;
pub mod mecab;
pub mod api;
pub mod cli;
