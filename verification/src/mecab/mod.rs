//! The MeCab tokenizer's reading of a parsed lattice: each node between the beginning and the end
//! of the sentence is a token, with its features, separated by commas, as tags.
pub mod node;
pub mod tokenizer;
