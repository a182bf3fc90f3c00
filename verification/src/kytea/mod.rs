//! The KyTea tokenizer's reading of the model's output: lines of tokens separated by `TOKEN`,
//! each token a surface and tags separated by `TAG`, with `ESCAPE` escaping the delimiters.
pub mod escaped;
pub mod segments;
pub mod tags;
pub mod sys;
pub mod tokenizer;
