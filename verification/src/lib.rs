//! A pipeline that turns text into tokens and back: normalization, pre-tokenization, a
//! model and post-processing around encodings that keep track of where each token came
//! from, with tokens that the user adds, truncation, padding and training. Every
//! function is verified against a contract over the sequences that its types stand for.

pub mod tokenizer;
pub mod utils;
