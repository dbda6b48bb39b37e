//! A small lexical analyzer that decomposes a URL-like string into
//! structural tokens (protocol, host, directories, filename, suffix) and
//! then into granular lexical atoms (words, numbers, alphanumeric mixes,
//! punctuation marks), reporting whether the input is URL-shaped.

pub mod model;
pub mod str_checker;
pub mod tokenizer;
