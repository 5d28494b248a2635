//! A frequency-counting prefix tree over token sequences, with the
//! tokenizers that turn free text into such sequences.

pub mod text;
pub mod token;
pub mod trie;
pub mod counting;
pub mod parser;
pub mod text_parser;
