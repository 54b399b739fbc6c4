//! Byte-level tokenization with a fixed vocabulary: greedy longest-match and
//! optimal (fewest tokens) segmentation, with the vocabulary read from
//! hex-encoded lines.
pub mod trie;
pub mod configuration;
pub mod segmentation;
pub mod rng;
pub mod tokenizer;
