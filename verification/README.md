# pathpiece

Byte-level tokenization against a fixed vocabulary, with machine-checked
contracts (Verus).

- `src/configuration.rs` reads a vocabulary from hex-encoded lines (the
  special token gets id 0, the others ids 1, 2, ... in order).
- `src/trie.rs` is the byte-string-to-id map used for the vocabulary.
- `src/segmentation.rs` defines segmentations, the greedy rule, optimal
  (fewest-token) segmentations and the tie-break that prefers wider tokens at
  the end, with the proofs that relate them.
- `src/tokenizer.rs` is the tokenizer: greedy and optimal encoding, decoding.
- `src/rng.rs` wraps the seeded generator used for random tie-breaking.
- `app/` holds the Python bindings (file reading, conversions, thread pool).
