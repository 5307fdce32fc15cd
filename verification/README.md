# bpe_core

Training of byte-pair-encoding tokenizers, verified with Verus.

A corpus is cut into chunks that end right after an occurrence of the first
special token; each chunk is split at the special tokens (which are dropped)
and cut into pretokens by the GPT-2 pattern; the pretokens are counted. Every
distinct pretoken becomes a sequence of byte tokens that stands for its
count of duplicates, and training repeatedly merges the pair of adjacent
tokens with the largest dup-weighted count (ties broken by the byte strings
of the two tokens, compared as a tuple) into a new token, until the
vocabulary has the asked size.

Layout:

- `src/` — the library, every function verified:
  - `pairs`, `sums`, `bytes`: the mathematical model (pair counts, greedy
    merges, sums, byte-string order);
  - `stats`, `sequence`: the shard of sequences as linked lists over one
    array, with incrementally maintained pair statistics, and its cursor;
  - `order`, `select`, `corpus`: comparing candidates, choosing the next
    merge, and the model of a whole training run;
  - `regex`, `pretok`, `builder`, `chunks`: pretokenization with
    `fancy_regex`, the counting of pretokens, and the chunking of a corpus;
  - `train`, `progress`: training and its progress counters;
  - `fxmaps`: the `rustc_hash` maps that the statistics live in, behind
    trusted wrappers.
- `app/` — mapping a corpus file into memory, and an error type with
  `Display`.
- `tests/` — tests of the library.
