//! Byte-pair-encoding tokenizer training: a corpus is pretokenized (split at
//! the special tokens, then cut by the GPT-2 pattern), and the most frequent
//! pair of adjacent tokens is merged into a new token until the vocabulary
//! has the asked size.

pub mod builder;
pub mod bytes;
pub mod chunks;
pub mod corpus;
mod fxmaps;
pub mod order;
pub mod pairs;
pub mod pretok;
pub mod progress;
pub mod regex;
pub mod select;
pub mod sequence;
pub mod stats;
pub mod sums;
pub mod train;

pub use progress::ProgressInfo;
pub use train::{train_tokenizer, BpeError};
