//! Progress of training, shared with whoever watches it: counters that
//! training updates as it goes, and a flag that asks it to stop.

use std::sync::atomic::{AtomicBool, AtomicU32};
use std::sync::Arc;
use vstd::prelude::*;

verus! {

/// Keeps track of the progress of the training function.
#[derive(Debug)]
pub struct ProgressInfo {
    pub pretoken_unique_sequences: AtomicU32,
    pub pretoken_total_shards: AtomicU32,
    pub pretoken_done_shards: AtomicU32,
    pub tokenizer_merges_done: AtomicU32,
    pub should_stop: AtomicBool,
}

impl Default for ProgressInfo {
    /// All counters at zero, and not asked to stop.
    fn default() -> (r: ProgressInfo) {
        ProgressInfo {
            pretoken_unique_sequences: AtomicU32::new(0),
            pretoken_total_shards: AtomicU32::new(0),
            pretoken_done_shards: AtomicU32::new(0),
            tokenizer_merges_done: AtomicU32::new(0),
            should_stop: AtomicBool::new(false),
        }
    }
}

/// A snapshot of the counters that watchers display.
#[derive(Debug, Clone, Copy, PartialEq, Eq)]
pub struct Progress {
    pub pretoken_total_shards: u32,
    pub pretoken_done_shards: u32,
    pub tokenizer_merges_done: u32,
}

impl Progress {
    /// Reads the counters of `pi`, each at some moment while it is read.
    pub fn new(pi: &ProgressInfo) -> (r: Progress) {
        Progress {
            pretoken_total_shards: pi.pretoken_total_shards.load(std::sync::atomic::Ordering::Relaxed),
            pretoken_done_shards: pi.pretoken_done_shards.load(std::sync::atomic::Ordering::Relaxed),
            tokenizer_merges_done: pi.tokenizer_merges_done.load(std::sync::atomic::Ordering::Relaxed),
        }
    }
}

/// Records how many distinct sequences pretokenization found.
pub(crate) fn set_unique_sequences(progress_info: &Option<Arc<ProgressInfo>>, n: u32) {
    if let Some(pi) = progress_info {
        pi.pretoken_unique_sequences.store(n, std::sync::atomic::Ordering::Relaxed);
    }
}

/// Records how many chunks pretokenization works through.
pub(crate) fn set_total_shards(progress_info: &Option<Arc<ProgressInfo>>, n: u32) {
    if let Some(pi) = progress_info {
        pi.pretoken_total_shards.store(n, std::sync::atomic::Ordering::Relaxed);
    }
}

/// Counts one more pretokenized chunk.
pub(crate) fn add_done_shard(progress_info: &Option<Arc<ProgressInfo>>) {
    if let Some(pi) = progress_info {
        pi.pretoken_done_shards.fetch_add(1, std::sync::atomic::Ordering::Relaxed);
    }
}

/// Records how many tokens the dictionary holds.
pub(crate) fn set_merges_done(progress_info: &Option<Arc<ProgressInfo>>, n: u32) {
    if let Some(pi) = progress_info {
        pi.tokenizer_merges_done.store(n, std::sync::atomic::Ordering::Relaxed);
    }
}

/// Counts one more merge.
pub(crate) fn add_merge_done(progress_info: &Option<Arc<ProgressInfo>>) {
    if let Some(pi) = progress_info {
        pi.tokenizer_merges_done.fetch_add(1, std::sync::atomic::Ordering::Relaxed);
    }
}

/// Whether training was asked to stop: never without progress info, else
/// what its flag holds when read.
pub(crate) fn stop_requested(progress_info: &Option<Arc<ProgressInfo>>) -> (r: bool)
    ensures
        progress_info is None ==> !r,
{
    match progress_info {
        Some(pi) => pi.should_stop.load(std::sync::atomic::Ordering::Relaxed),
        None => false,
    }
}

} // verus!
