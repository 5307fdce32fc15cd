//! The hash maps and sets of `rustc_hash` that the library keeps its
//! statistics in. Each is held in a struct of its own whose contents have a
//! name; the methods that the library calls are trusted wrappers whose
//! contracts state what std's `HashMap`/`HashSet` (that `FxHashMap` and
//! `FxHashSet` are, with a different hasher) do to those contents.

use rustc_hash::{FxHashMap, FxHashSet};
use vstd::prelude::*;

verus! {

/// A map from a pair of tokens to a value.
pub type PairMap<V> = Map<(u32, u32), V>;

/// A set of pairs of tokens.
pub type PairSetView = Set<(u32, u32)>;

/// A map from a `u32` key to a `u32` value.
pub type U32Map = Map<u32, u32>;

/// A map from a sequence index to a `u32` value.
pub type IndexMap = Map<usize, u32>;

/// A map from a byte string to a count.
pub type BytesMap = Map<Seq<u8>, usize>;

/// A map from sequence index (as `u32`) to its number of duplicates.
#[verifier::external_body]
pub struct DupCounts {
    m: FxHashMap<u32, u32>,
}

/// What a `DupCounts` holds.
pub uninterp spec fn dup_counts_contents(m: DupCounts) -> Map<u32, u32>;

impl DupCounts {
    /// `FxHashMap::default`: an empty map.
    #[verifier::external_body]
    pub(crate) fn new() -> (fresh: DupCounts)
        ensures
            dup_counts_contents(fresh) == U32Map::empty(),
    {
        DupCounts { m: FxHashMap::default() }
    }

    /// `HashMap::insert`: maps `k` to `v`, replacing what it held.
    #[verifier::external_body]
    pub(crate) fn insert(&mut self, k: u32, v: u32)
        ensures
            dup_counts_contents(*final(self)) == dup_counts_contents(*old(self)).insert(k, v),
    {
        self.m.insert(k, v);
    }

    /// `HashMap::get`: the value of `k`, if any.
    #[verifier::external_body]
    pub(crate) fn get(&self, k: u32) -> (r: Option<u32>)
        ensures
            r == (if dup_counts_contents(*self).contains_key(k) {
                Some(dup_counts_contents(*self)[k])
            } else {
                None
            }),
    {
        self.m.get(&k).copied()
    }
}

/// A map from a pair of tokens to a signed running total.
#[verifier::external_body]
pub struct PairTotals {
    m: FxHashMap<(u32, u32), i64>,
}

/// What a `PairTotals` holds.
pub uninterp spec fn pair_totals_contents(m: PairTotals) -> Map<(u32, u32), i64>;

impl PairTotals {
    /// `FxHashMap::default`: an empty map.
    #[verifier::external_body]
    pub(crate) fn new() -> (fresh: PairTotals)
        ensures
            pair_totals_contents(fresh) == PairMap::<i64>::empty(),
    {
        PairTotals { m: FxHashMap::default() }
    }

    /// `HashMap::insert`: maps `k` to `v`, replacing what it held.
    #[verifier::external_body]
    pub(crate) fn insert(&mut self, k: (u32, u32), v: i64)
        ensures
            pair_totals_contents(*final(self)) == pair_totals_contents(*old(self)).insert(k, v),
    {
        self.m.insert(k, v);
    }

    /// `HashMap::get`: the value of `k`, if any.
    #[verifier::external_body]
    pub(crate) fn get(&self, k: (u32, u32)) -> (r: Option<i64>)
        ensures
            r == (if pair_totals_contents(*self).contains_key(k) {
                Some(pair_totals_contents(*self)[k])
            } else {
                None
            }),
    {
        self.m.get(&k).copied()
    }
}

/// A set of pairs of tokens.
#[verifier::external_body]
pub struct PairSet {
    s: FxHashSet<(u32, u32)>,
}

/// What a `PairSet` holds.
pub uninterp spec fn pair_set_contents(s: PairSet) -> Set<(u32, u32)>;

impl PairSet {
    /// `FxHashSet::default`: an empty set.
    #[verifier::external_body]
    pub(crate) fn new() -> (r: PairSet)
        ensures
            pair_set_contents(r) == PairSetView::empty(),
    {
        PairSet { s: FxHashSet::default() }
    }

    /// `HashSet::insert`: adds `k`.
    #[verifier::external_body]
    pub(crate) fn insert(&mut self, k: (u32, u32))
        ensures
            pair_set_contents(*final(self)) == pair_set_contents(*old(self)).insert(k),
    {
        self.s.insert(k);
    }

    /// `HashSet::drain`, collected: every element once, in the set's own
    /// order (which is left open); the set is empty afterwards.
    #[verifier::external_body]
    pub(crate) fn drain(&mut self) -> (r: Vec<(u32, u32)>)
        ensures
            pair_set_contents(*final(self)) == PairSetView::empty(),
            r@.no_duplicates(),
            r@.to_set() == pair_set_contents(*old(self)),
    {
        self.s.drain().collect()
    }
}

/// A map from sequence index to how often a pair occurs in that sequence.
#[verifier::external_body]
pub struct SeqCounts {
    m: FxHashMap<usize, u32>,
}

/// What a `SeqCounts` holds.
pub uninterp spec fn seq_counts_contents(m: SeqCounts) -> Map<usize, u32>;

impl SeqCounts {
    /// `FxHashMap::default`: an empty map.
    #[verifier::external_body]
    pub(crate) fn new() -> (r: SeqCounts)
        ensures
            seq_counts_contents(r) == IndexMap::empty(),
    {
        SeqCounts { m: FxHashMap::default() }
    }

    /// `HashMap::insert`: maps `k` to `v`, replacing what it held.
    #[verifier::external_body]
    pub(crate) fn insert(&mut self, k: usize, v: u32)
        ensures
            seq_counts_contents(*final(self)) == seq_counts_contents(*old(self)).insert(k, v),
    {
        self.m.insert(k, v);
    }

    /// `HashMap::remove`: drops `k`.
    #[verifier::external_body]
    pub(crate) fn remove(&mut self, k: usize)
        ensures
            seq_counts_contents(*final(self)) == seq_counts_contents(*old(self)).remove(k),
    {
        self.m.remove(&k);
    }

    /// `HashMap::get`: the value of `k`, if any.
    #[verifier::external_body]
    pub(crate) fn get(&self, k: usize) -> (r: Option<u32>)
        ensures
            r == (if seq_counts_contents(*self).contains_key(k) {
                Some(seq_counts_contents(*self)[k])
            } else {
                None
            }),
    {
        self.m.get(&k).copied()
    }

    /// `HashMap::keys`, collected: every key once, in the map's own order
    /// (which is left open).
    #[verifier::external_body]
    pub(crate) fn keys(&self) -> (r: Vec<usize>)
        ensures
            r@.no_duplicates(),
            r@.to_set() == seq_counts_contents(*self).dom(),
    {
        self.m.keys().copied().collect()
    }
}

/// A map from a pair of tokens to the per-sequence counts of that pair.
#[verifier::external_body]
pub struct PairIndex {
    m: FxHashMap<(u32, u32), SeqCounts>,
}

/// What a `PairIndex` holds.
pub uninterp spec fn pair_index_contents(m: PairIndex) -> Map<(u32, u32), SeqCounts>;

impl PairIndex {
    /// `FxHashMap::default`: an empty map.
    #[verifier::external_body]
    pub(crate) fn new() -> (r: PairIndex)
        ensures
            pair_index_contents(r) == PairMap::<SeqCounts>::empty(),
    {
        PairIndex { m: FxHashMap::default() }
    }

    /// `HashMap::insert`: maps `k` to `v`, replacing what it held.
    #[verifier::external_body]
    pub(crate) fn insert(&mut self, k: (u32, u32), v: SeqCounts)
        ensures
            pair_index_contents(*final(self)) == pair_index_contents(*old(self)).insert(k, v),
    {
        self.m.insert(k, v);
    }

    /// `HashMap::remove`: takes the value of `k` out, if any.
    #[verifier::external_body]
    pub(crate) fn remove(&mut self, k: (u32, u32)) -> (r: Option<SeqCounts>)
        ensures
            pair_index_contents(*final(self)) == pair_index_contents(*old(self)).remove(k),
            r == (if pair_index_contents(*old(self)).contains_key(k) {
                Some(pair_index_contents(*old(self))[k])
            } else {
                None
            }),
    {
        self.m.remove(&k)
    }

    /// `HashMap::get`: the value of `k`, if any.
    #[verifier::external_body]
    pub(crate) fn get(&self, k: (u32, u32)) -> (r: Option<&SeqCounts>)
        ensures
            r == (if pair_index_contents(*self).contains_key(k) {
                Some(&pair_index_contents(*self)[k])
            } else {
                None
            }),
    {
        self.m.get(&k)
    }

    /// `HashMap::keys`, collected: every key once, in the map's own order
    /// (which is left open).
    #[verifier::external_body]
    pub(crate) fn keys(&self) -> (r: Vec<(u32, u32)>)
        ensures
            r@.no_duplicates(),
            r@.to_set() == pair_index_contents(*self).dom(),
    {
        self.m.keys().copied().collect()
    }
}

/// A map from a byte string to how often it was seen.
#[verifier::external_body]
#[derive(Debug)]
pub struct ByteCounts {
    m: FxHashMap<Vec<u8>, usize>,
}

/// What a `ByteCounts` holds, keyed by the bytes of each key.
pub uninterp spec fn byte_counts_contents(m: ByteCounts) -> Map<Seq<u8>, usize>;

impl ByteCounts {
    /// `FxHashMap::default`: an empty map.
    #[verifier::external_body]
    pub(crate) fn new() -> (r: ByteCounts)
        ensures
            byte_counts_contents(r) == BytesMap::empty(),
    {
        ByteCounts { m: FxHashMap::default() }
    }

    /// `HashMap::insert`: maps `k` to `v`, replacing what it held.
    #[verifier::external_body]
    pub(crate) fn insert(&mut self, k: Vec<u8>, v: usize)
        ensures
            byte_counts_contents(*final(self)) == byte_counts_contents(*old(self)).insert(k@, v),
    {
        self.m.insert(k, v);
    }

    /// `HashMap::get`: the value of `k`, if any.
    #[verifier::external_body]
    pub(crate) fn get(&self, k: &[u8]) -> (r: Option<usize>)
        ensures
            r == (if byte_counts_contents(*self).contains_key(k@) {
                Some(byte_counts_contents(*self)[k@])
            } else {
                None
            }),
    {
        self.m.get(k).copied()
    }

    /// `HashMap::len`: the number of keys.
    #[verifier::external_body]
    pub(crate) fn len(&self) -> (r: usize)
        ensures
            r == byte_counts_contents(*self).dom().len(),
    {
        self.m.len()
    }

    /// `HashMap::iter`, collected with the keys copied: every entry once,
    /// in the map's own order (which is left open).
    #[verifier::external_body]
    pub(crate) fn entries(&self) -> (r: Vec<(Vec<u8>, usize)>)
        ensures
            r@.map_values(|e: (Vec<u8>, usize)| e.0@).no_duplicates(),
            r@.map_values(|e: (Vec<u8>, usize)| e.0@).to_set() == byte_counts_contents(*self).dom(),
            forall|i: int| 0 <= i < r@.len() ==> #[trigger] byte_counts_contents(*self)[r@[i].0@] == r@[i].1,
    {
        self.m.iter().map(|(k, v)| (k.clone(), *v)).collect()
    }

    /// `HashMap::into_iter`, collected: every entry once, in the map's own
    /// order (which is left open).
    #[verifier::external_body]
    pub(crate) fn into_entries(self) -> (r: Vec<(Vec<u8>, usize)>)
        ensures
            r@.map_values(|e: (Vec<u8>, usize)| e.0@).no_duplicates(),
            r@.map_values(|e: (Vec<u8>, usize)| e.0@).to_set() == byte_counts_contents(self).dom(),
            forall|i: int| 0 <= i < r@.len() ==> #[trigger] byte_counts_contents(self)[r@[i].0@] == r@[i].1,
    {
        self.m.into_iter().collect()
    }

    /// `HashMap`'s `==`: the same keys with the same values.
    #[verifier::external_body]
    pub(crate) fn equals(&self, other: &ByteCounts) -> (r: bool)
        ensures
            r == (byte_counts_contents(*self) == byte_counts_contents(*other)),
    {
        self.m == other.m
    }
}

} // verus!
