//! Running statistics of the pairs of adjacent tokens in a shard: for every
//! pair, how often it occurs in each sequence, and its total over all
//! sequences weighted by how many duplicates each sequence stands for.

use crate::fxmaps::{
    dup_counts_contents, pair_index_contents, pair_set_contents, pair_totals_contents,
    seq_counts_contents, DupCounts, PairIndex, PairSet, PairTotals, SeqCounts,
};
use crate::order::CountInfo;
use crate::sums::{
    lemma_sum_below_congruent, lemma_sum_below_update, lemma_sum_below_zero, lemma_sum_over_all,
    lemma_sum_over_prefix, lemma_sum_below_mono, lemma_sum_below_term, sum_below, sum_over,
};
use vstd::prelude::*;

verus! {

/// Statistics of the pairs of adjacent tokens over a set of sequences.
pub struct RealStatsCollector {
    /// number of duplicates for each sequence.
    duplicates: DupCounts,
    /// maps a pair to a map of {sequence index -> count}.
    count_index: PairIndex,
    /// running dup-weighted total occurrences for each pair.
    pair_totals: PairTotals,
    /// pairs whose total changed since the last `drain_dirty`.
    dirty: PairSet,
    /// how many sequences the statistics cover.
    num_sequences: Ghost<nat>,
}

impl RealStatsCollector {
    /// How many sequences the statistics cover.
    pub closed spec fn sequences(&self) -> nat {
        self.num_sequences@
    }

    /// The number of duplicates recorded for sequence `s`.
    pub closed spec fn dup(&self, s: int) -> nat {
        dup_counts_contents(self.duplicates)[s as u32] as nat
    }

    /// How often `p` occurs in sequence `s`, as recorded.
    pub closed spec fn seq_count(&self, p: (u32, u32), s: int) -> nat {
        let idx = pair_index_contents(self.count_index);
        if 0 <= s <= usize::MAX && idx.contains_key(p) && seq_counts_contents(idx[p]).contains_key(
            s as usize,
        ) {
            seq_counts_contents(idx[p])[s as usize] as nat
        } else {
            0
        }
    }

    /// The running total stored for `p`.
    pub closed spec fn stored_total(&self, p: (u32, u32)) -> int {
        let t = pair_totals_contents(self.pair_totals);
        if t.contains_key(p) {
            t[p] as int
        } else {
            0
        }
    }

    /// The total of `p` over all sequences, each weighted by its duplicates.
    pub open spec fn weighted_count(&self, p: (u32, u32)) -> int {
        sum_below(self.sequences(), |s: int| (self.dup(s) * self.seq_count(p, s)) as int)
    }

    /// The pairs touched since the last `drain_dirty`.
    pub closed spec fn dirty_pairs(&self) -> Set<(u32, u32)> {
        pair_set_contents(self.dirty)
    }

    /// The sequence indices that hold `p`, as recorded.
    pub closed spec fn holders(&self, p: (u32, u32)) -> Set<usize> {
        let idx = pair_index_contents(self.count_index);
        if idx.contains_key(p) {
            seq_counts_contents(idx[p]).dom()
        } else {
            Set::empty()
        }
    }

    /// The statistics are consistent: every sequence has a duplicate count,
    /// recorded counts are positive and name existing sequences, and each
    /// stored total is the weighted sum of the recorded counts.
    pub closed spec fn wf(&self) -> bool {
        &&& self.sequences() <= u32::MAX + 1
        &&& forall|k: u32| #[trigger]
            dup_counts_contents(self.duplicates).contains_key(k) <==> k < self.sequences()
        &&& forall|p: (u32, u32), s: usize| #[trigger]
            self.holders(p).contains(s) ==> s < self.sequences() && self.seq_count(p, s as int) > 0
        &&& forall|p: (u32, u32)| #[trigger] self.stored_total(p) == self.weighted_count(p)
    }

    /// Whether sequence `s` has a duplicate count recorded.
    pub closed spec fn has_dup(&self, s: int) -> bool {
        0 <= s <= u32::MAX && dup_counts_contents(self.duplicates).contains_key(s as u32)
    }

    /// In consistent statistics, which every operation keeps, the stored
    /// total of each pair is the sum over the sequences of its recorded
    /// count times the sequence's duplicates, every recorded count is
    /// positive, and every sequence that holds a count has a duplicate
    /// count.
    pub proof fn lemma_consistent(&self, p: (u32, u32))
        requires
            self.wf(),
        ensures
            self.stored_total(p) == self.weighted_count(p),
            forall|s: usize| #[trigger]
                self.holders(p).contains(s) ==> self.seq_count(p, s as int) > 0 && self.has_dup(s as int),
    {
        assert forall|s: usize| #[trigger] self.holders(p).contains(s) implies self.seq_count(p, s as int) > 0
            && self.has_dup(s as int) by {
            assert(s < self.sequences());
            assert(dup_counts_contents(self.duplicates).contains_key(s as u32));
        }
    }

    /// Facts that follow from consistency.
    pub proof fn lemma_wf(&self)
        requires
            self.wf(),
        ensures
            forall|p: (u32, u32), s: int|
                (s < 0 || s >= self.sequences()) ==> #[trigger] self.seq_count(p, s) == 0,
            forall|p: (u32, u32), s: usize| #[trigger]
                self.holders(p).contains(s) <==> self.seq_count(p, s as int) > 0,
    {
        assert forall|p: (u32, u32), s: int|
            (s < 0 || s >= self.sequences()) implies #[trigger] self.seq_count(p, s) == 0 by {
            if self.seq_count(p, s) != 0 {
                assert(self.holders(p).contains(s as usize));
            }
        }
    }

    /// One sequence's share of a weighted count is at most the whole, which
    /// is not negative.
    pub proof fn lemma_weighted_term(&self, p: (u32, u32), s: int)
        requires
            self.wf(),
            0 <= s < self.sequences(),
        ensures
            self.dup(s) * self.seq_count(p, s) <= self.weighted_count(p),
            0 <= self.weighted_count(p),
    {
        let f = |t: int| (self.dup(t) * self.seq_count(p, t)) as int;
        assert forall|t: int| 0 <= t < self.sequences() implies 0 <= #[trigger] f(t) <= f(t) by {
            let d = self.dup(t);
            let c = self.seq_count(p, t);
            assert(0 <= d * c) by (nonlinear_arith)
                requires
                    0 <= d,
                    0 <= c,
            ;
        }
        lemma_sum_below_mono(self.sequences(), f, f);
        lemma_sum_below_term(self.sequences(), f, s);
    }

    /// Statistics of no sequences.
    pub fn new() -> (r: RealStatsCollector)
        ensures
            r.wf(),
            r.sequences() == 0,
            r.dirty_pairs() == Set::<(u32, u32)>::empty(),
            forall|p: (u32, u32), s: int| #[trigger] r.seq_count(p, s) == 0,
    {
        let r = RealStatsCollector {
            duplicates: DupCounts::new(),
            count_index: PairIndex::new(),
            pair_totals: PairTotals::new(),
            dirty: PairSet::new(),
            num_sequences: Ghost(0),
        };
        assert forall|p: (u32, u32)| #[trigger] r.stored_total(p) == r.weighted_count(p) by {}
        r
    }

    /// Records the duplicate count of a new sequence, the next index.
    pub(crate) fn update_duplicate_count(&mut self, sequence_idx: usize, dup_count: u32)
        requires
            old(self).wf(),
            sequence_idx == old(self).sequences(),
            sequence_idx <= u32::MAX,
        ensures
            final(self).wf(),
            final(self).sequences() == old(self).sequences() + 1,
            final(self).dup(sequence_idx as int) == dup_count,
            forall|s: int| 0 <= s < old(self).sequences() ==> #[trigger] final(self).dup(s) == old(self).dup(s),
            forall|p: (u32, u32), s: int| #[trigger] final(self).seq_count(p, s) == old(self).seq_count(p, s),
            forall|p: (u32, u32)| #[trigger] final(self).weighted_count(p) == old(self).weighted_count(p),
            final(self).dirty_pairs() == old(self).dirty_pairs(),
    {
        proof {
            self.lemma_wf();
        }
        let ghost old_self = *self;
        let seq_idx = sequence_idx as u32;
        self.duplicates.insert(seq_idx, dup_count);
        self.num_sequences = Ghost(self.num_sequences@ + 1);
        proof {
            assert forall|s: int| 0 <= s < old_self.sequences() implies #[trigger] self.dup(s) == old_self.dup(s) by {
                assert(s as u32 != seq_idx);
            }
            assert forall|p: (u32, u32)| #[trigger] self.weighted_count(p) == old_self.weighted_count(p) by {
                let f = |s: int| (old_self.dup(s) * old_self.seq_count(p, s)) as int;
                let g = |s: int| (self.dup(s) * self.seq_count(p, s)) as int;
                lemma_sum_below_congruent(old_self.sequences(), f, g);
                assert(old_self.seq_count(p, old_self.sequences() as int) == 0);
                assert(self.seq_count(p, old_self.sequences() as int) == 0);
                assert(g(old_self.sequences() as int) == 0);
            }
            assert forall|k: u32| #[trigger]
                dup_counts_contents(self.duplicates).contains_key(k) <==> k < self.sequences() by {}
            assert forall|p: (u32, u32), s: usize| #[trigger]
                self.holders(p).contains(s) implies s < self.sequences() && self.seq_count(p, s as int) > 0 by {
                assert(old_self.holders(p).contains(s));
            }
            assert forall|p: (u32, u32)| #[trigger] self.stored_total(p) == self.weighted_count(p) by {
                assert(old_self.stored_total(p) == old_self.weighted_count(p));
            }
        }
    }

    /// Adjusts how often `pair` occurs in sequence `sequence_idx` by `delta`,
    /// and its weighted total by `delta` times the sequence's duplicates;
    /// marks the pair as touched.
    pub(crate) fn update_pair_count(&mut self, sequence_idx: usize, pair: (u32, u32), delta: i32)
        requires
            old(self).wf(),
            sequence_idx < old(self).sequences(),
            delta != 0,
            0 <= old(self).seq_count(pair, sequence_idx as int) + delta <= u32::MAX,
            i64::MIN <= old(self).weighted_count(pair) + delta * old(self).dup(sequence_idx as int)
                <= i64::MAX,
        ensures
            final(self).wf(),
            final(self).sequences() == old(self).sequences(),
            forall|s: int| #[trigger] final(self).dup(s) == old(self).dup(s),
            forall|p: (u32, u32), s: int| #[trigger]
                final(self).seq_count(p, s) == old(self).seq_count(p, s) + if p == pair && s
                    == sequence_idx {
                    delta as int
                } else {
                    0
                },
            forall|p: (u32, u32)| #[trigger]
                final(self).weighted_count(p) == old(self).weighted_count(p) + if p == pair {
                    delta * old(self).dup(sequence_idx as int)
                } else {
                    0
                },
            final(self).dirty_pairs() == old(self).dirty_pairs().insert(pair),
    {
        proof {
            self.lemma_wf();
        }
        let ghost old_self = *self;
        let seq_idx = sequence_idx as u32;
        let weight = match self.duplicates.get(seq_idx) {
            Some(w) => w,
            None => {
                proof {
                    assert(false);
                }
                0
            },
        };
        assert(weight == old_self.dup(sequence_idx as int));
        let current = match self.pair_totals.get(pair) {
            Some(t) => t,
            None => 0,
        };
        assert(old_self.stored_total(pair) == old_self.weighted_count(pair));
        assert(current == old_self.weighted_count(pair));
        assert(-2147483648 * 4294967295 <= (delta as i64) * (weight as i64) <= 2147483647 * 4294967295)
            by (nonlinear_arith)
            requires
                -2147483648 <= delta <= 2147483647,
                0 <= weight <= 4294967295,
        ;
        let step: i64 = (delta as i64) * (weight as i64);
        self.pair_totals.insert(pair, current + step);
        self.dirty.insert(pair);

        match self.count_index.remove(pair) {
            None => {
                let mut new_map = SeqCounts::new();
                new_map.insert(sequence_idx, delta as u32);
                self.count_index.insert(pair, new_map);
            },
            Some(mut counts) => {
                match counts.get(sequence_idx) {
                    Some(e) => {
                        let new_val = ((e as i64) + (delta as i64)) as u32;
                        if new_val == 0 {
                            counts.remove(sequence_idx);
                        } else {
                            counts.insert(sequence_idx, new_val);
                        }
                    },
                    None => {
                        counts.insert(sequence_idx, delta as u32);
                    },
                }
                self.count_index.insert(pair, counts);
            },
        }

        proof {
            let d = delta * old_self.dup(sequence_idx as int);
            assert forall|p: (u32, u32), s: int| #[trigger]
                self.seq_count(p, s) == old_self.seq_count(p, s) + if p == pair && s
                    == sequence_idx {
                    delta as int
                } else {
                    0
                } by {}
            assert forall|p: (u32, u32)| #[trigger]
                self.weighted_count(p) == old_self.weighted_count(p) + if p == pair {
                    d
                } else {
                    0
                } by {
                let f = |s: int| (old_self.dup(s) * old_self.seq_count(p, s)) as int;
                let g = |s: int| (self.dup(s) * self.seq_count(p, s)) as int;
                if p == pair {
                    let c = old_self.seq_count(p, sequence_idx as int);
                    let w = old_self.dup(sequence_idx as int);
                    assert(w * (c + delta) == w * c + delta * w) by (nonlinear_arith);
                    lemma_sum_below_update(self.sequences(), f, g, sequence_idx as int, d);
                } else {
                    lemma_sum_below_congruent(self.sequences(), f, g);
                }
            }
            assert forall|k: u32| #[trigger]
                dup_counts_contents(self.duplicates).contains_key(k) <==> k < self.sequences() by {
                assert(old_self.wf());
            }
            assert forall|p: (u32, u32), s: usize| #[trigger]
                self.holders(p).contains(s) implies s < self.sequences() && self.seq_count(p, s as int) > 0 by {
                if !(p == pair && s == sequence_idx) {
                    assert(old_self.holders(p).contains(s));
                }
            }
            assert forall|p: (u32, u32)| #[trigger] self.stored_total(p) == self.weighted_count(p) by {
                assert(old_self.stored_total(p) == old_self.weighted_count(p));
            }
        }
    }

    /// Fills `pair_buf` with the indices of the sequences that hold `pair`,
    /// each once, in an order that is left open.
    pub(crate) fn sequences_with_pair(&self, pair: (u32, u32), pair_buf: &mut Vec<usize>)
        requires
            self.wf(),
        ensures
            final(pair_buf)@.no_duplicates(),
            forall|s: usize| #[trigger]
                final(pair_buf)@.contains(s) <==> self.seq_count(pair, s as int) > 0,
            forall|i: int| 0 <= i < final(pair_buf)@.len() ==> #[trigger] final(pair_buf)@[i] < self.sequences(),
    {
        proof {
            self.lemma_wf();
        }
        pair_buf.clear();
        match self.count_index.get(pair) {
            Some(counts) => {
                let keys = counts.keys();
                let mut i: usize = 0;
                while i < keys.len()
                    invariant
                        i <= keys@.len(),
                        pair_buf@ == keys@.take(i as int),
                    decreases keys@.len() - i,
                {
                    pair_buf.push(keys[i]);
                    assert(keys@.take(i + 1) =~= keys@.take(i as int).push(keys@[i as int]));
                    i = i + 1;
                }
                assert(keys@.take(i as int) =~= keys@);
                proof {
                    assert forall|s: usize| #[trigger]
                        pair_buf@.contains(s) <==> self.seq_count(pair, s as int) > 0 by {
                        if pair_buf@.contains(s) {
                            assert(keys@.to_set().contains(s));
                            assert(self.holders(pair).contains(s));
                        }
                        if self.seq_count(pair, s as int) > 0 {
                            assert(self.holders(pair).contains(s));
                            assert(keys@.to_set().contains(s));
                        }
                    }
                    assert forall|i: int| 0 <= i < pair_buf@.len() implies #[trigger] pair_buf@[i] < self.sequences() by {
                        assert(keys@.to_set().contains(pair_buf@[i]));
                        assert(self.holders(pair).contains(pair_buf@[i]));
                    }
                }
            },
            None => {
                assert(pair_buf@ =~= Seq::<usize>::empty());
            },
        }
    }

    /// Current dup-weighted total occurrences of `pair`.
    pub fn pair_total(&self, pair: (u32, u32)) -> (r: i64)
        requires
            self.wf(),
        ensures
            r == self.weighted_count(pair),
    {
        assert(self.stored_total(pair) == self.weighted_count(pair));
        match self.pair_totals.get(pair) {
            Some(t) => t,
            None => 0,
        }
    }

    /// Whether the weighted total of every pair fits in a `u32`.
    pub fn totals_fit_u32(&self) -> (r: bool)
        requires
            self.wf(),
        ensures
            r == (forall|p: (u32, u32)| #[trigger] self.weighted_count(p) <= u32::MAX),
    {
        let keys = self.count_index.keys();
        let mut i: usize = 0;
        while i < keys.len()
            invariant
                self.wf(),
                keys@.no_duplicates(),
                keys@.to_set() == pair_index_contents(self.count_index).dom(),
                i <= keys@.len(),
                forall|a: int| 0 <= a < i ==> self.weighted_count(#[trigger] keys@[a]) <= u32::MAX,
            decreases keys@.len() - i,
        {
            let t = self.pair_total(keys[i]);
            if t > 4294967295i64 {
                return false;
            }
            i = i + 1;
        }
        proof {
            assert forall|p: (u32, u32)| #[trigger] self.weighted_count(p) <= u32::MAX by {
                if !pair_index_contents(self.count_index).contains_key(p) {
                    self.lemma_unrecorded_pair(p);
                } else {
                    assert(keys@.to_set().contains(p));
                    let a = keys@.index_of(p);
                    assert(keys@[a] == p);
                }
            }
        }
        true
    }

    /// Pairs touched since the last call, each once, with their current
    /// totals. Clears the set of touched pairs.
    pub fn drain_dirty(&mut self) -> (r: Vec<((u32, u32), i64)>)
        requires
            old(self).wf(),
        ensures
            final(self).wf(),
            final(self).sequences() == old(self).sequences(),
            forall|s: int| #[trigger] final(self).dup(s) == old(self).dup(s),
            forall|p: (u32, u32), s: int| #[trigger] final(self).seq_count(p, s) == old(self).seq_count(p, s),
            forall|p: (u32, u32)| #[trigger] final(self).weighted_count(p) == old(self).weighted_count(p),
            final(self).dirty_pairs() == Set::<(u32, u32)>::empty(),
            r@.map_values(|e: ((u32, u32), i64)| e.0).no_duplicates(),
            r@.map_values(|e: ((u32, u32), i64)| e.0).to_set() == old(self).dirty_pairs(),
            forall|i: int| 0 <= i < r@.len() ==> #[trigger] r@[i].1 == old(self).weighted_count(r@[i].0),
    {
        let ghost old_self = *self;
        let drained = self.dirty.drain();
        let mut ret: Vec<((u32, u32), i64)> = Vec::new();
        let mut i: usize = 0;
        proof {
            assert forall|k: u32| #[trigger]
                dup_counts_contents(self.duplicates).contains_key(k) <==> k < self.sequences() by {
                assert(old_self.wf());
            }
            assert forall|p: (u32, u32), s: usize| #[trigger]
                self.holders(p).contains(s) implies s < self.sequences() && self.seq_count(p, s as int) > 0 by {
                assert(old_self.holders(p).contains(s));
            }
            assert forall|p: (u32, u32)| #[trigger] self.weighted_count(p) == old_self.weighted_count(p) by {
                let f = |s: int| (old_self.dup(s) * old_self.seq_count(p, s)) as int;
                let g = |s: int| (self.dup(s) * self.seq_count(p, s)) as int;
                lemma_sum_below_congruent(self.sequences(), f, g);
            }
            assert forall|p: (u32, u32)| #[trigger] self.stored_total(p) == self.weighted_count(p) by {
                assert(old_self.stored_total(p) == old_self.weighted_count(p));
                assert(self.weighted_count(p) == old_self.weighted_count(p));
            }
        }
        while i < drained.len()
            invariant
                self.wf(),
                forall|p: (u32, u32)| #[trigger] self.weighted_count(p) == old_self.weighted_count(p),
                i <= drained@.len(),
                ret@.len() == i,
                forall|j: int| 0 <= j < i ==> #[trigger] ret@[j].0 == drained@[j] && ret@[j].1 == old_self.weighted_count(drained@[j]),
            decreases drained@.len() - i,
        {
            let pair = drained[i];
            let total = self.pair_total(pair);
            ret.push((pair, total));
            i = i + 1;
        }
        proof {
            assert(ret@.map_values(|e: ((u32, u32), i64)| e.0) =~= drained@);
        }
        ret
    }

    /// A pair that is recorded in no sequence has a weighted count of zero.
    proof fn lemma_unrecorded_pair(&self, p: (u32, u32))
        requires
            self.wf(),
            !pair_index_contents(self.count_index).contains_key(p),
        ensures
            self.weighted_count(p) == 0,
    {
        let f = |s: int| (self.dup(s) * self.seq_count(p, s)) as int;
        assert forall|s: int| 0 <= s < self.sequences() implies #[trigger] f(s) == 0 by {
            assert(self.seq_count(p, s) == 0);
        }
        lemma_sum_below_zero(self.sequences(), f);
    }

    /// The dup-weighted count of `pair`, summed from its per-sequence counts.
    fn recount_pair(&self, pair: (u32, u32)) -> (r: u32)
        requires
            self.wf(),
            self.weighted_count(pair) <= u32::MAX,
        ensures
            r == self.weighted_count(pair),
    {
        proof {
            self.lemma_wf();
        }
        let counts = match self.count_index.get(pair) {
            Some(c) => c,
            None => {
                proof {
                    self.lemma_unrecorded_pair(pair);
                }
                return 0;
            },
        };
        let seqs = counts.keys();
        let ghost f = |s: int| (self.dup(s) * self.seq_count(pair, s)) as int;
        proof {
            assert forall|j: int| 0 <= j < seqs@.len() implies seqs@[j] < self.sequences() by {
                assert(seqs@.to_set().contains(seqs@[j]));
                assert(self.holders(pair).contains(seqs@[j]));
            }
            assert forall|s: int| 0 <= s < self.sequences() && #[trigger] f(s) != 0 implies seqs@.contains(
                s as usize,
            ) by {
                if self.seq_count(pair, s) == 0 {
                    assert(f(s) == 0);
                }
                assert(self.holders(pair).contains(s as usize));
                assert(seqs@.to_set().contains(s as usize));
            }
            lemma_sum_over_all(seqs@, self.sequences(), f);
            assert(seqs@.take(0) =~= Seq::<usize>::empty());
        }
        let mut dup_count: u32 = 0;
        let mut j: usize = 0;
        while j < seqs.len()
            invariant
                self.wf(),
                seqs@.to_set() == seq_counts_contents(*counts).dom(),
                *counts == pair_index_contents(self.count_index)[pair],
                pair_index_contents(self.count_index).contains_key(pair),
                forall|k: int| 0 <= k < seqs@.len() ==> #[trigger] seqs@[k] < self.sequences(),
                f == (|s: int| (self.dup(s) * self.seq_count(pair, s)) as int),
                sum_over(seqs@, f) == self.weighted_count(pair),
                self.weighted_count(pair) <= u32::MAX,
                j <= seqs@.len(),
                dup_count == sum_over(seqs@.take(j as int), f),
            decreases seqs@.len() - j,
        {
            let s = seqs[j];
            assert(seqs@.to_set().contains(s));
            let occurrences = match counts.get(s) {
                Some(o) => o,
                None => {
                    proof {
                        assert(false);
                    }
                    0
                },
            };
            assert(occurrences == self.seq_count(pair, s as int));
            let d = match self.duplicates.get(s as u32) {
                Some(d) => d,
                None => {
                    proof {
                        assert(false);
                    }
                    0
                },
            };
            assert(d == self.dup(s as int));
            proof {
                assert(seqs@.take(j + 1).drop_last() =~= seqs@.take(j as int));
                assert(f(s as int) == occurrences * d);
                assert forall|k: int| 0 <= k < seqs@.len() implies 0 <= #[trigger] f(seqs@[k] as int) by {
                    assert(0 <= self.dup(seqs@[k] as int) * self.seq_count(pair, seqs@[k] as int))
                        by (nonlinear_arith);
                }
                lemma_sum_over_prefix(seqs@, j + 1, f);
            }
            dup_count = dup_count + occurrences * d;
            j = j + 1;
        }
        proof {
            assert(seqs@.take(j as int) =~= seqs@);
        }
        dup_count
    }

    /// Eagerly rebuilds every pair's dup-weighted count from the
    /// per-sequence counts: each pair with a positive count once, in an
    /// order that is left open.
    pub fn counts(&self) -> (r: Vec<CountInfo>)
        requires
            self.wf(),
            forall|p: (u32, u32)| #[trigger] self.weighted_count(p) <= u32::MAX,
        ensures
            forall|i: int, j: int|
                0 <= i < j < r@.len() ==> #[trigger] r@[i].token_pair != #[trigger] r@[j].token_pair,
            forall|i: int|
                0 <= i < r@.len() ==> #[trigger] r@[i].count == self.weighted_count(r@[i].token_pair)
                    && r@[i].count > 0,
            forall|p: (u32, u32)|
                #[trigger] self.weighted_count(p) > 0 ==> exists|i: int|
                    0 <= i < r@.len() && #[trigger] r@[i].token_pair == p,
            forall|p: (u32, u32), c: u32|
                #[trigger] r@.contains((CountInfo { token_pair: p, count: c })) <==> (c > 0 && c
                    == self.weighted_count(p)),
    {
        let mut ret: Vec<CountInfo> = Vec::new();
        let keys = self.count_index.keys();
        let ghost mut src: Seq<int> = Seq::empty();
        let mut i: usize = 0;
        while i < keys.len()
            invariant
                self.wf(),
                forall|p: (u32, u32)| #[trigger] self.weighted_count(p) <= u32::MAX,
                keys@.no_duplicates(),
                keys@.to_set() == pair_index_contents(self.count_index).dom(),
                i <= keys@.len(),
                src.len() == ret@.len(),
                forall|t1: int, t2: int| 0 <= t1 < t2 < src.len() ==> #[trigger] src[t1] < #[trigger] src[t2],
                forall|t: int| 0 <= t < src.len() ==> 0 <= #[trigger] src[t] < i,
                forall|t: int| 0 <= t < src.len() ==> #[trigger] ret@[t].token_pair == keys@[src[t]],
                forall|t: int|
                    0 <= t < ret@.len() ==> #[trigger] ret@[t].count == self.weighted_count(
                        ret@[t].token_pair,
                    ) && ret@[t].count > 0,
                forall|a: int|
                    0 <= a < i && self.weighted_count(#[trigger] keys@[a]) > 0 ==> src.contains(a),
            decreases keys@.len() - i,
        {
            let pair = keys[i];
            let dup_count = self.recount_pair(pair);
            let ghost old_src = src;
            if dup_count > 0 {
                ret.push(CountInfo { token_pair: pair, count: dup_count });
                proof {
                    src = src.push(i as int);
                }
            }
            proof {
                assert forall|a: int|
                    0 <= a < i + 1 && self.weighted_count(#[trigger] keys@[a]) > 0 implies src.contains(a) by {
                    if a == i {
                        assert(src[src.len() - 1] == a);
                    } else {
                        assert(old_src.contains(a));
                        let k = old_src.index_of(a);
                        assert(src[k] == a);
                    }
                }
            }
            i = i + 1;
        }
        proof {
            assert forall|t1: int, t2: int|
                0 <= t1 < t2 < ret@.len() implies #[trigger] ret@[t1].token_pair != #[trigger] ret@[t2].token_pair by {
                assert(src[t1] < src[t2]);
            }
            assert forall|p: (u32, u32)|
                #[trigger] self.weighted_count(p) > 0 implies exists|t: int|
                    0 <= t < ret@.len() && #[trigger] ret@[t].token_pair == p by {
                if !pair_index_contents(self.count_index).contains_key(p) {
                    self.lemma_unrecorded_pair(p);
                }
                assert(keys@.to_set().contains(p));
                let a = keys@.index_of(p);
                assert(keys@[a] == p);
                assert(src.contains(a));
                let t = src.index_of(a);
                assert(ret@[t].token_pair == p);
            }
            assert forall|p: (u32, u32), c: u32|
                #[trigger] ret@.contains((CountInfo { token_pair: p, count: c })) <==> (c > 0 && c
                    == self.weighted_count(p)) by {
                let ci = CountInfo { token_pair: p, count: c };
                if ret@.contains(ci) {
                    let t = ret@.index_of(ci);
                    assert(ret@[t] == ci);
                    assert(ret@[t].count == self.weighted_count(ret@[t].token_pair) && ret@[t].count > 0);
                }
                if c > 0 && c == self.weighted_count(p) {
                    let t = choose|t: int| 0 <= t < ret@.len() && #[trigger] ret@[t].token_pair == p;
                    assert(ret@[t].count == self.weighted_count(ret@[t].token_pair));
                    assert(ret@[t] == ci);
                    assert(ret@.contains(ci));
                }
            }
        }
        ret
    }
}

} // verus!
