//! A shard of token sequences kept as linked lists over one flat array, so
//! that merging a pair of adjacent tokens is cheap, together with running
//! statistics of the pairs.

use crate::order::CountInfo;
use crate::pairs::{
    adjacent_pairs, ind, lemma_merge_pair_absent, merge_touched, merge_touched_in, lemma_merge_pair_in_len, lemma_merge_step_counts, lemma_pair_count_bound, lemma_pair_count_take_le, merge_from, merge_pair_in,
    pair_count,
};
use crate::stats::RealStatsCollector;
use crate::sums::{
    lemma_sum_below_congruent, lemma_sum_below_mono, lemma_sum_below_positive, lemma_sum_below_term, lemma_sum_below_update, sum_below,
};
use vstd::prelude::*;

verus! {

/// The first `k` sequences of `seqs`, one after the other.
pub open spec fn concat_first(seqs: Seq<Seq<u32>>, k: int) -> Seq<u32>
    decreases k,
{
    if k <= 0 {
        Seq::empty()
    } else {
        concat_first(seqs, k - 1) + seqs[k - 1]
    }
}

/// All of `seqs`, one after the other.
pub open spec fn concat_all(seqs: Seq<Seq<u32>>) -> Seq<u32> {
    concat_first(seqs, seqs.len() as int)
}

/// The pairs whose counts merging `p` into `t` adjusts, over the sequences
/// of `seqs` that hold `p`.
pub open spec fn shard_touched(seqs: Seq<Seq<u32>>, p: (u32, u32), t: u32) -> Set<(u32, u32)> {
    Set::new(
        |q: (u32, u32)|
            exists|s: int|
                0 <= s < seqs.len() && pair_count(seqs[s], p) > 0 && #[trigger] merge_touched_in(seqs[s], p, t).contains(q),
    )
}

/// Those of `shard_touched` whose sequences are not in `pending`.
spec fn touched_except(seqs: Seq<Seq<u32>>, pending: Seq<usize>, p: (u32, u32), t: u32) -> Set<(u32, u32)> {
    Set::new(
        |q: (u32, u32)|
            exists|s: int|
                0 <= s < seqs.len() && !pending.contains(s as usize) && pair_count(seqs[s], p) > 0
                    && #[trigger] merge_touched_in(seqs[s], p, t).contains(q),
    )
}

/// SequenceShard keeps track of a set of token sequences
/// and handles the logic around merging sequences together.
pub struct SequenceShard {
    /// raw data for all the sequences. this will eventually
    /// be manipulated when merges occur.
    sequences: Vec<u32>,
    /// the next token for sequences[i]. this is simulating
    /// a linked list and will be used for merges.
    next_token: Vec<Option<u32>>,
    /// starting index for each sequence in the shard. points
    /// at sequences[i].
    start_index: Vec<u32>,
    /// stats collector
    stats_collector: RealStatsCollector,
    /// used to avoid constantly initializing new vectors for pairs
    pair_buf: Vec<usize>,
    /// the indices into `sequences` of the live tokens of each sequence,
    /// in order.
    chains: Ghost<Seq<Seq<int>>>,
}

impl SequenceShard {
    /// How many sequences the shard holds.
    pub closed spec fn num_sequences(&self) -> nat {
        self.start_index@.len()
    }

    /// The length of the flat array that holds all tokens ever pushed.
    pub closed spec fn storage_len(&self) -> nat {
        self.sequences@.len()
    }

    /// The array positions of the live tokens of sequence `s`, in order.
    pub closed spec fn chain(&self, s: int) -> Seq<int> {
        self.chains@[s]
    }

    /// The tokens of sequence `s`.
    pub closed spec fn tokens_of(&self, s: int) -> Seq<u32> {
        self.chain(s).map_values(|i: int| self.sequences@[i])
    }

    /// The sequences of the shard.
    pub closed spec fn view(&self) -> Seq<Seq<u32>> {
        Seq::new(self.num_sequences(), |s: int| self.tokens_of(s))
    }

    /// The number of duplicates that sequence `s` stands for.
    pub closed spec fn dup(&self, s: int) -> nat {
        self.stats_collector.dup(s)
    }

    /// The scratch list of sequence indices that `merge_pair` works through.
    pub closed spec fn scratch(&self) -> Seq<usize> {
        self.pair_buf@
    }

    /// The pairs touched since the last `drain_dirty`.
    pub closed spec fn dirty(&self) -> Set<(u32, u32)> {
        self.stats_collector.dirty_pairs()
    }

    /// The dup-weighted number of tokens over all sequences.
    pub open spec fn weight(&self) -> int {
        sum_below(self.num_sequences(), |s: int| (self.dup(s) * self.view()[s].len()) as int)
    }

    /// The dup-weighted number of occurrences of `p` over all sequences.
    pub open spec fn total(&self, p: (u32, u32)) -> int {
        sum_below(self.num_sequences(), |s: int| (self.dup(s) * pair_count(self.view()[s], p)) as int)
    }

    /// Where the array region of sequence `s` ends.
    closed spec fn region_end(&self, s: int) -> int {
        if s + 1 < self.num_sequences() {
            self.start_index@[s + 1] as int
        } else {
            self.sequences@.len() as int
        }
    }

    /// The chain of sequence `s` is a linked list through its region.
    closed spec fn chain_wf(&self, s: int) -> bool {
        let ch = self.chain(s);
        &&& ch.len() >= 1
        &&& ch[0] == self.start_index@[s] as int
        &&& forall|k: int, l: int| 0 <= k < l < ch.len() ==> #[trigger] ch[k] < #[trigger] ch[l]
        &&& forall|k: int|
            0 <= k < ch.len() ==> self.start_index@[s] <= #[trigger] ch[k] < self.region_end(s)
        &&& forall|k: int|
            0 <= k < ch.len() - 1 ==> self.next_token@[#[trigger] ch[k]] == Some(ch[k + 1] as u32)
        &&& self.next_token@[ch.last()] == None::<u32>
    }

    /// The linked lists are well formed.
    pub closed spec fn structure_wf(&self) -> bool {
        &&& self.sequences@.len() == self.next_token@.len()
        &&& self.sequences@.len() <= u32::MAX + 1
        &&& self.chains@.len() == self.start_index@.len()
        &&& forall|s: int, t: int|
            0 <= s < t < self.num_sequences() ==> #[trigger] self.start_index@[s]
                < #[trigger] self.start_index@[t]
        &&& forall|s: int| 0 <= s < self.num_sequences() ==> #[trigger] self.chain_wf(s)
    }

    /// The statistics match the sequences, and the dup-weighted number of
    /// tokens fits in an `i64`.
    pub closed spec fn stats_wf(&self) -> bool {
        &&& self.stats_collector.wf()
        &&& self.stats_collector.sequences() == self.num_sequences()
        &&& forall|p: (u32, u32), s: int|
            0 <= s < self.num_sequences() ==> #[trigger] self.stats_collector.seq_count(p, s)
                == pair_count(self.tokens_of(s), p)
        &&& forall|s: int| 0 <= s < self.num_sequences() ==> #[trigger] self.dup(s) > 0
        &&& self.weight() <= i64::MAX
    }

    /// The shard is well formed.
    pub closed spec fn wf(&self) -> bool {
        self.structure_wf() && self.stats_wf()
    }

    /// Facts about the chains of a well-formed shard.
    proof fn lemma_chain(&self, s: int)
        requires
            self.structure_wf(),
            0 <= s < self.num_sequences(),
        ensures
            self.chain_wf(s),
            self.chain(s).len() <= self.region_end(s) - self.start_index@[s],
            self.region_end(s) <= self.storage_len(),
            self.tokens_of(s).len() == self.chain(s).len(),
            self.view()[s] == self.tokens_of(s),
            self.tokens_of(s).len() <= self.storage_len(),
            forall|k: int|
                0 <= k < self.chain(s).len() ==> 0 <= #[trigger] self.chain(s)[k] < self.storage_len(),
            forall|k: int|
                0 <= k < self.chain(s).len() ==> #[trigger] self.tokens_of(s)[k]
                    == self.sequences@[self.chain(s)[k]],
    {
        assert(self.chain_wf(s));
        let ch = self.chain(s);
        if s + 1 < self.num_sequences() {
            let last = self.num_sequences() - 1;
            assert(self.start_index@[s + 1] < self.storage_len()) by {
                assert(self.chain_wf(last));
                assert(self.chain(last)[0] < self.region_end(last));
                if s + 1 < last {
                    assert(self.start_index@[s + 1] < self.start_index@[last]);
                }
            }
        }
        self.lemma_chain_len(s, ch.len() - 1);
    }

    /// The start of sequence `s` is at least `s`.
    proof fn lemma_start_index_ge(&self, s: int)
        requires
            self.structure_wf(),
            0 <= s < self.num_sequences(),
        ensures
            self.start_index@[s] >= s,
        decreases s,
    {
        if s > 0 {
            self.lemma_start_index_ge(s - 1);
            assert(self.start_index@[s - 1] < self.start_index@[s]);
        }
    }

    /// The `k`-th position of a chain is at least `k` past its start.
    proof fn lemma_chain_len(&self, s: int, k: int)
        requires
            self.chain_wf(s),
            0 <= k < self.chain(s).len(),
        ensures
            self.chain(s)[k] >= self.start_index@[s] + k,
        decreases k,
    {
        if k > 0 {
            self.lemma_chain_len(s, k - 1);
            assert(self.chain(s)[k - 1] < self.chain(s)[k]);
        }
    }

    /// An empty shard.
    pub fn new() -> (r: SequenceShard)
        ensures
            r.wf(),
            r.view() == Seq::<Seq<u32>>::empty(),
            r.num_sequences() == 0,
            r.storage_len() == 0,
            r.dirty() == Set::<(u32, u32)>::empty(),
    {
        let r = SequenceShard {
            sequences: Vec::new(),
            next_token: Vec::new(),
            start_index: Vec::new(),
            stats_collector: RealStatsCollector::new(),
            pair_buf: Vec::new(),
            chains: Ghost(Seq::empty()),
        };
        assert(r.view() =~= Seq::<Seq<u32>>::empty());
        r
    }

    /// Statistics over this shard's sequences, with its duplicate counts,
    /// that count `p` at most as often as each sequence is long, give `p` a
    /// weighted count of at most the shard's weight.
    proof fn lemma_weighted_bound(&self, st: RealStatsCollector, p: (u32, u32))
        requires
            self.structure_wf(),
            st.wf(),
            st.sequences() == self.num_sequences(),
            forall|s: int| 0 <= s < self.num_sequences() ==> #[trigger] st.dup(s) == self.dup(s),
            forall|s: int|
                0 <= s < self.num_sequences() ==> #[trigger] st.seq_count(p, s)
                    <= self.tokens_of(s).len(),
        ensures
            0 <= st.weighted_count(p) <= self.weight(),
    {
        let f = |s: int| (st.dup(s) * st.seq_count(p, s)) as int;
        let g = |s: int| (self.dup(s) * self.view()[s].len()) as int;
        assert forall|s: int| 0 <= s < self.num_sequences() implies 0 <= #[trigger] f(s) <= g(s) by {
            self.lemma_chain(s);
            let d = st.dup(s);
            let c = st.seq_count(p, s);
            let l = self.view()[s].len();
            assert(0 <= d * c <= d * l) by (nonlinear_arith)
                requires
                    0 <= c <= l,
                    0 <= d,
            ;
        }
        lemma_sum_below_mono(self.num_sequences(), f, g);
    }

    /// As `lemma_weighted_bound`, with room for one more occurrence in
    /// sequence `j`.
    proof fn lemma_weighted_bound_slack(&self, st: RealStatsCollector, p: (u32, u32), j: int)
        requires
            self.structure_wf(),
            st.wf(),
            st.sequences() == self.num_sequences(),
            0 <= j < self.num_sequences(),
            forall|s: int| 0 <= s < self.num_sequences() ==> #[trigger] st.dup(s) == self.dup(s),
            forall|s: int|
                0 <= s < self.num_sequences() ==> #[trigger] st.seq_count(p, s)
                    <= self.tokens_of(s).len(),
            st.seq_count(p, j) + 1 <= self.tokens_of(j).len(),
        ensures
            st.weighted_count(p) + st.dup(j) <= self.weight(),
    {
        let f = |s: int| (st.dup(s) * st.seq_count(p, s)) as int;
        let h = |s: int| (st.dup(s) * (st.seq_count(p, s) + if s == j { 1int } else { 0int })) as int;
        let g = |s: int| (self.dup(s) * self.view()[s].len()) as int;
        assert(h(j) == f(j) + st.dup(j)) by {
            let d = st.dup(j);
            let c = st.seq_count(p, j);
            assert(d * (c + 1) == d * c + d) by (nonlinear_arith);
        }
        lemma_sum_below_update(self.num_sequences(), f, h, j, st.dup(j) as int);
        assert forall|s: int| 0 <= s < self.num_sequences() implies 0 <= #[trigger] h(s) <= g(s) by {
            self.lemma_chain(s);
            let d = st.dup(s);
            let c = st.seq_count(p, s) + if s == j { 1int } else { 0int };
            let l = self.view()[s].len();
            assert(0 <= d * c <= d * l) by (nonlinear_arith)
                requires
                    0 <= c <= l,
                    0 <= d,
            ;
        }
        lemma_sum_below_mono(self.num_sequences(), h, g);
    }

    /// In a well-formed shard the stored totals are the totals of the
    /// sequences.
    proof fn lemma_total(&self, p: (u32, u32))
        requires
            self.wf(),
        ensures
            self.stats_collector.weighted_count(p) == self.total(p),
            0 <= self.total(p) <= self.weight(),
    {
        let f = |s: int| (self.stats_collector.dup(s) * self.stats_collector.seq_count(p, s)) as int;
        let g = |s: int| (self.dup(s) * pair_count(self.view()[s], p)) as int;
        assert forall|s: int| 0 <= s < self.num_sequences() implies #[trigger] f(s) == g(s) by {
            self.lemma_chain(s);
        }
        lemma_sum_below_congruent(self.num_sequences(), f, g);
        assert forall|s: int| 0 <= s < self.num_sequences() implies #[trigger] self.stats_collector.seq_count(p, s)
            <= self.tokens_of(s).len() by {
            lemma_pair_count_bound(self.tokens_of(s), p);
        }
        self.lemma_weighted_bound(self.stats_collector, p);
    }

    /// `new` is `old` with the tokens at positions `pos` and `pos + 1` of
    /// sequence `sidx` replaced by the single token `t` in the linked list.
    spec fn relinked(old: SequenceShard, new: SequenceShard, sidx: int, pos: int, t: u32) -> bool {
        &&& old.structure_wf()
        &&& 0 <= sidx < old.num_sequences()
        &&& 0 <= pos
        &&& pos + 1 < old.chain(sidx).len()
        &&& new.start_index == old.start_index
        &&& new.sequences@ == old.sequences@.update(old.chain(sidx)[pos], t)
        &&& new.next_token@ == old.next_token@.update(
            old.chain(sidx)[pos],
            old.next_token@[old.chain(sidx)[pos + 1]],
        )
        &&& new.chains@ == old.chains@.update(sidx, old.chain(sidx).remove(pos + 1))
    }

    /// Relinking leaves the other sequences' lists well formed.
    proof fn lemma_relinked_others(old: SequenceShard, new: SequenceShard, sidx: int, pos: int, t: u32)
        requires
            Self::relinked(old, new, sidx, pos, t),
        ensures
            forall|u: int| 0 <= u < old.num_sequences() && u != sidx ==> #[trigger] new.chain_wf(u),
            forall|u: int|
                0 <= u < old.num_sequences() && u != sidx ==> #[trigger] new.tokens_of(u)
                    == old.tokens_of(u),
    {
        let n = old.num_sequences();
        old.lemma_chain(sidx);
        assert forall|u: int| 0 <= u < n && u != sidx implies #[trigger] new.chain_wf(u) by {
            assert(old.chain_wf(u));
            old.lemma_chain(u);
            let cht = old.chain(u);
            assert forall|k: int| 0 <= k < cht.len() - 1 implies new.next_token@[#[trigger] cht[k]]
                == Some(cht[k + 1] as u32) by {
                old.lemma_chains_disjoint(u, k, sidx, pos);
            }
            assert(new.next_token@[cht.last()] == old.next_token@[cht.last()]) by {
                old.lemma_chains_disjoint(u, cht.len() - 1, sidx, pos);
            }
        }
        assert forall|u: int| 0 <= u < n && u != sidx implies #[trigger] new.tokens_of(u) == old.tokens_of(u) by {
            old.lemma_chain(u);
            assert forall|k: int| 0 <= k < old.chain(u).len() implies #[trigger] new.sequences@[old.chain(u)[k]]
                == old.sequences@[old.chain(u)[k]] by {
                old.lemma_chains_disjoint(u, k, sidx, pos);
            }
            assert(new.tokens_of(u) =~= old.tokens_of(u));
        }
    }

    /// The relinked chain stays strictly increasing and inside its region.
    proof fn lemma_relinked_order(ch: Seq<int>, pos: int, lo: int, hi: int)
        requires
            0 <= pos,
            pos + 1 < ch.len(),
            forall|k: int, l: int| 0 <= k < l < ch.len() ==> #[trigger] ch[k] < #[trigger] ch[l],
            forall|k: int| 0 <= k < ch.len() ==> lo <= #[trigger] ch[k] < hi,
        ensures
            forall|k: int, l: int|
                0 <= k < l < ch.remove(pos + 1).len() ==> #[trigger] ch.remove(pos + 1)[k]
                    < #[trigger] ch.remove(pos + 1)[l],
            forall|k: int| 0 <= k < ch.remove(pos + 1).len() ==> lo <= #[trigger] ch.remove(pos + 1)[k] < hi,
    {
        let new_ch = ch.remove(pos + 1);
        assert forall|k: int, l: int| 0 <= k < l < new_ch.len() implies #[trigger] new_ch[k] < #[trigger] new_ch[l] by {
            let kk = if k <= pos { k } else { k + 1 };
            let ll = if l <= pos { l } else { l + 1 };
            assert(new_ch[k] == ch[kk]);
            assert(new_ch[l] == ch[ll]);
        }
        assert forall|k: int| 0 <= k < new_ch.len() implies lo <= #[trigger] new_ch[k] < hi by {
            let kk = if k <= pos { k } else { k + 1 };
            assert(new_ch[k] == ch[kk]);
        }
    }

    /// The links of the relinked chain.
    #[verifier::spinoff_prover]
    #[verifier::rlimit(30)]
    proof fn lemma_relinked_links(
        ch: Seq<int>,
        pos: int,
        next: Seq<Option<u32>>,
        new_next: Seq<Option<u32>>,
    )
        requires
            0 <= pos,
            pos + 1 < ch.len(),
            forall|k: int, l: int| 0 <= k < l < ch.len() ==> #[trigger] ch[k] < #[trigger] ch[l],
            forall|k: int| 0 <= k < ch.len() ==> 0 <= #[trigger] ch[k] < next.len(),
            forall|k: int| 0 <= k < ch.len() - 1 ==> next[#[trigger] ch[k]] == Some(ch[k + 1] as u32),
            next[ch.last()] == None::<u32>,
            new_next == next.update(ch[pos], next[ch[pos + 1]]),
        ensures
            forall|k: int|
                0 <= k < ch.remove(pos + 1).len() - 1 ==> new_next[#[trigger] ch.remove(pos + 1)[k]]
                    == Some(ch.remove(pos + 1)[k + 1] as u32),
            new_next[ch.remove(pos + 1).last()] == None::<u32>,
    {
        let new_ch = ch.remove(pos + 1);
        assert forall|k: int| 0 <= k < new_ch.len() - 1 implies new_next[#[trigger] new_ch[k]]
            == Some(new_ch[k + 1] as u32) by {
            if k < pos {
                assert(new_ch[k] == ch[k]);
                assert(new_ch[k + 1] == ch[k + 1]);
                assert(ch[k] < ch[pos]);
                assert(new_next[ch[k]] == next[ch[k]]);
                assert(next[ch[k]] == Some(ch[k + 1] as u32));
            } else if k == pos {
                assert(new_ch[k] == ch[pos]);
                assert(new_ch[k + 1] == ch[pos + 2]);
                assert(new_next[ch[pos]] == next[ch[pos + 1]]);
                assert(next[ch[pos + 1]] == Some(ch[pos + 2] as u32));
            } else {
                assert(new_ch[k] == ch[k + 1]);
                assert(new_ch[k + 1] == ch[k + 2]);
                assert(ch[k + 1] > ch[pos]);
                assert(new_next[ch[k + 1]] == next[ch[k + 1]]);
                assert(next[ch[k + 1]] == Some(ch[k + 2] as u32));
            }
        }
        if pos < new_ch.len() - 1 {
            assert(ch.last() > ch[pos]);
            assert(new_ch.last() == ch.last());
        } else {
            assert(new_ch.last() == ch[pos]);
        }
    }

    /// Relinking leaves the relinked sequence's list well formed.
    proof fn lemma_relinked_self(old: SequenceShard, new: SequenceShard, sidx: int, pos: int, t: u32)
        requires
            Self::relinked(old, new, sidx, pos, t),
        ensures
            new.chain_wf(sidx),
            new.chain(sidx) == old.chain(sidx).remove(pos + 1),
    {
        let ch = old.chain(sidx);
        old.lemma_chain(sidx);
        assert(new.chain(sidx) == ch.remove(pos + 1));
        Self::lemma_relinked_order(ch, pos, old.start_index@[sidx] as int, old.region_end(sidx));
        Self::lemma_relinked_links(ch, pos, old.next_token@, new.next_token@);
        assert(new.region_end(sidx) == old.region_end(sidx));
    }

    /// Replacing the tokens at positions `pos` and `pos + 1` of sequence
    /// `sidx` by the single token `t` in the linked list keeps it well
    /// formed and changes that sequence only.
    proof fn lemma_relinked(old: SequenceShard, new: SequenceShard, sidx: int, pos: int, t: u32)
        requires
            Self::relinked(old, new, sidx, pos, t),
        ensures
            new.structure_wf(),
            new.num_sequences() == old.num_sequences(),
            new.storage_len() == old.storage_len(),
            forall|u: int|
                0 <= u < old.num_sequences() && u != sidx ==> #[trigger] new.tokens_of(u)
                    == old.tokens_of(u),
            new.tokens_of(sidx) == old.tokens_of(sidx).take(pos) + seq![t] + old.tokens_of(
                sidx,
            ).skip(pos + 2),
            new.view() == old.view().update(
                sidx,
                old.tokens_of(sidx).take(pos) + seq![t] + old.tokens_of(sidx).skip(pos + 2),
            ),
            new.chain(sidx) == old.chain(sidx).remove(pos + 1),
    {
        let ch = old.chain(sidx);
        let v = old.tokens_of(sidx);
        let new_ch = ch.remove(pos + 1);
        let v2 = v.take(pos) + seq![t] + v.skip(pos + 2);
        old.lemma_chain(sidx);
        Self::lemma_relinked_others(old, new, sidx, pos, t);
        Self::lemma_relinked_self(old, new, sidx, pos, t);
        assert(new.structure_wf());
        assert(new.tokens_of(sidx) =~= v2) by {
            assert forall|k: int| 0 <= k < new_ch.len() implies #[trigger] new.tokens_of(sidx)[k] == v2[k] by {
                if k < pos {
                    assert(ch[k] < ch[pos]);
                } else if k > pos {
                    assert(ch[k + 1] > ch[pos]);
                }
            }
        }
        assert(new.view() =~= old.view().update(sidx, v2));
    }

    /// The tokens around the pair at `pos` of `v`: the pair before it, the
    /// pair itself, the pair after it, and the two pairs that merging it
    /// into `t` creates. Merging goes through five steps, in this order:
    /// the three old pairs are taken away, then the two new ones added.
    spec fn merge_step_pair(v: Seq<u32>, pos: int, t: u32, k: int) -> (u32, u32) {
        if k == 0 {
            (v[pos - 1], v[pos])
        } else if k == 1 {
            (v[pos], v[pos + 1])
        } else if k == 2 {
            (v[pos + 1], v[pos + 2])
        } else if k == 3 {
            (v[pos - 1], t)
        } else {
            (t, v[pos + 2])
        }
    }

    /// Whether step `k` of merging the pair at `pos` of `v` happens.
    spec fn merge_step_active(v: Seq<u32>, pos: int, k: int) -> bool {
        if k == 0 || k == 3 {
            pos > 0
        } else if k == 2 || k == 4 {
            pos + 2 < v.len()
        } else {
            k == 1
        }
    }

    /// The change that step `k` makes.
    spec fn merge_step_delta(k: int) -> int {
        if k < 3 {
            -1
        } else {
            1
        }
    }

    /// The count of `q` in the merged sequence after the first `k` steps.
    spec fn merge_count(v: Seq<u32>, pos: int, t: u32, k: int, q: (u32, u32)) -> int
        decreases k,
    {
        if k <= 0 {
            pair_count(v, q) as int
        } else {
            Self::merge_count(v, pos, t, k - 1, q) + if Self::merge_step_active(v, pos, k - 1)
                && q == Self::merge_step_pair(v, pos, t, k - 1) {
                Self::merge_step_delta(k - 1)
            } else {
                0
            }
        }
    }

    /// The statistics `st` are those of `sh` after the first `k` steps of
    /// merging the pair at `pos` of sequence `sidx`.
    spec fn merge_state(sh: SequenceShard, st: RealStatsCollector, sidx: int, pos: int, t: u32, k: int) -> bool {
        &&& st.wf()
        &&& st.sequences() == sh.num_sequences()
        &&& forall|s: int| #[trigger] st.dup(s) == sh.dup(s)
        &&& forall|q: (u32, u32), u: int|
            0 <= u < sh.num_sequences() && u != sidx ==> #[trigger] st.seq_count(q, u)
                == sh.stats_collector.seq_count(q, u)
        &&& forall|q: (u32, u32)| #[trigger] st.seq_count(q, sidx) == Self::merge_count(sh.tokens_of(sidx), pos, t, k, q)
        &&& sh.stats_collector.dirty_pairs().subset_of(st.dirty_pairs())
        &&& forall|q: (u32, u32)| #[trigger] st.weighted_count(q) != sh.stats_collector.weighted_count(q) ==> st.dirty_pairs().contains(q)
    }

    /// Every intermediate count lies between the counts after the three
    /// removals and the larger of the counts before and after the merge.
    proof fn lemma_merge_count_range(v: Seq<u32>, pos: int, t: u32, k: int, q: (u32, u32))
        requires
            0 <= pos,
            pos + 1 < v.len(),
            0 <= k <= 5,
        ensures
            Self::merge_count(v, pos, t, k, q) >= Self::merge_count(v, pos, t, 3, q) >= 0,
            Self::merge_count(v, pos, t, k, q) <= v.len() - 1,
            Self::merge_count(v, pos, t, 5, q) == pair_count(v.take(pos) + seq![t] + v.skip(pos + 2), q),
            Self::merge_count(v, pos, t, 5, q) <= v.len() - 2,
            k < 3 && Self::merge_step_active(v, pos, k) && q == Self::merge_step_pair(v, pos, t, k)
                ==> Self::merge_count(v, pos, t, k, q) >= 1,
            k >= 3 && k < 5 && Self::merge_step_active(v, pos, k) && q == Self::merge_step_pair(v, pos, t, k)
                ==> Self::merge_count(v, pos, t, k, q) + 1 <= Self::merge_count(v, pos, t, 5, q),
    {
        lemma_merge_step_counts(v, pos, t, q);
        lemma_pair_count_bound(v, q);
        let v2 = v.take(pos) + seq![t] + v.skip(pos + 2);
        lemma_pair_count_bound(v2, q);
        assert(v2.len() == v.len() - 1);
        let c0 = Self::merge_count(v, pos, t, 0, q);
        let c1 = Self::merge_count(v, pos, t, 1, q);
        let c2 = Self::merge_count(v, pos, t, 2, q);
        let c3 = Self::merge_count(v, pos, t, 3, q);
        let c4 = Self::merge_count(v, pos, t, 4, q);
        let c5 = Self::merge_count(v, pos, t, 5, q);
        assert(c0 == pair_count(v, q));
        assert(c1 == c0 - ind(pos > 0 && q == (v[pos - 1], v[pos])));
        assert(c2 == c1 - ind(q == (v[pos], v[pos + 1])));
        assert(c3 == c2 - ind(pos + 2 < v.len() && q == (v[pos + 1], v[pos + 2])));
        assert(c4 == c3 + ind(pos > 0 && q == (v[pos - 1], t)));
        assert(c5 == c4 + ind(pos + 2 < v.len() && q == (t, v[pos + 2])));
    }

    /// At the start of a merge, the statistics are those of the shard.
    proof fn lemma_merge_step_start(sh: SequenceShard, sidx: int, pos: int, t: u32)
        requires
            sh.wf(),
            0 <= sidx < sh.num_sequences(),
        ensures
            Self::merge_state(sh, sh.stats_collector, sidx, pos, t, 0),
    {
    }

    /// Step `k` of a merge meets the requirements of the update it makes.
    proof fn lemma_merge_step(sh: SequenceShard, st: RealStatsCollector, sidx: int, pos: int, t: u32, k: int)
        requires
            sh.wf(),
            0 <= sidx < sh.num_sequences(),
            0 <= pos,
            pos + 1 < sh.tokens_of(sidx).len(),
            0 <= k < 5,
            Self::merge_step_active(sh.tokens_of(sidx), pos, k),
            Self::merge_state(sh, st, sidx, pos, t, k),
        ensures
            ({
                let pair = Self::merge_step_pair(sh.tokens_of(sidx), pos, t, k);
                let delta = Self::merge_step_delta(k);
                &&& 0 <= st.seq_count(pair, sidx) + delta <= u32::MAX
                &&& i64::MIN <= st.weighted_count(pair) + delta * st.dup(sidx) <= i64::MAX
            }),
    {
        let v = sh.tokens_of(sidx);
        let pair = Self::merge_step_pair(v, pos, t, k);
        sh.lemma_chain(sidx);
        Self::lemma_merge_count_range(v, pos, t, k, pair);
        assert forall|u: int| 0 <= u < sh.num_sequences() implies #[trigger] st.seq_count(pair, u)
            <= sh.tokens_of(u).len() by {
            lemma_pair_count_bound(sh.tokens_of(u), pair);
            if u == sidx {
                Self::lemma_merge_count_range(v, pos, t, k, pair);
            }
        }
        sh.lemma_weighted_bound(st, pair);
        if k < 3 {
            st.lemma_weighted_term(pair, sidx);
            let d = st.dup(sidx);
            let c = st.seq_count(pair, sidx);
            assert(d <= d * c) by (nonlinear_arith)
                requires
                    c >= 1,
                    d >= 0,
            ;
        } else {
            sh.lemma_weighted_bound_slack(st, pair, sidx);
        }
    }

    /// After step `k` (made or skipped), the statistics are those of step
    /// `k + 1`.
    proof fn lemma_merge_advance(sh: SequenceShard, st0: RealStatsCollector, st1: RealStatsCollector, sidx: int, pos: int, t: u32, k: int)
        requires
            0 <= sidx < sh.num_sequences(),
            0 <= k < 5,
            Self::merge_state(sh, st0, sidx, pos, t, k),
            Self::merge_step_active(sh.tokens_of(sidx), pos, k) ==> {
                let pair = Self::merge_step_pair(sh.tokens_of(sidx), pos, t, k);
                let delta = Self::merge_step_delta(k);
                &&& st1.wf()
                &&& st1.sequences() == st0.sequences()
                &&& forall|s: int| #[trigger] st1.dup(s) == st0.dup(s)
                &&& forall|p: (u32, u32), s: int| #[trigger] st1.seq_count(p, s) == st0.seq_count(p, s)
                    + if p == pair && s == sidx { delta } else { 0 }
                &&& forall|p: (u32, u32)| #[trigger] st1.weighted_count(p) == st0.weighted_count(p)
                    + if p == pair { delta * st0.dup(sidx) } else { 0 }
                &&& st1.dirty_pairs() == st0.dirty_pairs().insert(pair)
            },
            !Self::merge_step_active(sh.tokens_of(sidx), pos, k) ==> st1 == st0,
        ensures
            Self::merge_state(sh, st1, sidx, pos, t, k + 1),
    {
        let v = sh.tokens_of(sidx);
        assert forall|q: (u32, u32)| #[trigger] st1.seq_count(q, sidx) == Self::merge_count(v, pos, t, k + 1, q) by {
            assert(Self::merge_count(v, pos, t, k + 1, q) == Self::merge_count(v, pos, t, k, q) + if Self::merge_step_active(v, pos, k)
                && q == Self::merge_step_pair(v, pos, t, k) {
                Self::merge_step_delta(k)
            } else {
                0
            });
        }
        if Self::merge_step_active(v, pos, k) {
            let pair = Self::merge_step_pair(v, pos, t, k);
            assert forall|q: (u32, u32)| #[trigger] st1.weighted_count(q) != sh.stats_collector.weighted_count(q)
                implies st1.dirty_pairs().contains(q) by {
                if q != pair {
                    assert(st1.weighted_count(q) == st0.weighted_count(q));
                }
            }
        }
    }

    /// When all five steps are done, the shard with the relinked list and
    /// the final statistics is well formed; its totals changed only for
    /// pairs that are marked as touched.
    proof fn lemma_merge_done(sh: SequenceShard, r1: SequenceShard, fin: SequenceShard, sidx: int, pos: int, t: u32)
        requires
            sh.wf(),
            0 <= sidx < sh.num_sequences(),
            0 <= pos,
            pos + 1 < sh.tokens_of(sidx).len(),
            r1.structure_wf(),
            r1.num_sequences() == sh.num_sequences(),
            r1.view() == sh.view().update(sidx, sh.tokens_of(sidx).take(pos) + seq![t] + sh.tokens_of(sidx).skip(pos + 2)),
            fin.sequences == r1.sequences,
            fin.next_token == r1.next_token,
            fin.start_index == r1.start_index,
            fin.chains == r1.chains,
            Self::merge_state(sh, fin.stats_collector, sidx, pos, t, 5),
        ensures
            fin.wf(),
            fin.view() == r1.view(),
            forall|s: int| #[trigger] fin.dup(s) == sh.dup(s),
            sh.dirty().subset_of(fin.dirty()),
            forall|q: (u32, u32)| #[trigger] fin.total(q) != sh.total(q) ==> fin.dirty().contains(q),
    {
        let n = sh.num_sequences();
        let v = sh.tokens_of(sidx);
        let v2 = v.take(pos) + seq![t] + v.skip(pos + 2);
        assert(fin.structure_wf()) by {
            assert forall|u: int| 0 <= u < n implies #[trigger] fin.chain_wf(u) by {
                assert(r1.chain_wf(u));
            }
        }
        assert forall|u: int| 0 <= u < n implies #[trigger] fin.tokens_of(u) == r1.tokens_of(u) by {}
        assert(fin.view() =~= r1.view());
        assert forall|u: int| 0 <= u < n implies #[trigger] fin.tokens_of(u) == if u == sidx { v2 } else { sh.tokens_of(u) } by {
            assert(r1.view()[u] == r1.tokens_of(u));
            assert(sh.view()[u] == sh.tokens_of(u));
        }
        assert forall|q: (u32, u32), u: int|
            0 <= u < n implies #[trigger] fin.stats_collector.seq_count(q, u) == pair_count(fin.tokens_of(u), q) by {
            if u == sidx {
                Self::lemma_merge_count_range(v, pos, t, 5, q);
            }
        }
        assert forall|u: int| 0 <= u < n implies #[trigger] fin.dup(u) > 0 by {
            assert(sh.dup(u) > 0);
        }
        let f = |u: int| (fin.dup(u) * fin.view()[u].len()) as int;
        let g = |u: int| (sh.dup(u) * sh.view()[u].len()) as int;
        assert forall|u: int| 0 <= u < n implies 0 <= #[trigger] f(u) <= g(u) by {
            let dd = sh.dup(u);
            let l1 = fin.view()[u].len();
            let l2 = sh.view()[u].len();
            assert(l1 <= l2);
            assert(0 <= dd * l1 <= dd * l2) by (nonlinear_arith)
                requires
                    0 <= l1 <= l2,
                    0 <= dd,
            ;
        }
        lemma_sum_below_mono(n, f, g);
        assert(fin.stats_wf());
        assert forall|q: (u32, u32)| #[trigger] fin.total(q) != sh.total(q) implies fin.dirty().contains(q) by {
            sh.lemma_total(q);
            fin.lemma_total(q);
        }
    }

    /// Shards that differ at most in their scratch buffer agree on all that
    /// the specifications say of them.
    proof fn lemma_frame(a: SequenceShard, b: SequenceShard)
        requires
            a.sequences == b.sequences,
            a.next_token == b.next_token,
            a.start_index == b.start_index,
            a.stats_collector == b.stats_collector,
            a.chains == b.chains,
        ensures
            a.wf() == b.wf(),
            a.structure_wf() == b.structure_wf(),
            a.view() == b.view(),
            a.num_sequences() == b.num_sequences(),
            a.storage_len() == b.storage_len(),
            a.dirty() == b.dirty(),
            forall|s: int| #![trigger a.dup(s)] #![trigger b.dup(s)] a.dup(s) == b.dup(s),
            forall|s: int| #![trigger a.tokens_of(s)] #![trigger b.tokens_of(s)] a.tokens_of(s) == b.tokens_of(s),
            forall|q: (u32, u32)| #![trigger a.total(q)] #![trigger b.total(q)] a.total(q) == b.total(q),
            a.weight() == b.weight(),
    {
        assert forall|s: int| #[trigger] a.chain_wf(s) == b.chain_wf(s) by {}
        assert forall|s: int| #[trigger] a.tokens_of(s) == b.tokens_of(s) by {}
        assert(a.view() =~= b.view());
        let n = a.num_sequences();
        if a.structure_wf() {
            assert forall|s: int| 0 <= s < n implies #[trigger] b.chain_wf(s) by {
                assert(a.chain_wf(s));
            }
        }
        if b.structure_wf() {
            assert forall|s: int| 0 <= s < n implies #[trigger] a.chain_wf(s) by {
                assert(b.chain_wf(s));
            }
        }
        let f = |s: int| (a.dup(s) * a.view()[s].len()) as int;
        let g = |s: int| (b.dup(s) * b.view()[s].len()) as int;
        lemma_sum_below_congruent(n, f, g);
        assert forall|q: (u32, u32)| #[trigger] a.total(q) == b.total(q) by {
            let fq = |s: int| (a.dup(s) * pair_count(a.view()[s], q)) as int;
            let gq = |s: int| (b.dup(s) * pair_count(b.view()[s], q)) as int;
            lemma_sum_below_congruent(n, fq, gq);
        }
        if a.stats_wf() {
            assert forall|p: (u32, u32), s: int|
                0 <= s < n implies #[trigger] b.stats_collector.seq_count(p, s)
                    == pair_count(b.tokens_of(s), p) by {
                assert(a.stats_collector.seq_count(p, s) == pair_count(a.tokens_of(s), p));
            }
            assert forall|s: int| 0 <= s < n implies #[trigger] b.dup(s) > 0 by {
                assert(a.dup(s) > 0);
            }
        }
        if b.stats_wf() {
            assert forall|p: (u32, u32), s: int|
                0 <= s < n implies #[trigger] a.stats_collector.seq_count(p, s)
                    == pair_count(a.tokens_of(s), p) by {
                assert(b.stats_collector.seq_count(p, s) == pair_count(b.tokens_of(s), p));
            }
            assert forall|s: int| 0 <= s < n implies #[trigger] a.dup(s) > 0 by {
                assert(b.dup(s) > 0);
            }
        }
    }

    /// Array positions of two different sequences never coincide.
    proof fn lemma_chains_disjoint(&self, s1: int, k1: int, s2: int, k2: int)
        requires
            self.structure_wf(),
            0 <= s1 < self.num_sequences(),
            0 <= s2 < self.num_sequences(),
            s1 != s2,
            0 <= k1 < self.chain(s1).len(),
            0 <= k2 < self.chain(s2).len(),
        ensures
            self.chain(s1)[k1] != self.chain(s2)[k2],
    {
        assert(self.chain_wf(s1));
        assert(self.chain_wf(s2));
        if s1 < s2 {
            if s1 + 1 < s2 {
                assert(self.start_index@[s1 + 1] < self.start_index@[s2]);
            }
        } else {
            if s2 + 1 < s1 {
                assert(self.start_index@[s2 + 1] < self.start_index@[s1]);
            }
        }
    }

    /// A cursor over sequence `sequence_idx` of this shard.
    pub fn cursor_mut(&mut self, sequence_idx: usize) -> (c: SequenceCursor<'_>)
        requires
            old(self).structure_wf(),
            sequence_idx < old(self).num_sequences(),
        ensures
            c.wf(),
            c.shard() == *old(self),
            *final(self) == *final(c.shard),
            c.sequence_index() == sequence_idx,
            c.position() == 0,
    {
        SequenceCursor::new(self, sequence_idx)
    }

    /// Records the pairs of the last sequence, which has no pairs recorded
    /// yet.
    fn update_counts(&mut self, sequence_idx: u32)
        requires
            old(self).structure_wf(),
            old(self).stats_collector.wf(),
            old(self).num_sequences() > 0,
            sequence_idx == old(self).num_sequences() - 1,
            old(self).stats_collector.sequences() == old(self).num_sequences(),
            forall|p: (u32, u32), s: int|
                0 <= s < sequence_idx ==> #[trigger] old(self).stats_collector.seq_count(p, s)
                    == pair_count(old(self).tokens_of(s), p),
            forall|p: (u32, u32)| #[trigger] old(self).stats_collector.seq_count(p, sequence_idx as int) == 0,
            forall|s: int| 0 <= s < old(self).num_sequences() ==> #[trigger] old(self).dup(s) > 0,
            old(self).weight() <= i64::MAX,
        ensures
            final(self).wf(),
            final(self).view() == old(self).view(),
            final(self).storage_len() == old(self).storage_len(),
            forall|s: int| #[trigger] final(self).dup(s) == old(self).dup(s),
            final(self).dirty() == old(self).dirty().union(adjacent_pairs(old(self).tokens_of(sequence_idx as int)).to_set()),
    {
        let ghost old_self = *self;
        let ghost toks = self.tokens_of(sequence_idx as int);
        proof {
            self.lemma_chain(sequence_idx as int);
        }
        let c = self.cursor_mut(sequence_idx as usize);
        let pairs = c.into_pairs();
        assert(*self == old_self);
        let ghost n = self.num_sequences();
        let ghost d = self.dup(sequence_idx as int);
        let mut i: usize = 0;
        proof {
            assert(toks.take(1).len() <= 1);
            assert(forall|p: (u32, u32)| pair_count(toks.take(1), p) == 0);
            assert forall|p: (u32, u32)| #[trigger] old_self.stats_collector.weighted_count(p) + d * pair_count(toks, p)
                <= old_self.weight() && old_self.stats_collector.weighted_count(p) >= 0 by {
                let f = |s: int| (old_self.stats_collector.dup(s) * old_self.stats_collector.seq_count(p, s)) as int;
                let h = |s: int| (old_self.stats_collector.dup(s) * (if s == n - 1 {
                    pair_count(toks, p)
                } else {
                    old_self.stats_collector.seq_count(p, s)
                })) as int;
                let g = |s: int| (old_self.dup(s) * old_self.view()[s].len()) as int;
                assert(old_self.stats_collector.seq_count(p, n - 1) == 0);
                assert(old_self.stats_collector.dup(n - 1) == d);
                assert(f(n - 1) == 0) by {
                    assert(d * 0 == 0) by (nonlinear_arith);
                }
                assert(h(n - 1) == d * pair_count(toks, p));
                lemma_sum_below_update(n, f, h, n - 1, (d * pair_count(toks, p)) as int);
                assert forall|s: int| 0 <= s < n implies 0 <= #[trigger] f(s) <= f(s) by {
                    let dd = old_self.stats_collector.dup(s);
                    let c = old_self.stats_collector.seq_count(p, s);
                    assert(0 <= dd * c) by (nonlinear_arith)
                        requires
                            0 <= c,
                            0 <= dd,
                    ;
                }
                lemma_sum_below_mono(n, f, f);
                assert forall|s: int| 0 <= s < n implies 0 <= #[trigger] h(s) <= g(s) by {
                    old_self.lemma_chain(s);
                    let c = if s == n - 1 {
                        pair_count(toks, p)
                    } else {
                        old_self.stats_collector.seq_count(p, s)
                    };
                    lemma_pair_count_bound(old_self.tokens_of(s), p);
                    let dd = old_self.dup(s);
                    let l = old_self.view()[s].len();
                    assert(c <= l);
                    assert(0 <= dd * c <= dd * l) by (nonlinear_arith)
                        requires
                            0 <= c <= l,
                            0 <= dd,
                    ;
                }
                lemma_sum_below_mono(n, h, g);
            }
        }
        while i < pairs.len()
            invariant
                n == old_self.num_sequences(),
                self.sequences == old_self.sequences,
                self.next_token == old_self.next_token,
                self.start_index == old_self.start_index,
                self.chains == old_self.chains,
                self.stats_collector.wf(),
                self.stats_collector.sequences() == n,
                pairs@ == adjacent_pairs(toks),
                toks == old_self.tokens_of(sequence_idx as int),
                toks.len() <= old_self.storage_len() <= u32::MAX + 1,
                sequence_idx == n - 1,
                0 <= i <= pairs@.len(),
                d == old_self.dup(sequence_idx as int),
                forall|s: int| #[trigger] self.stats_collector.dup(s) == old_self.dup(s),
                forall|p: (u32, u32), s: int|
                    0 <= s < sequence_idx ==> #[trigger] self.stats_collector.seq_count(p, s)
                        == old_self.stats_collector.seq_count(p, s),
                forall|p: (u32, u32)| #[trigger] self.stats_collector.seq_count(p, sequence_idx as int)
                    == pair_count(toks.take(i + 1), p),
                forall|p: (u32, u32)| #[trigger] self.stats_collector.weighted_count(p)
                    == old_self.stats_collector.weighted_count(p) + d * pair_count(toks.take(i + 1), p),
                forall|p: (u32, u32)| #[trigger] old_self.stats_collector.weighted_count(p) + d * pair_count(toks, p) <= old_self.weight(),
                forall|p: (u32, u32)| #[trigger] old_self.stats_collector.weighted_count(p) >= 0,
                old_self.weight() <= i64::MAX,
                self.stats_collector.dirty_pairs() == old_self.dirty().union(pairs@.take(i as int).to_set()),
            decreases pairs@.len() - i,
        {
            let pair = pairs[i];
            proof {
                assert(pair == (toks[i as int], toks[i + 1]));
                assert(toks.take(i + 2).drop_last() =~= toks.take(i + 1));
                assert(toks.take(i + 2)[i as int] == toks[i as int]);
                assert(toks.take(i + 2)[i + 1] == toks[i + 1]);
                lemma_pair_count_take_le(toks, i + 2, pair);
                lemma_pair_count_bound(toks, pair);
                assert(d * pair_count(toks.take(i + 2), pair) <= d * pair_count(toks, pair)) by (nonlinear_arith)
                    requires
                        pair_count(toks.take(i + 2), pair) <= pair_count(toks, pair),
                        0 <= d,
                ;
                let c1 = pair_count(toks.take(i + 1), pair);
                assert(pair_count(toks.take(i + 2), pair) == c1 + 1);
                assert(d * (c1 + 1) == d * c1 + d) by (nonlinear_arith);
                assert(old_self.stats_collector.weighted_count(pair) + d * pair_count(toks, pair) <= old_self.weight());
            }
            self.stats_collector.update_pair_count(sequence_idx as usize, pair, 1);
            proof {
                assert forall|p: (u32, u32)| #[trigger] self.stats_collector.seq_count(p, sequence_idx as int)
                    == pair_count(toks.take(i + 2), p) by {}
                assert forall|p: (u32, u32)| #[trigger] self.stats_collector.weighted_count(p)
                    == old_self.stats_collector.weighted_count(p) + d * pair_count(toks.take(i + 2), p) by {
                    let c = pair_count(toks.take(i + 1), p);
                    assert(d * (c + 1) == d * c + d) by (nonlinear_arith);
                }
                assert(pairs@.take(i + 1) =~= pairs@.take(i as int).push(pair));
                pairs@.take(i as int).lemma_push_to_set_commute(pair);
            }
            i = i + 1;
        }
        proof {
            let len = toks.len();
            assert(pairs@.len() == len - 1);
            assert(toks.take(len as int) =~= toks);
            assert(pairs@.take(i as int) =~= pairs@);
            assert forall|p: (u32, u32), s: int|
                0 <= s < self.num_sequences() implies #[trigger] self.stats_collector.seq_count(p, s)
                    == pair_count(self.tokens_of(s), p) by {
                if s < sequence_idx {
                    assert(self.tokens_of(s) == old_self.tokens_of(s));
                } else {
                    assert(s == sequence_idx);
                    assert(toks.take(i + 1) =~= toks);
                }
            }
            assert forall|s: int| 0 <= s < self.num_sequences() implies #[trigger] self.dup(s) > 0 by {
                assert(old_self.dup(s) > 0);
            }
            assert(self.view() =~= old_self.view());
            let f = |s: int| (old_self.dup(s) * old_self.view()[s].len()) as int;
            let g = |s: int| (self.dup(s) * self.view()[s].len()) as int;
            lemma_sum_below_congruent(n, f, g);
            assert(old_self.structure_wf());
            assert forall|s: int| 0 <= s < self.num_sequences() implies #[trigger] self.chain_wf(s) by {
                assert(old_self.chain_wf(s));
            }
            assert(self.structure_wf());
            assert(self.stats_collector.wf());
            assert(self.stats_collector.sequences() == self.num_sequences());
            assert(self.weight() <= i64::MAX);
            assert(self.stats_wf());
        }
    }

    /// Add a given sequence to this shard. Sequence is a series of tokens,
    /// and `dup_count` the number of duplicates it stands for.
    pub fn push(&mut self, sequence: &[u32], dup_count: u32)
        requires
            old(self).wf(),
            dup_count > 0,
            sequence@.len() > 0,
            sequence@.len() <= u32::MAX,
            old(self).storage_len() + sequence@.len() <= u32::MAX,
            old(self).weight() + dup_count * sequence@.len() <= i64::MAX,
        ensures
            final(self).wf(),
            final(self).view() == old(self).view().push(sequence@),
            final(self).num_sequences() == old(self).num_sequences() + 1,
            final(self).storage_len() == old(self).storage_len() + sequence@.len(),
            final(self).dup(old(self).num_sequences() as int) == dup_count,
            forall|s: int| 0 <= s < old(self).num_sequences() ==> #[trigger] final(self).dup(s) == old(self).dup(s),
            final(self).weight() == old(self).weight() + dup_count * sequence@.len(),
            final(self).dirty() == old(self).dirty().union(adjacent_pairs(sequence@).to_set()),
    {
        let ghost old_self = *self;
        let ghost n = self.num_sequences();
        let start_idx: u32 = self.sequences.len() as u32;
        let sequence_len: u32 = sequence.len() as u32;

        // 1: Append actual sequence
        let mut j: usize = 0;
        while j < sequence.len()
            invariant
                j <= sequence@.len(),
                self.sequences@ == old_self.sequences@ + sequence@.take(j as int),
                self.next_token == old_self.next_token,
                self.start_index == old_self.start_index,
                self.stats_collector == old_self.stats_collector,
                self.chains == old_self.chains,
            decreases sequence@.len() - j,
        {
            self.sequences.push(sequence[j]);
            assert(sequence@.take(j + 1) =~= sequence@.take(j as int).push(sequence@[j as int]));
            j = j + 1;
        }
        assert(sequence@.take(j as int) =~= sequence@);

        // 2: Start index point to beginning of sequence we just pushed
        let seq_idx = self.start_index.len();
        self.start_index.push(start_idx);
        proof {
            if n > 0 {
                old_self.lemma_chain((n - 1) as int);
            }
            assert forall|s: int| 0 <= s < n implies #[trigger] old_self.start_index@[s] < start_idx by {
                old_self.lemma_chain(s);
            }
            if n > 0 {
                old_self.lemma_start_index_ge((n - 1) as int);
            }
        }
        self.stats_collector.update_duplicate_count(seq_idx, dup_count);

        // 3: Every token has next of i + 1 except for last in the sequence
        // which should have last of None
        let mut i: u32 = start_idx;
        while i < start_idx + sequence_len - 1
            invariant
                start_idx == old_self.storage_len(),
                start_idx + sequence_len <= u32::MAX,
                sequence_len >= 1,
                start_idx <= i <= start_idx + sequence_len - 1,
                self.next_token@.len() == i,
                self.sequences@ == old_self.sequences@ + sequence@,
                self.start_index@ == old_self.start_index@.push(start_idx),
                self.chains == old_self.chains,
                self.stats_collector.wf(),
                self.stats_collector.sequences() == n + 1,
                forall|s: int| 0 <= s < n ==> #[trigger] self.stats_collector.dup(s) == old_self.dup(s),
                self.stats_collector.dup(n as int) == dup_count,
                forall|p: (u32, u32), s: int| #[trigger] self.stats_collector.seq_count(p, s) == old_self.stats_collector.seq_count(p, s),
                self.stats_collector.dirty_pairs() == old_self.dirty(),
                forall|j: int| 0 <= j < start_idx ==> #[trigger] self.next_token@[j] == old_self.next_token@[j],
                forall|j: int| start_idx <= j < i ==> #[trigger] self.next_token@[j] == Some((j + 1) as u32),
            decreases start_idx + sequence_len - 1 - i,
        {
            self.next_token.push(Some(i + 1));
            i = i + 1;
        }
        self.next_token.push(None);
        let ghost new_chain = Seq::new(sequence_len as nat, |k: int| start_idx + k);
        self.chains = Ghost(self.chains@.push(new_chain));

        proof {
            assert forall|k: int| 0 <= k < sequence@.len() implies #[trigger] self.sequences@[start_idx + k] == sequence@[k] by {
                assert(self.sequences@[start_idx + k] == (old_self.sequences@ + sequence@)[start_idx + k]);
            }
            assert forall|s: int| 0 <= s < n implies #[trigger] self.chain_wf(s) by {
                old_self.lemma_chain(s);
                assert(old_self.chain_wf(s));
                assert(self.chain(s) == old_self.chain(s));
                assert(self.region_end(s) == old_self.region_end(s));
                let ch = self.chain(s);
                assert forall|k: int| 0 <= k < ch.len() - 1 implies self.next_token@[#[trigger] ch[k]] == Some(ch[k + 1] as u32) by {
                    assert(old_self.next_token@[ch[k]] == Some(ch[k + 1] as u32));
                }
            }
            assert(self.chain_wf(n as int)) by {
                assert(self.region_end(n as int) == self.storage_len());
                let ch = self.chain(n as int);
                assert forall|k: int| 0 <= k < ch.len() - 1 implies self.next_token@[#[trigger] ch[k]] == Some(ch[k + 1] as u32) by {}
            }
            assert forall|s: int, t: int|
                0 <= s < t < self.num_sequences() implies #[trigger] self.start_index@[s]
                    < #[trigger] self.start_index@[t] by {
                if t < n {
                    assert(old_self.start_index@[s] < old_self.start_index@[t]);
                }
            }
            assert(self.structure_wf());
            assert forall|s: int| 0 <= s < n implies #[trigger] self.tokens_of(s) == old_self.tokens_of(s) by {
                old_self.lemma_chain(s);
                assert(self.tokens_of(s) =~= old_self.tokens_of(s));
            }
            assert(self.tokens_of(n as int) =~= sequence@);
            assert(self.view() =~= old_self.view().push(sequence@));
            let f = |s: int| (old_self.dup(s) * old_self.view()[s].len()) as int;
            let g = |s: int| (self.dup(s) * self.view()[s].len()) as int;
            lemma_sum_below_congruent(n, f, g);
            assert(self.weight() == old_self.weight() + dup_count * sequence@.len());
            assert forall|p: (u32, u32), s: int|
                0 <= s < n implies #[trigger] self.stats_collector.seq_count(p, s)
                    == pair_count(self.tokens_of(s), p) by {
                assert(old_self.stats_collector.seq_count(p, s) == pair_count(old_self.tokens_of(s), p));
            }
            assert forall|p: (u32, u32)| #[trigger] self.stats_collector.seq_count(p, n as int) == 0 by {
                old_self.stats_collector.lemma_wf();
            }
            assert forall|s: int| 0 <= s < self.num_sequences() implies #[trigger] self.dup(s) > 0 by {
                if s < n {
                    assert(old_self.dup(s) > 0);
                }
            }
        }
        // 4: record the pairs of the new sequence
        let ghost mid = *self;
        self.update_counts((self.start_index.len() - 1) as u32);
        proof {
            let f = |s: int| (mid.dup(s) * mid.view()[s].len()) as int;
            let g = |s: int| (self.dup(s) * self.view()[s].len()) as int;
            lemma_sum_below_congruent(self.num_sequences(), f, g);
        }
    }

    /// Merge all instances of `pair` together, replacing them with
    /// `new_token`, greedily from left to right in every sequence.
    /// Returns 'true' if any matching pairs exist in this shard.
    #[verifier::rlimit(40)]
    pub fn merge_pair(&mut self, pair: (u32, u32), new_token: u32) -> (merged: bool)
        requires
            old(self).wf(),
        ensures
            final(self).wf(),
            final(self).view() == Seq::new(
                old(self).num_sequences(),
                |s: int| merge_pair_in(old(self).view()[s], pair, new_token),
            ),
            final(self).storage_len() == old(self).storage_len(),
            forall|s: int| #[trigger] final(self).dup(s) == old(self).dup(s),
            merged == exists|s: int|
                0 <= s < old(self).num_sequences() && #[trigger] pair_count(old(self).view()[s], pair) > 0,
            merged == (old(self).total(pair) > 0),
            final(self).dirty() == old(self).dirty().union(shard_touched(old(self).view(), pair, new_token)),
            forall|q: (u32, u32)|
                #[trigger] final(self).total(q) != old(self).total(q) ==> final(self).dirty().contains(q),
    {
        let ghost orig = *self;
        let ghost n = self.num_sequences();
        let ghost target = Seq::new(n, |s: int| merge_pair_in(orig.view()[s], pair, new_token));
        proof {
            orig.lemma_total_positive(pair);
        }
        let num = self.start_index.len();
        self.stats_collector.sequences_with_pair(pair, &mut self.pair_buf);
        proof {
            SequenceShard::lemma_frame(orig, *self);
            self.stats_collector.lemma_wf();
            assert forall|s: int| 0 <= s < n implies (#[trigger] self.pair_buf@.contains(s as usize))
                == (pair_count(orig.view()[s], pair) > 0) by {
                orig.lemma_chain(s);
            }
            assert(touched_except(orig.view(), self.pair_buf@, pair, new_token) =~= Set::empty()) by {
                assert forall|q: (u32, u32)| !#[trigger] touched_except(orig.view(), self.pair_buf@, pair, new_token).contains(q) by {
                    if touched_except(orig.view(), self.pair_buf@, pair, new_token).contains(q) {
                        let s = choose|s: int|
                            0 <= s < n && !self.pair_buf@.contains(s as usize) && pair_count(orig.view()[s], pair) > 0
                                && #[trigger] merge_touched_in(orig.view()[s], pair, new_token).contains(q);
                        assert(self.pair_buf@.contains(s as usize) == (pair_count(orig.view()[s], pair) > 0));
                    }
                }
            }
            assert(self.dirty() =~= orig.dirty().union(touched_except(orig.view(), self.pair_buf@, pair, new_token)));
            assert forall|s: int| 0 <= s < n && !self.pair_buf@.contains(s as usize) implies #[trigger] orig.view()[s]
                == target[s] by {
                orig.lemma_chain(s);
                if pair_count(orig.view()[s], pair) == 0 {
                    lemma_merge_pair_absent(orig.view()[s], pair, new_token);
                }
            }
        }
        let mut merged = false;
        loop
            invariant
                self.wf(),
                self.num_sequences() == n,
                n == num,
                n == orig.num_sequences(),
                target == Seq::new(n, |s: int| merge_pair_in(orig.view()[s], pair, new_token)),
                self.storage_len() == orig.storage_len(),
                forall|s: int| #[trigger] self.dup(s) == orig.dup(s),
                self.pair_buf@.no_duplicates(),
                forall|i: int| 0 <= i < self.pair_buf@.len() ==> #[trigger] self.pair_buf@[i] < n,
                forall|s: int|
                    0 <= s < n ==> #[trigger] self.view()[s] == if self.pair_buf@.contains(s as usize) {
                        orig.view()[s]
                    } else {
                        target[s]
                    },
                forall|s: int|
                    0 <= s < n && self.pair_buf@.contains(s as usize) ==> #[trigger] pair_count(orig.view()[s], pair) > 0,
                merged == exists|s: int|
                    0 <= s < n && !self.pair_buf@.contains(s as usize) && #[trigger] pair_count(orig.view()[s], pair) > 0,
                self.dirty() == orig.dirty().union(touched_except(orig.view(), self.pair_buf@, pair, new_token)),
                forall|q: (u32, u32)|
                    #[trigger] self.total(q) != orig.total(q) ==> self.dirty().contains(q),
            ensures
                self.pair_buf@.len() == 0,
                self.wf(),
                self.num_sequences() == n,
                self.storage_len() == orig.storage_len(),
                forall|s: int| #[trigger] self.dup(s) == orig.dup(s),
                forall|s: int| 0 <= s < n ==> #[trigger] self.view()[s] == target[s],
                merged == exists|s: int|
                    0 <= s < n && #[trigger] pair_count(orig.view()[s], pair) > 0,
                self.dirty() == orig.dirty().union(shard_touched(orig.view(), pair, new_token)),
                forall|q: (u32, u32)|
                    #[trigger] self.total(q) != orig.total(q) ==> self.dirty().contains(q),
            decreases self.pair_buf@.len(),
        {
            let ghost before = *self;
            let sequence_index = match self.pair_buf.pop() {
                Some(i) => i,
                None => {
                    proof {
                        SequenceShard::lemma_frame(before, *self);
                        assert forall|s: int| 0 <= s < n implies #[trigger] self.view()[s] == target[s] by {
                            assert(!self.pair_buf@.contains(s as usize));
                        }
                        assert(touched_except(orig.view(), self.pair_buf@, pair, new_token) =~= shard_touched(
                            orig.view(),
                            pair,
                            new_token,
                        ));
                    }
                    break;
                },
            };
            let ghost sidx = sequence_index as int;
            let ghost w = orig.view()[sidx];
            proof {
                SequenceShard::lemma_frame(before, *self);
                assert(before.pair_buf@.contains(sequence_index));
                before.lemma_chain(sidx);
                assert(before.view()[sidx] == w);
                assert(pair_count(w, pair) > 0);
            }
            let ghost mid = *self;
            let mut c = self.cursor_mut(sequence_index);
            let ghost c0 = c;
            let mut merged_here = false;
            proof {
                assert(c.tokens() == w);
                assert(w.take(1).len() == 1);
                assert(pair_count(w.take(1), pair) == 0);
                assert(w.len() > 0);
                assert(w.take(0) + merge_from(w[0], w.skip(1), pair, new_token) =~= merge_pair_in(w, pair, new_token)) by {
                    assert(w.skip(1) =~= w.drop_first());
                }
                assert(c.shard().dirty().union(merge_touched(None::<u32>, w[0], w.skip(1), pair, new_token))
                    =~= mid.dirty().union(merge_touched_in(w, pair, new_token))) by {
                    assert(w.skip(1) =~= w.drop_first());
                }
            }
            while !c.is_done()
                invariant
                    c.wf(),
                    c.shard().wf(),
                    *final(c.shard) == *final(c0.shard),
                    c.sequence_index() == sidx,
                    0 <= sidx < n,
                    c.shard().num_sequences() == n,
                    c.shard().storage_len() == orig.storage_len(),
                    c.shard().scratch() == mid.scratch(),
                    forall|s: int| #[trigger] c.shard().dup(s) == orig.dup(s),
                    forall|s: int| 0 <= s < n && s != sidx ==> #[trigger] c.shard().view()[s] == mid.view()[s],
                    c.shard().view()[sidx] == c.tokens(),
                    0 <= c.position() < c.tokens().len(),
                    c.tokens().take(c.position()) + merge_from(
                        c.tokens()[c.position()],
                        c.tokens().skip(c.position() + 1),
                        pair,
                        new_token,
                    ) == merge_pair_in(w, pair, new_token),
                    !merged_here ==> c.tokens() == w && pair_count(w.take(c.position() + 1), pair) == 0,
                    c.shard().dirty().union(
                        merge_touched(
                            if c.position() > 0 {
                                Some(c.tokens()[c.position() - 1])
                            } else {
                                None::<u32>
                            },
                            c.tokens()[c.position()],
                            c.tokens().skip(c.position() + 1),
                            pair,
                            new_token,
                        ),
                    ) == mid.dirty().union(merge_touched_in(w, pair, new_token)),
                    mid.dirty().subset_of(c.shard().dirty()),
                    forall|q: (u32, u32)|
                        #[trigger] c.shard().total(q) != mid.total(q) ==> c.shard().dirty().contains(q),
                decreases c.tokens().len() - c.position(),
            {
                let ghost cb = c;
                let ghost v = c.tokens();
                let ghost p0 = c.position();
                let c_pair = match c.current_pair() {
                    Some(cp) => cp,
                    None => {
                        proof {
                            assert(false);
                        }
                        (0, 0)
                    },
                };
                if c_pair.0 == pair.0 && c_pair.1 == pair.1 {
                    c.merge_pair(new_token);
                    merged_here = true;
                    proof {
                        assert(c.shard().view().len() == cb.shard().view().len());
                        let rest = v.skip(p0 + 1);
                        assert(rest[0] == v[p0 + 1]);
                        assert(rest.drop_first() =~= v.skip(p0 + 2));
                        let v2 = c.tokens();
                        assert(v2.take(p0) =~= v.take(p0));
                        assert(v2[p0] == new_token);
                        assert(v2.skip(p0 + 1) =~= v.skip(p0 + 2));
                        cb.shard().lemma_chain(sidx);
                        c.shard().lemma_chain(sidx);
                        assert forall|s: int| 0 <= s < n && s != sidx implies #[trigger] c.shard().view()[s] == mid.view()[s] by {
                            assert(c.shard().view()[s] == cb.shard().view()[s]);
                        }
                        assert(c.shard().view()[sidx] == c.tokens());
                        let prev = if p0 > 0 {
                            Some(v[p0 - 1])
                        } else {
                            None::<u32>
                        };
                        assert(v.len() > p0 + 1);
                        if p0 > 0 {
                            assert(c.tokens()[p0 - 1] == v2.take(p0)[p0 - 1]);
                        }
                        assert(rest.len() > 1 ==> rest[1] == v[p0 + 2]);
                        assert(merge_touched(prev, v[p0], rest, pair, new_token) =~= cb.touched_pairs(new_token).union(
                            merge_touched(prev, new_token, rest.drop_first(), pair, new_token),
                        ));
                        assert(c.shard().dirty().union(merge_touched(prev, new_token, v2.skip(p0 + 1), pair, new_token))
                            =~= mid.dirty().union(merge_touched_in(w, pair, new_token)));
                    }
                } else {
                    c.next();
                    proof {
                        let rest = v.skip(p0 + 1);
                        assert(rest[0] == v[p0 + 1]);
                        assert(rest.drop_first() =~= v.skip(p0 + 2));
                        let prev = if p0 > 0 {
                            Some(v[p0 - 1])
                        } else {
                            None::<u32>
                        };
                        assert(merge_touched(prev, v[p0], rest, pair, new_token) == merge_touched(
                            Some(v[p0]),
                            v[p0 + 1],
                            v.skip(p0 + 2),
                            pair,
                            new_token,
                        ));
                        assert(v.take(p0 + 1) =~= v.take(p0) + seq![v[p0]]);
                        assert(v.take(p0) + (seq![v[p0]] + merge_from(rest[0], rest.drop_first(), pair, new_token))
                            =~= v.take(p0 + 1) + merge_from(v[p0 + 1], v.skip(p0 + 2), pair, new_token));
                        if !merged_here {
                            assert(w.take(p0 + 2).drop_last() =~= w.take(p0 + 1));
                        }
                    }
                }
            }
            proof {
                let v = c.tokens();
                let p0 = c.position();
                assert(p0 == v.len() - 1);
                assert(v.skip(p0 + 1).len() == 0);
                assert(v.take(p0) + seq![v[p0]] =~= v);
                assert(merge_pair_in(w, pair, new_token) == v);
                if !merged_here {
                    assert(w.take(p0 + 1) =~= w);
                }
                assert(c.shard().dirty() =~= mid.dirty().union(merge_touched_in(w, pair, new_token)));
                assert(has_resolved(c));
                assert(has_resolved(c.shard));
            }
            let ghost fin = *c.shard;
            merged = true;
            proof {
                assert(*self == fin);
                assert(self.pair_buf@ == mid.pair_buf@);
                assert(before.pair_buf@[before.pair_buf@.len() - 1] == sequence_index);
                assert(self.pair_buf@ == before.pair_buf@.subrange(0, before.pair_buf@.len() - 1));
                assert forall|s: int|
                    0 <= s < n implies #[trigger] self.view()[s] == if self.pair_buf@.contains(s as usize) {
                        orig.view()[s]
                    } else {
                        target[s]
                    } by {
                    if s == sidx {
                        assert(self.view()[s] == fin.view()[sidx]);
                        assert(0 <= sidx < n) by {
                            assert(before.pair_buf@[before.pair_buf@.len() - 1] < n);
                        }
                        assert(target[s] == merge_pair_in(w, pair, new_token));
                        assert(!self.pair_buf@.contains(s as usize)) by {
                            if self.pair_buf@.contains(s as usize) {
                                let k = self.pair_buf@.index_of(s as usize);
                                assert(before.pair_buf@[k] == before.pair_buf@[before.pair_buf@.len() - 1]);
                            }
                        }
                    } else {
                        assert(self.view()[s] == mid.view()[s]);
                        assert(mid.view()[s] == before.view()[s]);
                        assert(self.pair_buf@.contains(s as usize) == before.pair_buf@.contains(s as usize)) by {
                            if before.pair_buf@.contains(s as usize) {
                                let k = before.pair_buf@.index_of(s as usize);
                                assert(before.pair_buf@[k] == s as usize);
                                assert(k != before.pair_buf@.len() - 1);
                                assert(self.pair_buf@[k] == s as usize);
                            }
                        }
                    }
                }
                assert(pair_count(orig.view()[sidx], pair) > 0);
                assert(!self.pair_buf@.contains(sequence_index)) by {
                    if self.pair_buf@.contains(sequence_index) {
                        let k = self.pair_buf@.index_of(sequence_index);
                        assert(before.pair_buf@[k] == before.pair_buf@[before.pair_buf@.len() - 1]);
                    }
                }
                assert forall|s: int|
                    0 <= s < n && self.pair_buf@.contains(s as usize) implies #[trigger] pair_count(orig.view()[s], pair) > 0 by {
                    let k = self.pair_buf@.index_of(s as usize);
                    assert(before.pair_buf@[k] == s as usize);
                }
                assert(self.pair_buf@.no_duplicates()) by {
                    assert forall|i: int, j: int| 0 <= i < self.pair_buf@.len() && 0 <= j < self.pair_buf@.len() && i != j
                        implies self.pair_buf@[i] != self.pair_buf@[j] by {
                        assert(self.pair_buf@[i] == before.pair_buf@[i]);
                        assert(self.pair_buf@[j] == before.pair_buf@[j]);
                    }
                }
                assert forall|q: (u32, u32)| #[trigger] self.total(q) != orig.total(q) implies self.dirty().contains(q) by {
                    if self.total(q) == mid.total(q) {
                        assert(mid.total(q) == before.total(q));
                    }
                }
                assert(mid.dirty() == before.dirty());
                let te_b = touched_except(orig.view(), before.pair_buf@, pair, new_token);
                let te_a = touched_except(orig.view(), self.pair_buf@, pair, new_token);
                assert(te_a =~= te_b.union(merge_touched_in(w, pair, new_token))) by {
                    assert forall|q: (u32, u32)| #[trigger] te_a.contains(q) implies te_b.contains(q) || merge_touched_in(
                        w,
                        pair,
                        new_token,
                    ).contains(q) by {
                        let s = choose|s: int|
                            0 <= s < n && !self.pair_buf@.contains(s as usize) && pair_count(orig.view()[s], pair) > 0
                                && #[trigger] merge_touched_in(orig.view()[s], pair, new_token).contains(q);
                        if s != sidx {
                            assert(!before.pair_buf@.contains(s as usize)) by {
                                if before.pair_buf@.contains(s as usize) {
                                    let k = before.pair_buf@.index_of(s as usize);
                                    assert(k != before.pair_buf@.len() - 1);
                                    assert(self.pair_buf@[k] == s as usize);
                                }
                            }
                        }
                    }
                    assert forall|q: (u32, u32)| #[trigger] te_b.contains(q) implies te_a.contains(q) by {
                        let s = choose|s: int|
                            0 <= s < n && !before.pair_buf@.contains(s as usize) && pair_count(orig.view()[s], pair) > 0
                                && #[trigger] merge_touched_in(orig.view()[s], pair, new_token).contains(q);
                        assert(!self.pair_buf@.contains(s as usize)) by {
                            if self.pair_buf@.contains(s as usize) {
                                let k = self.pair_buf@.index_of(s as usize);
                                assert(before.pair_buf@[k] == s as usize);
                            }
                        }
                    }
                    assert forall|q: (u32, u32)| #[trigger] merge_touched_in(w, pair, new_token).contains(q) implies te_a.contains(q) by {
                        assert(merge_touched_in(orig.view()[sidx], pair, new_token).contains(q));
                    }
                }
                assert(self.dirty() =~= orig.dirty().union(te_a));
            }
        }
        merged
    }

    /// The tokens of the first `s` sequences fit before the start of
    /// sequence `s` (or the end of the array).
    proof fn lemma_concat_fits(&self, s: int)
        requires
            self.structure_wf(),
            0 <= s <= self.num_sequences(),
        ensures
            s < self.num_sequences() ==> concat_first(self.view(), s).len() <= self.start_index@[s],
            concat_first(self.view(), s).len() <= self.storage_len(),
        decreases s,
    {
        if s > 0 {
            self.lemma_concat_fits(s - 1);
            self.lemma_chain(s - 1);
        }
    }

    /// Copy the tokens of one chain, which starts at `start`, down to
    /// `used` and the positions after it; returns the position after the
    /// last copied token. Each token is read before anything is written
    /// over it, since a chain only moves forward and never starts before
    /// `used`.
    fn compact_chain(
        sequences: &mut Vec<u32>,
        next_token: &Vec<Option<u32>>,
        start: u32,
        used: usize,
        Ghost(ch): Ghost<Seq<int>>,
    ) -> (new_used: usize)
        requires
            old(sequences)@.len() == next_token@.len(),
            old(sequences)@.len() <= u32::MAX + 1,
            ch.len() >= 1,
            ch[0] == start as int,
            forall|k: int| 0 <= k < ch.len() ==> used + k <= #[trigger] ch[k] < old(sequences)@.len(),
            forall|k: int| 0 <= k < ch.len() - 1 ==> next_token@[#[trigger] ch[k]] == Some(ch[k + 1] as u32),
            next_token@[ch.last()] == None::<u32>,
        ensures
            new_used == used + ch.len(),
            final(sequences)@.len() == old(sequences)@.len(),
            final(sequences)@.take(used as int) == old(sequences)@.take(used as int),
            final(sequences)@.subrange(used as int, new_used as int) == ch.map_values(|i: int| old(sequences)@[i]),
            forall|j: int| new_used <= j < final(sequences)@.len() ==> #[trigger] final(sequences)@[j] == old(sequences)@[j],
    {
        let ghost orig = sequences@;
        let ghost toks = ch.map_values(|i: int| orig[i]);
        let mut cursor = start;
        let mut pos = used;
        let ghost mut k: int = 0;
        loop
            invariant_except_break
                0 <= k < ch.len(),
                cursor as int == ch[k],
                pos == used + k,
                sequences@.subrange(used as int, pos as int) == toks.take(k),
            invariant
                orig.len() == next_token@.len(),
                orig.len() <= u32::MAX + 1,
                ch.len() >= 1,
                forall|k2: int| 0 <= k2 < ch.len() ==> used + k2 <= #[trigger] ch[k2] < orig.len(),
                forall|k2: int| 0 <= k2 < ch.len() - 1 ==> next_token@[#[trigger] ch[k2]] == Some(ch[k2 + 1] as u32),
                next_token@[ch.last()] == None::<u32>,
                toks == ch.map_values(|i: int| orig[i]),
                sequences@.len() == orig.len(),
                sequences@.take(used as int) == orig.take(used as int),
                forall|j: int| pos <= j < sequences@.len() ==> #[trigger] sequences@[j] == orig[j],
            ensures
                pos == used + ch.len(),
                sequences@.subrange(used as int, pos as int) == toks,
            decreases ch.len() - k,
        {
            assert(used + k <= ch[k] < orig.len());
            let value = sequences[cursor as usize];
            assert(value == toks[k]);
            sequences.set(pos, value);
            assert(pos < sequences.len());
            pos = pos + 1;
            proof {
                assert(toks.take(k + 1) =~= toks.take(k).push(value));
                assert(sequences@.subrange(used as int, pos as int) =~= toks.take(k + 1));
                assert(sequences@.take(used as int) =~= orig.take(used as int));
            }
            match next_token[cursor as usize] {
                None => {
                    proof {
                        if k < ch.len() - 1 {
                            assert(next_token@[ch[k]] == Some(ch[k + 1] as u32));
                        }
                        assert(toks.take(k + 1) =~= toks);
                    }
                    break;
                },
                Some(next_idx) => {
                    proof {
                        if k == ch.len() - 1 {
                            assert(next_token@[ch.last()] == None::<u32>);
                        }
                        assert(next_token@[ch[k]] == Some(ch[k + 1] as u32));
                        k = k + 1;
                    }
                    cursor = next_idx;
                },
            }
        }
        pos
    }

    /// The dup-weighted count of any pair is at most the shard's weight.
    pub proof fn lemma_total_le_weight(&self, p: (u32, u32))
        requires
            self.wf(),
        ensures
            0 <= self.total(p) <= self.weight(),
    {
        self.lemma_total(p);
    }

    /// A shard holds as many sequences as its view.
    pub proof fn lemma_view_len(&self)
        ensures
            self.view().len() == self.num_sequences(),
    {
    }

    /// A well-formed shard has well-formed linked lists, and each of its
    /// sequences stands for at least one duplicate.
    pub proof fn lemma_wf(&self)
        requires
            self.wf(),
        ensures
            self.structure_wf(),
            forall|s: int| 0 <= s < self.num_sequences() ==> #[trigger] self.dup(s) > 0,
    {
    }

    /// In a well-formed shard the dup-weighted count of a pair is positive
    /// exactly when the pair occurs in one of the sequences.
    pub proof fn lemma_total_positive(&self, p: (u32, u32))
        requires
            self.wf(),
        ensures
            (self.total(p) > 0) == exists|s: int|
                0 <= s < self.num_sequences() && #[trigger] pair_count(self.view()[s], p) > 0,
    {
        let n = self.num_sequences();
        let f = |s: int| (self.dup(s) * pair_count(self.view()[s], p)) as int;
        assert forall|s: int| 0 <= s < n implies 0 <= #[trigger] f(s) by {
            let d = self.dup(s);
            let c = pair_count(self.view()[s], p);
            assert(0 <= d * c) by (nonlinear_arith);
        }
        if self.total(p) > 0 {
            lemma_sum_below_positive(n, f);
            let s = choose|s: int| 0 <= s < n && #[trigger] f(s) > 0;
            if pair_count(self.view()[s], p) == 0 {
                assert(f(s) == 0);
            }
        }
        if exists|s: int| 0 <= s < n && #[trigger] pair_count(self.view()[s], p) > 0 {
            let s = choose|s: int| 0 <= s < n && #[trigger] pair_count(self.view()[s], p) > 0;
            assert(self.dup(s) > 0);
            let d = self.dup(s);
            let c = pair_count(self.view()[s], p);
            assert(d * c > 0) by (nonlinear_arith)
                requires
                    d > 0,
                    c > 0,
            ;
            lemma_sum_below_term(n, f, s);
        }
    }

    /// Merging a pair in every sequence, with the duplicates kept, does not
    /// add weight.
    pub proof fn lemma_merge_weight(before: SequenceShard, after: SequenceShard, pair: (u32, u32), t: u32)
        requires
            after.num_sequences() == before.num_sequences(),
            after.view() == Seq::new(before.num_sequences(), |s: int| merge_pair_in(before.view()[s], pair, t)),
            forall|s: int| #[trigger] after.dup(s) == before.dup(s),
        ensures
            0 <= after.weight() <= before.weight(),
    {
        let n = before.num_sequences();
        let f = |s: int| (after.dup(s) * after.view()[s].len()) as int;
        let g = |s: int| (before.dup(s) * before.view()[s].len()) as int;
        assert forall|s: int| 0 <= s < n implies 0 <= #[trigger] f(s) <= g(s) by {
            lemma_merge_pair_in_len(before.view()[s], pair, t);
            let d = before.dup(s);
            let a = after.view()[s].len();
            let b = before.view()[s].len();
            assert(0 <= d * a <= d * b) by (nonlinear_arith)
                requires
                    a <= b,
            ;
        }
        lemma_sum_below_mono(n, f, g);
    }

    /// Convert this shard into a sequence of every token it contains: the
    /// sequences one after the other.
    pub fn into_tokens(self) -> (r: Vec<u32>)
        requires
            self.structure_wf(),
        ensures
            r@ == concat_all(self.view()),
    {
        let ghost orig = self;
        let mut me = self;
        let mut used: usize = 0;

        // walk through everything in the sequence array, collapsing
        // next pointer
        let num_sequences = me.start_index.len();
        let mut sequence: usize = 0;
        proof {
            assert(me.sequences@.take(0) =~= concat_first(orig.view(), 0));
        }
        while sequence < num_sequences
            invariant
                me.next_token == orig.next_token,
                me.start_index == orig.start_index,
                me.chains == orig.chains,
                orig.structure_wf(),
                num_sequences == orig.num_sequences(),
                me.sequences@.len() == orig.sequences@.len(),
                sequence <= num_sequences,
                used == concat_first(orig.view(), sequence as int).len(),
                me.sequences@.take(used as int) == concat_first(orig.view(), sequence as int),
                forall|j: int| used <= j < me.sequences@.len() ==> #[trigger] me.sequences@[j] == orig.sequences@[j],
            decreases num_sequences - sequence,
        {
            let ghost sidx = sequence as int;
            let ghost ch = orig.chain(sidx);
            let ghost base = concat_first(orig.view(), sidx);
            let ghost before = me.sequences@;
            proof {
                orig.lemma_chain(sidx);
                orig.lemma_concat_fits(sidx);
                assert forall|k: int| 0 <= k < ch.len() implies used + k <= #[trigger] ch[k] < before.len() by {
                    orig.lemma_chain_len(sidx, k);
                }
                assert forall|k: int| 0 <= k < ch.len() - 1 implies me.next_token@[#[trigger] ch[k]] == Some(ch[k + 1] as u32) by {
                    assert(orig.chain_wf(sidx));
                }
            }
            let new_used = Self::compact_chain(&mut me.sequences, &me.next_token, me.start_index[sequence], used, Ghost(ch));
            proof {
                assert(ch.map_values(|i: int| before[i]) =~= orig.tokens_of(sidx)) by {
                    assert forall|k: int| 0 <= k < ch.len() implies before[ch[k]] == orig.sequences@[ch[k]] by {
                        orig.lemma_chain_len(sidx, k);
                    }
                }
                assert(orig.view()[sidx] == orig.tokens_of(sidx));
                assert(concat_first(orig.view(), sidx + 1) == base + orig.tokens_of(sidx));
                assert(me.sequences@.take(new_used as int) =~= base + orig.tokens_of(sidx)) by {
                    assert(me.sequences@.take(new_used as int) =~= me.sequences@.take(used as int)
                        + me.sequences@.subrange(used as int, new_used as int));
                    assert(me.sequences@.take(used as int) =~= before.take(used as int));
                }
            }
            used = new_used;
            sequence = sequence + 1;
        }

        // then condense vector
        proof {
            orig.lemma_concat_fits(num_sequences as int);
        }
        me.sequences.resize(used, 0);
        me.sequences
    }

    /// Every pair with a positive dup-weighted count, once, with that
    /// count, in an order that is left open.
    pub fn counts(&self) -> (r: Vec<CountInfo>)
        requires
            self.wf(),
            forall|p: (u32, u32)| #[trigger] self.total(p) <= u32::MAX,
        ensures
            forall|i: int, j: int|
                0 <= i < j < r@.len() ==> #[trigger] r@[i].token_pair != #[trigger] r@[j].token_pair,
            forall|i: int|
                0 <= i < r@.len() ==> #[trigger] r@[i].count == self.total(r@[i].token_pair) && r@[i].count > 0,
            forall|p: (u32, u32)|
                #[trigger] self.total(p) > 0 ==> exists|i: int| 0 <= i < r@.len() && #[trigger] r@[i].token_pair == p,
            forall|p: (u32, u32), c: u32|
                #[trigger] r@.contains((CountInfo { token_pair: p, count: c })) <==> (c > 0 && c
                    == self.total(p)),
    {
        proof {
            assert forall|p: (u32, u32)| #[trigger] self.stats_collector.weighted_count(p) <= u32::MAX by {
                self.lemma_total(p);
            }
        }
        let r = self.stats_collector.counts();
        proof {
            assert forall|i: int| 0 <= i < r@.len() implies #[trigger] r@[i].count == self.total(r@[i].token_pair)
                && r@[i].count > 0 by {
                self.lemma_total(r@[i].token_pair);
            }
            assert forall|p: (u32, u32)| #[trigger] self.total(p) > 0 implies exists|i: int|
                0 <= i < r@.len() && #[trigger] r@[i].token_pair == p by {
                self.lemma_total(p);
            }
            assert forall|p: (u32, u32), c: u32|
                #[trigger] r@.contains((CountInfo { token_pair: p, count: c })) <==> (c > 0 && c == self.total(p)) by {
                self.lemma_total(p);
                assert(r@.contains((CountInfo { token_pair: p, count: c })) <==> (c > 0 && c
                    == self.stats_collector.weighted_count(p)));
            }
        }
        r
    }

    /// Whether the dup-weighted total of every pair fits in a `u32`.
    pub fn totals_fit_u32(&self) -> (r: bool)
        requires
            self.wf(),
        ensures
            r == (forall|p: (u32, u32)| #[trigger] self.total(p) <= u32::MAX),
    {
        let r = self.stats_collector.totals_fit_u32();
        proof {
            if r {
                assert forall|p: (u32, u32)| #[trigger] self.total(p) <= u32::MAX by {
                    self.lemma_total(p);
                    assert(self.stats_collector.weighted_count(p) <= u32::MAX);
                }
            } else {
                let p = choose|p: (u32, u32)| #[trigger] self.stats_collector.weighted_count(p) > u32::MAX;
                self.lemma_total(p);
            }
        }
        r
    }

    /// Current dup-weighted total occurrences of `pair`.
    pub fn pair_total(&self, pair: (u32, u32)) -> (r: i64)
        requires
            self.wf(),
        ensures
            r == self.total(pair),
    {
        proof {
            self.lemma_total(pair);
        }
        self.stats_collector.pair_total(pair)
    }

    /// Pairs whose totals changed since the last drain, each once, with
    /// their new totals. Clears the set of touched pairs.
    pub fn drain_dirty(&mut self) -> (r: Vec<((u32, u32), i64)>)
        requires
            old(self).wf(),
        ensures
            final(self).wf(),
            final(self).view() == old(self).view(),
            final(self).storage_len() == old(self).storage_len(),
            forall|s: int| #[trigger] final(self).dup(s) == old(self).dup(s),
            final(self).dirty() == Set::<(u32, u32)>::empty(),
            r@.map_values(|e: ((u32, u32), i64)| e.0).no_duplicates(),
            r@.map_values(|e: ((u32, u32), i64)| e.0).to_set() == old(self).dirty(),
            forall|i: int| 0 <= i < r@.len() ==> #[trigger] r@[i].1 == old(self).total(r@[i].0),
    {
        let ghost orig = *self;
        let r = self.stats_collector.drain_dirty();
        proof {
            assert forall|i: int| 0 <= i < r@.len() implies #[trigger] r@[i].1 == orig.total(r@[i].0) by {
                orig.lemma_total(r@[i].0);
            }
            assert forall|s: int| #[trigger] self.tokens_of(s) == orig.tokens_of(s) by {}
            assert(self.view() =~= orig.view());
            assert forall|s: int| 0 <= s < self.num_sequences() implies #[trigger] self.chain_wf(s) by {
                assert(orig.chain_wf(s));
            }
            assert forall|p: (u32, u32), s: int|
                0 <= s < self.num_sequences() implies #[trigger] self.stats_collector.seq_count(p, s)
                    == pair_count(self.tokens_of(s), p) by {
                assert(orig.stats_collector.seq_count(p, s) == pair_count(orig.tokens_of(s), p));
            }
            assert forall|s: int| 0 <= s < self.num_sequences() implies #[trigger] self.dup(s) > 0 by {
                assert(orig.dup(s) > 0);
            }
            let f = |s: int| (orig.dup(s) * orig.view()[s].len()) as int;
            let g = |s: int| (self.dup(s) * self.view()[s].len()) as int;
            lemma_sum_below_congruent(self.num_sequences(), f, g);
        }
        r
    }
}

/// Iterate through pairs in a single sequence
pub struct SequenceCursor<'a> {
    /// the shard that the cursor walks
    pub shard: &'a mut SequenceShard,
    /// which sequence in the shard is this
    pub sequence_idx: usize,
    /// Sequence index before the pair we are pointing at. Starts out as None
    pub idx_before_pair: Option<usize>,
    /// the position in the sequence of the first token of the current pair
    pub pos: Ghost<int>,
}

impl<'a> SequenceCursor<'a> {
    /// The shard that the cursor walks, as it stands now.
    pub closed spec fn shard(&self) -> SequenceShard {
        *self.shard
    }

    /// Which sequence of the shard the cursor walks.
    pub closed spec fn sequence_index(&self) -> int {
        self.sequence_idx as int
    }

    /// The tokens of the sequence the cursor walks (none, for an index
    /// past the last sequence).
    pub closed spec fn tokens(&self) -> Seq<u32> {
        if self.sequence_idx < self.shard.num_sequences() {
            self.shard.tokens_of(self.sequence_idx as int)
        } else {
            Seq::empty()
        }
    }

    /// The sequence the cursor walks is the shard's sequence at the cursor's
    /// index (none, for an index past the last sequence).
    pub proof fn lemma_tokens(&self)
        ensures
            self.tokens() == if 0 <= self.sequence_index() < self.shard().num_sequences() {
                self.shard().view()[self.sequence_index()]
            } else {
                Seq::<u32>::empty()
            },
    {
    }

    /// The position in the sequence of the first token of the current pair.
    pub closed spec fn position(&self) -> int {
        self.pos@
    }

    /// The pair the cursor points at, if any.
    pub open spec fn spec_current_pair(&self) -> Option<(u32, u32)> {
        if self.position() + 1 < self.tokens().len() {
            Some((self.tokens()[self.position()], self.tokens()[self.position() + 1]))
        } else {
            None
        }
    }

    /// The cursor is well formed.
    pub closed spec fn wf(&self) -> bool {
        &&& self.shard.structure_wf()
        &&& 0 <= self.pos@ <= self.tokens().len()
        &&& (self.idx_before_pair is None) <==> self.pos@ == 0
        &&& self.idx_before_pair matches Some(i) ==> self.sequence_idx < self.shard.num_sequences()
            && i == self.shard.chain(self.sequence_idx as int)[self.pos@ - 1]
    }

    /// A cursor at the start of sequence `sequence_idx` of `shard`.
    pub fn new(shard: &mut SequenceShard, sequence_idx: usize) -> (c: SequenceCursor<'_>)
        requires
            old(shard).structure_wf(),
            sequence_idx < old(shard).num_sequences(),
        ensures
            c.wf(),
            c.shard() == *old(shard),
            *final(shard) == *final(c.shard),
            c.sequence_index() == sequence_idx,
            c.position() == 0,
    {
        SequenceCursor { shard, sequence_idx, idx_before_pair: None, pos: Ghost(0) }
    }

    /// The array position of the first token of the current pair.
    fn get_sequence_index_of_current_pair(&self) -> (r: Option<usize>)
        requires
            self.wf(),
        ensures
            r == (if self.position() < self.tokens().len() {
                Some(self.shard().chain(self.sequence_index())[self.position()] as usize)
            } else {
                None::<usize>
            }),
    {
        proof {
            if self.sequence_idx < self.shard.num_sequences() {
                self.shard.lemma_chain(self.sequence_idx as int);
            }
        }
        match self.idx_before_pair {
            Some(idx) => {
                proof {
                    let ch = self.shard.chain(self.sequence_idx as int);
                    assert(self.shard.chain_wf(self.sequence_idx as int));
                    if self.pos@ < ch.len() {
                        assert(self.shard.next_token@[ch[self.pos@ - 1]] == Some(ch[self.pos@] as u32));
                    } else {
                        assert(ch[self.pos@ - 1] == ch.last());
                    }
                }
                match self.shard.next_token[idx] {
                    Some(n) => Some(n as usize),
                    None => None,
                }
            },
            None => {
                if self.sequence_idx < self.shard.start_index.len() {
                    proof {
                        assert(self.shard.chain_wf(self.sequence_idx as int));
                    }
                    Some(self.shard.start_index[self.sequence_idx] as usize)
                } else {
                    None
                }
            },
        }
    }

    /// Return the pair this cursor is pointing at.
    /// Returns None if there are no pairs left to visit.
    pub fn current_pair(&self) -> (r: Option<(u32, u32)>)
        requires
            self.wf(),
        ensures
            r == self.spec_current_pair(),
    {
        let first_pair_char_idx = match self.get_sequence_index_of_current_pair() {
            Some(i) => i,
            None => {
                return None;
            },
        };
        proof {
            self.shard.lemma_chain(self.sequence_idx as int);
        }
        let second_pair_char_idx = match self.shard.next_token[first_pair_char_idx] {
            Some(n) => n as usize,
            None => {
                proof {
                    let ch = self.shard.chain(self.sequence_idx as int);
                    if self.pos@ + 1 < ch.len() {
                        assert(self.shard.next_token@[ch[self.pos@]] == Some(ch[self.pos@ + 1] as u32));
                    }
                }
                return None;
            },
        };
        proof {
            let ch = self.shard.chain(self.sequence_idx as int);
            if self.pos@ + 1 < ch.len() {
                assert(self.shard.next_token@[ch[self.pos@]] == Some(ch[self.pos@ + 1] as u32));
            } else {
                assert(ch[self.pos@] == ch.last());
            }
        }
        Some((self.shard.sequences[first_pair_char_idx], self.shard.sequences[second_pair_char_idx]))
    }

    /// Is this cursor at the end?
    pub fn is_done(&self) -> (r: bool)
        requires
            self.wf(),
        ensures
            r == (self.spec_current_pair() is None),
    {
        self.current_pair().is_none()
    }

    /// Advance the cursor to the next pair element (or do nothing if it's
    /// already at the end). Returns false when the cursor is now at the end,
    /// true while it still points at a pair.
    pub fn next(&mut self) -> (r: bool)
        requires
            old(self).wf(),
        ensures
            final(self).wf(),
            final(self).shard() == old(self).shard(),
            *final(final(self).shard) == *final(old(self).shard),
            final(self).sequence_index() == old(self).sequence_index(),
            final(self).position() == if old(self).position() < old(self).tokens().len() {
                old(self).position() + 1
            } else {
                old(self).position()
            },
            r == (final(self).spec_current_pair() is Some),
    {
        if let Some(idx) = self.get_sequence_index_of_current_pair() {
            proof {
                self.shard.lemma_chain(self.sequence_idx as int);
            }
            self.idx_before_pair = Some(idx);
            self.pos = Ghost(self.pos@ + 1);
        }
        !self.is_done()
    }

    /// Every pair of the sequence, from a cursor at its start.
    fn into_pairs(self) -> (r: Vec<(u32, u32)>)
        requires
            self.wf(),
            self.position() == 0,
        ensures
            r@ == adjacent_pairs(self.tokens()),
            *final(self.shard) == *old(self.shard),
    {
        let ghost start = self;
        let mut c = self;
        let ghost toks = c.tokens();
        let mut ret: Vec<(u32, u32)> = Vec::new();
        while !c.is_done()
            invariant
                c.wf(),
                *c.shard == *start.shard,
                *final(c.shard) == *final(start.shard),
                c.tokens() == toks,
                0 <= c.pos@ <= toks.len(),
                c.pos@ == 0 || c.pos@ < toks.len(),
                ret@ =~= adjacent_pairs(toks).take(c.pos@),
            decreases toks.len() - c.pos@,
        {
            let pair = match c.current_pair() {
                Some(p) => p,
                None => {
                    proof {
                        assert(false);
                    }
                    (0, 0)
                },
            };
            ret.push(pair);
            c.next();
        }
        proof {
            assert(adjacent_pairs(toks).take(c.pos@) =~= adjacent_pairs(toks));
            assert(has_resolved(c));
            assert(has_resolved(c.shard));
        }
        ret
    }

    /// The sequence after merging the current pair into `t`.
    pub open spec fn merged_tokens(&self, t: u32) -> Seq<u32> {
        self.tokens().take(self.position()) + seq![t] + self.tokens().skip(self.position() + 2)
    }

    /// Adjusts the recorded count of `pair` in this cursor's sequence.
    fn update_count(&mut self, pair: (u32, u32), delta: i32)
        requires
            old(self).shard.stats_collector.wf(),
            old(self).sequence_idx < old(self).shard.stats_collector.sequences(),
            delta != 0,
            0 <= old(self).shard.stats_collector.seq_count(pair, old(self).sequence_idx as int) + delta
                <= u32::MAX,
            i64::MIN <= old(self).shard.stats_collector.weighted_count(pair) + delta
                * old(self).shard.stats_collector.dup(old(self).sequence_idx as int) <= i64::MAX,
        ensures
            *final(final(self).shard) == *final(old(self).shard),
            final(self).sequence_idx == old(self).sequence_idx,
            final(self).idx_before_pair == old(self).idx_before_pair,
            final(self).pos == old(self).pos,
            final(self).shard.sequences == old(self).shard.sequences,
            final(self).shard.next_token == old(self).shard.next_token,
            final(self).shard.start_index == old(self).shard.start_index,
            final(self).shard.chains == old(self).shard.chains,
            final(self).shard.pair_buf == old(self).shard.pair_buf,
            final(self).shard.stats_collector.wf(),
            final(self).shard.stats_collector.sequences() == old(self).shard.stats_collector.sequences(),
            forall|s: int| #[trigger] final(self).shard.stats_collector.dup(s) == old(self).shard.stats_collector.dup(s),
            forall|p: (u32, u32), s: int| #[trigger]
                final(self).shard.stats_collector.seq_count(p, s) == old(self).shard.stats_collector.seq_count(p, s)
                    + if p == pair && s == old(self).sequence_idx {
                    delta as int
                } else {
                    0
                },
            forall|p: (u32, u32)| #[trigger]
                final(self).shard.stats_collector.weighted_count(p) == old(self).shard.stats_collector.weighted_count(p)
                    + if p == pair {
                    delta * old(self).shard.stats_collector.dup(old(self).sequence_idx as int)
                } else {
                    0
                },
            final(self).shard.stats_collector.dirty_pairs() == old(self).shard.stats_collector.dirty_pairs().insert(pair),
    {
        self.shard.stats_collector.update_pair_count(self.sequence_idx, pair, delta);
    }


    /// Replaces the current pair by `new_token` in the linked list, leaving
    /// the statistics alone. Returns the token before the pair (if any), the
    /// two tokens of the pair, and the token after it (if any).
    fn relink(&mut self, new_token: u32) -> (r: (Option<u32>, u32, u32, Option<u32>))
        requires
            old(self).wf(),
            old(self).shard().structure_wf(),
            old(self).spec_current_pair() is Some,
        ensures
            final(self).wf(),
            *final(final(self).shard) == *final(old(self).shard),
            final(self).sequence_idx == old(self).sequence_idx,
            final(self).pos == old(self).pos,
            final(self).shard.stats_collector == old(self).shard.stats_collector,
            final(self).shard.pair_buf == old(self).shard.pair_buf,
            final(self).shard().num_sequences() == old(self).shard().num_sequences(),
            final(self).shard().storage_len() == old(self).shard().storage_len(),
            final(self).tokens() == old(self).merged_tokens(new_token),
            final(self).shard().view() == old(self).shard().view().update(
                old(self).sequence_index(),
                old(self).merged_tokens(new_token),
            ),
            forall|t: int|
                0 <= t < old(self).shard().num_sequences() && t != old(self).sequence_index()
                    ==> #[trigger] final(self).shard().tokens_of(t) == old(self).shard().tokens_of(t),
            r.1 == old(self).tokens()[old(self).position()],
            r.2 == old(self).tokens()[old(self).position() + 1],
            r.0 == (if old(self).position() > 0 {
                Some(old(self).tokens()[old(self).position() - 1])
            } else {
                None::<u32>
            }),
            r.3 == (if old(self).position() + 2 < old(self).tokens().len() {
                Some(old(self).tokens()[old(self).position() + 2])
            } else {
                None::<u32>
            }),
    {
        let ghost sh = *self.shard;
        let ghost v = self.tokens();
        let ghost pos = self.pos@;
        let ghost sidx = self.sequence_idx as int;
        let ghost ch = sh.chain(sidx);
        let ghost n = sh.num_sequences();
        proof {
            sh.lemma_chain(sidx);
            assert(sh.chain_wf(sidx));
        }
        let first_pair_idx = match self.get_sequence_index_of_current_pair() {
            Some(i) => i,
            None => {
                proof {
                    assert(false);
                }
                return (None, 0, 0, None);
            },
        };
        assert(first_pair_idx == ch[pos]);
        assert(sh.next_token@[ch[pos]] == Some(ch[pos + 1] as u32));
        let second_pair_idx = match self.shard.next_token[first_pair_idx] {
            Some(n) => n as usize,
            None => {
                proof {
                    assert(false);
                }
                return (None, 0, 0, None);
            },
        };
        let next_char_idx = self.shard.next_token[second_pair_idx];
        proof {
            if pos + 2 < ch.len() {
                assert(sh.next_token@[ch[pos + 1]] == Some(ch[pos + 2] as u32));
            } else {
                assert(ch[pos + 1] == ch.last());
            }
        }

        // Get information about characters to merge before we change anything
        let before_pair_char = match self.idx_before_pair {
            Some(i) => Some(self.shard.sequences[i]),
            None => None,
        };
        let first_pair_char = self.shard.sequences[first_pair_idx];
        let second_pair_char = self.shard.sequences[second_pair_idx];
        let after_pair_char = match next_char_idx {
            Some(i) => Some(self.shard.sequences[i as usize]),
            None => None,
        };
        proof {
            assert(first_pair_char == v[pos]);
            assert(second_pair_char == v[pos + 1]);
            if pos > 0 {
                assert(before_pair_char == Some(v[pos - 1]));
            } else {
                assert(before_pair_char is None);
            }
            if pos + 2 < v.len() {
                assert(after_pair_char == Some(v[pos + 2]));
            } else {
                assert(after_pair_char is None);
            }
        }

        // Replace character and update next pointer to fourth character in
        // sequence (eg, '4' in example above)
        self.shard.sequences.set(first_pair_idx, new_token);
        self.shard.next_token.set(first_pair_idx, next_char_idx);
        let ghost new_ch = ch.remove(pos + 1);
        self.shard.chains = Ghost(self.shard.chains@.update(sidx, new_ch));

        let ghost v2 = v.take(pos) + seq![new_token] + v.skip(pos + 2);
        proof {
            SequenceShard::lemma_relinked(sh, *self.shard, sidx, pos, new_token);
        }
        proof {
            assert(self.shard.chain(sidx) == new_ch);
            assert(new_ch[pos - 1] == ch[pos - 1] || pos == 0);
        }
        (before_pair_char, first_pair_char, second_pair_char, after_pair_char)
    }

    /// The pairs whose counts merging the current pair into `t` adjusts: the
    /// pair itself, and, where the pair has a neighbour, the pair it formed
    /// with that neighbour and the one `t` forms with it.
    pub open spec fn touched_pairs(&self, t: u32) -> Set<(u32, u32)> {
        let v = self.tokens();
        let pos = self.position();
        let a = v[pos];
        let b = v[pos + 1];
        set![(a, b)].union(
            if pos > 0 {
                set![(v[pos - 1], a), (v[pos - 1], t)]
            } else {
                Set::empty()
            },
        ).union(
            if pos + 2 < v.len() {
                set![(b, v[pos + 2]), (t, v[pos + 2])]
            } else {
                Set::empty()
            },
        )
    }

    /// Merge the current pair into a new token and update the cursor
    /// accordingly. Eg, if our sequence is (1, 2, 3, 4) and the cursor is
    /// pointing at the (1, 2) pair - merge(5) will update the sequence to
    /// (5, 3, 4). The cursor will point at (5, 3).
    pub fn merge_pair(&mut self, new_token: u32)
        requires
            old(self).wf(),
            old(self).shard().wf(),
            old(self).spec_current_pair() is Some,
        ensures
            final(self).wf(),
            final(self).shard().wf(),
            *final(final(self).shard) == *final(old(self).shard),
            final(self).sequence_index() == old(self).sequence_index(),
            final(self).position() == old(self).position(),
            final(self).tokens() == old(self).merged_tokens(new_token),
            final(self).shard().view() == old(self).shard().view().update(
                old(self).sequence_index(),
                old(self).merged_tokens(new_token),
            ),
            final(self).shard().storage_len() == old(self).shard().storage_len(),
            final(self).shard().scratch() == old(self).shard().scratch(),
            forall|s: int| #[trigger] final(self).shard().dup(s) == old(self).shard().dup(s),
            final(self).shard().dirty() == old(self).shard().dirty().union(old(self).touched_pairs(new_token)),
            forall|q: (u32, u32)|
                #[trigger] final(self).shard().total(q) != old(self).shard().total(q)
                    ==> final(self).shard().dirty().contains(q),
    {
        let ghost touched = self.touched_pairs(new_token);
        let ghost d0 = self.shard.stats_collector.dirty_pairs();
        let ghost sh = *self.shard;
        let ghost v = self.tokens();
        let ghost pos = self.pos@;
        let ghost sidx = self.sequence_idx as int;
        proof {
            sh.lemma_chain(sidx);
        }
        let (before_pair_char, first_pair_char, second_pair_char, after_pair_char) = self.relink(new_token);
        let ghost r1 = *self.shard;
        proof {
            SequenceShard::lemma_merge_step_start(sh, sidx, pos, new_token);
        }

        // Now update counts. Occurrences that disappear are taken away first,
        // then the new ones are added, so that no count leaves the range it
        // ends in.
        // 1. Decrement count of ([before-pair], [first-element-of-pair]) if
        //    before-pair exists
        let ghost st0 = self.shard.stats_collector;
        if let Some(before_char) = before_pair_char {
            proof {
                SequenceShard::lemma_merge_step(sh, st0, sidx, pos, new_token, 0);
            }
            self.update_count((before_char, first_pair_char), -1);
        }
        proof {
            SequenceShard::lemma_merge_advance(sh, st0, self.shard.stats_collector, sidx, pos, new_token, 0);
        }
        // 2. Decrement count of [first-element, second-element]
        let ghost st1 = self.shard.stats_collector;
        proof {
            SequenceShard::lemma_merge_step(sh, st1, sidx, pos, new_token, 1);
        }
        self.update_count((first_pair_char, second_pair_char), -1);
        proof {
            SequenceShard::lemma_merge_advance(sh, st1, self.shard.stats_collector, sidx, pos, new_token, 1);
        }
        // 3. Decrement count of [second-element], [after-pair]
        let ghost st2 = self.shard.stats_collector;
        if let Some(after_char) = after_pair_char {
            proof {
                SequenceShard::lemma_merge_step(sh, st2, sidx, pos, new_token, 2);
            }
            self.update_count((second_pair_char, after_char), -1);
        }
        proof {
            SequenceShard::lemma_merge_advance(sh, st2, self.shard.stats_collector, sidx, pos, new_token, 2);
        }
        // 4. Increment count of [before-pair], [new-token]
        let ghost st3 = self.shard.stats_collector;
        if let Some(before_char) = before_pair_char {
            proof {
                SequenceShard::lemma_merge_step(sh, st3, sidx, pos, new_token, 3);
            }
            self.update_count((before_char, new_token), 1);
        }
        proof {
            SequenceShard::lemma_merge_advance(sh, st3, self.shard.stats_collector, sidx, pos, new_token, 3);
        }
        // 5. Increment count of [new-token], [after-pair]
        let ghost st4 = self.shard.stats_collector;
        if let Some(after_char) = after_pair_char {
            proof {
                SequenceShard::lemma_merge_step(sh, st4, sidx, pos, new_token, 4);
            }
            self.update_count((new_token, after_char), 1);
        }
        proof {
            SequenceShard::lemma_merge_advance(sh, st4, self.shard.stats_collector, sidx, pos, new_token, 4);
            SequenceShard::lemma_merge_done(sh, r1, *self.shard, sidx, pos, new_token);
            assert(self.shard.stats_collector.dirty_pairs() =~= d0.union(touched));
        }
    }
}

} // verus!
