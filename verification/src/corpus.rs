//! The mathematical model of training: a corpus of token sequences, each
//! standing for some number of duplicates, and the merges that training
//! performs on it one after the other.

use crate::order::CountInfo;
use crate::pairs::{
    lemma_merge_pair_in_count_le, lemma_merge_pair_in_removes, lemma_merge_pair_in_tokens, lemma_pair_count_tokens, merge_pair_in,
    pair_count,
};
use crate::select::{lemma_next_merge_same_totals, next_merge};
use crate::sequence::SequenceShard;
use crate::sums::{
    lemma_sum_below_congruent, lemma_sum_below_mono, lemma_sum_below_positive, lemma_sum_below_remove, lemma_sum_below_zero,
    sum_below,
};
use crate::train::BpeError;
use vstd::prelude::*;

verus! {

/// The sequences of a shard, each with its number of duplicates.
pub open spec fn shard_corpus(sh: SequenceShard) -> Seq<(Seq<u32>, nat)> {
    Seq::new(sh.num_sequences(), |s: int| (sh.view()[s], sh.dup(s)))
}

/// The dup-weighted number of occurrences of `p` in a corpus.
pub open spec fn corpus_total(c: Seq<(Seq<u32>, nat)>, p: (u32, u32)) -> int {
    sum_below(c.len(), |s: int| (c[s].1 * pair_count(c[s].0, p)) as int)
}

/// The total of every pair in a corpus fits in a `u32`.
pub open spec fn totals_fit(c: Seq<(Seq<u32>, nat)>) -> bool {
    forall|p: (u32, u32)| #[trigger] corpus_total(c, p) <= u32::MAX
}

/// The candidate for a merge that pair `p` is in a corpus.
pub open spec fn candidate(c: Seq<(Seq<u32>, nat)>, p: (u32, u32)) -> CountInfo {
    CountInfo { token_pair: p, count: corpus_total(c, p) as u32 }
}

/// The corpus after merging every occurrence of `q` into `t`.
pub open spec fn merge_corpus(c: Seq<(Seq<u32>, nat)>, q: (u32, u32), t: u32) -> Seq<(Seq<u32>, nat)> {
    Seq::new(c.len(), |s: int| (merge_pair_in(c[s].0, q, t), c[s].1))
}

/// What training does once the dictionary holds `n` tokens and `merges`
/// were made: while fewer than `target` tokens exist, merge the most
/// frequent pair into token `n`, whose bytes are those of the pair's two
/// tokens one after the other. Fails with `TooLarge` where the total of
/// some pair does not fit in a `u32`, with `AmbiguousMerge` where two
/// distinct pairs tie for the most frequent, and with `NoPairsLeft` where
/// no pair occurs any more.
pub open spec fn train_from(
    c: Seq<(Seq<u32>, nat)>,
    dict: Map<u32, Seq<u8>>,
    n: nat,
    merges: Seq<(Seq<u8>, Seq<u8>)>,
    target: nat,
) -> Result<(Map<u32, Seq<u8>>, Seq<(Seq<u8>, Seq<u8>)>), BpeError>
    decreases target - n,
{
    if n >= target {
        Ok((dict, merges))
    } else if !totals_fit(c) {
        Err(BpeError::TooLarge)
    } else {
        match next_merge(c, dict) {
            None => Err(BpeError::AmbiguousMerge),
            Some(q) => if corpus_total(c, q) <= 0 {
                Err(BpeError::NoPairsLeft)
            } else {
                train_from(
                    merge_corpus(c, q, n as u32),
                    dict.insert(n as u32, dict[q.0] + dict[q.1]),
                    n + 1,
                    merges.push((dict[q.0], dict[q.1])),
                    target,
                )
            },
        }
    }
}

/// The stored totals of a shard are those of its corpus.
pub proof fn lemma_shard_total(sh: SequenceShard, p: (u32, u32))
    ensures
        sh.total(p) == corpus_total(shard_corpus(sh), p),
{
    let c = shard_corpus(sh);
    sh.lemma_view_len();
    let f = |s: int| (sh.dup(s) * pair_count(sh.view()[s], p)) as int;
    let g = |s: int| (c[s].1 * pair_count(c[s].0, p)) as int;
    lemma_sum_below_congruent(sh.num_sequences(), f, g);
}

/// A candidate whose total fits a `u32` counts exactly that total.
pub proof fn lemma_candidate(c: Seq<(Seq<u32>, nat)>, p: (u32, u32))
    requires
        0 <= corpus_total(c, p) <= u32::MAX,
    ensures
        candidate(c, p).count == corpus_total(c, p),
        candidate(c, p).token_pair == p,
{
}

/// Once a pair is merged into a token that is neither of its own, the pair
/// occurs nowhere in the corpus.
pub proof fn lemma_merge_corpus_removes(c: Seq<(Seq<u32>, nat)>, q: (u32, u32), t: u32)
    requires
        t != q.0,
        t != q.1,
    ensures
        corpus_total(merge_corpus(c, q, t), q) == 0,
{
    let m = merge_corpus(c, q, t);
    let f = |s: int| (m[s].1 * pair_count(m[s].0, q)) as int;
    assert forall|s: int| 0 <= s < m.len() implies #[trigger] f(s) == 0 by {
        lemma_merge_pair_in_removes(c[s].0, q, t);
        assert(m[s].1 * 0 == 0);
    }
    lemma_sum_below_zero(m.len(), f);
}

/// Training adds one token per merge, and each token it adds stands for
/// the bytes of the two tokens of the pair merged into it, one after the
/// other; the tokens it started with keep their bytes.
pub proof fn lemma_train_from_tokens(
    c: Seq<(Seq<u32>, nat)>,
    dict: Map<u32, Seq<u8>>,
    n: nat,
    merges: Seq<(Seq<u8>, Seq<u8>)>,
    target: nat,
)
    requires
        n <= target <= u32::MAX + 1,
        merges.len() <= n,
        forall|i: int|
            0 <= i < merges.len() ==> #[trigger] dict[(n - merges.len() + i) as u32] == merges[i].0 + merges[i].1,
        train_from(c, dict, n, merges, target) is Ok,
    ensures
        ({
            let (d2, m2) = train_from(c, dict, n, merges, target).unwrap();
            &&& m2.len() == merges.len() + target - n
            &&& forall|i: int|
                0 <= i < m2.len() ==> #[trigger] d2[(target - m2.len() + i) as u32] == m2[i].0 + m2[i].1
            &&& forall|k: u32| k < n - merges.len() ==> #[trigger] d2[k] == dict[k]
        }),
    decreases target - n,
{
    if n < target {
        let q = next_merge(c, dict).unwrap();
        let t = n as u32;
        let d1 = dict.insert(t, dict[q.0] + dict[q.1]);
        let m1 = merges.push((dict[q.0], dict[q.1]));
        assert forall|i: int| 0 <= i < m1.len() implies #[trigger] d1[(n + 1 - m1.len() + i) as u32] == m1[i].0
            + m1[i].1 by {
            if i < merges.len() {
                assert((n + 1 - m1.len() + i) as u32 == (n - merges.len() + i) as u32);
                assert((n - merges.len() + i) < n);
            }
        }
        lemma_train_from_tokens(merge_corpus(c, q, t), d1, n + 1, m1, target);
    }
}

/// Corpora with the same entries, counted with repeats, have the same
/// totals.
pub proof fn lemma_corpus_total_same_entries(c1: Seq<(Seq<u32>, nat)>, c2: Seq<(Seq<u32>, nat)>, p: (u32, u32))
    requires
        c1.to_multiset() == c2.to_multiset(),
    ensures
        corpus_total(c1, p) == corpus_total(c2, p),
    decreases c1.len(),
{
    broadcast use vstd::seq_lib::group_to_multiset_ensures;

    if c1.len() == 0 {
        assert(c1.to_multiset().len() == 0);
        assert(c2.to_multiset().len() == c2.len());
    } else {
        let x = c1.last();
        let c1p = c1.drop_last();
        assert(c1 =~= c1p.push(x));
        assert(c2.to_multiset().count(x) > 0);
        assert(c2.contains(x));
        let j = choose|j: int| 0 <= j < c2.len() && c2[j] == x;
        let c2p = c2.remove(j);
        assert(c2p.to_multiset() =~= c1p.to_multiset());
        lemma_corpus_total_same_entries(c1p, c2p, p);
        let f1 = |s: int| (c1[s].1 * pair_count(c1[s].0, p)) as int;
        let g1 = |s: int| (c1p[s].1 * pair_count(c1p[s].0, p)) as int;
        lemma_sum_below_congruent(c1p.len(), f1, g1);
        let f2 = |s: int| (c2[s].1 * pair_count(c2[s].0, p)) as int;
        let g2 = |s: int| (c2p[s].1 * pair_count(c2p[s].0, p)) as int;
        lemma_sum_below_remove(c2.len(), f2, g2, j);
    }
}

/// Merging corpora with the same entries gives corpora with the same
/// entries.
pub proof fn lemma_merge_corpus_same_entries(
    c1: Seq<(Seq<u32>, nat)>,
    c2: Seq<(Seq<u32>, nat)>,
    q: (u32, u32),
    t: u32,
)
    requires
        c1.to_multiset() == c2.to_multiset(),
    ensures
        merge_corpus(c1, q, t).to_multiset() == merge_corpus(c2, q, t).to_multiset(),
    decreases c1.len(),
{
    broadcast use vstd::seq_lib::group_to_multiset_ensures;
    broadcast use vstd::multiset::group_multiset_axioms;

    if c1.len() == 0 {
        assert(c1.to_multiset().len() == 0);
        assert(c2.to_multiset().len() == c2.len());
        assert(merge_corpus(c1, q, t) =~= merge_corpus(c2, q, t));
    } else {
        let x = c1.last();
        let c1p = c1.drop_last();
        assert(c1 =~= c1p.push(x));
        assert(c2.to_multiset().count(x) > 0);
        assert(c2.contains(x));
        let j = choose|j: int| 0 <= j < c2.len() && c2[j] == x;
        let c2p = c2.remove(j);
        assert(c2p.to_multiset() =~= c1p.to_multiset());
        lemma_merge_corpus_same_entries(c1p, c2p, q, t);
        let m1 = merge_corpus(c1, q, t);
        let m2 = merge_corpus(c2, q, t);
        let y = (merge_pair_in(x.0, q, t), x.1);
        assert(m1 =~= merge_corpus(c1p, q, t).push(y));
        assert(m2.remove(j) =~= merge_corpus(c2p, q, t));
        assert(m2[j] == y);
        assert(m2.to_multiset().remove(y).insert(y) =~= m2.to_multiset());
        assert(m1.to_multiset() =~= m2.to_multiset());
    }
}

/// Training from corpora with the same entries gives the same result.
pub proof fn lemma_train_from_same_entries(
    c1: Seq<(Seq<u32>, nat)>,
    c2: Seq<(Seq<u32>, nat)>,
    dict: Map<u32, Seq<u8>>,
    n: nat,
    merges: Seq<(Seq<u8>, Seq<u8>)>,
    target: nat,
)
    requires
        c1.to_multiset() == c2.to_multiset(),
    ensures
        train_from(c1, dict, n, merges, target) == train_from(c2, dict, n, merges, target),
    decreases target - n,
{
    if n < target {
        assert forall|p: (u32, u32)| #[trigger] corpus_total(c1, p) == corpus_total(c2, p) by {
            lemma_corpus_total_same_entries(c1, c2, p);
        }
        if totals_fit(c1) {
            assert forall|p: (u32, u32)| #[trigger] corpus_total(c2, p) <= u32::MAX by {
                assert(corpus_total(c1, p) == corpus_total(c2, p));
            }
        }
        if totals_fit(c2) {
            assert forall|p: (u32, u32)| #[trigger] corpus_total(c1, p) <= u32::MAX by {
                assert(corpus_total(c1, p) == corpus_total(c2, p));
            }
        }
        lemma_next_merge_same_totals(c1, c2, dict);
        if let Some(q) = next_merge(c1, dict) {
            let t = n as u32;
            lemma_merge_corpus_same_entries(c1, c2, q, t);
            lemma_train_from_same_entries(
                merge_corpus(c1, q, t),
                merge_corpus(c2, q, t),
                dict.insert(t, dict[q.0] + dict[q.1]),
                n + 1,
                merges.push((dict[q.0], dict[q.1])),
                target,
            );
        }
    }
}

/// The pairs of tokens that training merges, in order, as far as it gets.
pub open spec fn merged_pairs(c: Seq<(Seq<u32>, nat)>, dict: Map<u32, Seq<u8>>, n: nat, target: nat) -> Seq<
    (u32, u32),
>
    decreases target - n,
{
    if n >= target || !totals_fit(c) {
        Seq::empty()
    } else {
        match next_merge(c, dict) {
            None => Seq::empty(),
            Some(q) => if corpus_total(c, q) <= 0 {
                Seq::empty()
            } else {
                seq![q] + merged_pairs(
                    merge_corpus(c, q, n as u32),
                    dict.insert(n as u32, dict[q.0] + dict[q.1]),
                    n + 1,
                    target,
                )
            },
        }
    }
}

/// Every token of every sequence of the corpus is below `n`.
pub open spec fn corpus_tokens_below(c: Seq<(Seq<u32>, nat)>, n: nat) -> bool {
    forall|s: int, i: int| 0 <= s < c.len() && 0 <= i < c[s].0.len() ==> #[trigger] c[s].0[i] < n
}

/// A pair that occurs in a corpus whose tokens are below `n` is made of
/// tokens below `n`.
proof fn lemma_corpus_pair_below(c: Seq<(Seq<u32>, nat)>, n: nat, p: (u32, u32))
    requires
        corpus_tokens_below(c, n),
        corpus_total(c, p) > 0,
    ensures
        p.0 < n,
        p.1 < n,
{
    let f = |s: int| (c[s].1 * pair_count(c[s].0, p)) as int;
    assert forall|s: int| 0 <= s < c.len() implies 0 <= #[trigger] f(s) by {
        let d = c[s].1;
        let k = pair_count(c[s].0, p);
        assert(0 <= d * k) by (nonlinear_arith);
    }
    lemma_sum_below_positive(c.len(), f);
    let s = choose|s: int| 0 <= s < c.len() && #[trigger] f(s) > 0;
    let v = c[s].0;
    assert(pair_count(v, p) > 0) by {
        if pair_count(v, p) == 0 {
            assert(c[s].1 * pair_count(v, p) == 0);
        }
    }
    lemma_pair_count_tokens(v, p);
    let i = choose|i: int| 0 <= i < v.len() && v[i] == p.0;
    let j = choose|j: int| 0 <= j < v.len() && v[j] == p.1;
    assert(c[s].0[i] < n);
    assert(c[s].0[j] < n);
}

/// Merging into token `n` keeps the tokens of a corpus below `n + 1`.
proof fn lemma_merge_corpus_below(c: Seq<(Seq<u32>, nat)>, n: nat, q: (u32, u32))
    requires
        corpus_tokens_below(c, n),
        n <= u32::MAX,
    ensures
        corpus_tokens_below(merge_corpus(c, q, n as u32), n + 1),
{
    let m = merge_corpus(c, q, n as u32);
    assert forall|s: int, i: int| 0 <= s < m.len() && 0 <= i < m[s].0.len() implies #[trigger] m[s].0[i] < n + 1 by {
        lemma_merge_pair_in_tokens(c[s].0, q, n as u32, i);
        let x = m[s].0[i];
        if x != n as u32 {
            let j = choose|j: int| 0 <= j < c[s].0.len() && c[s].0[j] == x;
            assert(c[s].0[j] < n);
        }
    }
}

/// Merging into `t` adds no occurrence of a pair that does not involve `t`.
proof fn lemma_merge_corpus_total_le(c: Seq<(Seq<u32>, nat)>, q: (u32, u32), t: u32, p: (u32, u32))
    requires
        p.0 != t,
        p.1 != t,
    ensures
        corpus_total(merge_corpus(c, q, t), p) <= corpus_total(c, p),
{
    let m = merge_corpus(c, q, t);
    let f = |s: int| (m[s].1 * pair_count(m[s].0, p)) as int;
    let g = |s: int| (c[s].1 * pair_count(c[s].0, p)) as int;
    assert forall|s: int| 0 <= s < c.len() implies 0 <= #[trigger] f(s) <= g(s) by {
        lemma_merge_pair_in_count_le(c[s].0, q, t, p);
        let d = c[s].1;
        let a = pair_count(m[s].0, p);
        let b = pair_count(c[s].0, p);
        assert(0 <= d * a <= d * b) by (nonlinear_arith)
            requires
                a <= b,
        ;
    }
    lemma_sum_below_mono(c.len(), f, g);
}

/// A pair of tokens below `n` that occurs nowhere is never merged.
proof fn lemma_merged_pairs_avoid(
    c: Seq<(Seq<u32>, nat)>,
    dict: Map<u32, Seq<u8>>,
    n: nat,
    target: nat,
    p: (u32, u32),
)
    requires
        target <= u32::MAX + 1,
        corpus_tokens_below(c, n),
        corpus_total(c, p) <= 0,
        p.0 < n,
        p.1 < n,
    ensures
        !merged_pairs(c, dict, n, target).contains(p),
    decreases target - n,
{
    if n < target && totals_fit(c) {
        if let Some(q) = next_merge(c, dict) {
            if corpus_total(c, q) > 0 {
                let t = n as u32;
                let d1 = dict.insert(t, dict[q.0] + dict[q.1]);
                let c1 = merge_corpus(c, q, t);
                lemma_merge_corpus_total_le(c, q, t, p);
                lemma_merge_corpus_below(c, n, q);
                lemma_merged_pairs_avoid(c1, d1, n + 1, target, p);
                let rest = merged_pairs(c1, d1, n + 1, target);
                assert(merged_pairs(c, dict, n, target) == seq![q] + rest);
                if (seq![q] + rest).contains(p) {
                    let i = choose|i: int| 0 <= i < (seq![q] + rest).len() && (seq![q] + rest)[i] == p;
                    if i > 0 {
                        assert(rest[i - 1] == p);
                    }
                }
            }
        }
    }
}

/// Training never merges the same pair of tokens twice, where the corpus
/// starts with tokens below the first new token and the new tokens fit a
/// `u32`.
pub proof fn lemma_merged_pairs_distinct(c: Seq<(Seq<u32>, nat)>, dict: Map<u32, Seq<u8>>, n: nat, target: nat)
    requires
        target <= u32::MAX + 1,
        corpus_tokens_below(c, n),
    ensures
        merged_pairs(c, dict, n, target).no_duplicates(),
    decreases target - n,
{
    if n < target && totals_fit(c) {
        if let Some(q) = next_merge(c, dict) {
            if corpus_total(c, q) > 0 {
                let t = n as u32;
                let d1 = dict.insert(t, dict[q.0] + dict[q.1]);
                let c1 = merge_corpus(c, q, t);
                lemma_corpus_pair_below(c, n, q);
                lemma_merge_corpus_removes(c, q, t);
                lemma_merge_corpus_below(c, n, q);
                lemma_merged_pairs_distinct(c1, d1, n + 1, target);
                lemma_merged_pairs_avoid(c1, d1, n + 1, target, q);
                let rest = merged_pairs(c1, d1, n + 1, target);
                let all = seq![q] + rest;
                assert(merged_pairs(c, dict, n, target) == all);
                assert forall|i: int, j: int| 0 <= i < all.len() && 0 <= j < all.len() && i != j implies all[i]
                    != all[j] by {
                    if i == 0 {
                        assert(all[j] == rest[j - 1]);
                    } else if j == 0 {
                        assert(all[i] == rest[i - 1]);
                    } else {
                        assert(all[i] == rest[i - 1]);
                        assert(all[j] == rest[j - 1]);
                    }
                }
            }
        }
    }
}

/// Where training succeeds, it merges one pair of tokens per new token.
pub proof fn lemma_merged_pairs_len(
    c: Seq<(Seq<u32>, nat)>,
    dict: Map<u32, Seq<u8>>,
    n: nat,
    merges: Seq<(Seq<u8>, Seq<u8>)>,
    target: nat,
)
    requires
        n <= target,
        train_from(c, dict, n, merges, target) is Ok,
    ensures
        merged_pairs(c, dict, n, target).len() == target - n,
    decreases target - n,
{
    if n < target {
        let q = next_merge(c, dict).unwrap();
        let t = n as u32;
        lemma_merged_pairs_len(
            merge_corpus(c, q, t),
            dict.insert(t, dict[q.0] + dict[q.1]),
            n + 1,
            merges.push((dict[q.0], dict[q.1])),
            target,
        );
    }
}

} // verus!
