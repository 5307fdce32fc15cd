//! Choosing the pair to merge next: the one whose candidate compares
//! greater than every other candidate.

use crate::corpus::{candidate, corpus_total, lemma_candidate, lemma_shard_total, shard_corpus};
use crate::order::{
    count_info_order, dict_bytes, lemma_count_info_order_antisymmetric, lemma_count_info_order_transitive,
    pair_in_dict, CountInfo,
};
use crate::sequence::SequenceShard;
use std::cmp::Ordering;
use std::collections::HashMap;
use vstd::prelude::*;

verus! {

/// `q` occurs in the corpus and its candidate is greater than that of any
/// other pair that occurs.
pub open spec fn is_top_pair(c: Seq<(Seq<u32>, nat)>, dict: Map<u32, Seq<u8>>, q: (u32, u32)) -> bool {
    &&& corpus_total(c, q) > 0
    &&& forall|p: (u32, u32)|
        #[trigger] corpus_total(c, p) > 0 && p != q ==> count_info_order(candidate(c, q), candidate(c, p), dict)
            == Ordering::Greater
}

/// The pair that training merges next: the top pair; `(0, 0)` when no
/// pair occurs at all; `None` when pairs occur but none is on top (two
/// distinct pairs tie).
pub open spec fn next_merge(c: Seq<(Seq<u32>, nat)>, dict: Map<u32, Seq<u8>>) -> Option<(u32, u32)> {
    if forall|p: (u32, u32)| #[trigger] corpus_total(c, p) <= 0 {
        Some((0, 0))
    } else if exists|q: (u32, u32)| #[trigger] is_top_pair(c, dict, q) {
        Some(choose|q: (u32, u32)| #[trigger] is_top_pair(c, dict, q))
    } else {
        None
    }
}

/// There is at most one top pair.
pub proof fn lemma_top_pair_unique(c: Seq<(Seq<u32>, nat)>, dict: Map<u32, Seq<u8>>, a: (u32, u32), b: (u32, u32))
    requires
        is_top_pair(c, dict, a),
        is_top_pair(c, dict, b),
    ensures
        a == b,
{
    if a != b {
        assert(corpus_total(c, b) > 0);
        assert(corpus_total(c, a) > 0);
        lemma_count_info_order_antisymmetric(candidate(c, a), candidate(c, b), dict);
    }
}

/// Which pair is merged next depends only on the totals of the pairs.
pub proof fn lemma_next_merge_same_totals(c1: Seq<(Seq<u32>, nat)>, c2: Seq<(Seq<u32>, nat)>, dict: Map<u32, Seq<u8>>)
    requires
        forall|p: (u32, u32)| #[trigger] corpus_total(c1, p) == corpus_total(c2, p),
    ensures
        next_merge(c1, dict) == next_merge(c2, dict),
{
    assert forall|p: (u32, u32)| #[trigger] candidate(c1, p) == candidate(c2, p) by {
        assert(corpus_total(c1, p) == corpus_total(c2, p));
    }
    assert forall|q: (u32, u32)| #[trigger] is_top_pair(c1, dict, q) implies is_top_pair(c2, dict, q) by {
        assert(candidate(c1, q) == candidate(c2, q));
        assert forall|p: (u32, u32)| #[trigger] corpus_total(c2, p) > 0 && p != q implies count_info_order(
            candidate(c2, q),
            candidate(c2, p),
            dict,
        ) == Ordering::Greater by {
            assert(corpus_total(c1, p) == corpus_total(c2, p));
            assert(candidate(c1, p) == candidate(c2, p));
        }
    }
    assert forall|q: (u32, u32)| #[trigger] is_top_pair(c2, dict, q) implies is_top_pair(c1, dict, q) by {
        assert(candidate(c1, q) == candidate(c2, q));
        assert forall|p: (u32, u32)| #[trigger] corpus_total(c1, p) > 0 && p != q implies count_info_order(
            candidate(c1, q),
            candidate(c1, p),
            dict,
        ) == Ordering::Greater by {
            assert(corpus_total(c1, p) == corpus_total(c2, p));
            assert(candidate(c1, p) == candidate(c2, p));
        }
    }
    if exists|q: (u32, u32)| #[trigger] is_top_pair(c1, dict, q) {
        let a = choose|q: (u32, u32)| #[trigger] is_top_pair(c1, dict, q);
        assert(is_top_pair(c2, dict, a));
        let b = choose|q: (u32, u32)| #[trigger] is_top_pair(c2, dict, q);
        lemma_top_pair_unique(c2, dict, a, b);
    }
    if exists|q: (u32, u32)| #[trigger] is_top_pair(c2, dict, q) {
        let b = choose|q: (u32, u32)| #[trigger] is_top_pair(c2, dict, q);
        assert(is_top_pair(c1, dict, b));
    }
    if forall|p: (u32, u32)| #[trigger] corpus_total(c1, p) <= 0 {
        assert forall|p: (u32, u32)| #[trigger] corpus_total(c2, p) <= 0 by {
            assert(corpus_total(c1, p) == corpus_total(c2, p));
        }
    }
    if forall|p: (u32, u32)| #[trigger] corpus_total(c2, p) <= 0 {
        assert forall|p: (u32, u32)| #[trigger] corpus_total(c1, p) <= 0 by {
            assert(corpus_total(c1, p) == corpus_total(c2, p));
        }
    }
}

/// The pair to merge next in the shard's corpus: the one whose candidate
/// compares greater than all others, `(0, 0)` when no pair occurs, and
/// `None` when two distinct pairs tie on top.
pub fn most_frequent_token(token_dict: &HashMap<u32, Vec<u8>>, shard: &SequenceShard) -> (r: Option<(u32, u32)>)
    requires
        shard.wf(),
        forall|p: (u32, u32)| #[trigger] shard.total(p) <= u32::MAX,
        forall|p: (u32, u32)| #[trigger] shard.total(p) > 0 ==> pair_in_dict(p, dict_bytes(token_dict@)),
    ensures
        r == next_merge(shard_corpus(*shard), dict_bytes(token_dict@)),
{
    let ghost c = shard_corpus(*shard);
    let ghost dict = dict_bytes(token_dict@);
    let counts = shard.counts();
    proof {
        assert forall|i: int| 0 <= i < counts@.len() implies #[trigger] counts@[i] == candidate(c, counts@[i].token_pair) by {
            let p = counts@[i].token_pair;
            lemma_shard_total(*shard, p);
            shard.lemma_total_le_weight(p);
            assert(shard.total(p) <= u32::MAX);
            assert(counts@[i].count == shard.total(p));
            lemma_candidate(c, p);
            assert(candidate(c, p).count == counts@[i].count);
            assert(candidate(c, p).token_pair == counts@[i].token_pair);
        }
    }
    let mut best = CountInfo { token_pair: (0, 0), count: 0 };
    let mut tied = false;
    let mut i: usize = 0;
    while i < counts.len()
        invariant
            c == shard_corpus(*shard),
            dict == dict_bytes(token_dict@),
            forall|p: (u32, u32)| #[trigger] shard.total(p) > 0 ==> pair_in_dict(p, dict),
            forall|a: int, b: int|
                0 <= a < b < counts@.len() ==> #[trigger] counts@[a].token_pair != #[trigger] counts@[b].token_pair,
            forall|a: int| 0 <= a < counts@.len() ==> #[trigger] counts@[a].count == shard.total(counts@[a].token_pair)
                && counts@[a].count > 0,
            forall|a: int| 0 <= a < counts@.len() ==> #[trigger] counts@[a] == candidate(c, counts@[a].token_pair),
            i <= counts@.len(),
            i == 0 ==> best == (CountInfo { token_pair: (0, 0), count: 0 }) && !tied,
            i > 0 ==> exists|j: int| 0 <= j < i && #[trigger] counts@[j] == best,
            forall|j: int|
                0 <= j < i && #[trigger] counts@[j].token_pair != best.token_pair ==> count_info_order(
                    best,
                    counts@[j],
                    dict,
                ) != Ordering::Less,
            tied == exists|j: int|
                0 <= j < i && #[trigger] counts@[j].token_pair != best.token_pair && count_info_order(
                    best,
                    counts@[j],
                    dict,
                ) == Ordering::Equal,
        decreases counts@.len() - i,
    {
        let cand = counts[i];
        let ghost old_best = best;
        let ghost old_tied = tied;
        proof {
            if i > 0 {
                let j0 = choose|j: int| 0 <= j < i && #[trigger] counts@[j] == best;
                assert(shard.total(counts@[j0].token_pair) > 0);
            }
            assert(shard.total(cand.token_pair) > 0);
        }
        let cmp = best.compare_to(&cand, token_dict);
        match cmp {
            Ordering::Greater => {
                proof {
                    assert forall|j: int|
                        0 <= j < i + 1 && #[trigger] counts@[j].token_pair != best.token_pair && count_info_order(
                            best,
                            counts@[j],
                            dict,
                        ) == Ordering::Equal implies j < i by {}
                    if old_tied {
                        let w = choose|j: int|
                            0 <= j < i && #[trigger] counts@[j].token_pair != best.token_pair && count_info_order(
                                best,
                                counts@[j],
                                dict,
                            ) == Ordering::Equal;
                        assert(0 <= w < i + 1);
                    }
                }
            },
            Ordering::Less => {
                proof {
                    lemma_count_info_order_antisymmetric(old_best, cand, dict);
                    assert forall|j: int| 0 <= j < i + 1 && #[trigger] counts@[j].token_pair != cand.token_pair implies count_info_order(
                        cand,
                        counts@[j],
                        dict,
                    ) == Ordering::Greater by {
                        if j < i {
                            lemma_count_info_order_transitive(cand, old_best, counts@[j], dict);
                            if counts@[j].token_pair == old_best.token_pair {
                                if i > 0 {
                                    let j0 = choose|k: int| 0 <= k < i && #[trigger] counts@[k] == old_best;
                                    if j != j0 {
                                        assert(counts@[j].token_pair != counts@[j0].token_pair);
                                    }
                                }
                            }
                        }
                    }
                }
                best = cand;
                tied = false;
                proof {
                    assert(cand == best);
                }
            },
            Ordering::Equal => {
                proof {
                    let j0 = choose|j: int| 0 <= j < i && #[trigger] counts@[j] == best;
                    assert(counts@[j0].token_pair != cand.token_pair);
                }
                tied = true;
                proof {
                    assert(cand.token_pair != best.token_pair);
                }
            },
        }
        i = i + 1;
    }
    proof {
        if counts@.len() == 0 {
            assert forall|p: (u32, u32)| #[trigger] corpus_total(c, p) <= 0 by {
                lemma_shard_total(*shard, p);
                if shard.total(p) > 0 {
                    let k = choose|k: int| 0 <= k < counts@.len() && #[trigger] counts@[k].token_pair == p;
                }
            }
        } else {
            let j0 = choose|j: int| 0 <= j < i && #[trigger] counts@[j] == best;
            lemma_shard_total(*shard, best.token_pair);
            assert(corpus_total(c, best.token_pair) > 0);
            if tied {
                assert forall|q: (u32, u32)| !#[trigger] is_top_pair(c, dict, q) by {
                    if is_top_pair(c, dict, q) {
                        let w = choose|j: int|
                            0 <= j < i && #[trigger] counts@[j].token_pair != best.token_pair && count_info_order(
                                best,
                                counts@[j],
                                dict,
                            ) == Ordering::Equal;
                        lemma_shard_total(*shard, counts@[w].token_pair);
                        if q == best.token_pair {
                            assert(corpus_total(c, counts@[w].token_pair) > 0);
                        } else {
                            lemma_shard_total(*shard, q);
                            let k = choose|k: int| 0 <= k < counts@.len() && #[trigger] counts@[k].token_pair == q;
                            lemma_count_info_order_antisymmetric(best, counts@[k], dict);
                        }
                    }
                }
            } else {
                assert(is_top_pair(c, dict, best.token_pair)) by {
                    assert forall|p: (u32, u32)|
                        #[trigger] corpus_total(c, p) > 0 && p != best.token_pair implies count_info_order(
                            candidate(c, best.token_pair),
                            candidate(c, p),
                            dict,
                        ) == Ordering::Greater by {
                        lemma_shard_total(*shard, p);
                        let k = choose|k: int| 0 <= k < counts@.len() && #[trigger] counts@[k].token_pair == p;
                    }
                }
                let q = choose|q: (u32, u32)| #[trigger] is_top_pair(c, dict, q);
                lemma_top_pair_unique(c, dict, q, best.token_pair);
            }
        }
    }
    if tied {
        None
    } else {
        Some(best.token_pair)
    }
}

} // verus!
