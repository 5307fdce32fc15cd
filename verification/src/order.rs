//! Ordering of candidate pairs during training: by dup-weighted count first,
//! then by the byte strings of the two tokens, compared as a tuple.

use std::cmp::Ordering;
use std::collections::HashMap;
use vstd::prelude::*;
use crate::bytes::{
    bytes_sign, compare_bytes, lemma_bytes_sign_antisymmetric, lemma_bytes_sign_transitive, lemma_bytes_sign_zero,
};

verus! {

broadcast use vstd::std_specs::hash::group_hash_axioms;

/// The ordering that a comparison sign stands for.
pub open spec fn sign_ordering(s: int) -> Ordering {
    if s < 0 {
        Ordering::Less
    } else if s > 0 {
        Ordering::Greater
    } else {
        Ordering::Equal
    }
}

/// Lexicographic order of two byte strings, as std orders `[u8]`.
pub open spec fn bytes_order(a: Seq<u8>, b: Seq<u8>) -> Ordering {
    sign_ordering(bytes_sign(a, b))
}

/// Lexicographic order of two pairs of byte strings, as std orders tuples.
pub open spec fn tuple_order(a: (Seq<u8>, Seq<u8>), b: (Seq<u8>, Seq<u8>)) -> Ordering {
    if a.0 == b.0 {
        bytes_order(a.1, b.1)
    } else {
        bytes_order(a.0, b.0)
    }
}

/// A candidate pair for a merge with its dup-weighted number of occurrences.
#[derive(Debug, Clone, Copy, PartialEq, Eq)]
pub struct CountInfo {
    pub token_pair: (u32, u32),
    pub count: u32,
}

/// The byte strings of a token dictionary.
pub open spec fn dict_bytes(dict: Map<u32, Vec<u8>>) -> Map<u32, Seq<u8>> {
    dict.map_values(|v: Vec<u8>| v@)
}

/// The byte strings that the two tokens of `pair` stand for in `dict`.
pub open spec fn token_tuple(pair: (u32, u32), dict: Map<u32, Seq<u8>>) -> (Seq<u8>, Seq<u8>) {
    (dict[pair.0], dict[pair.1])
}

/// How `a` compares to `b`: the larger count wins; on equal counts the byte
/// strings of the two tokens decide, compared as a tuple.
pub open spec fn count_info_order(a: CountInfo, b: CountInfo, dict: Map<u32, Seq<u8>>) -> Ordering {
    if a.count > b.count {
        Ordering::Greater
    } else if a.count < b.count {
        Ordering::Less
    } else {
        tuple_order(token_tuple(a.token_pair, dict), token_tuple(b.token_pair, dict))
    }
}

/// Both tokens of `pair` have an entry in `dict`.
pub open spec fn pair_in_dict(pair: (u32, u32), dict: Map<u32, Seq<u8>>) -> bool {
    dict.contains_key(pair.0) && dict.contains_key(pair.1)
}

impl CountInfo {
    /// Compares two candidates: the larger count is greater; on equal
    /// counts the byte strings of the tokens are compared as a tuple.
    pub fn compare_to(&self, other: &CountInfo, token_dict: &HashMap<u32, Vec<u8>>) -> (r: Ordering)
        requires
            self.count == other.count ==> pair_in_dict(self.token_pair, dict_bytes(token_dict@))
                && pair_in_dict(other.token_pair, dict_bytes(token_dict@)),
        ensures
            r == count_info_order(*self, *other, dict_bytes(token_dict@)),
    {
        if self.count > other.count {
            return Ordering::Greater;
        }
        if self.count < other.count {
            return Ordering::Less;
        }
        let (a0, a1) = self.get_token_tuple(token_dict);
        let (b0, b1) = other.get_token_tuple(token_dict);
        let first = compare_bytes(a0, b0);
        proof {
            lemma_bytes_sign_zero(a0@, b0@);
        }
        let sign = if first == 0 {
            compare_bytes(a1, b1)
        } else {
            first
        };
        if sign < 0 {
            Ordering::Less
        } else if sign > 0 {
            Ordering::Greater
        } else {
            Ordering::Equal
        }
    }

    /// The byte strings of the two tokens of this candidate's pair.
    fn get_token_tuple<'a>(&self, token_dict: &'a HashMap<u32, Vec<u8>>) -> (r: (&'a [u8], &'a [u8]))
        requires
            pair_in_dict(self.token_pair, dict_bytes(token_dict@)),
        ensures
            r.0@ == token_dict@[self.token_pair.0]@,
            r.1@ == token_dict@[self.token_pair.1]@,
    {
        let first = token_dict.get(&self.token_pair.0);
        let second = token_dict.get(&self.token_pair.1);
        match (first, second) {
            (Some(f), Some(s)) => (f.as_slice(), s.as_slice()),
            _ => {
                proof {
                    assert(false);
                }
                (&[], &[])
            },
        }
    }
}

/// How two candidates compare: the larger count wins; on equal counts the
/// byte strings of the first tokens decide where they differ, and those of
/// the second tokens where the first ones are equal.
pub proof fn lemma_count_info_order_cases(a: CountInfo, b: CountInfo, dict: Map<u32, Seq<u8>>)
    ensures
        a.count > b.count ==> count_info_order(a, b, dict) == Ordering::Greater,
        a.count < b.count ==> count_info_order(a, b, dict) == Ordering::Less,
        a.count == b.count && bytes_sign(dict[a.token_pair.0], dict[b.token_pair.0]) < 0 ==> count_info_order(
            a,
            b,
            dict,
        ) == Ordering::Less,
        a.count == b.count && bytes_sign(dict[a.token_pair.0], dict[b.token_pair.0]) > 0 ==> count_info_order(
            a,
            b,
            dict,
        ) == Ordering::Greater,
        a.count == b.count && dict[a.token_pair.0] == dict[b.token_pair.0] ==> count_info_order(a, b, dict)
            == sign_ordering(bytes_sign(dict[a.token_pair.1], dict[b.token_pair.1])),
{
    lemma_bytes_sign_zero(dict[a.token_pair.0], dict[b.token_pair.0]);
}

/// Swapping the arguments reverses the order of byte strings, and they are
/// equal exactly when they are the same string.
proof fn lemma_bytes_order(a: Seq<u8>, b: Seq<u8>)
    ensures
        (bytes_order(a, b) == Ordering::Greater) == (bytes_order(b, a) == Ordering::Less),
        (bytes_order(a, b) == Ordering::Equal) == (a == b),
{
    lemma_bytes_sign_antisymmetric(a, b);
    lemma_bytes_sign_zero(a, b);
}

/// The order of byte strings is transitive.
proof fn lemma_bytes_order_transitive(a: Seq<u8>, b: Seq<u8>, c: Seq<u8>)
    ensures
        bytes_order(a, b) != Ordering::Less && bytes_order(b, c) != Ordering::Less ==> bytes_order(a, c)
            != Ordering::Less,
        bytes_order(a, b) == Ordering::Greater && bytes_order(b, c) != Ordering::Less ==> bytes_order(a, c)
            == Ordering::Greater,
        bytes_order(a, b) != Ordering::Less && bytes_order(b, c) == Ordering::Greater ==> bytes_order(a, c)
            == Ordering::Greater,
{
    lemma_bytes_sign_antisymmetric(a, b);
    lemma_bytes_sign_antisymmetric(b, c);
    lemma_bytes_sign_antisymmetric(a, c);
    lemma_bytes_sign_zero(a, b);
    lemma_bytes_sign_zero(b, c);
    lemma_bytes_sign_zero(a, c);
    if bytes_sign(a, b) == 1 && bytes_sign(b, c) == 1 {
        lemma_bytes_sign_transitive(a, b, c, 1);
    }
}

/// Swapping the two candidates reverses their comparison: one is greater
/// exactly when the other is less, and they are equal together.
pub proof fn lemma_count_info_order_antisymmetric(a: CountInfo, b: CountInfo, dict: Map<u32, Seq<u8>>)
    ensures
        (count_info_order(a, b, dict) == Ordering::Greater) == (count_info_order(b, a, dict) == Ordering::Less),
        (count_info_order(a, b, dict) == Ordering::Equal) == (count_info_order(b, a, dict) == Ordering::Equal),
{
    let ta = token_tuple(a.token_pair, dict);
    let tb = token_tuple(b.token_pair, dict);
    lemma_bytes_order(ta.0, tb.0);
    lemma_bytes_order(ta.1, tb.1);
    lemma_bytes_order(tb.0, ta.0);
    lemma_bytes_order(tb.1, ta.1);
}

/// Two candidates compare equal exactly when their counts are equal and
/// their tokens stand for the same byte strings.
pub proof fn lemma_count_info_order_equal(a: CountInfo, b: CountInfo, dict: Map<u32, Seq<u8>>)
    ensures
        (count_info_order(a, b, dict) == Ordering::Equal) == (a.count == b.count && token_tuple(
            a.token_pair,
            dict,
        ) == token_tuple(b.token_pair, dict)),
{
    let ta = token_tuple(a.token_pair, dict);
    let tb = token_tuple(b.token_pair, dict);
    lemma_bytes_order(ta.0, tb.0);
    lemma_bytes_order(ta.1, tb.1);
}

/// The comparison of candidates is transitive: at least as great as one
/// that is at least as great as a third is at least as great as the third,
/// and strictly so when either step is strict.
pub proof fn lemma_count_info_order_transitive(
    a: CountInfo,
    b: CountInfo,
    c: CountInfo,
    dict: Map<u32, Seq<u8>>,
)
    ensures
        count_info_order(a, b, dict) != Ordering::Less && count_info_order(b, c, dict) != Ordering::Less
            ==> count_info_order(a, c, dict) != Ordering::Less,
        count_info_order(a, b, dict) == Ordering::Greater && count_info_order(b, c, dict) != Ordering::Less
            ==> count_info_order(a, c, dict) == Ordering::Greater,
        count_info_order(a, b, dict) != Ordering::Less && count_info_order(b, c, dict) == Ordering::Greater
            ==> count_info_order(a, c, dict) == Ordering::Greater,
{
    let ta = token_tuple(a.token_pair, dict);
    let tb = token_tuple(b.token_pair, dict);
    let tc = token_tuple(c.token_pair, dict);
    lemma_bytes_order(ta.0, tb.0);
    lemma_bytes_order(tb.0, tc.0);
    lemma_bytes_order(ta.0, tc.0);
    lemma_bytes_order(ta.1, tb.1);
    lemma_bytes_order(tb.1, tc.1);
    lemma_bytes_order(ta.1, tc.1);
    lemma_bytes_order_transitive(ta.0, tb.0, tc.0);
    lemma_bytes_order_transitive(ta.1, tb.1, tc.1);
}

} // verus!
