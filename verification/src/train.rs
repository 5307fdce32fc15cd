//! Training a byte-pair-encoding tokenizer on a corpus: pretokenize the
//! corpus, then merge the most frequent pair of tokens into a new token
//! until the dictionary holds the asked number of tokens.

use crate::builder::{
    bytes_len, count_in, counts_of, keys_weight, lemma_counts_of_bound, lemma_counts_of_concat, lemma_keys_weight,
    weight_of, SequenceBuilder,
};
use crate::chunks::{chunk_with_readahead, chunks_from, slices_view};
use crate::corpus::{merge_corpus, shard_corpus, train_from};
use crate::order::{dict_bytes, pair_in_dict};
use crate::pairs::{lemma_merge_pair_in_tokens, lemma_pair_count_tokens, merge_pair_in, pair_count};
use crate::pretok::{gpt2_source, pretokenize_chunk_for_training, split_source, texts_bytes, training_pretokens};
use crate::progress::{
    add_done_shard, add_merge_done, set_merges_done, set_total_shards, set_unique_sequences, stop_requested,
    ProgressInfo,
};
use crate::regex::{regex_compiles, utf8_str};
use crate::select::{is_top_pair, most_frequent_token, next_merge};
use crate::sequence::SequenceShard;
use crate::sums::lemma_sum_below_positive;
use std::collections::HashMap;
use std::sync::Arc;
use vstd::prelude::*;
use vstd::string::StringSliceAdditionalSpecFns;
use vstd::utf8::{encode_utf8, valid_utf8};

verus! {

broadcast use vstd::std_specs::hash::group_hash_axioms;

/// `std::io::Error`, the error of reading a corpus, carried through as an
/// opaque value.
#[verifier::external_type_specification]
#[verifier::external_body]
pub struct ExIoError(std::io::Error);

/// Why training failed.
#[derive(Debug)]
pub enum BpeError {
    /// At least one special token is required.
    SpecialTokensRequired,
    /// Not enough tokens in the vocabulary: it starts with the 256 bytes and
    /// the special tokens.
    VocabTooSmall,
    /// The corpus could not be read.
    IoError(std::io::Error),
    /// Training was asked to stop before pretokenization was done.
    Stopped,
    /// A pattern did not compile, or the regex engine gave up on a text.
    RegexFailed,
    /// A chunk of the corpus is not valid UTF-8.
    InvalidUtf8,
    /// Two distinct pairs tie for the most frequent: equal counts, and
    /// their tokens stand for the same byte strings.
    AmbiguousMerge,
    /// More merges were asked for, but no pair of tokens occurs in the
    /// corpus any more.
    NoPairsLeft,
    /// A count, an index or a total that is kept in 32 bits does not fit:
    /// the number of chunks or of distinct pretokens (where progress is
    /// reported), how often a pretoken occurs, the total length of the
    /// distinct pretokens, or the dup-weighted total of a pair.
    TooLarge,
}

/// The bytes of a byte string, each as a token.
pub open spec fn widen(k: Seq<u8>) -> Seq<u32> {
    k.map_values(|b: u8| b as u32)
}

/// The tokens of a sequence, each as a byte.
pub open spec fn narrow(s: Seq<u32>) -> Seq<u8> {
    s.map_values(|t: u32| t as u8)
}

/// Narrowing undoes widening.
proof fn lemma_narrow_widen(k: Seq<u8>)
    ensures
        narrow(widen(k)) == k,
{
    assert(narrow(widen(k)) =~= k);
}

/// `c` lists the counted byte strings, each once, as sequences of byte
/// tokens with their counts as duplicates.
pub open spec fn lists_counts(c: Seq<(Seq<u32>, nat)>, counts: Map<Seq<u8>, nat>) -> bool {
    &&& c.len() == counts.dom().len()
    &&& forall|s: int|
        0 <= s < c.len() ==> counts.contains_key(narrow(#[trigger] c[s].0)) && c[s] == (
            widen(narrow(c[s].0)),
            counts[narrow(c[s].0)],
        )
    &&& forall|k: Seq<u8>| #[trigger] counts.contains_key(k) ==> exists|s: int| 0 <= s < c.len() && #[trigger] c[s].0 == widen(k)
    &&& forall|s: int, t: int| 0 <= s < t < c.len() ==> #[trigger] c[s].0 != #[trigger] c[t].0
}

/// Two listings of the same counts have the same entries, counted with
/// repeats: they differ only in order.
pub proof fn lemma_listings_same_entries(c1: Seq<(Seq<u32>, nat)>, c2: Seq<(Seq<u32>, nat)>, counts: Map<Seq<u8>, nat>)
    requires
        lists_counts(c1, counts),
        lists_counts(c2, counts),
    ensures
        c1.to_multiset() == c2.to_multiset(),
{
    broadcast use vstd::seq_lib::group_to_multiset_ensures;
    broadcast use vstd::multiset::group_multiset_axioms;

    assert forall|i: int, j: int| 0 <= i < c1.len() && 0 <= j < c1.len() && i != j implies c1[i] != c1[j] by {
        if i < j {
            assert(c1[i].0 != c1[j].0);
        } else {
            assert(c1[j].0 != c1[i].0);
        }
    }
    assert forall|i: int, j: int| 0 <= i < c2.len() && 0 <= j < c2.len() && i != j implies c2[i] != c2[j] by {
        if i < j {
            assert(c2[i].0 != c2[j].0);
        } else {
            assert(c2[j].0 != c2[i].0);
        }
    }
    assert(c1.no_duplicates());
    assert(c2.no_duplicates());
    c1.lemma_multiset_has_no_duplicates();
    c2.lemma_multiset_has_no_duplicates();
    assert forall|x: (Seq<u32>, nat)| c1.contains(x) implies c2.contains(x) by {
        let s = choose|s: int| 0 <= s < c1.len() && c1[s] == x;
        let k = narrow(c1[s].0);
        let t = choose|t: int| 0 <= t < c2.len() && #[trigger] c2[t].0 == widen(k);
        lemma_narrow_widen(k);
        assert(c2[t] == x);
    }
    assert forall|x: (Seq<u32>, nat)| c2.contains(x) implies c1.contains(x) by {
        let s = choose|s: int| 0 <= s < c2.len() && c2[s] == x;
        let k = narrow(c2[s].0);
        let t = choose|t: int| 0 <= t < c1.len() && #[trigger] c1[t].0 == widen(k);
        lemma_narrow_widen(k);
        assert(c1[t] == x);
    }
    assert forall|x: (Seq<u32>, nat)| c1.to_multiset().count(x) == c2.to_multiset().count(x) by {
        if c1.contains(x) {
            assert(c2.contains(x));
        } else if c2.contains(x) {
            assert(c1.contains(x));
        }
    }
    assert(c1.to_multiset() =~= c2.to_multiset());
}

/// The dictionary training starts from: the 256 bytes, then the special
/// tokens in their order.
pub open spec fn initial_dict(specials: Seq<Seq<u8>>) -> Map<u32, Seq<u8>> {
    Map::new(
        |k: u32| k < 256 + specials.len(),
        |k: u32|
            if k < 256 {
                seq![k as u8]
            } else {
                specials[k - 256]
            },
    )
}

/// The UTF-8 bytes of each string.
pub open spec fn strings_bytes(strings: Seq<String>) -> Seq<Seq<u8>> {
    strings.map_values(|s: String| vstd::utf8::encode_utf8(s@))
}

/// The byte-string view of a merge list.
pub open spec fn merges_view(merges: Seq<(Vec<u8>, Vec<u8>)>) -> Seq<(Seq<u8>, Seq<u8>)> {
    merges.map_values(|m: (Vec<u8>, Vec<u8>)| (m.0@, m.1@))
}

/// Keys of a token dictionary `0..n`.
pub open spec fn dict_keys_below(dict: Map<u32, Vec<u8>>, n: nat) -> bool {
    &&& dict.dom().finite()
    &&& dict.dom().len() == n
    &&& forall|k: u32| #[trigger] dict.contains_key(k) <==> k < n
}

/// The dictionary to start training from: the 256 single bytes as tokens
/// `0..256`, then the special tokens.
pub fn starting_token_dict(tokens: &Vec<String>) -> (r: HashMap<u32, Vec<u8>>)
    requires
        tokens@.len() + 256 <= u32::MAX,
    ensures
        dict_keys_below(r@, 256 + tokens@.len()),
        dict_bytes(r@) == initial_dict(strings_bytes(tokens@)),
        forall|b: int| 0 <= b < 256 ==> #[trigger] r@[b as u32]@ == seq![b as u8],
        forall|i: int| 0 <= i < tokens@.len() ==> #[trigger] r@[(256 + i) as u32]@ == encode_utf8(tokens@[i]@),
{
    let ghost specials = strings_bytes(tokens@);
    let mut ret: HashMap<u32, Vec<u8>> = HashMap::new();
    let mut i: u32 = 0;
    proof {
        assert(ret@.dom() =~= Set::<u32>::empty());
    }
    while i < 256
        invariant
            i <= 256,
            dict_keys_below(ret@, i as nat),
            forall|k: u32| #[trigger] ret@.contains_key(k) ==> ret@[k]@ == seq![k as u8],
        decreases 256 - i,
    {
        let mut byte: Vec<u8> = Vec::new();
        byte.push(i as u8);
        let ghost before = ret@;
        ret.insert(i, byte);
        proof {
            assert(ret@.dom() =~= before.dom().insert(i));
            assert(!before.dom().contains(i));
        }
        i = i + 1;
    }
    let mut j: usize = 0;
    while j < tokens.len()
        invariant
            specials == strings_bytes(tokens@),
            tokens@.len() + 256 <= u32::MAX,
            j <= tokens@.len(),
            dict_keys_below(ret@, 256 + j as nat),
            forall|k: u32| #[trigger] ret@.contains_key(k) && k < 256 ==> ret@[k]@ == seq![k as u8],
            forall|k: u32| #[trigger] ret@.contains_key(k) && k >= 256 ==> ret@[k]@ == specials[k - 256],
        decreases tokens@.len() - j,
    {
        let bytes = vstd::slice::slice_to_vec(tokens[j].as_str().as_bytes());
        let key = (256 + j) as u32;
        proof {
            assert(ret@.len() == 256 + j);
        }
        let ghost before = ret@;
        ret.insert(key, bytes);
        proof {
            assert(ret@.dom() =~= before.dom().insert(key));
            assert(!before.dom().contains(key));
            assert(specials[j as int] == vstd::utf8::encode_utf8(tokens@[j as int]@));
        }
        j = j + 1;
    }
    proof {
        assert(dict_bytes(ret@) =~= initial_dict(specials));
        assert forall|b: int| 0 <= b < 256 implies #[trigger] ret@[b as u32]@ == seq![b as u8] by {
            assert(ret@.contains_key(b as u32));
        }
        assert forall|i: int| 0 <= i < tokens@.len() implies #[trigger] ret@[(256 + i) as u32]@ == encode_utf8(
            tokens@[i]@,
        ) by {
            assert(ret@.contains_key((256 + i) as u32));
            assert(specials[i] == encode_utf8(tokens@[i]@));
        }
    }
    ret
}

/// The starting dictionary holds exactly the ids below 256 plus one per
/// special token: byte `b` as token `b`, and special token `i`, in the
/// order given, as token `256 + i`.
pub proof fn lemma_initial_dict(tokens: Seq<String>)
    requires
        tokens.len() + 256 <= u32::MAX,
    ensures
        forall|k: u32| #[trigger] initial_dict(strings_bytes(tokens)).contains_key(k) <==> k < 256 + tokens.len(),
        forall|b: int| 0 <= b < 256 ==> #[trigger] initial_dict(strings_bytes(tokens))[b as u32] == seq![b as u8],
        forall|i: int|
            0 <= i < tokens.len() ==> #[trigger] initial_dict(strings_bytes(tokens))[(256 + i) as u32] == encode_utf8(
                tokens[i]@,
            ),
{
    assert forall|i: int| 0 <= i < tokens.len() implies #[trigger] initial_dict(strings_bytes(tokens))[(256
        + i) as u32] == encode_utf8(tokens[i]@) by {
        assert(((256 + i) as u32) - 256 == i);
    }
}

/// Every key of `m`, counted once.
pub open spec fn once_each(m: Map<Seq<u8>, nat>) -> Map<Seq<u8>, nat> {
    Map::new(|k: Seq<u8>| m.contains_key(k), |k: Seq<u8>| 1nat)
}

/// The total length of the distinct keys of `m`.
pub open spec fn keys_bytes(m: Map<Seq<u8>, nat>) -> int {
    weight_of(once_each(m))
}

/// A listing of keys is no heavier than the whole.
proof fn lemma_keys_weight_prefix(m: Map<Seq<u8>, nat>, keys: Seq<Seq<u8>>, i: int)
    requires
        0 <= i <= keys.len(),
    ensures
        0 <= keys_weight(m, keys.take(i)) <= keys_weight(m, keys),
    decreases keys.len() - i,
{
    if i < keys.len() {
        lemma_keys_weight_prefix(m, keys, i + 1);
        assert(keys.take(i + 1).drop_last() =~= keys.take(i));
        assert(keys.take(i + 1).last() == keys[i]);
        let k = keys[i];
        assert(0 <= m[k] * k.len()) by (nonlinear_arith);
        lemma_keys_weight_nonneg(m, keys.take(i));
    } else {
        assert(keys.take(i) =~= keys);
        lemma_keys_weight_nonneg(m, keys);
    }
}

/// Weights are not negative.
proof fn lemma_keys_weight_nonneg(m: Map<Seq<u8>, nat>, keys: Seq<Seq<u8>>)
    ensures
        0 <= keys_weight(m, keys),
    decreases keys.len(),
{
    if keys.len() > 0 {
        lemma_keys_weight_nonneg(m, keys.drop_last());
        let k = keys.last();
        assert(0 <= m[k] * k.len()) by (nonlinear_arith);
    }
}

/// Turns each byte into a token.
fn widen_bytes(k: &[u8]) -> (r: Vec<u32>)
    ensures
        r@ == widen(k@),
{
    let mut out: Vec<u32> = Vec::new();
    let mut i: usize = 0;
    while i < k.len()
        invariant
            i <= k@.len(),
            out@ == widen(k@.take(i as int)),
        decreases k@.len() - i,
    {
        out.push(k[i] as u32);
        i = i + 1;
        proof {
            assert(widen(k@.take(i as int)) =~= widen(k@.take(i - 1)).push(k@[i - 1] as u32));
        }
    }
    proof {
        assert(k@.take(i as int) =~= k@);
    }
    out
}

/// Widening is one to one.
proof fn lemma_widen_injective(a: Seq<u8>, b: Seq<u8>)
    requires
        widen(a) == widen(b),
    ensures
        a == b,
{
    assert(widen(a).len() == a.len());
    assert(widen(b).len() == b.len());
    assert forall|i: int| 0 <= i < a.len() implies a[i] == b[i] by {
        assert(widen(a)[i] == a[i] as u32);
        assert(widen(b)[i] == b[i] as u32);
        assert(widen(a)[i] == widen(b)[i]);
    }
    assert(a =~= b);
}

/// Whether a shard can hold the counted sequences of `chunks`.
pub fn counts_fit_shard(chunks: &SequenceBuilder) -> (r: bool)
    requires
        chunks.wf(),
    ensures
        r == shard_fits(chunks.view()),
{
    let ghost m = chunks.view();
    let ghost m1 = once_each(m);
    let entries = chunks.counts();
    let ghost keys = entries@.map_values(|e: (Vec<u8>, usize)| e.0@);
    proof {
        keys.unique_seq_to_set();
        chunks.lemma_counts_positive();
        assert(m1.dom() =~= m.dom());
        lemma_keys_weight(m1, keys);
        assert(keys.take(0) =~= Seq::<Seq<u8>>::empty());
    }
    let mut bytes: u64 = 0;
    let mut i: usize = 0;
    while i < entries.len()
        invariant
            m == chunks.view(),
            m1 == once_each(m),
            keys == entries@.map_values(|e: (Vec<u8>, usize)| e.0@),
            keys.no_duplicates(),
            keys.to_set() == m.dom(),
            forall|j: int| 0 <= j < entries@.len() ==> #[trigger] m[entries@[j].0@] == entries@[j].1,
            keys_weight(m1, keys) == keys_bytes(m),
            i <= entries@.len(),
            bytes == keys_weight(m1, keys.take(i as int)),
            bytes <= u32::MAX,
            forall|j: int| 0 <= j < i ==> #[trigger] m[keys[j]] <= u32::MAX,
        decreases entries@.len() - i,
    {
        let len = entries[i].0.len();
        let v = entries[i].1;
        proof {
            assert(keys[i as int] == entries@[i as int].0@);
            assert(m.contains_key(keys[i as int])) by {
                assert(keys.to_set().contains(keys[i as int]));
            }
            assert(m1[keys[i as int]] == 1);
            assert(keys.take(i + 1).drop_last() =~= keys.take(i as int));
            assert(keys.take(i + 1).last() == keys[i as int]);
            assert(keys_weight(m1, keys.take(i + 1)) == bytes + 1 * len);
            lemma_keys_weight_prefix(m1, keys, i + 1);
        }
        if v as u64 > 4294967295u64 {
            proof {
                assert(m[keys[i as int]] > u32::MAX);
            }
            return false;
        }
        if len as u64 > 4294967295u64 - bytes {
            return false;
        }
        bytes = bytes + len as u64;
        i = i + 1;
    }
    proof {
        assert(keys.take(i as int) =~= keys);
        assert forall|k: Seq<u8>| #[trigger] m.contains_key(k) implies m[k] <= u32::MAX by {
            assert(keys.to_set().contains(k));
            let j = choose|j: int| 0 <= j < keys.len() && keys[j] == k;
        }
    }
    true
}

/// Put every counted sequence into a shard, with its count as the number
/// of duplicates it stands for.
pub fn generate_sequence_shards_with_stats(chunks: SequenceBuilder) -> (r: SequenceShard)
    requires
        chunks.wf(),
        forall|k: Seq<u8>| #[trigger] chunks.view().contains_key(k) ==> k.len() > 0,
        shard_fits(chunks.view()),
        weight_of(chunks.view()) <= i64::MAX,
    ensures
        r.wf(),
        lists_counts(shard_corpus(r), chunks.view()),
        r.weight() == weight_of(chunks.view()),
        r.storage_len() == keys_bytes(chunks.view()),
        r.num_sequences() <= r.storage_len() <= r.weight(),
{
    let ghost m = chunks.view();
    let ghost m1 = once_each(m);
    let entries = chunks.counts();
    let ghost keys = entries@.map_values(|e: (Vec<u8>, usize)| e.0@);
    let mut shard = SequenceShard::new();
    let mut i: usize = 0;
    proof {
        lemma_keys_weight(m, keys);
        assert(keys.take(0) =~= Seq::<Seq<u8>>::empty());
        keys.unique_seq_to_set();
        chunks.lemma_counts_positive();
        assert(m1.dom() =~= m.dom());
        lemma_keys_weight(m1, keys);
    }
    while i < entries.len()
        invariant
            m == chunks.view(),
            chunks.wf(),
            keys == entries@.map_values(|e: (Vec<u8>, usize)| e.0@),
            keys.no_duplicates(),
            keys.to_set() == m.dom(),
            keys.len() == m.dom().len(),
            forall|j: int| 0 <= j < entries@.len() ==> #[trigger] m[entries@[j].0@] == entries@[j].1,
            forall|k: Seq<u8>| #[trigger] m.contains_key(k) ==> k.len() > 0,
            keys_weight(m, keys) == weight_of(m),
            weight_of(m) <= i64::MAX,
            m1 == once_each(m),
            keys_weight(m1, keys) == keys_bytes(m),
            keys_bytes(m) <= u32::MAX,
            forall|k: Seq<u8>| #[trigger] m.contains_key(k) ==> m[k] <= u32::MAX,
            shard.storage_len() == keys_weight(m1, keys.take(i as int)),
            i <= entries@.len(),
            shard.wf(),
            shard.num_sequences() == i,
            forall|s: int| 0 <= s < i ==> #[trigger] shard.view()[s] == widen(keys[s]),
            forall|s: int| 0 <= s < i ==> #[trigger] shard.dup(s) == m[keys[s]],
            shard.weight() == keys_weight(m, keys.take(i as int)),
            shard.num_sequences() <= shard.storage_len() <= shard.weight(),
        decreases entries@.len() - i,
    {
        let k = &entries[i].0;
        let v = entries[i].1;
        let ghost before = shard;
        proof {
            assert(keys[i as int] == k@);
            assert(m.contains_key(k@)) by {
                assert(keys.to_set().contains(k@));
            }
            assert(m[k@] > 0) by {
                chunks.lemma_counts_positive();
            }
            lemma_keys_weight_prefix(m, keys, i + 1);
            lemma_keys_weight_prefix(m1, keys, i + 1);
            assert(m1[k@] == 1);
            assert(keys.take(i + 1).drop_last() =~= keys.take(i as int));
            assert(keys.take(i + 1).last() == k@);
            assert(keys_weight(m1, keys.take(i + 1)) == keys_weight(m1, keys.take(i as int)) + 1 * k@.len());
            assert(shard.storage_len() + k@.len() <= u32::MAX);
            let l = k@.len();
            let d = m[k@];
            assert(l <= d * l) by (nonlinear_arith)
                requires
                    d >= 1,
            ;
            assert(d <= d * l) by (nonlinear_arith)
                requires
                    l >= 1,
            ;
        }
        let tokens = widen_bytes(k.as_slice());
        shard.push(tokens.as_slice(), v as u32);
        proof {
            shard.lemma_view_len();
            assert forall|s: int| 0 <= s < i + 1 implies #[trigger] shard.view()[s] == widen(keys[s]) by {
                if s < i {
                    assert(shard.view()[s] == before.view()[s]);
                }
            }
        }
        i = i + 1;
    }
    proof {
        assert(keys.take(i as int) =~= keys);
        let c = shard_corpus(shard);
        shard.lemma_view_len();
        assert(c.len() == m.dom().len());
        assert forall|s: int| 0 <= s < c.len() implies m.contains_key(narrow(#[trigger] c[s].0)) && c[s] == (
            widen(narrow(c[s].0)),
            m[narrow(c[s].0)],
        ) by {
            assert(keys.to_set().contains(keys[s]));
            assert(m.contains_key(keys[s]));
            lemma_narrow_widen(keys[s]);
            assert(c[s] == (widen(keys[s]), m[keys[s]]));
        }
        assert forall|k: Seq<u8>| #[trigger] m.contains_key(k) implies exists|s: int| 0 <= s < c.len() && #[trigger] c[s].0
            == widen(k) by {
            assert(keys.to_set().contains(k));
            let s = choose|s: int| 0 <= s < keys.len() && keys[s] == k;
            assert(c[s].0 == widen(k));
        }
        assert forall|s: int, t: int| 0 <= s < t < c.len() implies #[trigger] c[s].0 != #[trigger] c[t].0 by {
            if c[s].0 == c[t].0 {
                lemma_widen_injective(keys[s], keys[t]);
            }
        }
        assert(lists_counts(c, m));
    }
    shard
}

/// The size that chunks of the corpus are cut at, before the search for
/// the separator.
pub const CHUNK_SIZE: usize = 1048576;

/// How far at a time the search for the separator reads ahead.
pub const READAHEAD: usize = 4096;

/// The chunks that the corpus is cut into at the first special token.
pub open spec fn corpus_chunks(buf: Seq<u8>, sep: Seq<u8>) -> Seq<Seq<u8>> {
    chunks_from(buf, sep, 0, CHUNK_SIZE as int, READAHEAD as int)
}

/// The pretokens of one chunk, where both patterns compile.
pub open spec fn chunk_pretokens(chunk: Seq<u8>, split_pattern: Seq<u8>) -> Option<Seq<Seq<u8>>> {
    if regex_compiles(split_pattern) && regex_compiles(gpt2_source()) {
        training_pretokens(chunk, split_pattern)
    } else {
        None
    }
}

/// The pretokens of the chunks, one chunk after the other; `None` where
/// those of a chunk are.
pub open spec fn corpus_pretokens(chunks: Seq<Seq<u8>>, split_pattern: Seq<u8>) -> Option<Seq<Seq<u8>>>
    decreases chunks.len(),
{
    if chunks.len() == 0 {
        Some(Seq::empty())
    } else {
        match (corpus_pretokens(chunks.drop_last(), split_pattern), chunk_pretokens(chunks.last(), split_pattern)) {
            (Some(a), Some(b)) => Some(a + b),
            _ => None,
        }
    }
}

/// The pretokens of a corpus cut anywhere into two parts are those of the
/// first part followed by those of the second, so the corpus's counts are
/// the counts of the two parts added up.
pub proof fn lemma_corpus_pretokens_split(x: Seq<Seq<u8>>, y: Seq<Seq<u8>>, split_pattern: Seq<u8>)
    requires
        corpus_pretokens(x + y, split_pattern) is Some,
    ensures
        corpus_pretokens(x, split_pattern) is Some,
        corpus_pretokens(y, split_pattern) is Some,
        corpus_pretokens(x + y, split_pattern).unwrap() == corpus_pretokens(x, split_pattern).unwrap()
            + corpus_pretokens(y, split_pattern).unwrap(),
        counts_of(corpus_pretokens(x + y, split_pattern).unwrap()) == crate::builder::merged_counts(
            counts_of(corpus_pretokens(x, split_pattern).unwrap()),
            counts_of(corpus_pretokens(y, split_pattern).unwrap()),
        ),
    decreases y.len(),
{
    if y.len() == 0 {
        assert(x + y =~= x);
        assert(corpus_pretokens(x, split_pattern).unwrap() + Seq::<Seq<u8>>::empty() =~= corpus_pretokens(
            x,
            split_pattern,
        ).unwrap());
    } else {
        assert((x + y).drop_last() =~= x + y.drop_last());
        assert((x + y).last() == y.last());
        lemma_corpus_pretokens_split(x, y.drop_last(), split_pattern);
        let a = corpus_pretokens(x, split_pattern).unwrap();
        let b = corpus_pretokens(y.drop_last(), split_pattern).unwrap();
        let c = chunk_pretokens(y.last(), split_pattern).unwrap();
        assert(corpus_pretokens(y, split_pattern) == Some(b + c));
        assert(corpus_pretokens(x + y, split_pattern) == Some((a + b) + c));
        assert((a + b) + c =~= a + (b + c));
    }
    lemma_counts_of_concat(corpus_pretokens(x, split_pattern).unwrap(), corpus_pretokens(y, split_pattern).unwrap());
}

/// A chunk that pretokenization stops at: it is not valid UTF-8, or its
/// pretokens are `None`.
pub open spec fn chunk_fails(chunk: Seq<u8>, split_pattern: Seq<u8>) -> bool {
    !valid_utf8(chunk) || chunk_pretokens(chunk, split_pattern) is None
}

/// The first chunk from `i` on that pretokenization stops at.
pub open spec fn first_failing_from(chunks: Seq<Seq<u8>>, split_pattern: Seq<u8>, i: int) -> Option<int>
    decreases chunks.len() - i,
{
    if i < 0 || i >= chunks.len() {
        None
    } else if chunk_fails(chunks[i], split_pattern) {
        Some(i)
    } else {
        first_failing_from(chunks, split_pattern, i + 1)
    }
}

/// The first chunk that pretokenization stops at.
pub open spec fn first_failing(chunks: Seq<Seq<u8>>, split_pattern: Seq<u8>) -> Option<int> {
    first_failing_from(chunks, split_pattern, 0)
}

/// Where pretokenization ends, unless it is asked to stop: with
/// `TooLarge` where progress is reported and the number of chunks does not
/// fit in a `u32`; else with the pretokens when no chunk fails, else with
/// the error of the first chunk that fails.
pub open spec fn pretokenization_outcome(
    chunks: Seq<Seq<u8>>,
    split_pattern: Seq<u8>,
    counting: bool,
    r: Result<SequenceBuilder, BpeError>,
) -> bool {
    if counting && chunks.len() > u32::MAX {
        r matches Err(BpeError::TooLarge)
    } else {
        match first_failing(chunks, split_pattern) {
            None => r is Ok,
            Some(i) => if valid_utf8(chunks[i]) {
                r matches Err(BpeError::RegexFailed)
            } else {
                r matches Err(BpeError::InvalidUtf8)
            },
        }
    }
}

/// A shard can hold these counted pretokens: every count, and the total
/// length of the distinct pretokens, fit in a `u32`.
pub open spec fn shard_fits(m: Map<Seq<u8>, nat>) -> bool {
    &&& forall|k: Seq<u8>| #[trigger] m.contains_key(k) ==> m[k] <= u32::MAX
    &&& keys_bytes(m) <= u32::MAX
}

/// The dictionary and merges of a result, as maps and sequences of bytes.
pub open spec fn result_view(r: Result<(HashMap<u32, Vec<u8>>, Vec<(Vec<u8>, Vec<u8>)>), BpeError>) -> Result<
    (Map<u32, Seq<u8>>, Seq<(Seq<u8>, Seq<u8>)>),
    BpeError,
> {
    match r {
        Ok(res) => Ok((dict_bytes(res.0@), merges_view(res.1@))),
        Err(e) => Err(e),
    }
}

/// Where training ends, unless it is asked to stop: with `TooLarge` where
/// progress is reported and the number of chunks does not fit in a `u32`;
/// else with the error of the first chunk that pretokenization fails at;
/// else with `TooLarge` where progress is reported and the number of
/// distinct pretokens does not fit in a `u32`, or where a shard cannot hold
/// the counted pretokens; else with what training from a listing of the
/// counted pretokens gives.
pub open spec fn training_outcome(
    chunks: Seq<Seq<u8>>,
    split_pattern: Seq<u8>,
    counting: bool,
    start: Map<u32, Seq<u8>>,
    n0: nat,
    target: nat,
    r: Result<(HashMap<u32, Vec<u8>>, Vec<(Vec<u8>, Vec<u8>)>), BpeError>,
) -> bool {
    if counting && chunks.len() > u32::MAX {
        r matches Err(BpeError::TooLarge)
    } else {
        match first_failing(chunks, split_pattern) {
            Some(i) => if valid_utf8(chunks[i]) {
                r matches Err(BpeError::RegexFailed)
            } else {
                r matches Err(BpeError::InvalidUtf8)
            },
            None => {
                &&& corpus_pretokens(chunks, split_pattern) is Some
                &&& if (counting && counts_of(corpus_pretokens(chunks, split_pattern).unwrap()).dom().len() > u32::MAX)
                    || !shard_fits(counts_of(corpus_pretokens(chunks, split_pattern).unwrap())) {
                    r matches Err(BpeError::TooLarge)
                } else {
                    &&& (r is Ok || r matches Err(BpeError::AmbiguousMerge) || r matches Err(BpeError::NoPairsLeft)
                        || r matches Err(BpeError::TooLarge))
                    &&& exists|c: Seq<(Seq<u32>, nat)>| #[trigger]
                        lists_counts(c, counts_of(corpus_pretokens(chunks, split_pattern).unwrap()))
                    &&& forall|c: Seq<(Seq<u32>, nat)>|
                        #[trigger] lists_counts(c, counts_of(corpus_pretokens(chunks, split_pattern).unwrap()))
                            ==> train_from(c, start, n0, Seq::empty(), target) == result_view(r)
                }
            },
        }
    }
}

/// Some chunk is not valid UTF-8.
pub open spec fn some_chunk_invalid(chunks: Seq<Seq<u8>>) -> bool {
    exists|i: int| 0 <= i < chunks.len() && !valid_utf8(#[trigger] chunks[i])
}

/// Training is deterministic: two results that both end where training
/// on the same chunks ends are the same dictionary and the same merges in
/// the same order, or the same error.
pub proof fn lemma_training_outcome_unique(
    chunks: Seq<Seq<u8>>,
    split_pattern: Seq<u8>,
    counting: bool,
    start: Map<u32, Seq<u8>>,
    n0: nat,
    target: nat,
    r1: Result<(HashMap<u32, Vec<u8>>, Vec<(Vec<u8>, Vec<u8>)>), BpeError>,
    r2: Result<(HashMap<u32, Vec<u8>>, Vec<(Vec<u8>, Vec<u8>)>), BpeError>,
)
    requires
        training_outcome(chunks, split_pattern, counting, start, n0, target, r1),
        training_outcome(chunks, split_pattern, counting, start, n0, target, r2),
    ensures
        result_view(r1) == result_view(r2),
{
    if !(counting && chunks.len() > u32::MAX) && first_failing(chunks, split_pattern) is None
        && !((counting && counts_of(corpus_pretokens(chunks, split_pattern).unwrap()).dom().len() > u32::MAX)
        || !shard_fits(counts_of(corpus_pretokens(chunks, split_pattern).unwrap()))) {
        let c = choose|c: Seq<(Seq<u32>, nat)>| #[trigger]
            lists_counts(c, counts_of(corpus_pretokens(chunks, split_pattern).unwrap()));
        assert(train_from(c, start, n0, Seq::empty(), target) == result_view(r1));
        assert(train_from(c, start, n0, Seq::empty(), target) == result_view(r2));
    }
}

/// Once the pretokens of some chunks are `None`, so are those of more.
proof fn lemma_corpus_pretokens_none(chunks: Seq<Seq<u8>>, sp: Seq<u8>, k: int)
    requires
        0 <= k <= chunks.len(),
        corpus_pretokens(chunks.take(k), sp) is None,
    ensures
        corpus_pretokens(chunks, sp) is None,
    decreases chunks.len() - k,
{
    if k < chunks.len() {
        assert(chunks.take(k + 1).drop_last() =~= chunks.take(k));
        lemma_corpus_pretokens_none(chunks, sp, k + 1);
    } else {
        assert(chunks.take(k) =~= chunks);
    }
}

/// A list of nonempty byte strings is no longer than its total length.
proof fn lemma_parts_len(parts: Seq<Seq<u8>>)
    requires
        forall|i: int| 0 <= i < parts.len() ==> #[trigger] parts[i].len() > 0,
    ensures
        parts.len() <= crate::chunks::joined(parts).len(),
    decreases parts.len(),
{
    if parts.len() > 0 {
        lemma_parts_len(parts.drop_last());
    }
}

/// The total length of the first chunks.
proof fn lemma_joined_take(parts: Seq<Seq<u8>>, k: int)
    requires
        0 <= k < parts.len(),
    ensures
        crate::chunks::joined(parts.take(k + 1)).len() == crate::chunks::joined(parts.take(k)).len() + parts[k].len(),
        crate::chunks::joined(parts.take(k + 1)).len() <= crate::chunks::joined(parts).len(),
    decreases parts.len() - k,
{
    assert(parts.take(k + 1).drop_last() =~= parts.take(k));
    if k + 1 < parts.len() {
        lemma_joined_take(parts, k + 1);
    } else {
        assert(parts.take(k + 1) =~= parts);
    }
}

/// Pretokenize the corpus for training: cut it into chunks at the first
/// special token, pretokenize each chunk in turn and count the pretokens of
/// all chunks together.
pub fn pretokenize_for_training(
    m: &[u8],
    special_tokens: &Vec<String>,
    progress_info: &Option<Arc<ProgressInfo>>,
) -> (r: Result<SequenceBuilder, BpeError>)
    requires
        m@.len() + CHUNK_SIZE <= usize::MAX,
        special_tokens@.len() > 0 ==> m@.len() + encode_utf8(special_tokens@[0]@).len() <= usize::MAX,
    ensures
        special_tokens@.len() == 0 <==> r matches Err(BpeError::SpecialTokensRequired),
        *progress_info is None ==> !(r matches Err(BpeError::Stopped)),
        special_tokens@.len() > 0 ==> {
            let chunks = corpus_chunks(m@, strings_bytes(special_tokens@)[0]);
            let split = split_source(strings_bytes(special_tokens@));
            &&& r matches Ok(b) ==> {
                &&& corpus_pretokens(chunks, split) is Some
                &&& b.wf()
                &&& b.view() == counts_of(corpus_pretokens(chunks, split).unwrap())
                &&& forall|i: int|
                    0 <= i < corpus_pretokens(chunks, split).unwrap().len() ==> #[trigger] corpus_pretokens(
                        chunks,
                        split,
                    ).unwrap()[i].len() > 0
                &&& bytes_len(corpus_pretokens(chunks, split).unwrap()) <= m@.len()
            }
            &&& r matches Err(e) ==> {
                ||| e is Stopped
                ||| e is TooLarge && *progress_info is Some && chunks.len() > u32::MAX
                ||| e is InvalidUtf8 && some_chunk_invalid(chunks)
                ||| e is RegexFailed && corpus_pretokens(chunks, split) is None
            }
            &&& !(r matches Err(BpeError::Stopped)) ==> pretokenization_outcome(chunks, split, *progress_info is Some, r)
        },
{
    let ghost specials = strings_bytes(special_tokens@);
    // For now just use the first special token
    let mut special_tokens_str: Vec<&str> = Vec::new();
    let mut k: usize = 0;
    while k < special_tokens.len()
        invariant
            k <= special_tokens@.len(),
            special_tokens_str@.len() == k,
            forall|j: int| 0 <= j < k ==> (#[trigger] special_tokens_str@[j])@ == special_tokens@[j]@,
        decreases special_tokens@.len() - k,
    {
        special_tokens_str.push(special_tokens[k].as_str());
        k = k + 1;
    }
    proof {
        assert(texts_bytes(special_tokens_str@) =~= specials);
    }
    if special_tokens.len() == 0 {
        return Err(BpeError::SpecialTokensRequired);
    }
    let first_token = special_tokens[0].as_str().as_bytes();
    let chunks = chunk_with_readahead(m, first_token, CHUNK_SIZE, READAHEAD);
    let ghost all = slices_view(chunks@);
    let ghost split = split_source(specials);
    proof {
        assert(all == corpus_chunks(m@, specials[0]));
        lemma_parts_len(all);
        assert(chunks@.len() == all.len());
    }
    if progress_info.is_some() && chunks.len() as u64 > 4294967295u64 {
        return Err(BpeError::TooLarge);
    }
    set_total_shards(progress_info, chunks.len() as u32);
    let mut ret = SequenceBuilder::new();
    let mut i: usize = 0;
    let ghost mut toks: Seq<Seq<u8>> = Seq::empty();
    proof {
        assert(all.take(0) =~= Seq::<Seq<u8>>::empty());
        assert(ret.view() =~= counts_of(toks));
    }
    while i < chunks.len()
        invariant
            special_tokens@.len() > 0,
            all == slices_view(chunks@),
            all == corpus_chunks(m@, specials[0]),
            !(*progress_info is Some && all.len() > u32::MAX),
            crate::chunks::joined(all) == m@,
            m@.len() + CHUNK_SIZE <= usize::MAX,
            split == split_source(specials),
            specials == strings_bytes(special_tokens@),
            texts_bytes(special_tokens_str@) == specials,
            i <= chunks@.len(),
            ret.wf(),
            corpus_pretokens(all.take(i as int), split) == Some(toks),
            first_failing_from(all, split, 0) == first_failing_from(all, split, i as int),
            ret.view() == counts_of(toks),
            forall|j: int| 0 <= j < toks.len() ==> #[trigger] toks[j].len() > 0,
            bytes_len(toks) <= crate::chunks::joined(all.take(i as int)).len(),
        decreases chunks@.len() - i,
    {
        if stop_requested(progress_info) {
            return Err(BpeError::Stopped);
        }
        let chunk = chunks[i];
        proof {
            assert(all[i as int] == chunk@);
            lemma_joined_take(all, i as int);
            assert(all.take(i + 1).drop_last() =~= all.take(i as int));
            assert(all.take(i + 1).last() == chunk@);
        }
        if utf8_str(chunk).is_none() {
            return Err(BpeError::InvalidUtf8);
        }
        let built = pretokenize_chunk_for_training(chunk, special_tokens_str.as_slice());
        let b = match built {
            Some(b) => b,
            None => {
                proof {
                    assert(corpus_pretokens(all.take(i + 1), split) is None);
                    lemma_corpus_pretokens_none(all, split, i + 1);
                }
                return Err(BpeError::RegexFailed);
            },
        };
        let ghost tb = training_pretokens(chunk@, split).unwrap();
        proof {
            assert(!chunk_fails(all[i as int], split));
            assert(first_failing_from(all, split, i as int) == first_failing_from(all, split, i + 1));
            lemma_counts_of_concat(toks, tb);
            crate::builder::lemma_weight_counts_of(toks + tb);
            lemma_bytes_len_concat(toks, tb);
            assert forall|key: Seq<u8>| #[trigger] count_in(ret.view(), key) + count_in(b.view(), key) <= usize::MAX by {
                lemma_counts_of_bound(toks + tb, key);
                lemma_tokens_le_bytes(toks + tb);
                assert(count_in(counts_of(toks + tb), key) == count_in(ret.view(), key) + count_in(b.view(), key));
            }
        }
        ret = SequenceBuilder::merge(ret, b);
        add_done_shard(progress_info);
        proof {
            toks = toks + tb;
        }
        i = i + 1;
    }
    proof {
        assert(all.take(i as int) =~= all);
        assert(first_failing_from(all, split, i as int) is None);
    }
    Ok(ret)
}

/// The total length of two lists together.
proof fn lemma_bytes_len_concat(a: Seq<Seq<u8>>, b: Seq<Seq<u8>>)
    ensures
        bytes_len(a + b) == bytes_len(a) + bytes_len(b),
    decreases b.len(),
{
    if b.len() == 0 {
        assert(a + b =~= a);
    } else {
        lemma_bytes_len_concat(a, b.drop_last());
        assert((a + b).drop_last() =~= a + b.drop_last());
    }
}

/// A list of nonempty byte strings has at most as many entries as bytes.
proof fn lemma_tokens_le_bytes(toks: Seq<Seq<u8>>)
    requires
        forall|i: int| 0 <= i < toks.len() ==> #[trigger] toks[i].len() > 0,
    ensures
        toks.len() <= bytes_len(toks),
    decreases toks.len(),
{
    if toks.len() > 0 {
        lemma_tokens_le_bytes(toks.drop_last());
    }
}

/// Every token of every sequence of the shard is below `n`.
pub open spec fn tokens_below(sh: SequenceShard, n: nat) -> bool {
    forall|s: int, i: int|
        0 <= s < sh.num_sequences() && 0 <= i < sh.view()[s].len() ==> #[trigger] sh.view()[s][i] < n
}

/// A pair that occurs in a shard whose tokens are below `n` is made of
/// tokens below `n`.
proof fn lemma_pair_below(sh: SequenceShard, n: nat, p: (u32, u32))
    requires
        sh.wf(),
        tokens_below(sh, n),
        sh.total(p) > 0,
    ensures
        p.0 < n,
        p.1 < n,
{
    let f = |s: int| (sh.dup(s) * pair_count(sh.view()[s], p)) as int;
    assert forall|s: int| 0 <= s < sh.num_sequences() implies 0 <= #[trigger] f(s) by {
        let d = sh.dup(s);
        let c = pair_count(sh.view()[s], p);
        assert(0 <= d * c) by (nonlinear_arith);
    }
    lemma_sum_below_positive(sh.num_sequences(), f);
    let s = choose|s: int| 0 <= s < sh.num_sequences() && #[trigger] f(s) > 0;
    let v = sh.view()[s];
    assert(pair_count(v, p) > 0) by {
        if pair_count(v, p) == 0 {
            assert(sh.dup(s) * pair_count(v, p) == 0);
        }
    }
    lemma_pair_count_tokens(v, p);
    let i = choose|i: int| 0 <= i < v.len() && v[i] == p.0;
    let j = choose|j: int| 0 <= j < v.len() && v[j] == p.1;
    assert(sh.view()[s][i] < n);
    assert(sh.view()[s][j] < n);
}

/// The bytes of `a` followed by those of `b`.
fn concat_bytes(a: &[u8], b: &[u8]) -> (r: Vec<u8>)
    ensures
        r@ == a@ + b@,
{
    let mut out = vstd::slice::slice_to_vec(a);
    let mut i: usize = 0;
    while i < b.len()
        invariant
            i <= b@.len(),
            out@ == a@ + b@.take(i as int),
        decreases b@.len() - i,
    {
        out.push(b[i]);
        i = i + 1;
        proof {
            assert(out@ =~= a@ + b@.take(i as int));
        }
    }
    proof {
        assert(b@.take(i as int) =~= b@);
    }
    out
}

/// A copy of the bytes that `dict` gives token `k`, which it holds.
fn dict_get(dict: &HashMap<u32, Vec<u8>>, k: u32) -> (r: Vec<u8>)
    requires
        dict@.contains_key(k),
    ensures
        r@ == dict@[k]@,
{
    match dict.get(&k) {
        Some(v) => vstd::slice::slice_to_vec(v.as_slice()),
        None => {
            proof {
                assert(false);
            }
            Vec::new()
        },
    }
}

/// Train a tokenizer on `buf`: start from the 256 bytes and the special
/// tokens, pretokenize the corpus (split at the special tokens, cut by the
/// GPT-2 pattern), then merge the most frequent pair into a new token until
/// `num_tokens` tokens exist. Returns the dictionary from token to bytes and
/// the list of merges, in order. Fails where no pair of tokens is left to
/// merge before then, and where two distinct pairs tie for the most
/// frequent. Only a caller that hands in progress information can have
/// training stopped.
#[verifier::rlimit(50)]
pub fn train_tokenizer(
    buf: &[u8],
    num_tokens: u32,
    special_tokens: Vec<String>,
    progress_info: Option<Arc<ProgressInfo>>,
) -> (r: Result<(HashMap<u32, Vec<u8>>, Vec<(Vec<u8>, Vec<u8>)>), BpeError>)
    requires
        buf@.len() <= isize::MAX,
        buf@.len() + CHUNK_SIZE <= usize::MAX,
        special_tokens@.len() + 256 <= u32::MAX,
        special_tokens@.len() > 0 ==> buf@.len() + encode_utf8(special_tokens@[0]@).len() <= usize::MAX,
    ensures
        num_tokens < 256 + special_tokens@.len() <==> r matches Err(BpeError::VocabTooSmall),
        num_tokens >= 256 + special_tokens@.len() && special_tokens@.len() == 0 <==> r matches Err(
            BpeError::SpecialTokensRequired,
        ),
        r matches Ok(res) ==> {
            &&& dict_keys_below(res.0@, num_tokens as nat)
            &&& res.1@.len() == num_tokens - 256 - special_tokens@.len()
        },
        progress_info is None ==> !(r matches Err(BpeError::Stopped)),
        r matches Err(BpeError::InvalidUtf8) ==> !valid_utf8(buf@) || strings_bytes(special_tokens@)[0].len() == 0,
        special_tokens@.len() > 0 && num_tokens >= 256 + special_tokens@.len() && !(r matches Err(
            BpeError::Stopped,
        )) ==> training_outcome(
            corpus_chunks(buf@, strings_bytes(special_tokens@)[0]),
            split_source(strings_bytes(special_tokens@)),
            progress_info is Some,
            initial_dict(strings_bytes(special_tokens@)),
            256 + special_tokens@.len(),
            num_tokens as nat,
            r,
        ),
{
    if num_tokens < 256 + special_tokens.len() as u32 {
        return Err(BpeError::VocabTooSmall);
    }
    let ghost specials = strings_bytes(special_tokens@);
    let mut token_dict = starting_token_dict(&special_tokens);
    let mut merge_list: Vec<(Vec<u8>, Vec<u8>)> = Vec::new();
    set_merges_done(&progress_info, token_dict.len() as u32);
    let chunks = match pretokenize_for_training(buf, &special_tokens, &progress_info) {
        Ok(b) => b,
        Err(e) => {
            proof {
                if special_tokens@.len() > 0 && specials[0].len() > 0 && valid_utf8(buf@) {
                    vstd::utf8::encode_utf8_valid_utf8(special_tokens@[0]@);
                    vstd::utf8::is_char_boundary_start_end_of_seq(buf@);
                    crate::chunks::lemma_chunks_valid_utf8(
                        buf@,
                        specials[0],
                        0,
                        CHUNK_SIZE as int,
                        READAHEAD as int,
                    );
                }
            }
            return Err(e);
        },
    };
    let ghost toks = corpus_pretokens(corpus_chunks(buf@, specials[0]), split_source(specials)).unwrap();
    let unique = chunks.len();
    if progress_info.is_some() && unique as u64 > 4294967295u64 {
        return Err(BpeError::TooLarge);
    }
    set_unique_sequences(&progress_info, unique as u32);
    proof {
        crate::builder::lemma_weight_counts_of(toks);
        assert forall|k: Seq<u8>| #[trigger] chunks.view().contains_key(k) implies k.len() > 0 by {
            lemma_counts_of_bound(toks, k);
            let j = choose|j: int| 0 <= j < toks.len() && toks[j] == k;
        }
        chunks.lemma_counts_positive();
    }
    if !counts_fit_shard(&chunks) {
        return Err(BpeError::TooLarge);
    }
    let mut shard = generate_sequence_shards_with_stats(chunks);
    let ghost c0 = shard_corpus(shard);
    let ghost w0 = shard.weight();
    proof {
        shard.lemma_view_len();
    }
    let ghost n0: nat = 256 + special_tokens@.len();
    let ghost target: nat = num_tokens as nat;
    proof {
        assert(merges_view(merge_list@) =~= Seq::<(Seq<u8>, Seq<u8>)>::empty());
        assert forall|s: int, i: int|
            0 <= s < shard.num_sequences() && 0 <= i < shard.view()[s].len() implies #[trigger] shard.view()[s][i]
            < n0 by {
            let c = shard_corpus(shard);
            assert(c[s].0 == shard.view()[s]);
            assert(c[s].0 == widen(narrow(c[s].0)));
        }
    }
    while token_dict.len() < num_tokens as usize
        invariant
            special_tokens@.len() > 0,
            n0 == 256 + special_tokens@.len(),
            specials == strings_bytes(special_tokens@),
            corpus_pretokens(corpus_chunks(buf@, specials[0]), split_source(specials)) == Some(toks),
            first_failing(corpus_chunks(buf@, specials[0]), split_source(specials)) is None,
            !(progress_info is Some && corpus_chunks(buf@, specials[0]).len() > u32::MAX),
            !(progress_info is Some && counts_of(toks).dom().len() > u32::MAX),
            shard_fits(counts_of(toks)),
            lists_counts(c0, counts_of(toks)),
            shard.wf(),
            0 <= shard.weight() <= w0,
            n0 <= target,
            target == num_tokens as nat,
            dict_keys_below(token_dict@, token_dict@.len()),
            n0 <= token_dict@.len() <= target,
            merge_list@.len() == token_dict@.len() - n0,
            tokens_below(shard, token_dict@.len()),
            train_from(shard_corpus(shard), dict_bytes(token_dict@), token_dict@.len(), merges_view(merge_list@), target)
                == train_from(c0, initial_dict(specials), n0, Seq::empty(), target),
        decreases target - token_dict@.len(),
    {
        let ghost n = token_dict@.len();
        let ghost c = shard_corpus(shard);
        let ghost d = dict_bytes(token_dict@);
        if !shard.totals_fit_u32() {
            proof {
                let p = choose|p: (u32, u32)| #[trigger] shard.total(p) > u32::MAX;
                crate::corpus::lemma_shard_total(shard, p);
                assert(!crate::corpus::totals_fit(c));
                let r: Result<(HashMap<u32, Vec<u8>>, Vec<(Vec<u8>, Vec<u8>)>), BpeError> = Err(BpeError::TooLarge);
                assert(train_from(c0, initial_dict(specials), n0, Seq::empty(), target) == result_view(r));
                assert(corpus_pretokens(corpus_chunks(buf@, specials[0]), split_source(specials)).unwrap() == toks);
                assert forall|c: Seq<(Seq<u32>, nat)>|
                    #[trigger] lists_counts(
                        c,
                        counts_of(corpus_pretokens(corpus_chunks(buf@, specials[0]), split_source(specials)).unwrap()),
                    ) implies train_from(c, initial_dict(specials), n0, Seq::empty(), target) == result_view(r) by {
                    lemma_listings_same_entries(c, c0, counts_of(toks));
                    crate::corpus::lemma_train_from_same_entries(c, c0, initial_dict(specials), n0, Seq::empty(), target);
                }
            }
            return Err(BpeError::TooLarge);
        }
        proof {
            assert forall|p: (u32, u32)| #[trigger] shard.total(p) > 0 implies pair_in_dict(p, d) by {
                lemma_pair_below(shard, n, p);
            }
            assert(crate::corpus::totals_fit(c)) by {
                assert forall|p: (u32, u32)| #[trigger] crate::corpus::corpus_total(c, p) <= u32::MAX by {
                    crate::corpus::lemma_shard_total(shard, p);
                }
            }
        }
        let biggest = match most_frequent_token(&token_dict, &shard) {
            Some(q) => q,
            None => {
                proof {
                    assert(next_merge(c, d) is None);
                    assert(train_from(c0, initial_dict(specials), n0, Seq::empty(), target) == Err::<
                        (Map<u32, Seq<u8>>, Seq<(Seq<u8>, Seq<u8>)>),
                        BpeError,
                    >(BpeError::AmbiguousMerge));
                    let r: Result<(HashMap<u32, Vec<u8>>, Vec<(Vec<u8>, Vec<u8>)>), BpeError> = Err(
                        BpeError::AmbiguousMerge,
                    );
                    assert(train_from(c0, initial_dict(specials), n0, Seq::empty(), target) == result_view(r));
                    assert(corpus_pretokens(corpus_chunks(buf@, specials[0]), split_source(specials)).unwrap() == toks);
                    assert forall|c: Seq<(Seq<u32>, nat)>|
                        #[trigger] lists_counts(
                            c,
                            counts_of(corpus_pretokens(corpus_chunks(buf@, specials[0]), split_source(specials)).unwrap()),
                        ) implies train_from(c, initial_dict(specials), n0, Seq::empty(), target) == result_view(r) by {
                        lemma_listings_same_entries(c, c0, counts_of(toks));
                        crate::corpus::lemma_train_from_same_entries(c, c0, initial_dict(specials), n0, Seq::empty(), target);
                    }
                    assert(lists_counts(c0, counts_of(toks)));
                    assert(first_failing(corpus_chunks(buf@, specials[0]), split_source(specials)) is None);
                    assert(training_outcome(
                        corpus_chunks(buf@, specials[0]),
                        split_source(specials),
                        progress_info is Some,
                        initial_dict(specials),
                        n0,
                        target,
                        r,
                    ));
                }
                return Err(BpeError::AmbiguousMerge);
            },
        };
        if shard.pair_total(biggest) <= 0 {
            proof {
                crate::corpus::lemma_shard_total(shard, biggest);
                assert(train_from(c0, initial_dict(specials), n0, Seq::empty(), target) == Err::<
                    (Map<u32, Seq<u8>>, Seq<(Seq<u8>, Seq<u8>)>),
                    BpeError,
                >(BpeError::NoPairsLeft));
                let r: Result<(HashMap<u32, Vec<u8>>, Vec<(Vec<u8>, Vec<u8>)>), BpeError> = Err(
                    BpeError::NoPairsLeft,
                );
                assert(train_from(c0, initial_dict(specials), n0, Seq::empty(), target) == result_view(r));
                assert(corpus_pretokens(corpus_chunks(buf@, specials[0]), split_source(specials)).unwrap() == toks);
                assert forall|c: Seq<(Seq<u32>, nat)>|
                    #[trigger] lists_counts(
                        c,
                        counts_of(corpus_pretokens(corpus_chunks(buf@, specials[0]), split_source(specials)).unwrap()),
                    ) implies train_from(c, initial_dict(specials), n0, Seq::empty(), target) == result_view(r) by {
                    lemma_listings_same_entries(c, c0, counts_of(toks));
                    crate::corpus::lemma_train_from_same_entries(c, c0, initial_dict(specials), n0, Seq::empty(), target);
                }
            }
            return Err(BpeError::NoPairsLeft);
        }
        proof {
            crate::corpus::lemma_shard_total(shard, biggest);
            lemma_pair_below(shard, n, biggest);
        }
        let new_token_id = token_dict.len() as u32;
        let ghost before = shard;
        shard.merge_pair(biggest, new_token_id);
        let first = dict_get(&token_dict, biggest.0);
        let second = dict_get(&token_dict, biggest.1);
        let new_token = concat_bytes(first.as_slice(), second.as_slice());
        let new_merge = (first, second);
        let ghost old_merges = merge_list@;
        merge_list.push(new_merge);
        let ghost old_dict = token_dict@;
        token_dict.insert(new_token_id, new_token);
        add_merge_done(&progress_info);
        proof {
            shard.lemma_view_len();
            before.lemma_view_len();
            SequenceShard::lemma_merge_weight(before, shard, biggest, new_token_id);
            assert(shard_corpus(shard) =~= merge_corpus(c, biggest, new_token_id));
            assert(token_dict@.dom() =~= old_dict.dom().insert(new_token_id));
            assert(!old_dict.dom().contains(new_token_id));
            assert(dict_bytes(token_dict@) =~= d.insert(new_token_id, d[biggest.0] + d[biggest.1]));
            assert(merges_view(merge_list@) =~= merges_view(old_merges).push((d[biggest.0], d[biggest.1])));
            assert forall|s: int, i: int|
                0 <= s < shard.num_sequences() && 0 <= i < shard.view()[s].len() implies #[trigger] shard.view()[s][i]
                < n + 1 by {
                lemma_merge_pair_in_tokens(before.view()[s], biggest, new_token_id, i);
                let x = shard.view()[s][i];
                if x != new_token_id {
                    let j = choose|j: int| 0 <= j < before.view()[s].len() && before.view()[s][j] == x;
                    assert(before.view()[s][j] < n);
                }
            }
        }
    }
    proof {
        assert(token_dict@.len() == target);
        let r: Result<(HashMap<u32, Vec<u8>>, Vec<(Vec<u8>, Vec<u8>)>), BpeError> = Ok((token_dict, merge_list));
        assert(train_from(c0, initial_dict(specials), n0, Seq::empty(), target) == result_view(r));
        assert(corpus_pretokens(corpus_chunks(buf@, specials[0]), split_source(specials)).unwrap() == toks);
        assert forall|c: Seq<(Seq<u32>, nat)>|
            #[trigger] lists_counts(
                c,
                counts_of(corpus_pretokens(corpus_chunks(buf@, specials[0]), split_source(specials)).unwrap()),
            ) implies train_from(c, initial_dict(specials), n0, Seq::empty(), target) == result_view(r) by {
            lemma_listings_same_entries(c, c0, counts_of(toks));
            crate::corpus::lemma_train_from_same_entries(c, c0, initial_dict(specials), n0, Seq::empty(), target);
        }
    }
    Ok((token_dict, merge_list))
}

} // verus!
