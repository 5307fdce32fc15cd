//! Counting the pretokens of a corpus in a memory friendly way: each
//! distinct byte string once, with how often it occurred.

use crate::fxmaps::{byte_counts_contents, ByteCounts};
use vstd::prelude::*;
use vstd::set::fold::{is_fun_commutative, lemma_fold_empty, lemma_fold_insert};

verus! {

/// How often `k` occurs according to `m`; 0 when it is not a key.
pub open spec fn count_in(m: Map<Seq<u8>, nat>, k: Seq<u8>) -> nat {
    if m.contains_key(k) {
        m[k]
    } else {
        0
    }
}

/// `m` with one more occurrence of `k`.
pub open spec fn add_one(m: Map<Seq<u8>, nat>, k: Seq<u8>) -> Map<Seq<u8>, nat> {
    m.insert(k, count_in(m, k) + 1)
}

/// How often each byte string occurs in `tokens`.
pub open spec fn counts_of(tokens: Seq<Seq<u8>>) -> Map<Seq<u8>, nat>
    decreases tokens.len(),
{
    if tokens.len() == 0 {
        Map::empty()
    } else {
        add_one(counts_of(tokens.drop_last()), tokens.last())
    }
}

/// The counts of `a` and `b` added up key by key.
pub open spec fn merged_counts(a: Map<Seq<u8>, nat>, b: Map<Seq<u8>, nat>) -> Map<Seq<u8>, nat> {
    Map::new(|k: Seq<u8>| a.contains_key(k) || b.contains_key(k), |k: Seq<u8>| count_in(a, k) + count_in(b, k))
}

/// One step of `weight_of`: adds the bytes that key `k` stands for.
pub open spec fn weight_step(m: Map<Seq<u8>, nat>) -> spec_fn(int, Seq<u8>) -> int {
    |acc: int, k: Seq<u8>| acc + m[k] * k.len()
}

/// How many bytes the counted strings make up together: the length of
/// each key times its count, summed over the keys.
pub open spec fn weight_of(m: Map<Seq<u8>, nat>) -> int {
    m.dom().fold(0int, weight_step(m))
}

/// The total length of `tokens`.
pub open spec fn bytes_len(tokens: Seq<Seq<u8>>) -> int
    decreases tokens.len(),
{
    if tokens.len() == 0 {
        0
    } else {
        bytes_len(tokens.drop_last()) + tokens.last().len()
    }
}

/// The weight of the keys in `keys`, taken one after the other.
pub open spec fn keys_weight(m: Map<Seq<u8>, nat>, keys: Seq<Seq<u8>>) -> int
    decreases keys.len(),
{
    if keys.len() == 0 {
        0
    } else {
        keys_weight(m, keys.drop_last()) + m[keys.last()] * keys.last().len()
    }
}

/// The order in which keys are added up does not matter.
proof fn lemma_weight_step_commutative(m: Map<Seq<u8>, nat>)
    ensures
        is_fun_commutative(weight_step(m)),
{
    assert forall|a1: Seq<u8>, a2: Seq<u8>, b: int|
        #[trigger] weight_step(m)(weight_step(m)(b, a2), a1) == weight_step(m)(weight_step(m)(b, a1), a2) by {}
}

/// Folds of two functions that agree on a finite set are equal.
proof fn lemma_fold_congruent(s: Set<Seq<u8>>, f: spec_fn(int, Seq<u8>) -> int, g: spec_fn(int, Seq<u8>) -> int)
    requires
        s.finite(),
        is_fun_commutative(f),
        is_fun_commutative(g),
        forall|acc: int, x: Seq<u8>| s.contains(x) ==> #[trigger] f(acc, x) == g(acc, x),
    ensures
        s.fold(0int, f) == s.fold(0int, g),
    decreases s.len(),
{
    if s.len() == 0 {
        s.lemma_len0_is_empty();
        lemma_fold_empty(0int, f);
        lemma_fold_empty(0int, g);
    } else {
        let x = s.choose();
        let r = s.remove(x);
        assert(r.insert(x) =~= s);
        lemma_fold_congruent(r, f, g);
        lemma_fold_insert(r, 0int, f, x);
        lemma_fold_insert(r, 0int, g, x);
    }
}

/// One more occurrence of `k` adds the length of `k` to the weight.
pub proof fn lemma_weight_add_one(m: Map<Seq<u8>, nat>, k: Seq<u8>)
    requires
        m.dom().finite(),
    ensures
        add_one(m, k).dom().finite(),
        weight_of(add_one(m, k)) == weight_of(m) + k.len(),
{
    let m2 = add_one(m, k);
    let f = weight_step(m);
    let g = weight_step(m2);
    lemma_weight_step_commutative(m);
    lemma_weight_step_commutative(m2);
    if m.contains_key(k) {
        let r = m.dom().remove(k);
        assert(m2.dom() =~= m.dom());
        assert(r.insert(k) =~= m.dom());
        lemma_fold_congruent(r, f, g);
        lemma_fold_insert(r, 0int, f, k);
        lemma_fold_insert(r, 0int, g, k);
        let c = m[k];
        let l = k.len();
        assert(m2[k] == c + 1);
        assert((c + 1) * l == c * l + l) by (nonlinear_arith);
        assert(weight_of(m2) == g(r.fold(0int, g), k));
        assert(weight_of(m) == f(r.fold(0int, f), k));
    } else {
        assert(m2.dom() =~= m.dom().insert(k));
        lemma_fold_congruent(m.dom(), f, g);
        lemma_fold_insert(m.dom(), 0int, g, k);
        assert(m2[k] == 1);
        assert(weight_of(m2) == g(m.dom().fold(0int, g), k));
        assert(m2[k] * k.len() == k.len()) by (nonlinear_arith)
            requires
                m2[k] == 1,
        ;
    }
}

/// The weight of the counts of `tokens` is their total length.
pub proof fn lemma_weight_counts_of(tokens: Seq<Seq<u8>>)
    ensures
        counts_of(tokens).dom().finite(),
        weight_of(counts_of(tokens)) == bytes_len(tokens),
    decreases tokens.len(),
{
    if tokens.len() == 0 {
        assert(counts_of(tokens).dom() =~= Set::<Seq<u8>>::empty());
        lemma_fold_empty(0int, weight_step(counts_of(tokens)));
    } else {
        lemma_weight_counts_of(tokens.drop_last());
        lemma_weight_add_one(counts_of(tokens.drop_last()), tokens.last());
    }
}

/// Summing over a list of distinct keys gives the weight of the keys in
/// the list.
proof fn lemma_keys_weight_fold(m: Map<Seq<u8>, nat>, keys: Seq<Seq<u8>>)
    requires
        keys.no_duplicates(),
    ensures
        keys_weight(m, keys) == keys.to_set().fold(0int, weight_step(m)),
    decreases keys.len(),
{
    lemma_weight_step_commutative(m);
    if keys.len() == 0 {
        assert(keys.to_set() =~= Set::<Seq<u8>>::empty());
        lemma_fold_empty(0int, weight_step(m));
    } else {
        let pre = keys.drop_last();
        let x = keys.last();
        assert(keys =~= pre.push(x));
        assert(pre.no_duplicates());
        lemma_keys_weight_fold(m, pre);
        pre.lemma_push_to_set_commute(x);
        vstd::seq_lib::seq_to_set_is_finite(pre);
        assert(!pre.to_set().contains(x)) by {
            if pre.contains(x) {
                let i = choose|i: int| 0 <= i < pre.len() && pre[i] == x;
                assert(keys[i] == keys[keys.len() - 1]);
            }
        }
        lemma_fold_insert(pre.to_set(), 0int, weight_step(m), x);
    }
}

/// Summing over a list that holds every key once gives the weight.
pub proof fn lemma_keys_weight(m: Map<Seq<u8>, nat>, keys: Seq<Seq<u8>>)
    requires
        keys.no_duplicates(),
        keys.to_set() == m.dom(),
    ensures
        keys_weight(m, keys) == weight_of(m),
{
    lemma_keys_weight_fold(m, keys);
}

/// Merging counts is commutative.
pub proof fn lemma_merged_counts_commutative(a: Map<Seq<u8>, nat>, b: Map<Seq<u8>, nat>)
    ensures
        merged_counts(a, b) == merged_counts(b, a),
{
    assert(merged_counts(a, b) =~= merged_counts(b, a));
}

/// Merging builders is symmetric: builders with equal counts, merged in
/// either order, give the same counts.
pub proof fn lemma_merge_symmetric(a1: SequenceBuilder, a2: SequenceBuilder, b1: SequenceBuilder, b2: SequenceBuilder)
    requires
        a1.view() == a2.view(),
        b1.view() == b2.view(),
    ensures
        merged_counts(a1.view(), b1.view()) == merged_counts(b2.view(), a2.view()),
{
    lemma_merged_counts_commutative(a1.view(), b1.view());
}

/// Merging counts is associative.
pub proof fn lemma_merged_counts_associative(a: Map<Seq<u8>, nat>, b: Map<Seq<u8>, nat>, c: Map<Seq<u8>, nat>)
    ensures
        merged_counts(merged_counts(a, b), c) == merged_counts(a, merged_counts(b, c)),
{
    assert(merged_counts(merged_counts(a, b), c) =~= merged_counts(a, merged_counts(b, c)));
}

/// Counting two token lists and merging the counts is counting the two
/// lists one after the other.
pub proof fn lemma_counts_of_concat(a: Seq<Seq<u8>>, b: Seq<Seq<u8>>)
    ensures
        counts_of(a + b) == merged_counts(counts_of(a), counts_of(b)),
    decreases b.len(),
{
    if b.len() == 0 {
        assert(a + b =~= a);
        assert(merged_counts(counts_of(a), counts_of(b)) =~= counts_of(a));
    } else {
        lemma_counts_of_concat(a, b.drop_last());
        assert((a + b).drop_last() =~= a + b.drop_last());
        assert(counts_of(a + b) =~= merged_counts(counts_of(a), counts_of(b)));
    }
}

/// Every count of a token list is at most the list's length, and its keys
/// are the tokens of the list.
pub proof fn lemma_counts_of_bound(tokens: Seq<Seq<u8>>, k: Seq<u8>)
    ensures
        count_in(counts_of(tokens), k) <= tokens.len(),
        counts_of(tokens).contains_key(k) <==> tokens.contains(k),
        counts_of(tokens).contains_key(k) ==> counts_of(tokens)[k] > 0,
    decreases tokens.len(),
{
    if tokens.len() > 0 {
        let pre = tokens.drop_last();
        lemma_counts_of_bound(pre, k);
        assert(tokens =~= pre.push(tokens.last()));
        if pre.contains(k) {
            let i = choose|i: int| 0 <= i < pre.len() && pre[i] == k;
            assert(tokens[i] == k);
        }
        if tokens.contains(k) && k != tokens.last() {
            let i = choose|i: int| 0 <= i < tokens.len() && tokens[i] == k;
            assert(pre[i] == k);
        }
    }
}

/// Keeps track of the sequences discovered during pretokenization: each
/// distinct byte string once, with how often it was seen.
#[derive(Debug)]
pub struct SequenceBuilder {
    sequences: ByteCounts,
}

impl SequenceBuilder {
    /// How often each byte string was seen.
    pub closed spec fn view(&self) -> Map<Seq<u8>, nat> {
        byte_counts_contents(self.sequences).map_values(|v: usize| v as nat)
    }

    /// The view has the keys and the counts of the map.
    proof fn lemma_view(&self)
        ensures
            self.view().dom() == byte_counts_contents(self.sequences).dom(),
            forall|k: Seq<u8>| #[trigger] self.view().contains_key(k) ==> self.view()[k]
                == byte_counts_contents(self.sequences)[k] as nat,
    {
        assert(self.view().dom() =~= byte_counts_contents(self.sequences).dom());
    }

    /// A well-formed builder counts finitely many byte strings, each at
    /// least once.
    pub proof fn lemma_counts_positive(&self)
        requires
            self.wf(),
        ensures
            self.view().dom().finite(),
            forall|k: Seq<u8>| #[trigger] self.view().contains_key(k) ==> self.view()[k] > 0,
    {
        self.lemma_view();
    }

    /// Every counted byte string was seen at least once.
    pub closed spec fn wf(&self) -> bool {
        &&& byte_counts_contents(self.sequences).dom().finite()
        &&& forall|k: Seq<u8>| #[trigger] byte_counts_contents(self.sequences).contains_key(k)
            ==> byte_counts_contents(self.sequences)[k] > 0
    }

    /// A builder that has seen nothing.
    pub fn new() -> (r: SequenceBuilder)
        ensures
            r.wf(),
            r.view() == Map::<Seq<u8>, nat>::empty(),
    {
        let r = SequenceBuilder { sequences: ByteCounts::new() };
        proof {
            r.lemma_view();
        }
        assert(r.view() =~= Map::<Seq<u8>, nat>::empty());
        r
    }

    /// Merge two sequence builders together, consuming them both and
    /// returning a merged copy: every sequence of either, with the counts
    /// added together where both have it.
    pub fn merge(s1: SequenceBuilder, s2: SequenceBuilder) -> (r: SequenceBuilder)
        requires
            s1.wf(),
            s2.wf(),
            forall|k: Seq<u8>| #[trigger] count_in(s1.view(), k) + count_in(s2.view(), k) <= usize::MAX,
        ensures
            r.wf(),
            r.view() == merged_counts(s1.view(), s2.view()),
    {
        let ghost m1 = s1.view();
        let ghost m2 = s2.view();
        proof {
            s1.lemma_view();
            s2.lemma_view();
        }
        let (smallest, mut biggest) = if s1.sequences.len() < s2.sequences.len() {
            (s1, s2)
        } else {
            (s2, s1)
        };
        let ghost small = smallest.view();
        let ghost big = biggest.view();
        proof {
            smallest.lemma_view();
            lemma_merged_counts_commutative(m1, m2);
        }
        let smallest_items = smallest.into_counts();
        let ghost keys = smallest_items@.map_values(|e: (Vec<u8>, usize)| e.0@);
        let mut i: usize = 0;
        proof {
            assert(merged_counts(big, small.restrict(keys.take(0).to_set())) =~= big);
        }
        while i < smallest_items.len()
            invariant
                biggest.wf(),
                0 <= i <= smallest_items@.len(),
                keys == smallest_items@.map_values(|e: (Vec<u8>, usize)| e.0@),
                keys.no_duplicates(),
                keys.to_set() == small.dom(),
                forall|j: int| 0 <= j < smallest_items@.len() ==> #[trigger] small[smallest_items@[j].0@] == smallest_items@[j].1,
                forall|k: Seq<u8>| #[trigger] count_in(big, k) + count_in(small, k) <= usize::MAX,
                forall|k: Seq<u8>| #[trigger] small.contains_key(k) ==> small[k] > 0,
                merged_counts(m1, m2) == merged_counts(big, small),
                biggest.view() == merged_counts(big, small.restrict(keys.take(i as int).to_set())),
            decreases smallest_items@.len() - i,
        {
            let item_count = smallest_items[i].1;
            let item_key = &smallest_items[i].0;
            let ghost k = item_key@;
            let ghost before = biggest.view();
            proof {
                biggest.lemma_view();
                assert(keys[i as int] == k);
                assert(small.contains_key(k)) by {
                    assert(keys.to_set().contains(k));
                }
                assert(!keys.take(i as int).to_set().contains(k)) by {
                    if keys.take(i as int).contains(k) {
                        let j = choose|j: int| 0 <= j < i && keys.take(i as int)[j] == k;
                        assert(keys[j] == keys[i as int]);
                    }
                }
            }
            proof {
                assert(small[k] == item_count);
                assert(count_in(before, k) == count_in(big, k));
                assert(count_in(big, k) + count_in(small, k) <= usize::MAX);
            }
            let new_count = match biggest.sequences.get(item_key.as_slice()) {
                Some(c) => c + item_count,
                None => item_count,
            };
            biggest.sequences.insert(vstd::slice::slice_to_vec(item_key.as_slice()), new_count);
            proof {
                biggest.lemma_view();
                assert(byte_counts_contents(biggest.sequences).dom() =~= before.dom().insert(k));
                assert(keys.take(i + 1).to_set() =~= keys.take(i as int).to_set().insert(k)) by {
                    assert(keys.take(i + 1) =~= keys.take(i as int).push(k));
                    keys.take(i as int).lemma_push_to_set_commute(k);
                }
                assert(biggest.view() =~= merged_counts(big, small.restrict(keys.take(i + 1).to_set())));
            }
            i = i + 1;
        }
        proof {
            assert(keys.take(i as int) =~= keys);
            assert(small.restrict(keys.to_set()) =~= small);
        }
        biggest
    }

    /// Count one more occurrence of `bytes`.
    pub fn append(&mut self, bytes: &[u8])
        requires
            old(self).wf(),
            count_in(old(self).view(), bytes@) < usize::MAX,
        ensures
            final(self).wf(),
            final(self).view() == add_one(old(self).view(), bytes@),
    {
        let ghost before = self.view();
        proof {
            self.lemma_view();
        }
        match self.sequences.get(bytes) {
            None => {
                self.sequences.insert(vstd::slice::slice_to_vec(bytes), 1);
            },
            Some(count) => {
                self.sequences.insert(vstd::slice::slice_to_vec(bytes), count + 1);
            },
        }
        proof {
            self.lemma_view();
        }
        assert(self.view() =~= add_one(before, bytes@));
    }

    /// Every counted sequence once, with its count, in an order that is
    /// left open.
    pub fn counts(&self) -> (r: Vec<(Vec<u8>, usize)>)
        requires
            self.wf(),
        ensures
            r@.map_values(|e: (Vec<u8>, usize)| e.0@).no_duplicates(),
            r@.map_values(|e: (Vec<u8>, usize)| e.0@).to_set() == self.view().dom(),
            forall|i: int| 0 <= i < r@.len() ==> #[trigger] self.view()[r@[i].0@] == r@[i].1,
    {
        let r = self.sequences.entries();
        proof {
            self.lemma_view();
            assert forall|i: int| 0 <= i < r@.len() implies #[trigger] self.view()[r@[i].0@] == r@[i].1 by {
                assert(r@.map_values(|e: (Vec<u8>, usize)| e.0@)[i] == r@[i].0@);
            }
        }
        r
    }

    /// How often `bytes` was counted, if at all.
    pub fn count_of(&self, bytes: &[u8]) -> (r: Option<usize>)
        ensures
            r == (if self.view().contains_key(bytes@) {
                Some(self.view()[bytes@] as usize)
            } else {
                None
            }),
    {
        proof {
            self.lemma_view();
        }
        self.sequences.get(bytes)
    }

    /// The number of distinct sequences counted.
    pub fn len(&self) -> (r: usize)
        ensures
            r == self.view().dom().len(),
    {
        proof {
            self.lemma_view();
        }
        self.sequences.len()
    }

    /// Consume the builder, handing out every counted sequence once with
    /// its count.
    fn into_counts(self) -> (r: Vec<(Vec<u8>, usize)>)
        ensures
            r@.map_values(|e: (Vec<u8>, usize)| e.0@).no_duplicates(),
            r@.map_values(|e: (Vec<u8>, usize)| e.0@).to_set() == self.view().dom(),
            forall|i: int| 0 <= i < r@.len() ==> #[trigger] self.view()[r@[i].0@] == r@[i].1,
    {
        let r = self.sequences.into_entries();
        proof {
            self.lemma_view();
            assert forall|i: int| 0 <= i < r@.len() implies #[trigger] self.view()[r@[i].0@] == r@[i].1 by {
                assert(r@.map_values(|e: (Vec<u8>, usize)| e.0@)[i] == r@[i].0@);
            }
        }
        r
    }
}

impl PartialEq for SequenceBuilder {
    /// Two builders are equal when they count the same byte strings the
    /// same number of times.
    fn eq(&self, other: &SequenceBuilder) -> (r: bool) {
        let r = self.sequences.equals(&other.sequences);
        proof {
            self.lemma_view();
            other.lemma_view();
            if self.view() == other.view() {
                assert forall|k: Seq<u8>| #[trigger] byte_counts_contents(self.sequences).contains_key(k)
                    implies byte_counts_contents(other.sequences).contains_key(k)
                    && byte_counts_contents(self.sequences)[k] == byte_counts_contents(other.sequences)[k] by {
                    assert(self.view().contains_key(k));
                }
                assert(byte_counts_contents(self.sequences) =~= byte_counts_contents(other.sequences));
            }
        }
        r
    }
}

/// What `==` on builders means: the same counts.
impl vstd::std_specs::cmp::PartialEqSpecImpl for SequenceBuilder {
    open spec fn obeys_eq_spec() -> bool {
        true
    }

    open spec fn eq_spec(&self, other: &SequenceBuilder) -> bool {
        self.view() == other.view()
    }
}

} // verus!
