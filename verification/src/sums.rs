//! Finite sums used by the statistics: over the indices below a bound, and
//! over a list of indices.

use vstd::prelude::*;

verus! {

/// `f(0) + f(1) + ... + f(n - 1)`.
pub open spec fn sum_below(n: nat, f: spec_fn(int) -> int) -> int
    decreases n,
{
    if n == 0 {
        0
    } else {
        sum_below((n - 1) as nat, f) + f(n - 1)
    }
}

/// The sum of `f` over the entries of `keys`.
pub open spec fn sum_over(keys: Seq<usize>, f: spec_fn(int) -> int) -> int
    decreases keys.len(),
{
    if keys.len() == 0 {
        0
    } else {
        sum_over(keys.drop_last(), f) + f(keys.last() as int)
    }
}

/// Sums of functions that agree below `n` are equal.
pub proof fn lemma_sum_below_congruent(n: nat, f: spec_fn(int) -> int, g: spec_fn(int) -> int)
    requires
        forall|i: int| 0 <= i < n ==> #[trigger] f(i) == g(i),
    ensures
        sum_below(n, f) == sum_below(n, g),
    decreases n,
{
    if n > 0 {
        lemma_sum_below_congruent((n - 1) as nat, f, g);
    }
}

/// Changing `f` at one index `j < n` by `d` changes the sum by `d`.
pub proof fn lemma_sum_below_update(n: nat, f: spec_fn(int) -> int, g: spec_fn(int) -> int, j: int, d: int)
    requires
        0 <= j < n,
        g(j) == f(j) + d,
        forall|i: int| 0 <= i < n && i != j ==> #[trigger] f(i) == g(i),
    ensures
        sum_below(n, g) == sum_below(n, f) + d,
    decreases n,
{
    if n - 1 == j {
        lemma_sum_below_congruent((n - 1) as nat, f, g);
    } else {
        lemma_sum_below_update((n - 1) as nat, f, g, j, d);
    }
}

/// A sum of non-negative terms is non-negative, and the sums are monotone.
pub proof fn lemma_sum_below_mono(n: nat, f: spec_fn(int) -> int, g: spec_fn(int) -> int)
    requires
        forall|i: int| 0 <= i < n ==> 0 <= #[trigger] f(i) <= g(i),
    ensures
        0 <= sum_below(n, f) <= sum_below(n, g),
    decreases n,
{
    if n > 0 {
        lemma_sum_below_mono((n - 1) as nat, f, g);
    }
}

/// One term of a sum of non-negative terms is at most the sum.
pub proof fn lemma_sum_below_term(n: nat, f: spec_fn(int) -> int, j: int)
    requires
        0 <= j < n,
        forall|i: int| 0 <= i < n ==> 0 <= #[trigger] f(i),
    ensures
        f(j) <= sum_below(n, f),
    decreases n,
{
    lemma_sum_below_mono((n - 1) as nat, f, f);
    if j < n - 1 {
        lemma_sum_below_term((n - 1) as nat, f, j);
    }
}

/// The sum over a concatenation of lists.
pub proof fn lemma_sum_over_concat(a: Seq<usize>, b: Seq<usize>, f: spec_fn(int) -> int)
    ensures
        sum_over(a + b, f) == sum_over(a, f) + sum_over(b, f),
    decreases b.len(),
{
    if b.len() == 0 {
        assert(a + b =~= a);
    } else {
        lemma_sum_over_concat(a, b.drop_last(), f);
        assert((a + b).drop_last() =~= a + b.drop_last());
    }
}

/// Removing one entry from a list removes its term from the sum.
pub proof fn lemma_sum_over_remove(keys: Seq<usize>, i: int, f: spec_fn(int) -> int)
    requires
        0 <= i < keys.len(),
    ensures
        sum_over(keys, f) == sum_over(keys.remove(i), f) + f(keys[i] as int),
{
    let a = keys.subrange(0, i);
    let b = keys.subrange(i + 1, keys.len() as int);
    assert(keys =~= a + seq![keys[i]] + b);
    assert(keys.remove(i) =~= a + b);
    lemma_sum_over_concat(a + seq![keys[i]], b, f);
    lemma_sum_over_concat(a, seq![keys[i]], f);
    lemma_sum_over_concat(a, b, f);
    assert(seq![keys[i]].drop_last() =~= Seq::<usize>::empty());
    assert(seq![keys[i]].last() == keys[i]);
    assert(sum_over(Seq::<usize>::empty(), f) == 0);
    assert(sum_over(seq![keys[i]], f) == f(keys[i] as int));
}

/// Summing over a duplicate-free list of indices below `n` that holds every
/// index where `f` is not zero gives the sum below `n`.
pub proof fn lemma_sum_over_all(keys: Seq<usize>, n: nat, f: spec_fn(int) -> int)
    requires
        n <= usize::MAX + 1,
        keys.no_duplicates(),
        forall|i: int| 0 <= i < keys.len() ==> keys[i] < n,
        forall|s: int| 0 <= s < n && #[trigger] f(s) != 0 ==> keys.contains(s as usize),
    ensures
        sum_over(keys, f) == sum_below(n, f),
    decreases n,
{
    if n == 0 {
        if keys.len() > 0 {
            assert(keys[0] < n);
        }
    } else {
        let last = (n - 1) as usize;
        if keys.contains(last) {
            let i = keys.index_of(last);
            lemma_sum_over_remove(keys, i, f);
            let rest = keys.remove(i);
            assert forall|j: int| 0 <= j < rest.len() implies rest[j] < n - 1 by {
                if j < i {
                    assert(rest[j] == keys[j]);
                } else {
                    assert(rest[j] == keys[j + 1]);
                }
            }
            assert forall|s: int| 0 <= s < n - 1 && #[trigger] f(s) != 0 implies rest.contains(s as usize) by {
                assert(keys.contains(s as usize));
                let k = keys.index_of(s as usize);
                assert(keys[k] == s as usize);
                if k < i {
                    assert(rest[k] == keys[k]);
                } else {
                    assert(k != i);
                    assert(rest[k - 1] == keys[k]);
                }
            }
            assert(rest.no_duplicates()) by {
                assert forall|a: int, b: int| 0 <= a < rest.len() && 0 <= b < rest.len() && a != b implies rest[a] != rest[b] by {
                    let ka = if a < i { a } else { a + 1 };
                    let kb = if b < i { b } else { b + 1 };
                    assert(rest[a] == keys[ka]);
                    assert(rest[b] == keys[kb]);
                }
            }
            lemma_sum_over_all(rest, (n - 1) as nat, f);
        } else {
            assert(f(n - 1) == 0);
            assert forall|j: int| 0 <= j < keys.len() implies keys[j] < n - 1 by {
                if keys[j] == last {
                    assert(keys.contains(last));
                }
            }
            lemma_sum_over_all(keys, (n - 1) as nat, f);
        }
    }
}

/// Partial sums over a list of non-negative terms are at most the full sum.
pub proof fn lemma_sum_over_prefix(keys: Seq<usize>, i: int, f: spec_fn(int) -> int)
    requires
        0 <= i <= keys.len(),
        forall|j: int| 0 <= j < keys.len() ==> 0 <= #[trigger] f(keys[j] as int),
    ensures
        0 <= sum_over(keys.take(i), f) <= sum_over(keys, f),
    decreases keys.len(),
{
    if keys.len() == 0 {
        assert(keys.take(i) =~= keys);
    } else if i == keys.len() {
        lemma_sum_over_prefix(keys.drop_last(), i - 1, f);
        assert(keys.take(i) =~= keys);
        assert(f(keys[keys.len() - 1] as int) >= 0);
    } else {
        lemma_sum_over_prefix(keys.drop_last(), i, f);
        assert(keys.drop_last().take(i) =~= keys.take(i));
        assert(f(keys[keys.len() - 1] as int) >= 0);
    }
}

/// A sum of zeros is zero.
pub proof fn lemma_sum_below_zero(n: nat, f: spec_fn(int) -> int)
    requires
        forall|i: int| 0 <= i < n ==> #[trigger] f(i) == 0,
    ensures
        sum_below(n, f) == 0,
    decreases n,
{
    if n > 0 {
        lemma_sum_below_zero((n - 1) as nat, f);
    }
}

/// A positive sum of non-negative terms has a positive term.
pub proof fn lemma_sum_below_positive(n: nat, f: spec_fn(int) -> int)
    requires
        sum_below(n, f) > 0,
        forall|i: int| 0 <= i < n ==> 0 <= #[trigger] f(i),
    ensures
        exists|i: int| 0 <= i < n && #[trigger] f(i) > 0,
    decreases n,
{
    if n > 0 {
        if f(n - 1) <= 0 {
            lemma_sum_below_positive((n - 1) as nat, f);
            let i = choose|i: int| 0 <= i < n - 1 && #[trigger] f(i) > 0;
            assert(0 <= i < n && f(i) > 0);
        }
    }
}

/// A sum with the term at `j` taken out, the terms after it moved down.
pub proof fn lemma_sum_below_remove(n: nat, f: spec_fn(int) -> int, g: spec_fn(int) -> int, j: int)
    requires
        0 <= j < n,
        forall|i: int| 0 <= i < n - 1 ==> #[trigger] g(i) == f(if i < j { i } else { i + 1 }),
    ensures
        sum_below(n, f) == sum_below((n - 1) as nat, g) + f(j),
    decreases n,
{
    if j == n - 1 {
        lemma_sum_below_congruent((n - 1) as nat, f, g);
    } else {
        lemma_sum_below_remove((n - 1) as nat, f, g, j);
        assert(g(n - 2) == f(n - 1));
    }
}

} // verus!
