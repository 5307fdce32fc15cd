//! The mathematical model of token sequences: how often a pair of adjacent
//! tokens occurs in a sequence, and what a greedy left-to-right merge of a
//! pair into a new token does to a sequence.

use vstd::prelude::*;

verus! {

/// How many times `p` occurs as two adjacent tokens in `s`.
pub open spec fn pair_count(s: Seq<u32>, p: (u32, u32)) -> nat
    decreases s.len(),
{
    if s.len() < 2 {
        0
    } else {
        pair_count(s.drop_last(), p) + if (s[s.len() - 2], s[s.len() - 1]) == p {
            1nat
        } else {
            0nat
        }
    }
}

/// The pairs of adjacent tokens of `s`, from left to right.
pub open spec fn adjacent_pairs(s: Seq<u32>) -> Seq<(u32, u32)> {
    Seq::new((if s.len() == 0 { 0 } else { s.len() - 1 }) as nat, |i: int| (s[i], s[i + 1]))
}

/// Greedy merge, continuing from token `cur` with `rest` still to come:
/// whenever the current token and the next one form `p`, the two become `t`
/// and the merged token stays current, so that it can merge again.
pub open spec fn merge_from(cur: u32, rest: Seq<u32>, p: (u32, u32), t: u32) -> Seq<u32>
    decreases rest.len(),
{
    if rest.len() == 0 {
        seq![cur]
    } else if (cur, rest[0]) == p {
        merge_from(t, rest.drop_first(), p, t)
    } else {
        seq![cur] + merge_from(rest[0], rest.drop_first(), p, t)
    }
}

/// `s` after merging every occurrence of `p` into `t`, greedily from left
/// to right.
pub open spec fn merge_pair_in(s: Seq<u32>, p: (u32, u32), t: u32) -> Seq<u32> {
    if s.len() == 0 {
        s
    } else {
        merge_from(s[0], s.drop_first(), p, t)
    }
}

/// The pairs whose counts the greedy merge from `cur` adjusts, `prev` being
/// the token before `cur`, if any: at each merge the merged pair, and the
/// pairs that its neighbours formed with it and form with the new token.
pub open spec fn merge_touched(prev: Option<u32>, cur: u32, rest: Seq<u32>, p: (u32, u32), t: u32) -> Set<
    (u32, u32),
>
    decreases rest.len(),
{
    if rest.len() == 0 {
        Set::empty()
    } else if (cur, rest[0]) == p {
        set![(cur, rest[0])].union(
            match prev {
                Some(a) => set![(a, cur), (a, t)],
                None => Set::empty(),
            },
        ).union(
            if rest.len() > 1 {
                set![(rest[0], rest[1]), (t, rest[1])]
            } else {
                Set::empty()
            },
        ).union(merge_touched(prev, t, rest.drop_first(), p, t))
    } else {
        merge_touched(Some(cur), rest[0], rest.drop_first(), p, t)
    }
}

/// The pairs whose counts merging every occurrence of `p` in `s` into `t`
/// adjusts.
pub open spec fn merge_touched_in(s: Seq<u32>, p: (u32, u32), t: u32) -> Set<(u32, u32)> {
    if s.len() == 0 {
        Set::empty()
    } else {
        merge_touched(None, s[0], s.drop_first(), p, t)
    }
}

/// Pair counts of a concatenation: those of the parts plus the pair that
/// straddles the seam.
pub proof fn lemma_pair_count_concat(x: Seq<u32>, y: Seq<u32>, p: (u32, u32))
    ensures
        pair_count(x + y, p) == pair_count(x, p) + pair_count(y, p) + if x.len() > 0 && y.len()
            > 0 && (x.last(), y[0]) == p {
            1nat
        } else {
            0nat
        },
    decreases y.len(),
{
    if y.len() == 0 {
        assert(x + y =~= x);
    } else if y.len() == 1 {
        if x.len() == 0 {
            assert(x + y =~= y);
        } else {
            assert((x + y).drop_last() =~= x);
        }
    } else {
        lemma_pair_count_concat(x, y.drop_last(), p);
        assert((x + y).drop_last() =~= x + y.drop_last());
    }
}

/// Pair counts of a sequence that starts with one token.
pub proof fn lemma_pair_count_cons(a: u32, y: Seq<u32>, p: (u32, u32))
    ensures
        pair_count(seq![a] + y, p) == pair_count(y, p) + if y.len() > 0 && (a, y[0]) == p {
            1nat
        } else {
            0nat
        },
{
    lemma_pair_count_concat(seq![a], y, p);
}

/// A sequence holds no more pairs than it has adjacent positions.
pub proof fn lemma_pair_count_bound(s: Seq<u32>, p: (u32, u32))
    ensures
        pair_count(s, p) <= if s.len() == 0 { 0 } else { s.len() - 1 },
    decreases s.len(),
{
    if s.len() >= 2 {
        lemma_pair_count_bound(s.drop_last(), p);
    }
}

/// The greedy merge never makes a sequence longer, and keeps it nonempty.
pub proof fn lemma_merge_from_len(cur: u32, rest: Seq<u32>, p: (u32, u32), t: u32)
    ensures
        1 <= merge_from(cur, rest, p, t).len() <= rest.len() + 1,
    decreases rest.len(),
{
    if rest.len() > 0 {
        lemma_merge_from_len(t, rest.drop_first(), p, t);
        lemma_merge_from_len(rest[0], rest.drop_first(), p, t);
    }
}

/// When `p` does not occur, the greedy merge changes nothing.
pub proof fn lemma_merge_from_absent(cur: u32, rest: Seq<u32>, p: (u32, u32), t: u32)
    requires
        pair_count(seq![cur] + rest, p) == 0,
    ensures
        merge_from(cur, rest, p, t) == seq![cur] + rest,
    decreases rest.len(),
{
    if rest.len() > 0 {
        lemma_pair_count_cons(cur, rest, p);
        lemma_pair_count_cons(rest[0], rest.drop_first(), p);
        assert(rest =~= seq![rest[0]] + rest.drop_first());
        lemma_merge_from_absent(rest[0], rest.drop_first(), p, t);
        assert(seq![cur] + (seq![rest[0]] + rest.drop_first()) =~= seq![cur] + rest);
    } else {
        assert(seq![cur] + rest =~= seq![cur]);
    }
}

/// When `p` does not occur in `s`, merging it changes nothing.
pub proof fn lemma_merge_pair_absent(s: Seq<u32>, p: (u32, u32), t: u32)
    requires
        pair_count(s, p) == 0,
    ensures
        merge_pair_in(s, p, t) == s,
{
    if s.len() > 0 {
        assert(s =~= seq![s[0]] + s.drop_first());
        lemma_merge_from_absent(s[0], s.drop_first(), p, t);
    }
}

/// After a greedy merge of `p` into a token `t` different from both tokens
/// of `p`, no occurrence of `p` remains.
pub proof fn lemma_merge_from_removes(cur: u32, rest: Seq<u32>, p: (u32, u32), t: u32)
    requires
        t != p.0,
        t != p.1,
    ensures
        pair_count(merge_from(cur, rest, p, t), p) == 0,
    decreases rest.len(),
{
    if rest.len() == 0 {
    } else if (cur, rest[0]) == p {
        lemma_merge_from_removes(t, rest.drop_first(), p, t);
    } else {
        let tail = merge_from(rest[0], rest.drop_first(), p, t);
        lemma_merge_from_removes(rest[0], rest.drop_first(), p, t);
        lemma_merge_from_head(rest[0], rest.drop_first(), p, t);
        lemma_pair_count_cons(cur, tail, p);
    }
}

/// The first token of a greedy merge is the current token or the new one.
pub proof fn lemma_merge_from_head(cur: u32, rest: Seq<u32>, p: (u32, u32), t: u32)
    ensures
        merge_from(cur, rest, p, t).len() > 0,
        merge_from(cur, rest, p, t)[0] == cur || merge_from(cur, rest, p, t)[0] == t,
        merge_from(cur, rest, p, t)[0] == t ==> (cur == t || (rest.len() > 0 && (cur, rest[0])
            == p)),
    decreases rest.len(),
{
    lemma_merge_from_len(cur, rest, p, t);
    if rest.len() > 0 && (cur, rest[0]) == p {
        lemma_merge_from_head(t, rest.drop_first(), p, t);
    }
}

/// A prefix holds no more occurrences of a pair than the whole sequence.
pub proof fn lemma_pair_count_take_le(s: Seq<u32>, k: int, p: (u32, u32))
    requires
        0 <= k <= s.len(),
    ensures
        pair_count(s.take(k), p) <= pair_count(s, p),
    decreases s.len() - k,
{
    if k < s.len() {
        lemma_pair_count_take_le(s, k + 1, p);
        assert(s.take(k + 1).drop_last() =~= s.take(k));
    } else {
        assert(s.take(k) =~= s);
    }
}

/// 1 when `b` holds, 0 otherwise.
pub open spec fn ind(b: bool) -> nat {
    if b {
        1
    } else {
        0
    }
}

/// Pair counts before and after replacing the two tokens at `pos` and
/// `pos + 1` of `v` by the single token `t`: only the pairs at the seam
/// change.
pub proof fn lemma_merge_step_counts(v: Seq<u32>, pos: int, t: u32, q: (u32, u32))
    requires
        0 <= pos,
        pos + 1 < v.len(),
    ensures
        pair_count(v, q) == pair_count(v.take(pos), q) + pair_count(v.skip(pos + 2), q) + ind(
            pos > 0 && (v[pos - 1], v[pos]) == q,
        ) + ind((v[pos], v[pos + 1]) == q) + ind(pos + 2 < v.len() && (v[pos + 1], v[pos + 2]) == q),
        pair_count(v.take(pos) + seq![t] + v.skip(pos + 2), q) == pair_count(v.take(pos), q)
            + pair_count(v.skip(pos + 2), q) + ind(pos > 0 && (v[pos - 1], t) == q) + ind(
            pos + 2 < v.len() && (t, v[pos + 2]) == q,
        ),
{
    let l = v.take(pos);
    let r = v.skip(pos + 2);
    let a = v[pos];
    let b = v[pos + 1];
    assert(v =~= l + (seq![a] + (seq![b] + r)));
    lemma_pair_count_cons(b, r, q);
    lemma_pair_count_cons(a, seq![b] + r, q);
    lemma_pair_count_concat(l, seq![a] + (seq![b] + r), q);
    if pos > 0 {
        assert(l.last() == v[pos - 1]);
    }
    if r.len() > 0 {
        assert(r[0] == v[pos + 2]);
    }
    assert(l + seq![t] + r =~= l + (seq![t] + r));
    lemma_pair_count_cons(t, r, q);
    lemma_pair_count_concat(l, seq![t] + r, q);
}

/// Every token of a greedy merge is `t` or one of the tokens merged.
pub proof fn lemma_merge_from_tokens(cur: u32, rest: Seq<u32>, p: (u32, u32), t: u32, i: int)
    requires
        0 <= i < merge_from(cur, rest, p, t).len(),
    ensures
        merge_from(cur, rest, p, t)[i] == t || merge_from(cur, rest, p, t)[i] == cur || rest.contains(
            merge_from(cur, rest, p, t)[i],
        ),
    decreases rest.len(),
{
    lemma_merge_from_len(cur, rest, p, t);
    if rest.len() > 0 {
        let tail = rest.drop_first();
        if (cur, rest[0]) == p {
            lemma_merge_from_tokens(t, tail, p, t, i);
            let x = merge_from(cur, rest, p, t)[i];
            if tail.contains(x) {
                let j = choose|j: int| 0 <= j < tail.len() && tail[j] == x;
                assert(rest[j + 1] == x);
            }
        } else if i > 0 {
            lemma_merge_from_len(rest[0], tail, p, t);
            assert(merge_from(cur, rest, p, t)[i] == merge_from(rest[0], tail, p, t)[i - 1]);
            lemma_merge_from_tokens(rest[0], tail, p, t, i - 1);
            let x = merge_from(cur, rest, p, t)[i];
            if x == rest[0] {
                assert(rest[0] == x);
            }
            if tail.contains(x) {
                let j = choose|j: int| 0 <= j < tail.len() && tail[j] == x;
                assert(rest[j + 1] == x);
            }
        }
    }
}

/// Every token of `s` after merging `p` into `t` is `t` or a token of `s`.
pub proof fn lemma_merge_pair_in_tokens(s: Seq<u32>, p: (u32, u32), t: u32, i: int)
    requires
        0 <= i < merge_pair_in(s, p, t).len(),
    ensures
        merge_pair_in(s, p, t)[i] == t || s.contains(merge_pair_in(s, p, t)[i]),
{
    if s.len() > 0 {
        lemma_merge_from_tokens(s[0], s.drop_first(), p, t, i);
        let x = merge_pair_in(s, p, t)[i];
        if x == s[0] {
            assert(s[0] == x);
        }
        if s.drop_first().contains(x) {
            let j = choose|j: int| 0 <= j < s.drop_first().len() && s.drop_first()[j] == x;
            assert(s[j + 1] == x);
        }
    }
}

/// Merging does not make a sequence longer.
pub proof fn lemma_merge_pair_in_len(s: Seq<u32>, p: (u32, u32), t: u32)
    ensures
        merge_pair_in(s, p, t).len() <= s.len(),
{
    if s.len() > 0 {
        lemma_merge_from_len(s[0], s.drop_first(), p, t);
    }
}

/// A pair that occurs in `s` is made of two tokens of `s`.
pub proof fn lemma_pair_count_tokens(s: Seq<u32>, p: (u32, u32))
    requires
        pair_count(s, p) > 0,
    ensures
        s.contains(p.0),
        s.contains(p.1),
    decreases s.len(),
{
    if (s[s.len() - 2], s[s.len() - 1]) == p {
        assert(s[s.len() - 2] == p.0);
        assert(s[s.len() - 1] == p.1);
    } else {
        lemma_pair_count_tokens(s.drop_last(), p);
        let i = choose|i: int| 0 <= i < s.drop_last().len() && s.drop_last()[i] == p.0;
        let j = choose|j: int| 0 <= j < s.drop_last().len() && s.drop_last()[j] == p.1;
        assert(s[i] == p.0);
        assert(s[j] == p.1);
    }
}

/// After merging `p` into a token `t` that is neither of its tokens, `p`
/// no longer occurs.
pub proof fn lemma_merge_pair_in_removes(s: Seq<u32>, p: (u32, u32), t: u32)
    requires
        t != p.0,
        t != p.1,
    ensures
        pair_count(merge_pair_in(s, p, t), p) == 0,
{
    if s.len() > 0 {
        lemma_merge_from_removes(s[0], s.drop_first(), p, t);
    }
}

/// Merging into `t` adds no occurrence of a pair that does not involve `t`.
pub proof fn lemma_merge_from_count_le(cur: u32, rest: Seq<u32>, p: (u32, u32), t: u32, q: (u32, u32))
    requires
        q.0 != t,
        q.1 != t,
    ensures
        pair_count(merge_from(cur, rest, p, t), q) <= pair_count(seq![cur] + rest, q),
    decreases rest.len(),
{
    lemma_pair_count_cons(cur, rest, q);
    if rest.len() == 0 {
        assert(merge_from(cur, rest, p, t) == seq![cur]);
    } else {
        let r2 = rest.drop_first();
        assert(rest =~= seq![rest[0]] + r2);
        lemma_pair_count_cons(rest[0], r2, q);
        if (cur, rest[0]) == p {
            lemma_merge_from_count_le(t, r2, p, t, q);
            lemma_pair_count_cons(t, r2, q);
        } else {
            let tail = merge_from(rest[0], r2, p, t);
            lemma_merge_from_count_le(rest[0], r2, p, t, q);
            lemma_merge_from_head(rest[0], r2, p, t);
            lemma_pair_count_cons(cur, tail, q);
        }
    }
}

/// Merging `p` into `t` adds no occurrence of a pair that does not
/// involve `t`.
pub proof fn lemma_merge_pair_in_count_le(s: Seq<u32>, p: (u32, u32), t: u32, q: (u32, u32))
    requires
        q.0 != t,
        q.1 != t,
    ensures
        pair_count(merge_pair_in(s, p, t), q) <= pair_count(s, q),
{
    if s.len() > 0 {
        lemma_merge_from_count_le(s[0], s.drop_first(), p, t, q);
        assert(seq![s[0]] + s.drop_first() =~= s);
    }
}

} // verus!
