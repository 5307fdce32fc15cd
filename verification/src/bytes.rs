//! Lexicographic comparison of byte strings.

use vstd::prelude::*;

verus! {

/// The sign of the lexicographic comparison of `a` with `b`, as std orders
/// `[u8]`: -1 when `a` comes first, 1 when `b` comes first, 0 when equal.
/// The first differing byte decides, and a proper prefix comes first.
pub open spec fn bytes_sign(a: Seq<u8>, b: Seq<u8>) -> int
    decreases a.len(),
{
    if a.len() == 0 {
        if b.len() == 0 {
            0
        } else {
            -1
        }
    } else if b.len() == 0 {
        1
    } else if a[0] < b[0] {
        -1
    } else if a[0] > b[0] {
        1
    } else {
        bytes_sign(a.drop_first(), b.drop_first())
    }
}

/// Swapping the arguments negates the sign.
pub proof fn lemma_bytes_sign_antisymmetric(a: Seq<u8>, b: Seq<u8>)
    ensures
        bytes_sign(b, a) == -bytes_sign(a, b),
        -1 <= bytes_sign(a, b) <= 1,
    decreases a.len(),
{
    if a.len() > 0 && b.len() > 0 && a[0] == b[0] {
        lemma_bytes_sign_antisymmetric(a.drop_first(), b.drop_first());
    }
}

/// The sign is 0 exactly for equal byte strings.
pub proof fn lemma_bytes_sign_zero(a: Seq<u8>, b: Seq<u8>)
    ensures
        (bytes_sign(a, b) == 0) <==> (a == b),
    decreases a.len(),
{
    if a.len() > 0 && b.len() > 0 {
        lemma_bytes_sign_zero(a.drop_first(), b.drop_first());
        if a[0] == b[0] && a.drop_first() == b.drop_first() {
            assert(a =~= seq![a[0]] + a.drop_first());
            assert(b =~= seq![b[0]] + b.drop_first());
        }
        if a == b {
            assert(a.drop_first() =~= b.drop_first());
        }
    } else if a.len() == 0 && b.len() == 0 {
        assert(a =~= b);
    }
}

/// The order is transitive.
pub proof fn lemma_bytes_sign_transitive(a: Seq<u8>, b: Seq<u8>, c: Seq<u8>, s: int)
    requires
        s == 1 || s == -1,
        bytes_sign(a, b) == s,
        bytes_sign(b, c) == s,
    ensures
        bytes_sign(a, c) == s,
    decreases a.len(),
{
    if a.len() > 0 && b.len() > 0 && c.len() > 0 && a[0] == b[0] && b[0] == c[0] {
        lemma_bytes_sign_transitive(a.drop_first(), b.drop_first(), c.drop_first(), s);
    }
}

/// A proper prefix comes before the longer string.
pub proof fn lemma_bytes_sign_prefix(a: Seq<u8>, b: Seq<u8>)
    requires
        a.len() < b.len(),
        b.subrange(0, a.len() as int) == a,
    ensures
        bytes_sign(a, b) == -1,
    decreases a.len(),
{
    if a.len() > 0 {
        assert(a[0] == b[0]);
        assert(b.drop_first().subrange(0, a.drop_first().len() as int) =~= a.drop_first());
        lemma_bytes_sign_prefix(a.drop_first(), b.drop_first());
    }
}

/// The first byte at which two strings differ decides their order,
/// whatever their lengths.
pub proof fn lemma_bytes_sign_first_difference(a: Seq<u8>, b: Seq<u8>, i: int)
    requires
        0 <= i < a.len(),
        i < b.len(),
        a.take(i) == b.take(i),
        a[i] != b[i],
    ensures
        bytes_sign(a, b) == if a[i] < b[i] {
            -1int
        } else {
            1int
        },
    decreases i,
{
    if i > 0 {
        assert(a.take(i)[0] == a[0]);
        assert(b.take(i)[0] == b[0]);
        assert(a[0] == b[0]);
        assert(a.drop_first().take(i - 1) =~= b.drop_first().take(i - 1)) by {
            assert forall|k: int| 0 <= k < i - 1 implies a.drop_first()[k] == b.drop_first()[k] by {
                assert(a.take(i)[k + 1] == a[k + 1]);
                assert(b.take(i)[k + 1] == b[k + 1]);
            }
        }
        assert(a.drop_first()[i - 1] == a[i]);
        assert(b.drop_first()[i - 1] == b[i]);
        lemma_bytes_sign_first_difference(a.drop_first(), b.drop_first(), i - 1);
    } else {
        assert(a[0] == a[i]);
    }
}

/// Compares two byte strings lexicographically; returns the sign.
pub fn compare_bytes(a: &[u8], b: &[u8]) -> (r: i8)
    ensures
        r as int == bytes_sign(a@, b@),
        forall|i: int|
            0 <= i < a@.len() && i < b@.len() && a@.take(i) == b@.take(i) && a@[i] != b@[i] ==> r as int == (if a@[i]
                < b@[i] {
                -1int
            } else {
                1int
            }),
        a@.len() < b@.len() && b@.take(a@.len() as int) == a@ ==> r == -1,
{
    proof {
        assert forall|i: int|
            0 <= i < a@.len() && i < b@.len() && a@.take(i) == b@.take(i) && a@[i] != b@[i] implies bytes_sign(
            a@,
            b@,
        ) == (if a@[i] < b@[i] {
            -1int
        } else {
            1int
        }) by {
            lemma_bytes_sign_first_difference(a@, b@, i);
        }
        if a@.len() < b@.len() && b@.take(a@.len() as int) == a@ {
            assert(b@.subrange(0, a@.len() as int) =~= b@.take(a@.len() as int));
            lemma_bytes_sign_prefix(a@, b@);
        }
    }
    let mut i: usize = 0;
    assert(a@.skip(0) =~= a@);
    assert(b@.skip(0) =~= b@);
    while i < a.len() && i < b.len()
        invariant
            i <= a@.len(),
            i <= b@.len(),
            bytes_sign(a@, b@) == bytes_sign(a@.skip(i as int), b@.skip(i as int)),
            forall|k: int|
                0 <= k < a@.len() && k < b@.len() && a@.take(k) == b@.take(k) && a@[k] != b@[k] ==> bytes_sign(
                    a@,
                    b@,
                ) == (if a@[k] < b@[k] {
                    -1int
                } else {
                    1int
                }),
            a@.len() < b@.len() && b@.take(a@.len() as int) == a@ ==> bytes_sign(a@, b@) == -1,
        decreases a@.len() - i,
    {
        if a[i] < b[i] {
            return -1;
        }
        if a[i] > b[i] {
            return 1;
        }
        assert(a@.skip(i as int).drop_first() =~= a@.skip(i + 1));
        assert(b@.skip(i as int).drop_first() =~= b@.skip(i + 1));
        i = i + 1;
    }
    if i < b.len() {
        -1
    } else if i < a.len() {
        1
    } else {
        0
    }
}

} // verus!
