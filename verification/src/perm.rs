//! Arrangements of distinct integers: inversions, parity, and how both
//! change when entries trade places.

use vstd::prelude::*;

verus! {

/// No value occurs twice in `s`.
pub open spec fn distinct(s: Seq<int>) -> bool {
    forall|i: int, j: int| 0 <= i < j < s.len() ==> s[i] != s[j]
}

/// The entries of an index slice as mathematical integers.
pub open spec fn ints(s: Seq<usize>) -> Seq<int> {
    Seq::new(s.len(), |i: int| s[i] as int)
}

/// How many entries of `s` are smaller than `x`.
pub open spec fn count_below(s: Seq<int>, x: int) -> nat
    decreases s.len(),
{
    if s.len() == 0 {
        0
    } else {
        count_below(s.drop_last(), x) + if s.last() < x {
            1nat
        } else {
            0nat
        }
    }
}

/// How many entries of `s` are larger than `x`.
pub open spec fn count_above(s: Seq<int>, x: int) -> nat
    decreases s.len(),
{
    if s.len() == 0 {
        0
    } else {
        count_above(s.drop_last(), x) + if s.last() > x {
            1nat
        } else {
            0nat
        }
    }
}

/// The number of inversions of `s`: the pairs of positions `i < j` with
/// `s[i] > s[j]`.
pub open spec fn inversions(s: Seq<int>) -> nat
    decreases s.len(),
{
    if s.len() == 0 {
        0
    } else {
        count_below(s.drop_first(), s[0]) + inversions(s.drop_first())
    }
}

/// The parity of an arrangement: whether its number of inversions is odd.
pub open spec fn odd(s: Seq<int>) -> bool {
    inversions(s) % 2 == 1
}

/// `s` with the entries at positions `a` and `b` exchanged.
pub open spec fn swapped(s: Seq<int>, a: int, b: int) -> Seq<int> {
    s.update(a, s[b]).update(b, s[a])
}

/// `s` with the entries at four positions moved round: position `a` receives
/// the entry of `b`, `b` that of `c`, `c` that of `d`, and `d` that of `a`.
pub open spec fn rotated(s: Seq<int>, a: int, b: int, c: int, d: int) -> Seq<int> {
    s.update(a, s[b]).update(b, s[c]).update(c, s[d]).update(d, s[a])
}

/// The count of entries below `x` can be taken from the front as well.
pub proof fn lemma_count_below_first(s: Seq<int>, x: int)
    requires
        s.len() > 0,
    ensures
        count_below(s, x) == count_below(s.drop_first(), x) + if s[0] < x {
            1nat
        } else {
            0nat
        },
    decreases s.len(),
{
    if s.len() == 1 {
        assert(s.drop_last() =~= s.drop_first());
        assert(count_below(s.drop_first(), x) == 0);
    } else {
        lemma_count_below_first(s.drop_last(), x);
        assert(s.drop_last().drop_first() =~= s.drop_first().drop_last());
    }
}

/// No more entries lie below `x` than there are entries.
pub proof fn lemma_count_below_bound(s: Seq<int>, x: int)
    ensures
        count_below(s, x) <= s.len(),
    decreases s.len(),
{
    if s.len() > 0 {
        lemma_count_below_bound(s.drop_last(), x);
    }
}

/// No more entries lie above `x` than there are entries.
pub proof fn lemma_count_above_bound(s: Seq<int>, x: int)
    ensures
        count_above(s, x) <= s.len(),
    decreases s.len(),
{
    if s.len() > 0 {
        lemma_count_above_bound(s.drop_last(), x);
    }
}

/// An arrangement of `n` entries has at most `n * n` inversions.
pub proof fn lemma_inversions_bound(s: Seq<int>)
    ensures
        inversions(s) <= s.len() * s.len(),
    decreases s.len(),
{
    if s.len() > 0 {
        let t = s.drop_first();
        lemma_inversions_bound(t);
        lemma_count_below_bound(t, s[0]);
        assert(t.len() * t.len() + t.len() <= s.len() * s.len()) by (nonlinear_arith)
            requires
                t.len() + 1 == s.len(),
        ;
    }
}

/// Nothing in `s` lies below a value that every entry exceeds.
pub proof fn lemma_count_below_none(s: Seq<int>, x: int)
    requires
        forall|i: int| 0 <= i < s.len() ==> s[i] > x,
    ensures
        count_below(s, x) == 0,
    decreases s.len(),
{
    if s.len() > 0 {
        lemma_count_below_none(s.drop_last(), x);
    }
}

/// An increasing arrangement has no inversions.
pub proof fn lemma_increasing_no_inversions(s: Seq<int>)
    requires
        forall|i: int, j: int| 0 <= i < j < s.len() ==> s[i] < s[j],
    ensures
        inversions(s) == 0,
    decreases s.len(),
{
    if s.len() > 0 {
        let t = s.drop_first();
        assert forall|i: int, j: int| 0 <= i < j < t.len() implies t[i] < t[j] by {
            assert(s[i + 1] < s[j + 1]);
        }
        lemma_increasing_no_inversions(t);
        assert forall|i: int| 0 <= i < t.len() implies t[i] > s[0] by {
            assert(s[0] < s[i + 1]);
        }
        lemma_count_below_none(t, s[0]);
    }
}

/// Exchanging two neighbours leaves the count of entries below `x` as it was.
pub proof fn lemma_count_below_swap_adjacent(s: Seq<int>, k: int, x: int)
    requires
        0 <= k,
        k + 1 < s.len(),
    ensures
        count_below(swapped(s, k, k + 1), x) == count_below(s, x),
    decreases s.len(),
{
    let t = swapped(s, k, k + 1);
    if k + 1 == s.len() - 1 {
        let p = s.drop_last().drop_last();
        assert(t.drop_last().drop_last() =~= p);
        assert(t.last() == s[k]);
        assert(t.drop_last().last() == s[k + 1]);
        assert(s.drop_last().last() == s[k]);
        assert(count_below(t.drop_last(), x) == count_below(p, x) + if s[k + 1] < x {
            1nat
        } else {
            0nat
        });
        assert(count_below(s.drop_last(), x) == count_below(p, x) + if s[k] < x {
            1nat
        } else {
            0nat
        });
    } else {
        lemma_count_below_swap_adjacent(s.drop_last(), k, x);
        assert(t.drop_last() =~= swapped(s.drop_last(), k, k + 1));
    }
}

/// Exchanging two unequal neighbours changes the number of inversions by
/// exactly one.
pub proof fn lemma_inversions_swap_adjacent(s: Seq<int>, k: int)
    requires
        0 <= k,
        k + 1 < s.len(),
        s[k] != s[k + 1],
    ensures
        s[k] < s[k + 1] ==> inversions(swapped(s, k, k + 1)) == inversions(s) + 1,
        s[k] > s[k + 1] ==> inversions(swapped(s, k, k + 1)) == inversions(s) - 1,
    decreases k,
{
    let t = swapped(s, k, k + 1);
    if k == 0 {
        let rest = s.drop_first().drop_first();
        assert(t.drop_first().drop_first() =~= rest);
        lemma_count_below_first(s.drop_first(), s[0]);
        lemma_count_below_first(t.drop_first(), t[0]);
        assert(t[0] == s[1]);
        assert(t.drop_first()[0] == s[0]);
        assert(s.drop_first()[0] == s[1]);
        assert(inversions(s.drop_first()) == count_below(rest, s[1]) + inversions(rest));
        assert(inversions(t.drop_first()) == count_below(rest, s[0]) + inversions(rest));
    } else {
        lemma_inversions_swap_adjacent(s.drop_first(), k - 1);
        assert(t.drop_first() =~= swapped(s.drop_first(), k - 1, k));
        lemma_count_below_swap_adjacent(s.drop_first(), k - 1, s[0]);
    }
}

/// Exchanging two entries of an arrangement of distinct values leaves the
/// values distinct.
pub proof fn lemma_swapped_distinct(s: Seq<int>, a: int, b: int)
    requires
        0 <= a < s.len(),
        0 <= b < s.len(),
        distinct(s),
    ensures
        distinct(swapped(s, a, b)),
{
    let t = swapped(s, a, b);
    assert forall|i: int, j: int| 0 <= i < j < t.len() implies t[i] != t[j] by {
        let i0 = if i == a {
            b
        } else if i == b {
            a
        } else {
            i
        };
        let j0 = if j == a {
            b
        } else if j == b {
            a
        } else {
            j
        };
        assert(t[i] == s[i0]);
        assert(t[j] == s[j0]);
        assert(i0 != j0);
        if i0 < j0 {
            assert(s[i0] != s[j0]);
        } else {
            assert(s[j0] != s[i0]);
        }
    }
}

/// Exchanging the entries at two different positions of an arrangement of
/// distinct values turns an even arrangement into an odd one and back.
pub proof fn lemma_swap_flips_parity(s: Seq<int>, a: int, b: int)
    requires
        0 <= a < s.len(),
        0 <= b < s.len(),
        a != b,
        distinct(s),
    ensures
        distinct(swapped(s, a, b)),
        odd(swapped(s, a, b)) != odd(s),
    decreases
            (if a < b {
                b - a
            } else {
                a - b
            }),
            (if a < b {
                0int
            } else {
                1int
            }),
{
    lemma_swapped_distinct(s, a, b);
    if b < a {
        assert(swapped(s, a, b) =~= swapped(s, b, a));
        lemma_swap_flips_parity(s, b, a);
    } else if b == a + 1 {
        lemma_inversions_swap_adjacent(s, a);
    } else {
        // Bring the entry of `a` next to `b`'s partner, exchange there, and
        // step back: three exchanges, each of which flips the parity.
        let s1 = swapped(s, a, a + 1);
        lemma_swapped_distinct(s, a, a + 1);
        lemma_inversions_swap_adjacent(s, a);
        let s2 = swapped(s1, a + 1, b);
        lemma_swap_flips_parity(s1, a + 1, b);
        let s3 = swapped(s2, a, a + 1);
        lemma_inversions_swap_adjacent(s2, a);
        assert(s3 =~= swapped(s, a, b));
    }
}

/// Moving the entries at four different positions round in a cycle flips the
/// parity of an arrangement of distinct values.
pub proof fn lemma_rotation_flips_parity(s: Seq<int>, a: int, b: int, c: int, d: int)
    requires
        0 <= a < s.len(),
        0 <= b < s.len(),
        0 <= c < s.len(),
        0 <= d < s.len(),
        a != b && a != c && a != d && b != c && b != d && c != d,
        distinct(s),
    ensures
        distinct(rotated(s, a, b, c, d)),
        odd(rotated(s, a, b, c, d)) != odd(s),
{
    let s1 = swapped(s, a, b);
    lemma_swap_flips_parity(s, a, b);
    let s2 = swapped(s1, b, c);
    lemma_swap_flips_parity(s1, b, c);
    let s3 = swapped(s2, c, d);
    lemma_swap_flips_parity(s2, c, d);
    assert(s3 =~= rotated(s, a, b, c, d));
}

/// Count the number of inversions in an arrangement.
pub fn num_inversions(perm: &[usize]) -> (num: usize)
    requires
        perm@.len() <= 0xffff,
    ensures
        num == inversions(ints(perm@)),
{
    let ghost s = ints(perm@);
    let n = perm.len();
    let mut num: usize = 0;
    let mut i: usize = 0;
    proof {
        lemma_inversions_bound(s);
        assert(s.skip(0) =~= s);
        assert(n * n <= 0xffff * 0xffff) by (nonlinear_arith)
            requires
                n <= 0xffff,
        ;
    }
    while i < n
        invariant
            n == perm@.len(),
            n <= 0xffff,
            s == ints(perm@),
            i <= n,
            num + inversions(s.skip(i as int)) == inversions(s),
            inversions(s) <= 0xffff * 0xffff,
        decreases n - i,
    {
        let ghost tail = s.skip(i as int + 1);
        let mut j: usize = i + 1;
        let mut below: usize = 0;
        assert(s.subrange(i as int + 1, j as int) =~= Seq::<int>::empty());
        while j < n
            invariant
                n == perm@.len(),
                s == ints(perm@),
                i < n,
                i < j <= n,
                below == count_below(s.subrange(i as int + 1, j as int), s[i as int]),
                below <= j - i - 1,
            decreases n - j,
        {
            proof {
                let next = s.subrange(i as int + 1, j as int + 1);
                assert(next.drop_last() =~= s.subrange(i as int + 1, j as int));
                assert(next.last() == s[j as int]);
            }
            if perm[i] > perm[j] {
                below += 1;
            }
            j += 1;
        }
        proof {
            assert(s.subrange(i as int + 1, n as int) =~= tail);
            assert(s.skip(i as int).drop_first() =~= tail);
            assert(s.skip(i as int)[0] == s[i as int]);
        }
        num += below;
        i += 1;
    }
    assert(s.skip(n as int) =~= Seq::<int>::empty());
    num
}

} // verus!
