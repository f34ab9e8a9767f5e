//! Numbering the arrangements of `n` things from 0 to `n! - 1`, by the
//! factorial number system.

use crate::bits::{
    free_slots, get_nth_zero, is_clear, lemma_free_slot_at, lemma_free_slots, lemma_set_bit,
    lemma_zero_all_clear, lemma_zeros_below_grows, zeros_below,
};
use crate::numbers::{
    factorial, factorial_digits, factorial_of, lemma_factorial_positive, lemma_factorial_values,
    quotient, remainder,
};
use crate::perm::{count_above, distinct, ints, lemma_count_above_bound};
use vstd::arithmetic::div_mod::{
    lemma_fundamental_div_mod, lemma_fundamental_div_mod_converse, lemma_mod_pos_bound,
    lemma_multiply_divide_lt,
};
use vstd::prelude::*;

verus! {

/// The number of an arrangement: the sum, over its positions `i`, of `i!`
/// times the count of larger entries before position `i`.
pub open spec fn perm_rank(p: Seq<int>) -> nat
    decreases p.len(),
{
    if p.len() == 0 {
        0
    } else {
        perm_rank(p.drop_last()) + count_above(p.drop_last(), p.last()) * factorial(
            (p.len() - 1) as nat,
        )
    }
}

/// The arrangement with number `r` of the values `avail`, which are given in
/// descending order: the last place takes the value that has as many larger
/// ones as `(n - 1)!` goes into `r`, and the places before it arrange the
/// other values by what is left of `r`.
pub open spec fn arrange(avail: Seq<int>, r: nat) -> Seq<int>
    decreases avail.len(),
{
    if avail.len() == 0 {
        Seq::empty()
    } else {
        let f = factorial((avail.len() - 1) as nat);
        let d = pick(quotient(r, f), avail.len());
        arrange(without(avail, d), remainder(r, f)).push(avail[d])
    }
}

/// The place of the value to take: `d`, or the last place where there is no
/// place `d`.
pub open spec fn pick(d: nat, len: nat) -> int {
    if d < len {
        d as int
    } else {
        len - 1
    }
}

/// `s` without entry `d`.
pub open spec fn without(s: Seq<int>, d: int) -> Seq<int> {
    Seq::new((s.len() - 1) as nat, |i: int| if i < d {
        s[i]
    } else {
        s[i + 1]
    })
}

/// The `n` values from `top` downwards.
pub open spec fn descending(n: nat, top: int) -> Seq<int> {
    Seq::new(n, |i: int| top - i)
}

/// Each entry is larger than the next.
pub open spec fn falling(s: Seq<int>) -> bool {
    forall|i: int, j: int| 0 <= i < j < s.len() ==> s[i] > s[j]
}

/// Every entry of `p` is an entry of `s`.
pub open spec fn drawn_from(p: Seq<int>, s: Seq<int>) -> bool {
    forall|i: int| 0 <= i < p.len() ==> s.contains(#[trigger] p[i])
}

/// Each entry of `s` raised by `by`.
pub open spec fn shifted(s: Seq<int>, by: int) -> Seq<int> {
    Seq::new(s.len(), |i: int| s[i] + by)
}

/// The digit and the rest into which the factorial of `n - 1` splits a
/// number below the factorial of `n`.
pub proof fn lemma_split(r: nat, n: nat)
    requires
        n > 0,
        r < factorial(n),
    ensures
        quotient(r, factorial((n - 1) as nat)) < n,
        remainder(r, factorial((n - 1) as nat)) < factorial((n - 1) as nat),
        r == quotient(r, factorial((n - 1) as nat)) * factorial((n - 1) as nat) + remainder(
            r,
            factorial((n - 1) as nat),
        ),
{
    reveal(quotient);
    reveal(remainder);
    let f = factorial((n - 1) as nat) as int;
    lemma_factorial_positive((n - 1) as nat);
    assert(factorial(n) == n * f);
    assert(f * n == n * f) by (nonlinear_arith);
    lemma_multiply_divide_lt(r as int, f, n as int);
    lemma_mod_pos_bound(r as int, f);
    lemma_fundamental_div_mod(r as int, f);
    assert(0 <= r as int / f) by (nonlinear_arith)
        requires
            r >= 0,
            f > 0,
    ;
    assert(f * (r as int / f) == (r as int / f) * f) by (nonlinear_arith);
}

/// A digit below `n` and a rest below the factorial of `n - 1` make a number
/// below the factorial of `n`, which splits into that digit and that rest.
pub proof fn lemma_join(d: nat, rest: nat, n: nat)
    requires
        n > 0,
        d < n,
        rest < factorial((n - 1) as nat),
    ensures
        d * factorial((n - 1) as nat) + rest < factorial(n),
        quotient((d * factorial((n - 1) as nat) + rest) as nat, factorial((n - 1) as nat)) == d,
        remainder((d * factorial((n - 1) as nat) + rest) as nat, factorial((n - 1) as nat))
            == rest,
{
    reveal(quotient);
    reveal(remainder);
    let f = factorial((n - 1) as nat) as int;
    let r = d * f + rest;
    assert(factorial(n) == n * f);
    assert(d * f + rest < n * f) by (nonlinear_arith)
        requires
            d < n,
            rest < f,
            d >= 0,
    ;
    assert(d * f >= 0) by (nonlinear_arith)
        requires
            d >= 0,
            f >= 0,
    ;
    lemma_fundamental_div_mod_converse(r, f, d as int, rest as int);
}

/// A falling sequence without one of its entries falls.
pub proof fn lemma_falling_remove(s: Seq<int>, d: int)
    requires
        falling(s),
        0 <= d < s.len(),
    ensures
        falling(without(s, d)),
        without(s, d).len() == s.len() - 1,
{
    let t = without(s, d);
    assert forall|i: int, j: int| 0 <= i < j < t.len() implies t[i] > t[j] by {
        let i0 = if i < d {
            i
        } else {
            i + 1
        };
        let j0 = if j < d {
            j
        } else {
            j + 1
        };
        assert(t[i] == s[i0] && t[j] == s[j0]);
    }
}

/// Taking an entry out lowers the count of entries above `x` by one if the
/// entry was above `x`, and not at all if it was not.
pub proof fn lemma_count_above_remove(s: Seq<int>, d: int, x: int)
    requires
        0 <= d < s.len(),
    ensures
        count_above(s, x) == count_above(without(s, d), x) + if s[d] > x {
            1nat
        } else {
            0nat
        },
    decreases s.len(),
{
    if d == s.len() - 1 {
        assert(without(s, d) =~= s.drop_last());
    } else {
        lemma_count_above_remove(s.drop_last(), d, x);
        assert(without(s, d).drop_last() =~= without(s.drop_last(), d));
        assert(without(s, d).last() == s.last());
    }
}

/// In a falling sequence, as many of the first `j` entries lie above entry
/// `d` as there are entries before both `j` and `d`.
pub proof fn lemma_falling_count(s: Seq<int>, d: int, j: int)
    requires
        falling(s),
        0 <= d < s.len(),
        0 <= j <= s.len(),
    ensures
        count_above(s.take(j), s[d]) == if j <= d {
            j
        } else {
            d
        },
    decreases j,
{
    if j > 0 {
        lemma_falling_count(s, d, j - 1);
        assert(s.take(j).drop_last() =~= s.take(j - 1));
        assert(s.take(j).last() == s[j - 1]);
        if j - 1 < d {
            assert(s[j - 1] > s[d]);
        } else if j - 1 > d {
            assert(s[d] > s[j - 1]);
        }
    }
}

/// An arrangement of `n` values with a number below `n!` has `n` entries,
/// all of them drawn from the values, none twice, and as many of them above
/// any `x` as there are values above `x`.
pub proof fn lemma_arrange(avail: Seq<int>, r: nat, x: int)
    requires
        falling(avail),
        r < factorial(avail.len()),
    ensures
        arrange(avail, r).len() == avail.len(),
        drawn_from(arrange(avail, r), avail),
        distinct(arrange(avail, r)),
        count_above(arrange(avail, r), x) == count_above(avail, x),
    decreases avail.len(),
{
    let n = avail.len();
    if n > 0 {
        let f = factorial((n - 1) as nat);
        lemma_split(r, n);
        let d = pick(quotient(r, f), n);
        let rest = remainder(r, f);
        lemma_falling_remove(avail, d);
        let others = without(avail, d);
        lemma_arrange(others, rest, x);
        let q = arrange(others, rest);
        let p = arrange(avail, r);
        assert(p == q.push(avail[d]));
        assert(p.drop_last() =~= q);
        lemma_count_above_remove(avail, d, x);
        assert forall|i: int| 0 <= i < p.len() implies avail.contains(#[trigger] p[i]) by {
            if i < q.len() {
                assert(others.contains(q[i]));
                let j = choose|j: int| 0 <= j < others.len() && others[j] == q[i];
                let j0 = if j < d {
                    j
                } else {
                    j + 1
                };
                assert(avail[j0] == q[i]);
            } else {
                assert(avail[d] == p[i]);
            }
        }
        assert forall|i: int, j: int| 0 <= i < j < p.len() implies p[i] != p[j] by {
            if j == p.len() - 1 {
                assert(others.contains(q[i]));
                let k = choose|k: int| 0 <= k < others.len() && others[k] == q[i];
                let k0 = if k < d {
                    k
                } else {
                    k + 1
                };
                assert(avail[k0] == q[i]);
                if k0 < d {
                    assert(avail[k0] > avail[d]);
                } else {
                    assert(avail[d] > avail[k0]);
                }
            } else {
                assert(q[i] != q[j]);
            }
        }
    }
}

/// The number of an arrangement of `n` entries is below `n!`.
pub proof fn lemma_rank_bound(p: Seq<int>)
    ensures
        perm_rank(p) < factorial(p.len()),
    decreases p.len(),
{
    if p.len() > 0 {
        let n = p.len();
        let q = p.drop_last();
        let f = factorial((n - 1) as nat);
        let c = count_above(q, p.last());
        lemma_rank_bound(q);
        lemma_count_above_bound(q, p.last());
        assert(perm_rank(q) + c * f < n * f) by (nonlinear_arith)
            requires
                perm_rank(q) < f,
                c <= n - 1,
        ;
    }
}

/// The arrangement with number `r` has the number `r`.
pub proof fn lemma_rank_arrange(avail: Seq<int>, r: nat)
    requires
        falling(avail),
        r < factorial(avail.len()),
    ensures
        perm_rank(arrange(avail, r)) == r,
    decreases avail.len(),
{
    let n = avail.len();
    if n > 0 {
        let f = factorial((n - 1) as nat);
        lemma_split(r, n);
        let d = pick(quotient(r, f), n);
        let rest = remainder(r, f);
        lemma_falling_remove(avail, d);
        let others = without(avail, d);
        lemma_rank_arrange(others, rest);
        lemma_arrange(others, rest, avail[d]);
        let q = arrange(others, rest);
        let p = arrange(avail, r);
        assert(p == q.push(avail[d]));
        assert(p.drop_last() =~= q);
        assert(p.last() == avail[d]);
        lemma_count_above_remove(avail, d, avail[d]);
        lemma_falling_count(avail, d, n as int);
        assert(avail.take(n as int) =~= avail);
        assert(count_above(q, avail[d]) == d);
    }
}

/// Two sequences without repeats, of one length, one drawn from the other,
/// have as many entries above any `x`.
pub proof fn lemma_same_count_above(p: Seq<int>, s: Seq<int>, x: int)
    requires
        distinct(p),
        falling(s),
        p.len() == s.len(),
        drawn_from(p, s),
    ensures
        count_above(p, x) == count_above(s, x),
    decreases p.len(),
{
    if p.len() > 0 {
        let q = p.drop_last();
        let d = choose|d: int| 0 <= d < s.len() && s[d] == p.last();
        assert(s.contains(p.last()));
        lemma_drop_last_drawn(p, s, d);
        lemma_falling_remove(s, d);
        lemma_same_count_above(q, without(s, d), x);
        lemma_count_above_remove(s, d, x);
    }
}

/// Without its last entry, which is entry `d` of `s`, `p` is drawn from `s`
/// without entry `d`.
pub proof fn lemma_drop_last_drawn(p: Seq<int>, s: Seq<int>, d: int)
    requires
        distinct(p),
        falling(s),
        p.len() > 0,
        drawn_from(p, s),
        0 <= d < s.len(),
        s[d] == p.last(),
    ensures
        distinct(p.drop_last()),
        drawn_from(p.drop_last(), without(s, d)),
{
    let q = p.drop_last();
    let t = without(s, d);
    assert forall|i: int| 0 <= i < q.len() implies t.contains(#[trigger] q[i]) by {
        assert(q[i] == p[i]);
        assert(s.contains(p[i]));
        let j = choose|j: int| 0 <= j < s.len() && s[j] == p[i];
        assert(p[i] != p[p.len() - 1]);
        assert(j != d);
        let j0 = if j < d {
            j
        } else {
            j - 1
        };
        assert(t[j0] == q[i]);
    }
    assert forall|i: int, j: int| 0 <= i < j < q.len() implies q[i] != q[j] by {
        assert(p[i] != p[j]);
    }
}

/// Arranging values by the number of an arrangement of them gives that
/// arrangement back.
pub proof fn lemma_arrange_rank(p: Seq<int>, avail: Seq<int>)
    requires
        distinct(p),
        falling(avail),
        p.len() == avail.len(),
        drawn_from(p, avail),
    ensures
        arrange(avail, perm_rank(p)) == p,
    decreases p.len(),
{
    let n = p.len();
    if n > 0 {
        let q = p.drop_last();
        let x = p.last();
        let f = factorial((n - 1) as nat);
        assert(avail.contains(x));
        let d = choose|d: int| 0 <= d < avail.len() && avail[d] == x;
        let others = without(avail, d);
        lemma_drop_last_drawn(p, avail, d);
        lemma_falling_remove(avail, d);
        lemma_arrange_rank(q, others);
        lemma_same_count_above(q, others, x);
        lemma_count_above_remove(avail, d, x);
        lemma_falling_count(avail, d, n as int);
        assert(avail.take(n as int) =~= avail);
        assert(count_above(q, x) == d);
        lemma_rank_bound(q);
        lemma_join(d as nat, perm_rank(q), n);
        assert(pick(d as nat, n) == d);
        assert(arrange(avail, perm_rank(p)) == arrange(others, perm_rank(q)).push(avail[d]));
        assert(q.push(x) =~= p);
    } else {
        assert(arrange(avail, perm_rank(p)) =~= p);
    }
}

/// Raising every entry by the same amount changes neither the count of
/// larger entries nor the number of the arrangement.
pub proof fn lemma_rank_shifted(p: Seq<int>, by: int)
    ensures
        perm_rank(shifted(p, by)) == perm_rank(p),
    decreases p.len(),
{
    if p.len() > 0 {
        let q = p.drop_last();
        lemma_rank_shifted(q, by);
        assert(shifted(p, by).drop_last() =~= shifted(q, by));
        lemma_count_above_shifted(q, p.last(), by);
    }
}

/// Raising every entry and the mark by the same amount leaves the count of
/// entries above the mark as it was.
pub proof fn lemma_count_above_shifted(s: Seq<int>, x: int, by: int)
    ensures
        count_above(shifted(s, by), x + by) == count_above(s, x),
    decreases s.len(),
{
    if s.len() > 0 {
        lemma_count_above_shifted(s.drop_last(), x, by);
        assert(shifted(s, by).drop_last() =~= shifted(s.drop_last(), by));
    }
}

/// `p` and `q` are ordered alike: wherever one has the smaller entry first,
/// so has the other.
pub open spec fn same_order(p: Seq<int>, q: Seq<int>) -> bool {
    &&& p.len() == q.len()
    &&& forall|i: int, j: int|
        0 <= i < p.len() && 0 <= j < p.len() ==> (p[i] < p[j]) == (q[i] < q[j])
}

/// The number of places at which `u` lies above `x` while `v` does not lie
/// above `y`.
pub open spec fn count_above_only(u: Seq<int>, v: Seq<int>, x: int, y: int) -> nat
    decreases u.len(),
{
    if u.len() == 0 || v.len() == 0 {
        0
    } else {
        count_above_only(u.drop_last(), v.drop_last(), x, y) + if u.last() > x && !(v.last()
            > y) {
            1nat
        } else {
            0nat
        }
    }
}

/// The places at which only one of two sequences lies above its mark
/// account for the difference of the counts.
proof fn lemma_counts_differ(u: Seq<int>, v: Seq<int>, x: int, y: int)
    requires
        u.len() == v.len(),
    ensures
        count_above(u, x) - count_above(v, y) == count_above_only(u, v, x, y)
            - count_above_only(v, u, y, x),
    decreases u.len(),
{
    if u.len() > 0 {
        lemma_counts_differ(u.drop_last(), v.drop_last(), x, y);
    }
}

/// A place at which only `u` lies above its mark is counted.
proof fn lemma_counted(u: Seq<int>, v: Seq<int>, x: int, y: int, i: int)
    requires
        u.len() == v.len(),
        0 <= i < u.len(),
        u[i] > x,
        !(v[i] > y),
    ensures
        count_above_only(u, v, x, y) > 0,
    decreases u.len(),
{
    if i < u.len() - 1 {
        lemma_counted(u.drop_last(), v.drop_last(), x, y, i);
    }
}

/// Where places are counted, there is such a place.
proof fn lemma_witness(u: Seq<int>, v: Seq<int>, x: int, y: int) -> (i: int)
    requires
        u.len() == v.len(),
        count_above_only(u, v, x, y) > 0,
    ensures
        0 <= i < u.len(),
        u[i] > x,
        !(v[i] > y),
    decreases u.len(),
{
    if u.last() > x && !(v.last() > y) {
        u.len() - 1
    } else {
        lemma_witness(u.drop_last(), v.drop_last(), x, y)
    }
}

/// Where two sequences are ordered alike and as many entries of the one lie
/// above `x` as entries of the other lie above `y`, they are the entries at
/// the same places.
proof fn lemma_same_places_above(p: Seq<int>, q: Seq<int>, x: int, y: int, i: int)
    requires
        same_order(p, q),
        count_above(p, x) == count_above(q, y),
        forall|k: int| 0 <= k < p.len() ==> p[k] != x,
        forall|k: int| 0 <= k < q.len() ==> q[k] != y,
        0 <= i < p.len(),
    ensures
        (p[i] > x) == (q[i] > y),
{
    lemma_counts_differ(p, q, x, y);
    if p[i] > x && !(q[i] > y) {
        lemma_counted(p, q, x, y, i);
        let j = lemma_witness(q, p, y, x);
        // q[j] > y > q[i], but p[j] < x < p[i].
        assert(q[i] < q[j]);
        assert(p[j] < p[i]);
    } else if q[i] > y && !(p[i] > x) {
        lemma_counted(q, p, y, x, i);
        let j = lemma_witness(p, q, x, y);
        assert(p[i] < p[j]);
        assert(q[j] < q[i]);
    }
}

/// Sequences that are ordered alike have as many entries above entries at
/// the same place.
proof fn lemma_same_order_count(p: Seq<int>, q: Seq<int>, n: int, k: int)
    requires
        same_order(p, q),
        0 <= n <= p.len(),
        0 <= k < p.len(),
    ensures
        count_above(p.take(n), p[k]) == count_above(q.take(n), q[k]),
    decreases n,
{
    if n > 0 {
        lemma_same_order_count(p, q, n - 1, k);
        assert(p.take(n).drop_last() =~= p.take(n - 1));
        assert(q.take(n).drop_last() =~= q.take(n - 1));
        assert((p[k] < p[n - 1]) == (q[k] < q[n - 1]));
    }
}

/// Arrangements that are ordered alike have the same number.
pub proof fn lemma_same_order_same_rank(p: Seq<int>, q: Seq<int>)
    requires
        same_order(p, q),
    ensures
        perm_rank(p) == perm_rank(q),
    decreases p.len(),
{
    if p.len() > 0 {
        let n = p.len() as int;
        let p1 = p.drop_last();
        let q1 = q.drop_last();
        assert(same_order(p1, q1)) by {
            assert forall|i: int, j: int| 0 <= i < p1.len() && 0 <= j < p1.len() implies (p1[i]
                < p1[j]) == (q1[i] < q1[j]) by {
                assert((p[i] < p[j]) == (q[i] < q[j]));
            }
        }
        lemma_same_order_same_rank(p1, q1);
        lemma_same_order_count(p, q, n - 1, n - 1);
        assert(p.take(n - 1) =~= p1);
        assert(q.take(n - 1) =~= q1);
    }
}

/// Arrangements without repeats that have the same number are ordered alike.
pub proof fn lemma_same_rank_same_order(p: Seq<int>, q: Seq<int>)
    requires
        distinct(p),
        distinct(q),
        p.len() == q.len(),
        perm_rank(p) == perm_rank(q),
    ensures
        same_order(p, q),
    decreases p.len(),
{
    if p.len() > 0 {
        let n = p.len();
        let p1 = p.drop_last();
        let q1 = q.drop_last();
        let x = p.last();
        let y = q.last();
        let cp = count_above(p1, x);
        let cq = count_above(q1, y);
        lemma_rank_bound(p1);
        lemma_rank_bound(q1);
        lemma_count_above_bound(p1, x);
        lemma_count_above_bound(q1, y);
        lemma_join(cp, perm_rank(p1), n);
        lemma_join(cq, perm_rank(q1), n);
        assert(cp == cq);
        assert(perm_rank(p1) == perm_rank(q1));
        assert forall|i: int, j: int| 0 <= i < j < p1.len() implies p1[i] != p1[j] by {
            assert(p[i] != p[j]);
        }
        assert forall|i: int, j: int| 0 <= i < j < q1.len() implies q1[i] != q1[j] by {
            assert(q[i] != q[j]);
        }
        lemma_same_rank_same_order(p1, q1);
        assert forall|k: int| 0 <= k < p1.len() implies p1[k] != x by {
            assert(p[k] != p[n - 1]);
        }
        assert forall|k: int| 0 <= k < q1.len() implies q1[k] != y by {
            assert(q[k] != q[n - 1]);
        }
        assert forall|i: int, j: int| 0 <= i < p.len() && 0 <= j < p.len() implies (p[i] < p[j])
            == (q[i] < q[j]) by {
            if i < n - 1 && j < n - 1 {
                assert((p1[i] < p1[j]) == (q1[i] < q1[j]));
            } else if i < n - 1 {
                lemma_same_places_above(p1, q1, x, y, i);
                assert(p1[i] != x && q1[i] != y);
            } else if j < n - 1 {
                lemma_same_places_above(p1, q1, x, y, j);
                assert(p1[j] != x && q1[j] != y);
            }
        }
    }
}

/// The values that stand for the free slots among the `n` lowest of `used`:
/// slot `b` stands for the value `n - 1 - b`.
pub open spec fn free_values(used: u8, n: nat) -> Seq<int> {
    Seq::new(free_slots(used, n).len(), |k: int| n - 1 - free_slots(used, n)[k])
}

/// With no slot taken, the free values are all `n` values, falling.
proof fn lemma_free_values_start(n: nat)
    requires
        n <= 8,
    ensures
        free_slots(0u8, n) == Seq::new(n, |k: int| k),
        free_values(0u8, n) == descending(n, n - 1),
    decreases n,
{
    if n > 0 {
        lemma_free_values_start((n - 1) as nat);
        lemma_zero_all_clear((n - 1) as u8);
    }
    assert(free_slots(0u8, n) =~= Seq::new(n, |k: int| k));
    assert(free_values(0u8, n) =~= descending(n, n - 1));
}

/// Taking the `d`-th free slot removes it from the free slots.
proof fn lemma_take_slot(used: u8, n: nat, b: u8, d: int)
    requires
        n <= 8,
        b < n,
        is_clear(used, b),
        d == zeros_below(used, b as nat),
    ensures
        0 <= d < free_slots(used, n).len(),
        free_slots(used, n)[d] == b,
        free_slots(used | (1u8 << b), n) == without(free_slots(used, n), d),
    decreases n,
{
    let next = used | (1u8 << b);
    lemma_free_slot_at(used, n, b as nat);
    lemma_set_bit(used, b, (n - 1) as u8);
    lemma_free_slots(used, (n - 1) as nat);
    if b == n - 1 {
        lemma_untouched_below(used, b, (n - 1) as nat);
        assert(without(free_slots(used, n), d) =~= free_slots(used, (n - 1) as nat));
    } else {
        lemma_take_slot(used, (n - 1) as nat, b, d);
        let lower = free_slots(used, (n - 1) as nat);
        if is_clear(used, (n - 1) as u8) {
            assert(without(lower.push(n - 1), d) =~= without(lower, d).push(n - 1));
        }
    }
}

/// Setting bit `b` leaves the free slots below `b` as they were.
proof fn lemma_untouched_below(used: u8, b: u8, n: nat)
    requires
        n <= b < 8,
    ensures
        free_slots(used | (1u8 << b), n) == free_slots(used, n),
    decreases n,
{
    if n > 0 {
        lemma_untouched_below(used, b, (n - 1) as nat);
        lemma_set_bit(used, b, (n - 1) as u8);
    }
}

/// The free values fall.
proof fn lemma_free_values_fall(used: u8, n: nat)
    requires
        n <= 8,
    ensures
        falling(free_values(used, n)),
        free_values(used, n).len() == zeros_below(used, n),
    decreases n,
{
    lemma_free_slots(used, n);
    let s = free_slots(used, n);
    let v = free_values(used, n);
    assert forall|i: int, j: int| 0 <= i < j < v.len() implies v[i] > v[j] by {
        if s[i] >= s[j] {
            lemma_zeros_below_grows(used, s[j] as nat, s[i] as nat);
        }
    }
}

/// The number of inversions with regards to the element `i`.
pub fn num_inversions_of(perm: &[usize], i: usize) -> (num: usize)
    ensures
        i < perm@.len() ==> num == count_above(ints(perm@).take(i as int), perm@[i as int] as int),
        i >= perm@.len() ==> num == 0,
        num <= i,
{
    if perm.len() <= i {
        return 0;
    }
    let ghost s = ints(perm@);
    let p = perm[i];
    let mut num: usize = 0;
    let mut j: usize = 0;
    assert(s.take(0) =~= Seq::<int>::empty());
    while j < i
        invariant
            j <= i < perm@.len(),
            s == ints(perm@),
            p == perm@[i as int],
            num == count_above(s.take(j as int), p as int),
            num <= j,
        decreases i - j,
    {
        proof {
            assert(s.take(j as int + 1).drop_last() =~= s.take(j as int));
            assert(s.take(j as int + 1).last() == perm@[j as int]);
        }
        if perm[j] > p {
            num += 1;
        }
        j += 1;
    }
    num
}

/// The number of inversions of each element of the permutation `perm`.
pub fn get_perm_inversions(perm: &[usize]) -> (counts: Vec<usize>)
    ensures
        counts@.len() == perm@.len(),
        forall|i: int|
            0 <= i < perm@.len() ==> #[trigger] counts@[i] == count_above(
                ints(perm@).take(i),
                perm@[i] as int,
            ),
        forall|i: int| 0 <= i < perm@.len() ==> #[trigger] counts@[i] <= i,
{
    let mut counts: Vec<usize> = Vec::new();
    let mut i: usize = 0;
    while i < perm.len()
        invariant
            i <= perm@.len(),
            counts@.len() == i,
            forall|k: int|
                0 <= k < i ==> #[trigger] counts@[k] == count_above(
                    ints(perm@).take(k),
                    perm@[k] as int,
                ),
            forall|k: int| 0 <= k < i ==> #[trigger] counts@[k] <= k,
        decreases perm@.len() - i,
    {
        let c = num_inversions_of(perm, i);
        counts.push(c);
        i += 1;
    }
    counts
}

/// The number of the arrangement `perm`: the sum, over its positions `i`, of
/// `i!` times the count of larger entries before position `i`.
pub fn get_perm_coord(perm: &[usize]) -> (coord: usize)
    requires
        perm@.len() <= 12,
    ensures
        coord == perm_rank(ints(perm@)),
        coord < factorial(perm@.len()),
{
    let ghost s = ints(perm@);
    let counts = get_perm_inversions(perm);
    let mut coord: usize = 0;
    let mut i: usize = 0;
    proof {
        assert(s.take(0) =~= Seq::<int>::empty());
        lemma_factorial_values();
        lemma_rank_bound(s.take(0));
    }
    while i < perm.len()
        invariant
            i <= perm@.len() <= 12,
            s == ints(perm@),
            counts@.len() == perm@.len(),
            forall|k: int|
                0 <= k < perm@.len() ==> #[trigger] counts@[k] == count_above(
                    s.take(k),
                    perm@[k] as int,
                ),
            coord == perm_rank(s.take(i as int)),
            coord < factorial(i as nat),
        decreases perm@.len() - i,
    {
        let f = factorial_of(i);
        let c = counts[i];
        proof {
            let next = s.take(i as int + 1);
            assert(next.drop_last() =~= s.take(i as int));
            assert(next.last() == perm@[i as int]);
            lemma_rank_bound(next);
            lemma_factorial_values();
            crate::numbers::lemma_factorial_increases((i + 1) as nat, 12);
            assert(c * f >= 0) by (nonlinear_arith)
                requires
                    c >= 0,
                    f >= 0,
            ;
            assert(perm_rank(next) == coord + c * f);
        }
        coord = coord + c * f;
        i += 1;
    }
    assert(s.take(perm@.len() as int) =~= s);
    coord
}

/// The arrangement with number `coord` of the values below `len`.
pub fn set_perm_coord(len: usize, coord: usize) -> (perm: Vec<usize>)
    requires
        len <= 8,
        coord < factorial(len as nat),
    ensures
        perm@.len() == len,
        ints(perm@) == arrange(descending(len as nat, len - 1), coord as nat),
        forall|i: int| 0 <= i < len ==> perm@[i] < len,
{
    let ghost target = arrange(descending(len as nat, len - 1), coord as nat);
    let mut perm: Vec<usize> = Vec::new();
    let mut k: usize = 0;
    while k < len
        invariant
            k <= len,
            perm@.len() == k,
            forall|i: int| 0 <= i < k ==> perm@[i] == 0,
        decreases len - k,
    {
        perm.push(0);
        k += 1;
    }
    let mut used_bits = 0u8;
    let mut digits = factorial_digits(coord, len);
    let mut i: usize = len;
    proof {
        lemma_free_values_start(len as nat);
        lemma_free_values_fall(0u8, len as nat);
        assert(ints(perm@).subrange(len as int, len as int) =~= Seq::<int>::empty());
        assert(target =~= target + Seq::<int>::empty());
    }
    while i > 0
        invariant
            i <= len <= 8,
            perm@.len() == len,
            digits.len() == i,
            digits.val() < factorial(i as nat),
            zeros_below(used_bits, len as nat) == i,
            falling(free_values(used_bits, len as nat)),
            free_values(used_bits, len as nat).len() == i,
            target == arrange(free_values(used_bits, len as nat), digits.val()) + ints(
                perm@,
            ).subrange(i as int, len as int),
            forall|j: int| 0 <= j < len ==> perm@[j] < len,
        decreases i,
    {
        let ghost avail = free_values(used_bits, len as nat);
        let ghost r = digits.val();
        let ghost placed = ints(perm@).subrange(i as int, len as int);
        proof {
            lemma_split(r, i as nat);
            crate::numbers::lemma_factorial_digits_len(r, i as nat);
        }
        let digit = digits.next();
        let n = match digit {
            Some(n) => n,
            None => 0,
        };
        let ghost d = quotient(r, factorial((i - 1) as nat));
        let ghost rest = remainder(r, factorial((i - 1) as nat));
        assert(n == d);
        assert(digits.val() == rest);
        proof {
            lemma_zeros_below_grows(used_bits, len as nat, 8);
        }
        let bit_n = get_nth_zero(used_bits, n as u8);
        proof {
            if bit_n >= len {
                lemma_zeros_below_grows(used_bits, len as nat, bit_n as nat);
            }
            assert(bit_n < len);
            lemma_take_slot(used_bits, len as nat, bit_n, d as int);
        }
        used_bits = used_bits | (1u8 << bit_n);
        i -= 1;
        perm.set(i, len - 1 - bit_n as usize);
        proof {
            let others = free_values(used_bits, len as nat);
            lemma_free_values_fall(used_bits, len as nat);
            assert(others =~= without(avail, d as int));
            assert(pick(d, avail.len()) == d);
            assert(arrange(avail, r) == arrange(others, rest).push(avail[d as int]));
            assert(ints(perm@).subrange(i as int, len as int) =~= seq![avail[d as int]]
                + placed);
        }
    }
    proof {
        assert(arrange(free_values(used_bits, len as nat), digits.val()) =~= Seq::<int>::empty());
        assert(ints(perm@).subrange(0, len as int) =~= ints(perm@));
    }
    perm
}

} // verus!
