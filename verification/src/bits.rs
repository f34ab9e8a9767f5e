//! A byte read as eight slots, each taken (bit set) or free (bit clear).

use vstd::prelude::*;
use vstd::std_specs::bits::{axiom_u8_trailing_zeros, u8_trailing_zeros};

verus! {

/// Bit `b` of `v` is clear.
pub open spec fn is_clear(v: u8, b: u8) -> bool {
    (v >> b) & 1 == 0
}

/// The number of clear bits of `v` among its `b` lowest.
pub open spec fn zeros_below(v: u8, b: nat) -> nat
    decreases b,
{
    if b == 0 {
        0
    } else {
        zeros_below(v, (b - 1) as nat) + if is_clear(v, (b - 1) as u8) {
            1nat
        } else {
            0nat
        }
    }
}

/// The positions of the clear bits of `v` among its `n` lowest, in
/// ascending order.
pub open spec fn free_slots(v: u8, n: nat) -> Seq<int>
    decreases n,
{
    if n == 0 {
        Seq::empty()
    } else if is_clear(v, (n - 1) as u8) {
        free_slots(v, (n - 1) as nat).push(n - 1)
    } else {
        free_slots(v, (n - 1) as nat)
    }
}

/// The position of the lowest clear bit of `v`, or 8 where every bit is set.
pub open spec fn lowest_zero(v: u8) -> u8 {
    if v & 1 == 0 {
        0
    } else if v & 2 == 0 {
        1
    } else if v & 4 == 0 {
        2
    } else if v & 8 == 0 {
        3
    } else if v & 16 == 0 {
        4
    } else if v & 32 == 0 {
        5
    } else if v & 64 == 0 {
        6
    } else if v & 128 == 0 {
        7
    } else {
        8
    }
}

/// The lowest clear bit is clear, no bit below it is, and there is none
/// only where all eight bits are set.
proof fn lemma_lowest_zero(v: u8, b: u8)
    by (bit_vector)
    requires
        b < 8,
    ensures
        lowest_zero(v) <= 8,
        lowest_zero(v) < 8 ==> is_clear(v, lowest_zero(v)),
        b < lowest_zero(v) ==> !is_clear(v, b),
        (lowest_zero(v) == 8) == (v == 255),
{
}

/// Adding one and joining the bits sets the lowest clear bit and no other.
proof fn lemma_fill_lowest_zero(v: u8, b: u8)
    by (bit_vector)
    requires
        v != 255,
        b < 8,
    ensures
        is_clear(v | ((v + 1) as u8), b) == (is_clear(v, b) && b != lowest_zero(v)),
{
}

/// The lowest set bit of the complement is the lowest clear bit.
proof fn lemma_first_one_is_lowest_zero(v: u8, t: u8)
    by (bit_vector)
    requires
        t <= 8,
        (!v == 0) == (t == 8),
        t < 8 ==> (!v >> t) & 1 == 1,
        0 < t ==> (!v >> 0u8) & 1 == 0,
        1 < t ==> (!v >> 1u8) & 1 == 0,
        2 < t ==> (!v >> 2u8) & 1 == 0,
        3 < t ==> (!v >> 3u8) & 1 == 0,
        4 < t ==> (!v >> 4u8) & 1 == 0,
        5 < t ==> (!v >> 5u8) & 1 == 0,
        6 < t ==> (!v >> 6u8) & 1 == 0,
        7 < t ==> (!v >> 7u8) & 1 == 0,
    ensures
        t == lowest_zero(v),
{
}

/// Setting bit `b` takes slot `b` and no other.
pub proof fn lemma_set_bit(v: u8, b: u8, j: u8)
    by (bit_vector)
    requires
        b < 8,
        j < 8,
    ensures
        is_clear(v | (1u8 << b), j) == (is_clear(v, j) && j != b),
{
}

/// A byte of zeros has every slot free.
pub proof fn lemma_zero_all_clear(j: u8)
    by (bit_vector)
    requires
        j < 8,
    ensures
        is_clear(0u8, j),
{
}

/// Where no bit from `lo` up to `hi` is clear, the count of clear bits does
/// not grow from `lo` to `hi`.
pub proof fn lemma_zeros_below_run(v: u8, lo: nat, hi: nat)
    requires
        lo <= hi <= 8,
        forall|b: u8| lo <= b < hi ==> !#[trigger] is_clear(v, b),
    ensures
        zeros_below(v, hi) == zeros_below(v, lo),
    decreases hi - lo,
{
    if lo < hi {
        lemma_zeros_below_run(v, lo, (hi - 1) as nat);
        assert(!is_clear(v, (hi - 1) as u8));
    }
}

/// The count of clear bits grows with the number of bits counted.
pub proof fn lemma_zeros_below_grows(v: u8, lo: nat, hi: nat)
    requires
        lo <= hi,
    ensures
        zeros_below(v, lo) <= zeros_below(v, hi),
        zeros_below(v, hi) <= zeros_below(v, lo) + (hi - lo),
    decreases hi - lo,
{
    if lo < hi {
        lemma_zeros_below_grows(v, lo, (hi - 1) as nat);
    }
}

/// There are as many free slots as clear bits, and each is the position of
/// a clear bit with as many clear bits below it as it has free slots before
/// it.
pub proof fn lemma_free_slots(v: u8, n: nat)
    requires
        n <= 8,
    ensures
        free_slots(v, n).len() == zeros_below(v, n),
        forall|d: int|
            0 <= d < free_slots(v, n).len() ==> {
                let p = #[trigger] free_slots(v, n)[d];
                &&& 0 <= p < n
                &&& is_clear(v, p as u8)
                &&& zeros_below(v, p as nat) == d
            },
    decreases n,
{
    if n > 0 {
        lemma_free_slots(v, (n - 1) as nat);
    }
}

/// A clear bit is the free slot whose number is the count of clear bits
/// below it.
pub proof fn lemma_free_slot_at(v: u8, n: nat, p: nat)
    requires
        p < n <= 8,
        is_clear(v, p as u8),
    ensures
        zeros_below(v, p) < free_slots(v, n).len(),
        free_slots(v, n)[zeros_below(v, p) as int] == p,
    decreases n,
{
    lemma_free_slots(v, (n - 1) as nat);
    if p == n - 1 {
    } else {
        lemma_free_slot_at(v, (n - 1) as nat, p);
    }
}

/// The position of the `n`-th clear bit of `val`, counting from 0 and from
/// the lowest bit; 8 where `val` has exactly `n` clear bits.
pub fn get_nth_zero(val: u8, n: u8) -> (r: u8)
    requires
        n <= zeros_below(val, 8),
    ensures
        r <= 8,
        zeros_below(val, r as nat) == n,
        r < 8 ==> is_clear(val, r),
        r == 8 <==> zeros_below(val, 8) == n,
{
    let mut cur = val;
    let mut t: u8 = 0;
    proof {
        let q = lowest_zero(val);
        assert forall|b: u8| 0 <= b < q implies !#[trigger] is_clear(val, b) by {
            lemma_lowest_zero(val, b);
        }
        lemma_lowest_zero(val, 0);
        lemma_zeros_below_run(val, 0, q as nat);
    }
    while t < n
        invariant
            t <= n,
            n <= zeros_below(val, 8),
            lowest_zero(cur) <= 8,
            zeros_below(val, lowest_zero(cur) as nat) == t,
            forall|b: u8| lowest_zero(cur) <= b < 8 ==> is_clear(cur, b) == #[trigger] is_clear(val, b),
        decreases n - t,
    {
        let ghost q = lowest_zero(cur);
        proof {
            lemma_lowest_zero(cur, 0);
            assert(cur != 255);
        }
        let next = cur | (cur + 1);
        proof {
            let q2 = lowest_zero(next);
            lemma_lowest_zero(next, 0);
            lemma_lowest_zero(next, q);
            lemma_fill_lowest_zero(cur, q);
            if q2 < 8 {
                lemma_lowest_zero(cur, q2);
                lemma_fill_lowest_zero(cur, q2);
            }
            assert(q < q2);
            assert(is_clear(val, q));
            assert forall|b: u8| q + 1 <= b < q2 implies !#[trigger] is_clear(val, b) by {
                lemma_lowest_zero(next, b);
                lemma_fill_lowest_zero(cur, b);
            }
            lemma_zeros_below_run(val, (q + 1) as nat, q2 as nat);
            assert forall|b: u8| q2 <= b < 8 implies is_clear(next, b) == #[trigger] is_clear(
                val,
                b,
            ) by {
                lemma_fill_lowest_zero(cur, b);
            }
        }
        cur = next;
        t += 1;
    }
    let r = (!cur).trailing_zeros() as u8;
    proof {
        let i = !cur;
        axiom_u8_trailing_zeros(i);
        let tz = u8_trailing_zeros(i);
        assert(0 < tz ==> (i >> 0u8) & 1u8 == 0u8);
        assert(1 < tz ==> (i >> 1u8) & 1u8 == 0u8);
        assert(2 < tz ==> (i >> 2u8) & 1u8 == 0u8);
        assert(3 < tz ==> (i >> 3u8) & 1u8 == 0u8);
        assert(4 < tz ==> (i >> 4u8) & 1u8 == 0u8);
        assert(5 < tz ==> (i >> 5u8) & 1u8 == 0u8);
        assert(6 < tz ==> (i >> 6u8) & 1u8 == 0u8);
        assert(7 < tz ==> (i >> 7u8) & 1u8 == 0u8);
        lemma_first_one_is_lowest_zero(cur, r);
        lemma_lowest_zero(cur, 0);
        if r < 8 {
            lemma_zeros_below_grows(val, (r + 1) as nat, 8);
        }
    }
    r
}

} // verus!
