//! The coordinate of the first stage that tells which four of the twelve
//! edge slots hold the slice edges.

use crate::coord::Coord;
use crate::cube::{edge_places, Cube};
use crate::lehmer::{descending, lemma_falling_count, lemma_same_count_above};
use crate::numbers::{binom, binomial};
use crate::perm::{count_above, distinct};
use crate::perm_coord::{
    lemma_drawn_from_range, lemma_with_edges_valid, place_edges, with_edges,
};
use crate::pieces::{Edge, Face};
use crate::search::Group;
use crate::state::{lemma_layers_kept, lemma_turned_once, quarter, CubeState};
use vstd::arithmetic::power::{lemma_pow_increases, lemma_pow_positive, pow};
use vstd::prelude::*;

verus! {

/// For each slot, whether the edge in it is a slice edge.
pub open spec fn slice_slots(ep: Seq<int>) -> Seq<bool> {
    Seq::new(ep.len(), |i: int| ep[i] >= 8)
}

/// The number of slots marked.
pub open spec fn count_true(s: Seq<bool>) -> nat
    decreases s.len(),
{
    if s.len() == 0 {
        0
    } else {
        count_true(s.drop_last()) + if s.last() {
            1nat
        } else {
            0nat
        }
    }
}

/// The number of a choice of `k + 1` slots: going from the last slot down,
/// every slot `i` that is not chosen counts C(i, k), where `k + 1` is the
/// number of chosen slots that are still to come.
pub open spec fn comb_rank(slots: Seq<bool>, k: int) -> nat
    decreases slots.len(),
{
    if slots.len() == 0 || k < 0 {
        0
    } else if slots.last() {
        comb_rank(slots.drop_last(), k - 1)
    } else {
        binom((slots.len() - 1) as nat, k as nat) + comb_rank(slots.drop_last(), k)
    }
}

/// The choice of `k + 1` of `n` slots that has the number `r`.
pub open spec fn comb_unrank(n: nat, k: int, r: nat) -> Seq<bool>
    decreases n,
{
    if n == 0 {
        Seq::empty()
    } else if k < 0 {
        comb_unrank((n - 1) as nat, k, r).push(false)
    } else if binom((n - 1) as nat, k as nat) > r {
        comb_unrank((n - 1) as nat, k - 1, r).push(true)
    } else {
        comb_unrank((n - 1) as nat, k, (r - binom((n - 1) as nat, k as nat)) as nat).push(false)
    }
}

/// The edges laid out over the slots: the slice edges, in their order, in
/// the marked slots, and the other edges, in their order, in the rest.
pub open spec fn spread(slots: Seq<bool>) -> Seq<int> {
    Seq::new(
        slots.len(),
        |i: int|
            if slots[i] {
                8 + count_true(slots.take(i)) as int
            } else {
                i - count_true(slots.take(i)) as int
            },
    )
}

/// The slots as numbers: 1 for a slot with a slice edge, 0 for another.
pub open spec fn marks(slots: Seq<bool>) -> Seq<int> {
    Seq::new(slots.len(), |i: int| if slots[i] {
        1int
    } else {
        0int
    })
}

/// There are at most two to the power `n` ways to choose from `n` things.
pub proof fn lemma_binom_bound(n: nat, k: nat)
    ensures
        binom(n, k) <= pow(2, n),
    decreases n,
{
    reveal(pow);
    lemma_pow_positive(2, n);
    if k > 0 && n > 0 {
        lemma_binom_bound((n - 1) as nat, (k - 1) as nat);
        lemma_binom_bound((n - 1) as nat, k);
    }
}

/// Among the first slots there are no more marked ones than among more of
/// them, and no more unmarked ones either.
pub proof fn lemma_count_true_take(s: Seq<bool>, i: int, j: int)
    requires
        0 <= i <= j <= s.len(),
    ensures
        count_true(s.take(i)) <= count_true(s.take(j)) <= count_true(s.take(i)) + (j - i),
        j < s.len() ==> count_true(s.take(j + 1)) == count_true(s.take(j)) + if s[j] {
            1nat
        } else {
            0nat
        },
    decreases j - i,
{
    if j < s.len() {
        assert(s.take(j + 1).drop_last() =~= s.take(j));
    }
    if i < j {
        lemma_count_true_take(s, i, j - 1);
    }
}

/// The choice with number `r` has `n` slots, `k + 1` of them marked, and the
/// number `r`.
pub proof fn lemma_unrank(n: nat, k: int, r: nat)
    requires
        k >= -1,
        r < binom(n, (k + 1) as nat),
    ensures
        comb_unrank(n, k, r).len() == n,
        count_true(comb_unrank(n, k, r)) == k + 1,
        comb_rank(comb_unrank(n, k, r), k) == r,
    decreases n,
{
    let s = comb_unrank(n, k, r);
    if n == 0 {
    } else if k < 0 {
        lemma_unrank((n - 1) as nat, k, r);
        assert(s.drop_last() =~= comb_unrank((n - 1) as nat, k, r));
    } else if binom((n - 1) as nat, k as nat) > r {
        lemma_unrank((n - 1) as nat, k - 1, r);
        assert(s.drop_last() =~= comb_unrank((n - 1) as nat, k - 1, r));
    } else {
        let rest = (r - binom((n - 1) as nat, k as nat)) as nat;
        assert(binom(n, (k + 1) as nat) == binom((n - 1) as nat, k as nat) + binom(
            (n - 1) as nat,
            (k + 1) as nat,
        ));
        lemma_unrank((n - 1) as nat, k, rest);
        assert(s.drop_last() =~= comb_unrank((n - 1) as nat, k, rest));
    }
}

/// The number of a choice of `k + 1` of `n` slots is below C(n, k + 1).
pub proof fn lemma_comb_rank_bound(slots: Seq<bool>, k: int)
    requires
        k >= -1,
        count_true(slots) == k + 1,
    ensures
        comb_rank(slots, k) < binom(slots.len(), (k + 1) as nat),
    decreases slots.len(),
{
    let n = slots.len();
    if n == 0 || k < 0 {
    } else {
        assert(binom(n, (k + 1) as nat) == binom((n - 1) as nat, k as nat) + binom(
            (n - 1) as nat,
            (k + 1) as nat,
        ));
        if slots.last() {
            lemma_comb_rank_bound(slots.drop_last(), k - 1);
        } else {
            lemma_comb_rank_bound(slots.drop_last(), k);
        }
    }
}

/// The choice whose number is that of `slots` is `slots`.
pub proof fn lemma_unrank_rank(slots: Seq<bool>, k: int)
    requires
        k >= -1,
        count_true(slots) == k + 1,
    ensures
        comb_unrank(slots.len(), k, comb_rank(slots, k)) == slots,
    decreases slots.len(),
{
    let n = slots.len();
    let r = comb_rank(slots, k);
    let s = comb_unrank(n, k, r);
    if n == 0 {
        assert(s =~= slots);
    } else if k < 0 {
        lemma_unrank_rank(slots.drop_last(), k);
        assert(comb_rank(slots.drop_last(), k) == 0);
        assert(s =~= slots);
    } else if slots.last() {
        lemma_comb_rank_bound(slots.drop_last(), k - 1);
        lemma_unrank_rank(slots.drop_last(), k - 1);
        assert(s =~= slots);
    } else {
        lemma_unrank_rank(slots.drop_last(), k);
        assert(s =~= slots);
    }
}

/// Four marked slots among twelve are laid out with twelve different edges,
/// the slice edges in the marked slots.
pub proof fn lemma_spread(slots: Seq<bool>)
    requires
        slots.len() == 12,
        count_true(slots) == 4,
    ensures
        spread(slots).len() == 12,
        distinct(spread(slots)),
        forall|i: int| 0 <= i < 12 ==> 0 <= #[trigger] spread(slots)[i] < 12,
        slice_slots(spread(slots)) == slots,
{
    let e = spread(slots);
    assert(slots.take(12) =~= slots);
    assert forall|i: int| 0 <= i < 12 implies 0 <= #[trigger] e[i] < 12 && (e[i] >= 8)
        == slots[i] by {
        lemma_count_true_take(slots, 0, i);
        lemma_count_true_take(slots, i, i);
        lemma_count_true_take(slots, i + 1, 12);
        assert(slots.take(0) =~= Seq::<bool>::empty());
    }
    assert forall|i: int, j: int| 0 <= i < j < 12 implies e[i] != e[j] by {
        lemma_count_true_take(slots, i, i);
        lemma_count_true_take(slots, i + 1, j);
        assert(0 <= e[i] < 12 && (e[i] >= 8) == slots[i]);
        assert(0 <= e[j] < 12 && (e[j] >= 8) == slots[j]);
    }
    assert(slice_slots(e) =~= slots);
}

/// As many slots hold a slice edge as there are edges above the last edge
/// of the U and D layers.
pub proof fn lemma_slice_count(ep: Seq<int>)
    ensures
        count_true(slice_slots(ep)) == count_above(ep, 7),
    decreases ep.len(),
{
    if ep.len() > 0 {
        lemma_slice_count(ep.drop_last());
        assert(slice_slots(ep).drop_last() =~= slice_slots(ep.drop_last()));
    }
}

/// Twelve different edges have four slice edges among them.
pub proof fn lemma_four_slice_edges(ep: Seq<int>)
    requires
        ep.len() == 12,
        distinct(ep),
        forall|i: int| 0 <= i < 12 ==> 0 <= #[trigger] ep[i] < 12,
    ensures
        count_true(slice_slots(ep)) == 4,
{
    let all = descending(12, 11);
    lemma_slice_count(ep);
    lemma_drawn_from_range(ep, 12);
    lemma_same_count_above(ep, all, 7);
    lemma_falling_count(all, 4, 12);
    assert(all.take(12) =~= all);
}

/// The G0 UD1 coordinate encodes the position of the four E-slice
/// edges (FR, FL, BL, BR).
/// The actual permutation of the slice edges is ignored.
pub struct UD1Coord;

impl UD1Coord {
    /// Number of elements in the coordinate's transition table.
    pub const NUM_ELEMS: usize = 495;
}

/// C(12, 4) and the bound that keeps sums of binomial coefficients small.
pub proof fn lemma_slice_sizes()
    ensures
        binom(12, 4) == 495,
        pow(2, 11) == 2048,
{
    reveal_with_fuel(binom, 14);
    reveal_with_fuel(pow, 12);
}

impl Coord for UD1Coord {
    open spec fn size() -> nat {
        495
    }

    open spec fn group_of() -> Group {
        Group::G0
    }

    open spec fn fits(c: CubeState) -> bool {
        true
    }

    open spec fn visible(c: CubeState) -> Seq<int> {
        marks(slice_slots(c.ep))
    }

    open spec fn encode(c: CubeState) -> int {
        comb_rank(slice_slots(c.ep), 3) as int
    }

    open spec fn decode(c: CubeState, coord: int) -> CubeState {
        with_edges(c, spread(comb_unrank(12, 3, coord as nat)))
    }

    fn num_elems() -> (n: usize) {
        495
    }

    fn group() -> (g: Group) {
        Group::G0
    }

    /// Setting the position of the E-slice edges based on the coordinate.
    ///
    /// Calculating the positions starts from position 11, and iterates
    /// down to position 0. At every position (N) the binomial coefficient,
    /// C(N, K), is calculated.
    /// If C(N, K) is larger than the current coordinate, N is a slice edge and K
    /// is reduced by 1.
    /// If C(N, K) is less than or equal to the coordinate, the coordinate is
    /// reduced by C(N, K).
    /// K is initially 3 and is reduced by 1 for each slide edge at
    /// a position > N. When K becomes negative, the coordinate processing is
    /// complete.
    fn set_coord(cube: &mut Cube, coord: usize) {
        let ghost c0 = cube@;
        let ghost target = comb_unrank(12, 3, coord as nat);
        proof {
            lemma_slice_sizes();
            lemma_unrank(12, 3, coord as nat);
        }
        let slice_edges = [Edge::FR, Edge::FL, Edge::BL, Edge::BR];
        let mut edges = [
            Edge::UR,
            Edge::UR,
            Edge::UR,
            Edge::UR,
            Edge::UR,
            Edge::UR,
            Edge::UR,
            Edge::UR,
            Edge::UR,
            Edge::UR,
            Edge::UR,
            Edge::UR,
        ];
        let mut rest = coord;
        let mut k: usize = 3;
        let mut done = false;
        let mut i: usize = 12;
        let ghost mut kk: int = 3;
        assert(target =~= comb_unrank(12, 3, rest as nat) + Seq::<bool>::empty());
        while i > 0 && !done
            invariant
                i <= 12,
                k <= 3,
                kk == if done {
                    -1
                } else {
                    k as int
                },
                target.len() == 12,
                slice_edges[0] == Edge::FR,
                slice_edges[1] == Edge::FL,
                slice_edges[2] == Edge::BL,
                slice_edges[3] == Edge::BR,
                rest < binom(i as nat, (kk + 1) as nat),
                comb_unrank(i as nat, kk, rest as nat).len() == i,
                count_true(comb_unrank(i as nat, kk, rest as nat)) == kk + 1,
                target == comb_unrank(i as nat, kk, rest as nat) + target.skip(i as int),
                forall|j: int| 0 <= j < i ==> #[trigger] edges[j] == Edge::UR,
                forall|j: int|
                    i <= j < 12 ==> #[trigger] edges[j].spec_index() == if target[j] {
                        8 + count_true(target.take(j))
                    } else {
                        0
                    },
            decreases i, if done { 0int } else { 1int },
        {
            let ghost upper = target.skip(i as int);
            let ghost whole = comb_unrank(i as nat, kk, rest as nat);
            i -= 1;
            let b = binomial(i, k);
            proof {
                assert(binom((i + 1) as nat, (kk + 1) as nat) == binom(i as nat, kk as nat)
                    + binom(i as nat, (kk + 1) as nat));
                assert(whole.take(i as int) =~= whole.drop_last());
                assert(target.take(i as int) =~= whole.drop_last());
                assert(target[i as int] == whole.last());
            }
            if b > rest {
                proof {
                    lemma_unrank(i as nat, kk - 1, rest as nat);
                    assert(whole == comb_unrank(i as nat, kk - 1, rest as nat).push(true));
                }
                edges[i] = slice_edges[k];
                if k == 0 {
                    done = true;
                } else {
                    k -= 1;
                }
                proof {
                    kk = kk - 1;
                }
            } else {
                proof {
                    lemma_unrank(i as nat, kk, (rest - b) as nat);
                    assert(whole == comb_unrank(i as nat, kk, (rest - b) as nat).push(false));
                }
                rest -= b;
            }
            proof {
                let lower = comb_unrank(i as nat, kk, rest as nat);
                assert(whole.drop_last() =~= lower);
                assert(target.skip(i as int) =~= seq![whole.last()] + upper);
                assert(target =~= lower + target.skip(i as int));
            }
        }
        proof {
            // What is left below has no slice edge.
            let lower = comb_unrank(i as nat, kk, rest as nat);
            assert forall|j: int| 0 <= j < i implies !target[j] by {
                if i > 0 {
                    assert(done);
                    lemma_no_marks(lower, j);
                    assert(target[j] == lower[j]);
                }
            }
        }
        // Replace all `UR` edges with edges from the solved edge permutation.
        // note: This does not affect the coordinate, but creates a valid cube.
        let mut next: usize = 0;
        let mut j: usize = 0;
        assert(target.take(0) =~= Seq::<bool>::empty());
        while j < 12
            invariant
                j <= 12,
                target.len() == 12,
                next == j - count_true(target.take(j as int)),
                next <= j,
                forall|m: int| 0 <= m < j ==> #[trigger] edges[m].spec_index() == spread(target)[m],
                forall|m: int|
                    j <= m < 12 ==> #[trigger] edges[m].spec_index() == if target[m] {
                        8 + count_true(target.take(m))
                    } else {
                        0
                    },
            decreases 12 - j,
        {
            proof {
                lemma_count_true_take(target, j as int, j as int);
                let e = edges[j as int];
                assert(e.spec_index() == 0 <==> e == Edge::UR);
                assert(target[j as int] <==> e != Edge::UR);
            }
            if edges[j] == Edge::UR {
                edges[j] = Edge::from_index(next);
                next += 1;
            }
            j += 1;
        }
        proof {
            assert(edge_places(edges) =~= spread(target));
            Self::lemma_decode_encode(c0, coord as int);
        }
        place_edges(cube, edges);
    }

    /// The UD coordinate is calculated using binomial coefficients.
    ///
    /// Calculating the coordinate starts from position 11, and iterates
    /// down to position 0. At every position (N) that is not a slice edge,
    /// the binomial coefficient, C(N, K), is summed up to produce the final
    /// coordinate. K is initially 3 and is reduced by 1 for each slide edge at
    /// a position > N. When K becomes negative, the calculation is complete.
    /// This means that edges at a lower position than the 4th slice edge are
    /// ignored.
    fn get_coord(cube: &Cube) -> (coord: usize) {
        let edges = cube.ep();
        let ghost slots = slice_slots(cube@.ep);
        let mut coord: usize = 0;
        let mut k: usize = 3;
        let mut done = false;
        let mut i: usize = 12;
        let ghost mut kk: int = 3;
        proof {
            cube.lemma_wf();
            lemma_slice_sizes();
            assert(slots.take(12) =~= slots);
        }
        while i > 0 && !done
            invariant
                i <= 12,
                k <= 3,
                kk == if done {
                    -1
                } else {
                    k as int
                },
                slots == slice_slots(cube@.ep),
                cube@.ep == edge_places(edges),
                slots.len() == 12,
                pow(2, 11) == 2048,
                coord <= (12 - i) * 2048,
                comb_rank(slots, 3) == coord + comb_rank(slots.take(i as int), kk),
            decreases i, if done { 0int } else { 1int },
        {
            i -= 1;
            proof {
                assert(slots.take(i as int + 1).drop_last() =~= slots.take(i as int));
                assert(slots.take(i as int + 1).last() == slots[i as int]);
                lemma_binom_bound(i as nat, k as nat);
                lemma_pow_increases(2, i as nat, 11);
            }
            if edges[i].index() < 8 {
                coord += binomial(i, k);
            } else {
                if k == 0 {
                    done = true;
                } else {
                    k -= 1;
                }
                proof {
                    kk = kk - 1;
                }
            }
        }
        proof {
            assert(slots.take(0) =~= Seq::<bool>::empty());
        }
        coord
    }

    proof fn lemma_solved_fits() {
    }

    proof fn lemma_encode_bound(c: CubeState) {
        lemma_four_slice_edges(c.ep);
        lemma_comb_rank_bound(slice_slots(c.ep), 3);
        lemma_slice_sizes();
    }

    proof fn lemma_decode_encode(c: CubeState, coord: int) {
        lemma_slice_sizes();
        let slots = comb_unrank(12, 3, coord as nat);
        lemma_unrank(12, 3, coord as nat);
        lemma_spread(slots);
        lemma_with_edges_valid(c, spread(slots));
    }

    proof fn lemma_encode_decode(c: CubeState) {
        let slots = slice_slots(c.ep);
        lemma_four_slice_edges(c.ep);
        lemma_unrank_rank(slots, 3);
        lemma_spread(slots);
    }

    proof fn lemma_step(c: CubeState, face: Face) {
        let b = Self::decode(CubeState::solved(), Self::encode(c));
        lemma_same_slots(c);
        lemma_turned_once(c, face);
        lemma_turned_once(b, face);
        lemma_quarter_turn_slots(c, b, face);
    }

    proof fn lemma_step_fits(c: CubeState, face: Face) {
    }
}

/// The solved cube, set to the coordinate of `c`, has its slice edges in the
/// slots in which `c` has them.
proof fn lemma_same_slots(c: CubeState)
    requires
        c.valid(),
    ensures
        UD1Coord::decode(CubeState::solved(), UD1Coord::encode(c)).ep.len() == 12,
        slice_slots(UD1Coord::decode(CubeState::solved(), UD1Coord::encode(c)).ep) == slice_slots(
            c.ep,
        ),
{
    let slots = slice_slots(c.ep);
    lemma_four_slice_edges(c.ep);
    lemma_unrank_rank(slots, 3);
    lemma_spread(slots);
}

/// Where two states have their slice edges in the same slots, they have
/// them in the same slots after a quarter turn.
proof fn lemma_quarter_turn_slots(c: CubeState, b: CubeState, face: Face)
    requires
        c.ep.len() == 12,
        b.ep.len() == 12,
        slice_slots(c.ep) == slice_slots(b.ep),
    ensures
        slice_slots(c.quarter_turn(face).ep) == slice_slots(b.quarter_turn(face).ep),
{
    let c1 = c.quarter_turn(face);
    let b1 = b.quarter_turn(face);
    assert forall|i: int| 0 <= i < 12 implies slice_slots(c1.ep)[i] == slice_slots(b1.ep)[i] by {
        lemma_layers_kept(face, i);
        let j = quarter(face).ep[i];
        assert(c1.ep[i] == c.ep[j]);
        assert(b1.ep[i] == b.ep[j]);
        assert(slice_slots(c.ep)[j] == (c.ep[j] >= 8));
        assert(slice_slots(b.ep)[j] == (b.ep[j] >= 8));
    }
    assert(slice_slots(c1.ep) =~= slice_slots(b1.ep));
}

/// A choice of no slots marks no slot.
proof fn lemma_no_marks(s: Seq<bool>, j: int)
    requires
        count_true(s) == 0,
        0 <= j < s.len(),
    ensures
        !s[j],
    decreases s.len(),
{
    if j < s.len() - 1 {
        lemma_no_marks(s.drop_last(), j);
    }
}

} // verus!
