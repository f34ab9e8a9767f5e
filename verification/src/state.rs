//! The mathematical model of a cube state, of the six quarter turns, and of
//! what makes a state solvable.

use crate::perm::{
    distinct, lemma_increasing_no_inversions, lemma_rotation_flips_parity, odd, rotated,
};
use crate::numbers::total;
use crate::pieces::{CubeStateErr, Face, Move};
use vstd::arithmetic::div_mod::{lemma_add_mod_noop, lemma_add_mod_noop_right};
use vstd::prelude::*;

verus! {

/// What one quarter turn of a face does: slot `i` receives the corner of slot
/// `cp[i]`, twisted by `co[i]`, and the edge of slot `ep[i]`, flipped by
/// `eo[i]`.
pub struct Turn {
    pub cp: Seq<int>,
    pub co: Seq<int>,
    pub ep: Seq<int>,
    pub eo: Seq<int>,
}

/// The quarter turn of each face.
pub open spec fn quarter(face: Face) -> Turn {
    match face {
        Face::U => Turn {
            cp: seq![3int, 0, 1, 2, 4, 5, 6, 7],
            co: seq![0int, 0, 0, 0, 0, 0, 0, 0],
            ep: seq![3int, 0, 1, 2, 4, 5, 6, 7, 8, 9, 10, 11],
            eo: seq![0int, 0, 0, 0, 0, 0, 0, 0, 0, 0, 0, 0],
        },
        Face::R => Turn {
            cp: seq![4int, 1, 2, 0, 7, 5, 6, 3],
            co: seq![1int, 0, 0, 2, 2, 0, 0, 1],
            ep: seq![8int, 1, 2, 3, 11, 5, 6, 7, 4, 9, 10, 0],
            eo: seq![0int, 0, 0, 0, 0, 0, 0, 0, 0, 0, 0, 0],
        },
        Face::F => Turn {
            cp: seq![1int, 5, 2, 3, 0, 4, 6, 7],
            co: seq![2int, 1, 0, 0, 1, 2, 0, 0],
            ep: seq![0int, 9, 2, 3, 4, 8, 6, 7, 1, 5, 10, 11],
            eo: seq![0int, 1, 0, 0, 0, 1, 0, 0, 1, 1, 0, 0],
        },
        Face::D => Turn {
            cp: seq![0int, 1, 2, 3, 5, 6, 7, 4],
            co: seq![0int, 0, 0, 0, 0, 0, 0, 0],
            ep: seq![0int, 1, 2, 3, 5, 6, 7, 4, 8, 9, 10, 11],
            eo: seq![0int, 0, 0, 0, 0, 0, 0, 0, 0, 0, 0, 0],
        },
        Face::B => Turn {
            cp: seq![0int, 1, 3, 7, 4, 5, 2, 6],
            co: seq![0int, 0, 2, 1, 0, 0, 1, 2],
            ep: seq![0int, 1, 2, 11, 4, 5, 6, 10, 8, 9, 3, 7],
            eo: seq![0int, 0, 0, 1, 0, 0, 0, 1, 0, 0, 1, 1],
        },
        Face::L => Turn {
            cp: seq![0int, 2, 6, 3, 4, 1, 5, 7],
            co: seq![0int, 2, 1, 0, 0, 1, 2, 0],
            ep: seq![0int, 1, 10, 3, 4, 5, 9, 7, 8, 2, 6, 11],
            eo: seq![0int, 0, 0, 0, 0, 0, 0, 0, 0, 0, 0, 0],
        },
    }
}

/// The four corner slots that a quarter turn of `face` moves round, in the
/// order in which each receives the corner of the next.
pub open spec fn corner_cycle(face: Face) -> (int, int, int, int) {
    match face {
        Face::U => (0, 3, 2, 1),
        Face::R => (0, 4, 7, 3),
        Face::F => (0, 1, 5, 4),
        Face::D => (4, 5, 6, 7),
        Face::B => (2, 3, 7, 6),
        Face::L => (1, 2, 6, 5),
    }
}

/// The four edge slots that a quarter turn of `face` moves round, in the
/// order in which each receives the edge of the next.
pub open spec fn edge_cycle(face: Face) -> (int, int, int, int) {
    match face {
        Face::U => (0, 3, 2, 1),
        Face::R => (0, 8, 4, 11),
        Face::F => (1, 9, 5, 8),
        Face::D => (4, 5, 6, 7),
        Face::B => (3, 11, 7, 10),
        Face::L => (2, 10, 6, 9),
    }
}

/// A cube state: for each corner slot the corner in it and its twist, for
/// each edge slot the edge in it and its flip. Corners and edges are written
/// as their places in the solved cube.
pub struct CubeState {
    pub cp: Seq<int>,
    pub co: Seq<int>,
    pub ep: Seq<int>,
    pub eo: Seq<int>,
}

impl CubeState {
    /// The state has eight corner slots and twelve edge slots, each holding
    /// the name of a piece and a small number.
    pub open spec fn wf(self) -> bool {
        &&& self.cp.len() == 8
        &&& self.co.len() == 8
        &&& self.ep.len() == 12
        &&& self.eo.len() == 12
        &&& forall|i: int| 0 <= i < 8 ==> 0 <= #[trigger] self.cp[i] < 8
        &&& forall|i: int| 0 <= i < 8 ==> 0 <= #[trigger] self.co[i] < 256
        &&& forall|i: int| 0 <= i < 12 ==> 0 <= #[trigger] self.ep[i] < 12
        &&& forall|i: int| 0 <= i < 12 ==> 0 <= #[trigger] self.eo[i] < 256
    }

    /// The solved cube: every piece in its own slot, untwisted and unflipped.
    pub open spec fn solved() -> CubeState {
        CubeState {
            cp: Seq::new(8, |i: int| i),
            co: Seq::new(8, |i: int| 0int),
            ep: Seq::new(12, |i: int| i),
            eo: Seq::new(12, |i: int| 0int),
        }
    }

    /// No edge sits in two slots.
    pub open spec fn edges_placed(self) -> bool {
        distinct(self.ep)
    }

    /// Every flip is 0 or 1, and the flips add up to an even number.
    pub open spec fn edges_oriented(self) -> bool {
        &&& forall|i: int| 0 <= i < 12 ==> #[trigger] self.eo[i] <= 1
        &&& total(self.eo) % 2 == 0
    }

    /// No corner sits in two slots.
    pub open spec fn corners_placed(self) -> bool {
        distinct(self.cp)
    }

    /// Every twist is 0, 1 or 2, and the twists add up to a multiple of 3.
    pub open spec fn corners_oriented(self) -> bool {
        &&& forall|i: int| 0 <= i < 8 ==> #[trigger] self.co[i] <= 2
        &&& total(self.co) % 3 == 0
    }

    /// The corners and the edges are both evenly or both oddly arranged.
    pub open spec fn parity_matched(self) -> bool {
        odd(self.cp) == odd(self.ep)
    }

    /// The outcome of checking the state for solvability: the first
    /// condition that fails, in the order edge placement, edge orientation,
    /// corner placement, corner orientation, parity.
    pub open spec fn check(self) -> Result<(), CubeStateErr> {
        if !self.edges_placed() {
            Err(CubeStateErr::ErrEP)
        } else if !self.edges_oriented() {
            Err(CubeStateErr::ErrEO)
        } else if !self.corners_placed() {
            Err(CubeStateErr::ErrCP)
        } else if !self.corners_oriented() {
            Err(CubeStateErr::ErrCO)
        } else if !self.parity_matched() {
            Err(CubeStateErr::ErrParity)
        } else {
            Ok(())
        }
    }

    /// The state can be reached from the solved cube by turning faces.
    pub open spec fn valid(self) -> bool {
        self.wf() && self.check() is Ok
    }

    /// The state after the pieces have moved as `t` says. Twists add up
    /// modulo 3, flips modulo 2.
    pub open spec fn moved(self, t: Turn) -> CubeState {
        CubeState {
            cp: Seq::new(8, |i: int| self.cp[t.cp[i]]),
            co: Seq::new(8, |i: int| (self.co[t.cp[i]] + t.co[i]) % 3),
            ep: Seq::new(12, |i: int| self.ep[t.ep[i]]),
            eo: Seq::new(12, |i: int| (self.eo[t.ep[i]] + t.eo[i]) % 2),
        }
    }

    /// The state after one quarter turn of `face`.
    pub open spec fn quarter_turn(self, face: Face) -> CubeState {
        self.moved(quarter(face))
    }

    /// The state after `n` quarter turns of `face`.
    pub open spec fn turned(self, face: Face, n: nat) -> CubeState
        decreases n,
    {
        if n == 0 {
            self
        } else {
            self.turned(face, (n - 1) as nat).quarter_turn(face)
        }
    }

    /// The state after the move `m`.
    pub open spec fn apply(self, m: Move) -> CubeState {
        self.turned(m.0, m.1 as nat)
    }
}

/// A quarter turn moves four corners and four edges round and leaves every
/// other piece in its slot.
pub proof fn lemma_quarter_cycles(c: CubeState, face: Face)
    requires
        c.wf(),
    ensures
        ({
            let (p, q, r, s) = corner_cycle(face);
            c.quarter_turn(face).cp == rotated(c.cp, p, q, r, s)
        }),
        ({
            let (p, q, r, s) = edge_cycle(face);
            c.quarter_turn(face).ep == rotated(c.ep, p, q, r, s)
        }),
{
    let d = c.quarter_turn(face);
    let (p, q, r, s) = corner_cycle(face);
    assert(d.cp =~= rotated(c.cp, p, q, r, s));
    let (p, q, r, s) = edge_cycle(face);
    assert(d.ep =~= rotated(c.ep, p, q, r, s));
}

/// The solved cube is solvable.
pub proof fn lemma_solved_valid()
    ensures
        CubeState::solved().valid(),
{
    let c = CubeState::solved();
    lemma_increasing_no_inversions(c.cp);
    lemma_increasing_no_inversions(c.ep);
    reveal_with_fuel(total, 13);
}

/// Entry by entry, the sum of `a` and `b` reduced modulo `k`.
pub open spec fn added_mod(a: Seq<int>, b: Seq<int>, k: int) -> Seq<int> {
    Seq::new(a.len(), |i: int| (a[i] + b[i]) % k)
}

/// Replacing one entry changes the sum by the difference.
pub proof fn lemma_total_update(s: Seq<int>, i: int, v: int)
    requires
        0 <= i < s.len(),
    ensures
        total(s.update(i, v)) == total(s) - s[i] + v,
    decreases s.len(),
{
    let t = s.update(i, v);
    if i == s.len() - 1 {
        assert(t.drop_last() =~= s.drop_last());
    } else {
        lemma_total_update(s.drop_last(), i, v);
        assert(t.drop_last() =~= s.drop_last().update(i, v));
    }
}

/// Moving four entries round does not change the sum.
pub proof fn lemma_total_rotated(s: Seq<int>, a: int, b: int, c: int, d: int)
    requires
        0 <= a < s.len(),
        0 <= b < s.len(),
        0 <= c < s.len(),
        0 <= d < s.len(),
        a != b && a != c && a != d && b != c && b != d && c != d,
    ensures
        total(rotated(s, a, b, c, d)) == total(s),
{
    let s1 = s.update(a, s[b]);
    let s2 = s1.update(b, s[c]);
    let s3 = s2.update(c, s[d]);
    lemma_total_update(s, a, s[b]);
    lemma_total_update(s1, b, s[c]);
    lemma_total_update(s2, c, s[d]);
    lemma_total_update(s3, d, s[a]);
}

/// Reducing each entry of a sum modulo `k` leaves the total unchanged
/// modulo `k`.
pub proof fn lemma_total_added_mod(a: Seq<int>, b: Seq<int>, k: int)
    requires
        a.len() == b.len(),
        k > 0,
    ensures
        total(added_mod(a, b, k)) % k == (total(a) + total(b)) % k,
    decreases a.len(),
{
    let c = added_mod(a, b, k);
    if a.len() > 0 {
        lemma_total_added_mod(a.drop_last(), b.drop_last(), k);
        assert(c.drop_last() =~= added_mod(a.drop_last(), b.drop_last(), k));
        let x = total(c.drop_last());
        let y = total(a.drop_last()) + total(b.drop_last());
        let z = a.last() + b.last();
        lemma_add_mod_noop_right(x, z, k);
        lemma_add_mod_noop(x, z, k);
        lemma_add_mod_noop(y, z, k);
    }
}

/// The twists and the flips of a quarter turn add up to nothing.
pub proof fn lemma_quarter_totals(face: Face)
    ensures
        total(quarter(face).co) % 3 == 0,
        total(quarter(face).eo) % 2 == 0,
{
    reveal_with_fuel(total, 13);
}

/// A quarter turn keeps the twists within 0..3 with a sum divisible by 3,
/// and the flips within 0..2 with an even sum.
pub proof fn lemma_quarter_turn_oriented(c: CubeState, face: Face)
    requires
        c.wf(),
        c.edges_oriented(),
        c.corners_oriented(),
    ensures
        c.quarter_turn(face).edges_oriented(),
        c.quarter_turn(face).corners_oriented(),
{
    let d = c.quarter_turn(face);
    let t = quarter(face);
    lemma_quarter_cycles(c, face);
    lemma_quarter_totals(face);
    let (p, q, r, s) = corner_cycle(face);
    lemma_total_rotated(c.co, p, q, r, s);
    let moved_co = rotated(c.co, p, q, r, s);
    assert(d.co =~= added_mod(moved_co, t.co, 3));
    lemma_total_added_mod(moved_co, t.co, 3);
    let (p, q, r, s) = edge_cycle(face);
    lemma_total_rotated(c.eo, p, q, r, s);
    let moved_eo = rotated(c.eo, p, q, r, s);
    assert(d.eo =~= added_mod(moved_eo, t.eo, 2));
    lemma_total_added_mod(moved_eo, t.eo, 2);
}

/// A quarter turn of any face takes a solvable state to a solvable state.
pub proof fn lemma_quarter_turn_valid(c: CubeState, face: Face)
    requires
        c.valid(),
    ensures
        c.quarter_turn(face).valid(),
{
    let d = c.quarter_turn(face);
    lemma_quarter_cycles(c, face);
    lemma_quarter_turn_oriented(c, face);
    let (p, q, r, s) = corner_cycle(face);
    lemma_rotation_flips_parity(c.cp, p, q, r, s);
    let (p, q, r, s) = edge_cycle(face);
    lemma_rotation_flips_parity(c.ep, p, q, r, s);
    assert(d.wf());
}

/// Four quarter turns of one face bring every solvable state back to itself.
pub proof fn lemma_four_quarter_turns(c: CubeState, face: Face)
    requires
        c.valid(),
    ensures
        c.turned(face, 4) == c,
        c.quarter_turn(face).quarter_turn(face).quarter_turn(face).quarter_turn(face) == c,
{
    let c1 = c.quarter_turn(face);
    let c2 = c1.quarter_turn(face);
    let c3 = c2.quarter_turn(face);
    let c4 = c3.quarter_turn(face);
    assert(c.turned(face, 4) == c4) by {
        reveal_with_fuel(CubeState::turned, 5);
    }
    lemma_four_quarter_turns_places(c, face);
    lemma_four_quarter_turns_twists(c, face);
    lemma_four_quarter_turns_flips(c, face);
}

/// Moving four entries round four times puts each back where it was.
proof fn lemma_rotated_four_times(s: Seq<int>, a: int, b: int, c: int, d: int)
    requires
        0 <= a < s.len(),
        0 <= b < s.len(),
        0 <= c < s.len(),
        0 <= d < s.len(),
        a != b && a != c && a != d && b != c && b != d && c != d,
    ensures
        rotated(rotated(rotated(rotated(s, a, b, c, d), a, b, c, d), a, b, c, d), a, b, c, d)
            == s,
{
    let s1 = rotated(s, a, b, c, d);
    let s2 = rotated(s1, a, b, c, d);
    let s3 = rotated(s2, a, b, c, d);
    let s4 = rotated(s3, a, b, c, d);
    assert(s4 =~= s);
}

/// Four quarter turns bring every piece back to its slot.
proof fn lemma_four_quarter_turns_places(c: CubeState, face: Face)
    requires
        c.wf(),
    ensures
        c.quarter_turn(face).quarter_turn(face).quarter_turn(face).quarter_turn(face).cp == c.cp,
        c.quarter_turn(face).quarter_turn(face).quarter_turn(face).quarter_turn(face).ep == c.ep,
{
    let c1 = c.quarter_turn(face);
    let c2 = c1.quarter_turn(face);
    let c3 = c2.quarter_turn(face);
    lemma_quarter_cycles(c, face);
    lemma_quarter_turn_wf(c, face);
    lemma_quarter_cycles(c1, face);
    lemma_quarter_turn_wf(c1, face);
    lemma_quarter_cycles(c2, face);
    lemma_quarter_turn_wf(c2, face);
    lemma_quarter_cycles(c3, face);
    let (p, q, r, s) = corner_cycle(face);
    lemma_rotated_four_times(c.cp, p, q, r, s);
    let (p, q, r, s) = edge_cycle(face);
    lemma_rotated_four_times(c.ep, p, q, r, s);
}

/// The twist that a corner has gathered after `n` quarter turns of `face`,
/// when it ends in slot `i`: the twists of the slots it passed through.
spec fn gathered_twist(face: Face, i: int, n: nat) -> int
    decreases n,
{
    if n == 0 {
        0
    } else {
        gathered_twist(face, quarter(face).cp[i], (n - 1) as nat) + quarter(face).co[i]
    }
}

/// The slot from which slot `i` has its corner after `n` quarter turns.
spec fn corner_origin(face: Face, i: int, n: nat) -> int
    decreases n,
{
    if n == 0 {
        i
    } else {
        corner_origin(face, quarter(face).cp[i], (n - 1) as nat)
    }
}

/// The flip that an edge has gathered after `n` quarter turns of `face`,
/// when it ends in slot `i`.
spec fn gathered_flip(face: Face, i: int, n: nat) -> int
    decreases n,
{
    if n == 0 {
        0
    } else {
        gathered_flip(face, quarter(face).ep[i], (n - 1) as nat) + quarter(face).eo[i]
    }
}

/// The slot from which slot `i` has its edge after `n` quarter turns.
spec fn edge_origin(face: Face, i: int, n: nat) -> int
    decreases n,
{
    if n == 0 {
        i
    } else {
        edge_origin(face, quarter(face).ep[i], (n - 1) as nat)
    }
}

/// After `n` quarter turns the corner of slot `i` has the twist with
/// which it set out, and the twists that it gathered on its way.
proof fn lemma_turned_twist(c: CubeState, face: Face, i: int, n: nat)
    requires
        c.wf(),
        0 <= i < 8,
        forall|k: int| 0 <= k < 8 ==> #[trigger] c.co[k] <= 2,
    ensures
        0 <= corner_origin(face, i, n) < 8,
        c.turned(face, n).wf(),
        c.turned(face, n).co[i] == (c.co[corner_origin(face, i, n)] + gathered_twist(
            face,
            i,
            n,
        )) % 3,
    decreases n,
{
    if n > 0 {
        let j = quarter(face).cp[i];
        let prev = c.turned(face, (n - 1) as nat);
        lemma_turned_twist(c, face, j, (n - 1) as nat);
        lemma_quarter_turn_wf(prev, face);
        let x = c.co[corner_origin(face, j, (n - 1) as nat)] + gathered_twist(
            face,
            j,
            (n - 1) as nat,
        );
        lemma_add_mod_noop(x, quarter(face).co[i], 3);
        lemma_add_mod_noop_right(x % 3, quarter(face).co[i], 3);
    }
}

/// After `n` quarter turns the edge of slot `i` has the flip with which
/// it set out, and the flips that it gathered on its way.
proof fn lemma_turned_flip(c: CubeState, face: Face, i: int, n: nat)
    requires
        c.wf(),
        0 <= i < 12,
        forall|k: int| 0 <= k < 12 ==> #[trigger] c.eo[k] <= 1,
    ensures
        0 <= edge_origin(face, i, n) < 12,
        c.turned(face, n).wf(),
        c.turned(face, n).eo[i] == (c.eo[edge_origin(face, i, n)] + gathered_flip(face, i, n))
            % 2,
    decreases n,
{
    if n > 0 {
        let j = quarter(face).ep[i];
        let prev = c.turned(face, (n - 1) as nat);
        lemma_turned_flip(c, face, j, (n - 1) as nat);
        lemma_quarter_turn_wf(prev, face);
        let x = c.eo[edge_origin(face, j, (n - 1) as nat)] + gathered_flip(
            face,
            j,
            (n - 1) as nat,
        );
        lemma_add_mod_noop(x, quarter(face).eo[i], 2);
        lemma_add_mod_noop_right(x % 2, quarter(face).eo[i], 2);
    }
}

/// After four quarter turns each corner is back in its slot, having gathered
/// a multiple of three twists.
proof fn lemma_round_trip_twist(face: Face, i: int)
    requires
        0 <= i < 8,
    ensures
        corner_origin(face, i, 4) == i,
        gathered_twist(face, i, 4) == 0 || gathered_twist(face, i, 4) == 6,
{
    let m = quarter(face).cp;
    let t = quarter(face).co;
    let i1 = m[i];
    let i2 = m[i1];
    let i3 = m[i2];
    let i4 = m[i3];
    assert(corner_origin(face, i, 4) == i4) by {
        reveal_with_fuel(corner_origin, 5);
    }
    assert(gathered_twist(face, i, 4) == t[i] + t[i1] + t[i2] + t[i3]) by {
        reveal_with_fuel(gathered_twist, 5);
    }
    match face {
        Face::U => {},
        Face::R => {},
        Face::F => {},
        Face::D => {},
        Face::B => {},
        Face::L => {},
    }
}

/// Four quarter turns leave every corner twisted as it was.
proof fn lemma_four_quarter_turns_twists(c: CubeState, face: Face)
    requires
        c.valid(),
    ensures
        c.quarter_turn(face).quarter_turn(face).quarter_turn(face).quarter_turn(face).co == c.co,
{
    let c4 = c.quarter_turn(face).quarter_turn(face).quarter_turn(face).quarter_turn(face);
    assert(c.turned(face, 4) == c4) by {
        reveal_with_fuel(CubeState::turned, 5);
    }
    assert forall|i: int| 0 <= i < 8 implies c4.co[i] == c.co[i] by {
        lemma_turned_twist(c, face, i, 4);
        lemma_round_trip_twist(face, i);
        lemma_add_mod_noop_right(c.co[i], gathered_twist(face, i, 4), 3);
    }
    assert(c4.co =~= c.co);
}

/// Four quarter turns leave every edge flipped as it was.
proof fn lemma_four_quarter_turns_flips(c: CubeState, face: Face)
    requires
        c.valid(),
    ensures
        c.quarter_turn(face).quarter_turn(face).quarter_turn(face).quarter_turn(face).eo == c.eo,
{
    let c4 = c.quarter_turn(face).quarter_turn(face).quarter_turn(face).quarter_turn(face);
    assert(c.turned(face, 4) == c4) by {
        reveal_with_fuel(CubeState::turned, 5);
    }
    assert forall|i: int| 0 <= i < 12 implies c4.eo[i] == c.eo[i] by {
        lemma_turned_flip(c, face, i, 4);
        assert(edge_origin(face, i, 4) == i && gathered_flip(face, i, 4) % 2 == 0) by {
            reveal_with_fuel(edge_origin, 5);
            reveal_with_fuel(gathered_flip, 5);
        }
        lemma_add_mod_noop_right(c.eo[i], gathered_flip(face, i, 4), 2);
    }
    assert(c4.eo =~= c.eo);
}

/// A quarter turn keeps eight corner slots and twelve edge slots.
pub proof fn lemma_quarter_turn_wf(c: CubeState, face: Face)
    requires
        c.wf(),
    ensures
        c.quarter_turn(face).wf(),
{
}

/// A state that breaks exactly one of the five conditions of solvability is
/// reported with the error of that condition; where several are broken, the
/// first in the order of checking is reported; and a state is accepted only
/// if it meets all five.
pub proof fn lemma_check_reports(c: CubeState)
    ensures
        !c.edges_placed() ==> c.check() == Err::<(), CubeStateErr>(CubeStateErr::ErrEP),
        c.edges_placed() && !c.edges_oriented() ==> c.check() == Err::<(), CubeStateErr>(
            CubeStateErr::ErrEO,
        ),
        c.edges_placed() && c.edges_oriented() && !c.corners_placed() ==> c.check() == Err::<
            (),
            CubeStateErr,
        >(CubeStateErr::ErrCP),
        c.edges_placed() && c.edges_oriented() && c.corners_placed() && !c.corners_oriented()
            ==> c.check() == Err::<(), CubeStateErr>(CubeStateErr::ErrCO),
        c.edges_placed() && c.edges_oriented() && c.corners_placed() && c.corners_oriented()
            && !c.parity_matched() ==> c.check() == Err::<(), CubeStateErr>(
            CubeStateErr::ErrParity,
        ),
        c.check() is Ok <==> c.edges_placed() && c.edges_oriented() && c.corners_placed()
            && c.corners_oriented() && c.parity_matched(),
{
}

/// The slot from which each edge slot has its edge after a half turn.
pub open spec fn half_edge_source(face: Face) -> Seq<int> {
    Seq::new(12, |i: int| quarter(face).ep[quarter(face).ep[i]])
}

/// The slot from which each corner slot has its corner after a half turn.
pub open spec fn half_corner_source(face: Face) -> Seq<int> {
    Seq::new(8, |i: int| quarter(face).cp[quarter(face).cp[i]])
}

/// One quarter turn, counted as a number of turns.
pub proof fn lemma_turned_once(c: CubeState, face: Face)
    ensures
        c.turned(face, 1) == c.quarter_turn(face),
        c.turned(face, 2) == c.quarter_turn(face).quarter_turn(face),
{
    reveal_with_fuel(CubeState::turned, 3);
}

/// A half turn brings to each slot the piece of the slot two quarter turns
/// back.
pub proof fn lemma_half_turn_places(c: CubeState, face: Face)
    requires
        c.wf(),
    ensures
        c.turned(face, 2).ep == Seq::new(12, |i: int| c.ep[half_edge_source(face)[i]]),
        c.turned(face, 2).cp == Seq::new(8, |i: int| c.cp[half_corner_source(face)[i]]),
        c.turned(face, 2).wf(),
{
    lemma_turned_once(c, face);
    lemma_quarter_turn_wf(c, face);
    lemma_quarter_turn_wf(c.quarter_turn(face), face);
    let d = c.turned(face, 2);
    assert(d.ep =~= Seq::new(12, |i: int| c.ep[half_edge_source(face)[i]]));
    assert(d.cp =~= Seq::new(8, |i: int| c.cp[half_corner_source(face)[i]]));
}

/// Quarter turns of U and D, and half turns of every face, keep the edges
/// of the U and D layers in those layers, and the slice edges in the slice.
pub proof fn lemma_layers_kept(face: Face, i: int)
    requires
        0 <= i < 12,
    ensures
        0 <= quarter(face).ep[i] < 12,
        0 <= half_edge_source(face)[i] < 12,
        (half_edge_source(face)[i] < 8) == (i < 8),
        face == Face::U || face == Face::D ==> (quarter(face).ep[i] < 8) == (i < 8),
{
    let m = quarter(face).ep;
    let j = m[i];
    assert(0 <= j < 12);
    assert(half_edge_source(face)[i] == m[j]);
    match face {
        Face::U => {},
        Face::R => {},
        Face::F => {},
        Face::D => {},
        Face::B => {},
        Face::L => {},
    }
}

/// Every corner slot has its corner from a corner slot.
pub proof fn lemma_corner_sources(face: Face, i: int)
    requires
        0 <= i < 8,
    ensures
        0 <= quarter(face).cp[i] < 8,
        0 <= half_corner_source(face)[i] < 8,
{
    let m = quarter(face).cp;
    let j = m[i];
    assert(0 <= j < 8);
    assert(half_corner_source(face)[i] == m[j]);
}

/// Turning faces takes a solvable state to a solvable state.
pub proof fn lemma_turned_valid(c: CubeState, face: Face, n: nat)
    requires
        c.valid(),
    ensures
        c.turned(face, n).valid(),
    decreases n,
{
    if n > 0 {
        lemma_turned_valid(c, face, (n - 1) as nat);
        lemma_quarter_turn_valid(c.turned(face, (n - 1) as nat), face);
    }
}

/// Every move takes a solvable state to a solvable state.
pub proof fn lemma_apply_valid(c: CubeState, m: Move)
    requires
        c.valid(),
    ensures
        c.apply(m).valid(),
{
    lemma_turned_valid(c, m.0, m.1 as nat);
}

} // verus!
