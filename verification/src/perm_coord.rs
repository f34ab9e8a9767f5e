//! The three coordinates of the second stage, each the number of an
//! arrangement: of the edges of the U and D layers, of the corners, and of
//! the slice edges.

use crate::coord::Coord;
use crate::cube::{corner_places, edge_places, Cube};
use crate::lehmer::{
    arrange, descending, drawn_from, falling, get_perm_coord, lemma_arrange, lemma_arrange_rank,
    lemma_rank_arrange, lemma_rank_bound, lemma_rank_shifted, lemma_same_order_same_rank,
    lemma_same_rank_same_order, perm_rank, set_perm_coord, shifted,
};
use crate::numbers::{factorial, lemma_factorial_values};
use crate::perm::{distinct, ints, lemma_swap_flips_parity, odd, swapped};
use crate::pieces::{Corner, Edge, Face};
use crate::search::{step_move, Group};
use crate::state::{
    half_corner_source, half_edge_source, lemma_corner_sources, lemma_half_turn_places,
    lemma_layers_kept, lemma_quarter_turn_wf, lemma_solved_valid, lemma_turned_once, quarter,
    CubeState,
};
use vstd::prelude::*;

verus! {

/// The state `c` with the edges placed as `ep` says and, where that leaves
/// the corners and the edges unlike in parity, with the corners of slots 0
/// and 1 exchanged.
pub open spec fn with_edges(c: CubeState, ep: Seq<int>) -> CubeState {
    CubeState {
        cp: if odd(c.cp) == odd(ep) {
            c.cp
        } else {
            swapped(c.cp, 0, 1)
        },
        co: c.co,
        ep: ep,
        eo: c.eo,
    }
}

/// The state `c` with the corners placed as `cp` says and, where that leaves
/// the corners and the edges unlike in parity, with the edges of slots 0 and
/// 1 exchanged.
pub open spec fn with_corners(c: CubeState, cp: Seq<int>) -> CubeState {
    CubeState {
        cp: cp,
        co: c.co,
        ep: if odd(cp) == odd(c.ep) {
            c.ep
        } else {
            swapped(c.ep, 0, 1)
        },
        eo: c.eo,
    }
}

/// The edges of the U and D layers lie in the slots of those layers, and the
/// slice edges in the slice.
pub open spec fn layers_apart(c: CubeState) -> bool {
    &&& forall|i: int| 0 <= i < 8 ==> #[trigger] c.ep[i] < 8
    &&& forall|i: int| 8 <= i < 12 ==> #[trigger] c.ep[i] >= 8
}

/// Placing twelve different edges in a solvable state, and mending the
/// parity, gives a solvable state.
pub proof fn lemma_with_edges_valid(c: CubeState, ep: Seq<int>)
    requires
        c.valid(),
        ep.len() == 12,
        distinct(ep),
        forall|i: int| 0 <= i < 12 ==> 0 <= #[trigger] ep[i] < 12,
    ensures
        with_edges(c, ep).valid(),
{
    lemma_swap_flips_parity(c.cp, 0, 1);
    let d = with_edges(c, ep);
    assert forall|i: int| 0 <= i < 8 implies 0 <= #[trigger] d.cp[i] < 8 by {
        if i == 0 {
            assert(0 <= c.cp[1] < 8);
        } else if i == 1 {
            assert(0 <= c.cp[0] < 8);
        } else {
            assert(d.cp[i] == c.cp[i]);
        }
    }
}

/// Placing eight different corners in a solvable state, and mending the
/// parity, gives a solvable state.
pub proof fn lemma_with_corners_valid(c: CubeState, cp: Seq<int>)
    requires
        c.valid(),
        cp.len() == 8,
        distinct(cp),
        forall|i: int| 0 <= i < 8 ==> 0 <= #[trigger] cp[i] < 8,
    ensures
        with_corners(c, cp).valid(),
{
    lemma_swap_flips_parity(c.ep, 0, 1);
    let d = with_corners(c, cp);
    assert forall|i: int| 0 <= i < 12 implies 0 <= #[trigger] d.ep[i] < 12 by {
        if i == 0 {
            assert(0 <= c.ep[1] < 12);
        } else if i == 1 {
            assert(0 <= c.ep[0] < 12);
        } else {
            assert(d.ep[i] == c.ep[i]);
        }
    }
}

/// The values below `n`, arranged by a number below `n!`, are `n` different
/// values below `n`.
pub proof fn lemma_arranged_range(n: nat, r: nat)
    requires
        r < factorial(n),
    ensures
        arrange(descending(n, n - 1), r).len() == n,
        distinct(arrange(descending(n, n - 1), r)),
        forall|i: int| 0 <= i < n ==> 0 <= #[trigger] arrange(descending(n, n - 1), r)[i] < n,
{
    let avail = descending(n, n - 1);
    let p = arrange(avail, r);
    lemma_arrange(avail, r, 0);
    assert forall|i: int| 0 <= i < n implies 0 <= #[trigger] p[i] < n by {
        assert(avail.contains(p[i]));
    }
}

/// Different values below `n` are drawn from the values below `n`.
pub proof fn lemma_drawn_from_range(p: Seq<int>, n: nat)
    requires
        forall|i: int| 0 <= i < p.len() ==> 0 <= #[trigger] p[i] < n,
    ensures
        drawn_from(p, descending(n, n - 1)),
        falling(descending(n, n - 1)),
{
    let avail = descending(n, n - 1);
    assert forall|i: int| 0 <= i < p.len() implies avail.contains(#[trigger] p[i]) by {
        assert(avail[n - 1 - p[i]] == p[i]);
    }
}

/// The slot from which each edge slot has its edge after one step of `face`
/// in the second stage.
pub open spec fn edge_source(face: Face) -> Seq<int> {
    if face == Face::U || face == Face::D {
        quarter(face).ep
    } else {
        half_edge_source(face)
    }
}

/// The slot from which each corner slot has its corner after one step of
/// `face` in the second stage.
pub open spec fn corner_source(face: Face) -> Seq<int> {
    if face == Face::U || face == Face::D {
        quarter(face).cp
    } else {
        half_corner_source(face)
    }
}

/// One step of the second stage brings to each slot the piece of another
/// slot, and keeps the layers apart.
pub proof fn lemma_second_stage_step(c: CubeState, face: Face)
    requires
        c.wf(),
    ensures
        c.apply(step_move(Group::G1, face)).wf(),
        c.apply(step_move(Group::G1, face)).ep == Seq::new(
            12,
            |i: int| c.ep[edge_source(face)[i]],
        ),
        c.apply(step_move(Group::G1, face)).cp == Seq::new(
            8,
            |i: int| c.cp[corner_source(face)[i]],
        ),
        forall|i: int|
            0 <= i < 12 ==> 0 <= #[trigger] edge_source(face)[i] < 12 && (edge_source(face)[i]
                < 8) == (i < 8),
        forall|i: int| 0 <= i < 8 ==> 0 <= #[trigger] corner_source(face)[i] < 8,
        layers_apart(c) ==> layers_apart(c.apply(step_move(Group::G1, face))),
{
    let d = c.apply(step_move(Group::G1, face));
    lemma_turned_once(c, face);
    lemma_half_turn_places(c, face);
    lemma_quarter_turn_wf(c, face);
    assert forall|i: int| 0 <= i < 12 implies 0 <= #[trigger] edge_source(face)[i] < 12 && (
    edge_source(face)[i] < 8) == (i < 8) by {
        lemma_layers_kept(face, i);
    }
    assert forall|i: int| 0 <= i < 8 implies 0 <= #[trigger] corner_source(face)[i] < 8 by {
        lemma_corner_sources(face, i);
    }
    assert(d.ep =~= Seq::new(12, |i: int| c.ep[edge_source(face)[i]]));
    assert(d.cp =~= Seq::new(8, |i: int| c.cp[corner_source(face)[i]]));
    if layers_apart(c) {
        assert forall|i: int| 0 <= i < 8 implies #[trigger] d.ep[i] < 8 by {
            let j = edge_source(face)[i];
            assert(c.ep[j] < 8);
        }
        assert forall|i: int| 8 <= i < 12 implies #[trigger] d.ep[i] >= 8 by {
            let j = edge_source(face)[i];
            assert(c.ep[j] >= 8);
        }
    }
}

/// Sets the edges of `cube`, and exchanges its first two corners where the
/// parity asks for it.
pub(crate) fn place_edges(cube: &mut Cube, ep: [Edge; 12])
    ensures
        final(cube)@ == with_edges(old(cube)@, edge_places(ep)),
{
    let cp = cube.cp();
    let co = cube.co();
    let eo = cube.eo();
    let trial = Cube::new_unchecked(cp, co, ep, eo);
    if trial.has_valid_parity() {
        *cube = trial;
    } else {
        // Swap two corners to fix parity.
        let mut fixed = cp;
        fixed[0] = cp[1];
        fixed[1] = cp[0];
        *cube = Cube::new_unchecked(fixed, co, ep, eo);
        assert(corner_places(fixed) =~= swapped(corner_places(cp), 0, 1));
    }
}

/// Sets the corners of `cube`, and exchanges its first two edges where the
/// parity asks for it.
fn place_corners(cube: &mut Cube, cp: [Corner; 8])
    ensures
        final(cube)@ == with_corners(old(cube)@, corner_places(cp)),
{
    let co = cube.co();
    let ep = cube.ep();
    let eo = cube.eo();
    let trial = Cube::new_unchecked(cp, co, ep, eo);
    if trial.has_valid_parity() {
        *cube = trial;
    } else {
        // Swap two edges to fix parity.
        let mut fixed = ep;
        fixed[0] = ep[1];
        fixed[1] = ep[0];
        *cube = Cube::new_unchecked(cp, co, fixed, eo);
        assert(edge_places(fixed) =~= swapped(edge_places(ep), 0, 1));
    }
}

/// The places of the edges in the slots from `from` up to `to`.
fn edge_indices(ep: &[Edge; 12], from: usize, to: usize) -> (v: Vec<usize>)
    requires
        from <= to <= 12,
    ensures
        v@.len() == to - from,
        ints(v@) == edge_places(*ep).subrange(from as int, to as int),
{
    let mut v: Vec<usize> = Vec::new();
    let mut i = from;
    while i < to
        invariant
            from <= i <= to <= 12,
            v@.len() == i - from,
            forall|k: int| 0 <= k < v@.len() ==> v@[k] == ep[from + k].spec_index(),
        decreases to - i,
    {
        v.push(ep[i].index());
        i += 1;
    }
    assert(ints(v@) =~= edge_places(*ep).subrange(from as int, to as int));
    v
}

/// The places of the corners.
fn corner_indices(cp: &[Corner; 8]) -> (v: Vec<usize>)
    ensures
        v@.len() == 8,
        ints(v@) == corner_places(*cp),
{
    let mut v: Vec<usize> = Vec::new();
    let mut i: usize = 0;
    while i < 8
        invariant
            i <= 8,
            v@.len() == i,
            forall|k: int| 0 <= k < v@.len() ==> v@[k] == cp[k].spec_index(),
        decreases 8 - i,
    {
        v.push(cp[i].index());
        i += 1;
    }
    assert(ints(v@) =~= corner_places(*cp));
    v
}

/// The G1 EP coordinate encodes the positions of the U and D edges.
pub struct EPCoord;

impl EPCoord {
    /// Number of elements in the coordinate's transition table.
    pub const NUM_ELEMS: usize = 40320;
}

impl Coord for EPCoord {
    open spec fn size() -> nat {
        40320
    }

    open spec fn group_of() -> Group {
        Group::G1
    }

    open spec fn fits(c: CubeState) -> bool {
        layers_apart(c)
    }

    open spec fn visible(c: CubeState) -> Seq<int> {
        c.ep.take(8)
    }

    open spec fn encode(c: CubeState) -> int {
        perm_rank(c.ep.take(8)) as int
    }

    open spec fn decode(c: CubeState, coord: int) -> CubeState {
        with_edges(c, arrange(descending(8, 7), coord as nat) + c.ep.skip(8))
    }

    fn num_elems() -> (n: usize) {
        40320
    }

    fn group() -> (g: Group) {
        Group::G1
    }

    fn set_coord(cube: &mut Cube, ep: usize) {
        let ghost c0 = cube@;
        proof {
            lemma_factorial_values();
            cube.lemma_wf();
        }
        let perm = set_perm_coord(8, ep);
        let mut edges = cube.ep();
        let ghost before = edge_places(edges);
        let mut i: usize = 0;
        while i < 8
            invariant
                i <= 8,
                perm@.len() == 8,
                forall|k: int| 0 <= k < 8 ==> perm@[k] < 8,
                forall|k: int| 0 <= k < i ==> #[trigger] edges[k].spec_index() == perm@[k],
                forall|k: int| i <= k < 12 ==> #[trigger] edges[k].spec_index() == before[k],
            decreases 8 - i,
        {
            edges[i] = Edge::from_index(perm[i]);
            i += 1;
        }
        proof {
            assert(edge_places(edges) =~= ints(perm@) + c0.ep.skip(8));
            Self::lemma_decode_encode(c0, ep as int);
        }
        place_edges(cube, edges);
    }

    fn get_coord(cube: &Cube) -> (coord: usize) {
        let edges = cube.ep();
        let v = edge_indices(&edges, 0, 8);
        assert(cube@.ep.take(8) =~= edge_places(edges).subrange(0, 8));
        get_perm_coord(v.as_slice())
    }

    proof fn lemma_solved_fits() {
    }

    proof fn lemma_encode_bound(c: CubeState) {
        lemma_rank_bound(c.ep.take(8));
        lemma_factorial_values();
    }

    proof fn lemma_decode_encode(c: CubeState, coord: int) {
        lemma_factorial_values();
        let p = arrange(descending(8, 7), coord as nat);
        let ep = p + c.ep.skip(8);
        lemma_arranged_range(8, coord as nat);
        lemma_drawn_from_range(p, 8);
        lemma_rank_arrange(descending(8, 7), coord as nat);
        assert forall|i: int, j: int| 0 <= i < j < ep.len() implies ep[i] != ep[j] by {
            if j < 8 {
                assert(p[i] != p[j]);
            } else if i >= 8 {
                assert(c.ep[i] != c.ep[j]);
            } else {
                assert(p[i] < 8);
                assert(c.ep[j] >= 8);
            }
        }
        assert forall|i: int| 0 <= i < 12 implies 0 <= #[trigger] ep[i] < 12 by {
            if i < 8 {
                assert(0 <= p[i] < 8);
            } else {
                assert(ep[i] == c.ep[i]);
            }
        }
        lemma_with_edges_valid(c, ep);
        let d = with_edges(c, ep);
        assert(d.ep.take(8) =~= p);
        assert forall|i: int| 0 <= i < 8 implies #[trigger] d.ep[i] < 8 by {
            assert(0 <= p[i] < 8);
        }
        assert forall|i: int| 8 <= i < 12 implies #[trigger] d.ep[i] >= 8 by {
            assert(d.ep[i] == c.ep[i]);
        }
    }

    proof fn lemma_encode_decode(c: CubeState) {
        let p = c.ep.take(8);
        assert forall|i: int| 0 <= i < p.len() implies 0 <= #[trigger] p[i] < 8 by {
            assert(p[i] == c.ep[i]);
        }
        assert forall|i: int, j: int| 0 <= i < j < p.len() implies p[i] != p[j] by {
            assert(c.ep[i] != c.ep[j]);
        }
        lemma_drawn_from_range(p, 8);
        lemma_arrange_rank(p, descending(8, 7));
        let d = Self::decode(c, Self::encode(c));
        assert(d.ep.take(8) =~= p);
    }

    proof fn lemma_step(c: CubeState, face: Face) {
        let solved = CubeState::solved();
        let b = Self::decode(solved, Self::encode(c));
        lemma_solved_valid();
        Self::lemma_encode_bound(c);
        Self::lemma_decode_encode(solved, Self::encode(c));
        let p = c.ep.take(8);
        let a = b.ep.take(8);
        assert forall|i: int, j: int| 0 <= i < j < 8 implies p[i] != p[j] by {
            assert(c.ep[i] != c.ep[j]);
        }
        assert forall|i: int, j: int| 0 <= i < j < 8 implies a[i] != a[j] by {
            assert(b.ep[i] != b.ep[j]);
        }
        lemma_same_rank_same_order(p, a);
        lemma_second_stage_step(c, face);
        lemma_second_stage_step(b, face);
        let c1 = c.apply(step_move(Group::G1, face)).ep.take(8);
        let b1 = b.apply(step_move(Group::G1, face)).ep.take(8);
        assert forall|i: int, j: int| 0 <= i < 8 && 0 <= j < 8 implies (c1[i] < c1[j]) == (b1[i]
            < b1[j]) by {
            let si = edge_source(face)[i];
            let sj = edge_source(face)[j];
            assert(0 <= si < 8 && 0 <= sj < 8);
            assert(c1[i] == p[si] && c1[j] == p[sj]);
            assert(b1[i] == a[si] && b1[j] == a[sj]);
        }
        lemma_same_order_same_rank(c1, b1);
    }

    proof fn lemma_step_fits(c: CubeState, face: Face) {
        lemma_second_stage_step(c, face);
    }
}

/// The G1 CP coordinate encodes the positions of the corners.
pub struct CPCoord;

impl CPCoord {
    /// Number of elements in the coordinate's transition table.
    pub const NUM_ELEMS: usize = 40320;
}

impl Coord for CPCoord {
    open spec fn size() -> nat {
        40320
    }

    open spec fn group_of() -> Group {
        Group::G1
    }

    open spec fn fits(c: CubeState) -> bool {
        true
    }

    open spec fn visible(c: CubeState) -> Seq<int> {
        c.cp
    }

    open spec fn encode(c: CubeState) -> int {
        perm_rank(c.cp) as int
    }

    open spec fn decode(c: CubeState, coord: int) -> CubeState {
        with_corners(c, arrange(descending(8, 7), coord as nat))
    }

    fn num_elems() -> (n: usize) {
        40320
    }

    fn group() -> (g: Group) {
        Group::G1
    }

    fn set_coord(cube: &mut Cube, cp: usize) {
        let ghost c0 = cube@;
        proof {
            lemma_factorial_values();
        }
        let perm = set_perm_coord(8, cp);
        let mut corners = cube.cp();
        let mut i: usize = 0;
        while i < 8
            invariant
                i <= 8,
                perm@.len() == 8,
                forall|k: int| 0 <= k < 8 ==> perm@[k] < 8,
                forall|k: int| 0 <= k < i ==> #[trigger] corners[k].spec_index() == perm@[k],
            decreases 8 - i,
        {
            corners[i] = Corner::from_index(perm[i]);
            i += 1;
        }
        proof {
            assert(corner_places(corners) =~= ints(perm@));
            Self::lemma_decode_encode(c0, cp as int);
        }
        place_corners(cube, corners);
    }

    fn get_coord(cube: &Cube) -> (coord: usize) {
        let corners = cube.cp();
        let v = corner_indices(&corners);
        get_perm_coord(v.as_slice())
    }

    proof fn lemma_solved_fits() {
    }

    proof fn lemma_encode_bound(c: CubeState) {
        lemma_rank_bound(c.cp);
        lemma_factorial_values();
    }

    proof fn lemma_decode_encode(c: CubeState, coord: int) {
        lemma_factorial_values();
        let p = arrange(descending(8, 7), coord as nat);
        lemma_arranged_range(8, coord as nat);
        lemma_drawn_from_range(p, 8);
        lemma_rank_arrange(descending(8, 7), coord as nat);
        lemma_with_corners_valid(c, p);
    }

    proof fn lemma_encode_decode(c: CubeState) {
        lemma_drawn_from_range(c.cp, 8);
        lemma_arrange_rank(c.cp, descending(8, 7));
    }

    proof fn lemma_step(c: CubeState, face: Face) {
        let solved = CubeState::solved();
        let b = Self::decode(solved, Self::encode(c));
        lemma_solved_valid();
        Self::lemma_encode_bound(c);
        Self::lemma_decode_encode(solved, Self::encode(c));
        Self::lemma_encode_decode(c);
        assert(b.cp == c.cp);
        lemma_second_stage_step(c, face);
        lemma_second_stage_step(b, face);
        let c1 = c.apply(step_move(Group::G1, face));
        let b1 = b.apply(step_move(Group::G1, face));
        assert(c1.cp =~= b1.cp);
    }

    proof fn lemma_step_fits(c: CubeState, face: Face) {
    }
}

/// The G1 UD2 coordinate encodes the order of the four E-slice edges.
pub struct UD2Coord;

impl UD2Coord {
    /// Number of elements in the coordinate's transition table.
    pub const NUM_ELEMS: usize = 24;
}

impl Coord for UD2Coord {
    open spec fn size() -> nat {
        24
    }

    open spec fn group_of() -> Group {
        Group::G1
    }

    open spec fn fits(c: CubeState) -> bool {
        layers_apart(c)
    }

    open spec fn visible(c: CubeState) -> Seq<int> {
        c.ep.skip(8)
    }

    open spec fn encode(c: CubeState) -> int {
        perm_rank(c.ep.skip(8)) as int
    }

    open spec fn decode(c: CubeState, coord: int) -> CubeState {
        with_edges(c, c.ep.take(8) + shifted(arrange(descending(4, 3), coord as nat), 8))
    }

    fn num_elems() -> (n: usize) {
        24
    }

    fn group() -> (g: Group) {
        Group::G1
    }

    fn set_coord(cube: &mut Cube, ud2: usize) {
        let ghost c0 = cube@;
        proof {
            lemma_factorial_values();
            cube.lemma_wf();
        }
        let perm = set_perm_coord(4, ud2);
        let mut edges = cube.ep();
        let ghost before = edge_places(edges);
        let mut i: usize = 0;
        while i < 4
            invariant
                i <= 4,
                perm@.len() == 4,
                forall|k: int| 0 <= k < 4 ==> perm@[k] < 4,
                forall|k: int| 0 <= k < 8 ==> #[trigger] edges[k].spec_index() == before[k],
                forall|k: int|
                    8 <= k < 8 + i ==> #[trigger] edges[k].spec_index() == perm@[k - 8] + 8,
            decreases 4 - i,
        {
            edges[8 + i] = Edge::from_index(8 + perm[i]);
            i += 1;
        }
        proof {
            assert(edge_places(edges) =~= c0.ep.take(8) + shifted(ints(perm@), 8));
            Self::lemma_decode_encode(c0, ud2 as int);
        }
        place_edges(cube, edges);
    }

    fn get_coord(cube: &Cube) -> (coord: usize) {
        let edges = cube.ep();
        let v = edge_indices(&edges, 8, 12);
        assert(cube@.ep.skip(8) =~= edge_places(edges).subrange(8, 12));
        get_perm_coord(v.as_slice())
    }

    proof fn lemma_solved_fits() {
    }

    proof fn lemma_encode_bound(c: CubeState) {
        lemma_rank_bound(c.ep.skip(8));
        lemma_factorial_values();
    }

    proof fn lemma_decode_encode(c: CubeState, coord: int) {
        lemma_factorial_values();
        let p = arrange(descending(4, 3), coord as nat);
        let ep = c.ep.take(8) + shifted(p, 8);
        lemma_arranged_range(4, coord as nat);
        lemma_drawn_from_range(p, 4);
        lemma_rank_arrange(descending(4, 3), coord as nat);
        lemma_rank_shifted(p, 8);
        assert forall|i: int, j: int| 0 <= i < j < ep.len() implies ep[i] != ep[j] by {
            if j < 8 {
                assert(c.ep[i] != c.ep[j]);
            } else if i >= 8 {
                assert(p[i - 8] != p[j - 8]);
            } else {
                assert(c.ep[i] < 8);
                assert(0 <= p[j - 8]);
            }
        }
        assert forall|i: int| 0 <= i < 12 implies 0 <= #[trigger] ep[i] < 12 by {
            if i < 8 {
                assert(ep[i] == c.ep[i]);
            } else {
                assert(0 <= p[i - 8] < 4);
            }
        }
        lemma_with_edges_valid(c, ep);
        let d = with_edges(c, ep);
        assert(d.ep.skip(8) =~= shifted(p, 8));
        assert forall|i: int| 0 <= i < 8 implies #[trigger] d.ep[i] < 8 by {
            assert(d.ep[i] == c.ep[i]);
        }
        assert forall|i: int| 8 <= i < 12 implies #[trigger] d.ep[i] >= 8 by {
            assert(0 <= p[i - 8]);
        }
    }

    proof fn lemma_encode_decode(c: CubeState) {
        let p = c.ep.skip(8);
        let q = shifted(p, -8);
        assert forall|i: int| 0 <= i < q.len() implies 0 <= #[trigger] q[i] < 4 by {
            assert(p[i] == c.ep[i + 8]);
        }
        assert forall|i: int, j: int| 0 <= i < j < q.len() implies q[i] != q[j] by {
            assert(c.ep[i + 8] != c.ep[j + 8]);
        }
        lemma_drawn_from_range(q, 4);
        lemma_arrange_rank(q, descending(4, 3));
        lemma_rank_shifted(p, -8);
        assert(shifted(q, 8) =~= p);
        let d = Self::decode(c, Self::encode(c));
        assert(d.ep.skip(8) =~= p);
    }

    proof fn lemma_step(c: CubeState, face: Face) {
        let solved = CubeState::solved();
        let b = Self::decode(solved, Self::encode(c));
        lemma_solved_valid();
        Self::lemma_encode_bound(c);
        Self::lemma_decode_encode(solved, Self::encode(c));
        let p = c.ep.skip(8);
        let a = b.ep.skip(8);
        assert forall|i: int, j: int| 0 <= i < j < 4 implies p[i] != p[j] by {
            assert(c.ep[i + 8] != c.ep[j + 8]);
        }
        assert forall|i: int, j: int| 0 <= i < j < 4 implies a[i] != a[j] by {
            assert(b.ep[i + 8] != b.ep[j + 8]);
        }
        lemma_same_rank_same_order(p, a);
        lemma_second_stage_step(c, face);
        lemma_second_stage_step(b, face);
        let c1 = c.apply(step_move(Group::G1, face)).ep.skip(8);
        let b1 = b.apply(step_move(Group::G1, face)).ep.skip(8);
        assert forall|i: int, j: int| 0 <= i < 4 && 0 <= j < 4 implies (c1[i] < c1[j]) == (b1[i]
            < b1[j]) by {
            let si = edge_source(face)[i + 8];
            let sj = edge_source(face)[j + 8];
            assert(8 <= si < 12 && 8 <= sj < 12);
            assert(c1[i] == p[si - 8] && c1[j] == p[sj - 8]);
            assert(b1[i] == a[si - 8] && b1[j] == a[sj - 8]);
        }
        lemma_same_order_same_rank(c1, b1);
    }

    proof fn lemma_step_fits(c: CubeState, face: Face) {
        lemma_second_stage_step(c, face);
    }
}

} // verus!
