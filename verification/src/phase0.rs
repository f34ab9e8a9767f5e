//! The first stage: from any solvable cube into the subgroup `G1`.

use crate::coord::{COCoord, Coord, EOCoord};
use crate::cube::Cube;
use crate::pieces::{Face, Move};
use crate::slice_coord::UD1Coord;
use crate::search::{
    closes_first_stage, face_order, found, lemma_all_moves_fail, lemma_move_fails,
    lemma_move_appended, lemma_no_move_left, lemma_pruned, lemma_step_holds, move_order,
    none_before, nothing_found, skips, Group, Table, TableSet, Triple,
};
use vstd::prelude::*;
use vstd::std_specs::convert::FromSpec;

verus! {

/// The coordinates of the first stage: edge orientation, corner orientation,
/// and the places of the four slice edges.
#[derive(Clone, Copy, Debug)]
pub struct Phase0Coord {
    pub eo: usize,
    pub co: usize,
    pub ud1: usize,
}

impl View for Phase0Coord {
    type V = Triple;

    open spec fn view(&self) -> Triple {
        Triple { first: self.eo as int, second: self.co as int, third: self.ud1 as int }
    }
}

impl Phase0Coord {
    /// Whether the cube is in `G1`: all three coordinates are 0.
    pub fn is_solved(&self) -> (b: bool)
        ensures
            b == self@.is_zero(),
    {
        self.eo == 0 && self.co == 0 && self.ud1 == 0
    }
}

impl From<Cube> for Phase0Coord {
    fn from(val: Cube) -> (coord: Phase0Coord) {
        Phase0Coord {
            eo: EOCoord::get_coord(&val),
            co: COCoord::get_coord(&val),
            ud1: UD1Coord::get_coord(&val),
        }
    }
}

impl vstd::std_specs::convert::FromSpecImpl<Cube> for Phase0Coord {
    open spec fn obeys_from_spec() -> bool {
        true
    }

    open spec fn from_spec(val: Cube) -> Phase0Coord {
        Phase0Coord {
            eo: EOCoord::encode(val@) as usize,
            co: COCoord::encode(val@) as usize,
            ud1: UD1Coord::encode(val@) as usize,
        }
    }
}

/// The coordinates of a solvable cube are values of the three coordinates of
/// the first stage.
pub proof fn lemma_phase0_coord_bounds(cube: Cube)
    requires
        cube@.valid(),
    ensures
        Phase0Coord::from_spec(cube).eo < 2048,
        Phase0Coord::from_spec(cube).co < 2187,
        Phase0Coord::from_spec(cube).ud1 < 495,
{
    EOCoord::lemma_encode_bound(cube@);
    COCoord::lemma_encode_bound(cube@);
    UD1Coord::lemma_encode_bound(cube@);
}

/// The transition and pruning tables of the three coordinates of the first
/// stage.
pub struct Phase0Tables<'a> {
    pub eo_t: &'a [[usize; 6]],
    pub co_t: &'a [[usize; 6]],
    pub ud1_t: &'a [[usize; 6]],
    pub eo_p: &'a [usize],
    pub co_p: &'a [usize],
    pub ud1_p: &'a [usize],
}

impl<'a> View for Phase0Tables<'a> {
    type V = TableSet;

    open spec fn view(&self) -> TableSet {
        TableSet {
            first: Table { moves: self.eo_t@, depths: self.eo_p@ },
            second: Table { moves: self.co_t@, depths: self.co_p@ },
            third: Table { moves: self.ud1_t@, depths: self.ud1_p@ },
        }
    }
}

impl<'a> Phase0Tables<'a> {
    /// The new `Phase0Coord` after doing the `face` move.
    /// note: This only does quarter turns.
    pub fn transition(&self, coord: Phase0Coord, face: Face) -> (next: Phase0Coord)
        requires
            self@.wf(),
            self@.holds(coord@),
        ensures
            next@ == self@.step(coord@, face),
            self@.holds(next@),
    {
        proof {
            lemma_step_holds(self@, coord@, face);
        }
        let f = face.index();
        let eo = self.eo_t[coord.eo][f];
        let co = self.co_t[coord.co][f];
        let ud1 = self.ud1_t[coord.ud1][f];
        Phase0Coord { eo, co, ud1 }
    }

    /// The maximum prune depth for `coord`.
    pub fn prune_depth(&self, coord: Phase0Coord) -> (depth: usize)
        requires
            self@.wf(),
            self@.holds(coord@),
        ensures
            depth == self@.bound(coord@),
    {
        let eo = self.eo_p[coord.eo];
        let co = self.co_p[coord.co];
        let ud1 = self.ud1_p[coord.ud1];
        let rest = if co >= ud1 {
            co
        } else {
            ud1
        };
        if eo >= rest {
            eo
        } else {
            rest
        }
    }
}

/// Check if a solution is valid.
pub fn solution_check(solution: &[Move]) -> (b: bool)
    ensures
        b == closes_first_stage(solution@),
{
    let len = solution.len();
    if len > 0 {
        let last = solution[len - 1];
        // Phase0 cannot end in U or D.
        if last.0 == Face::U || last.0 == Face::D {
            return false;
        }
        // Phase0 cannot end a half turn.
        if last.1 == 2 {
            return false;
        }
        if len > 1 {
            // Phase 0 cannot end in A2 B, where A and B are opposite faces.
            let before = solution[len - 2];
            if before.1 == 2 && before.0.is_opposite(last.0) {
                return false;
            }
        }
    }
    true
}

/// Check if a face should be skipped.
pub fn skip_face(solution: &[Move], face: Face) -> (b: bool)
    ensures
        b == skips(solution@, face),
{
    let len = solution.len();
    if len > 0 {
        // Check for A A.
        let last = solution[len - 1];
        if last.0 == face {
            return true;
        }
        if len > 1 {
            // Check for A B A where A and B are opposite faces.
            let before = solution[len - 2];
            if before.0.is_opposite(last.0) && before.0 == face {
                return true;
            }
        }
    }
    false
}

/// Phase 0: Reduce a cube from G0 to G1.
///
/// Looks for `depth_remaining` moves that take `coord` to the zero triple.
/// Where there are such moves, the first sequence in the order of the search
/// is appended to `solution`; where there are none, `solution` is left as it
/// was.
pub fn phase0(
    coord: Phase0Coord,
    depth_remaining: usize,
    tables: &Phase0Tables,
    solution: &mut Vec<Move>,
) -> (ok: bool)
    requires
        tables@.wf(),
        tables@.holds(coord@),
    ensures
        ok ==> final(solution)@.len() == old(solution)@.len() + depth_remaining,
        ok ==> final(solution)@.take(old(solution)@.len() as int) == old(solution)@,
        ok ==> found(
            tables@,
            Group::G0,
            coord@,
            old(solution)@,
            final(solution)@.skip(old(solution)@.len() as int),
        ),
        !ok ==> final(solution)@ == old(solution)@,
        !ok ==> nothing_found(
            tables@,
            Group::G0,
            coord@,
            old(solution)@,
            depth_remaining as nat,
        ),
    decreases depth_remaining,
{
    let ghost done = solution@;
    let ghost ts = tables@;
    let ghost x = coord@;
    let ghost depth = depth_remaining as nat;
    if depth_remaining == 0 {
        proof {
            lemma_no_move_left(ts, Group::G0, x, done);
            assert(done.skip(done.len() as int) =~= Seq::<Move>::empty());
            assert(done.take(done.len() as int) =~= done);
        }
        if !solution_check(solution.as_slice()) {
            return false;
        }
        return coord.is_solved();
    }
    if depth_remaining < tables.prune_depth(coord) {
        proof {
            lemma_pruned(ts, Group::G0, x, done, depth);
        }
        return false;
    }
    let faces = [Face::U, Face::D, Face::F, Face::B, Face::R, Face::L];
    let mut fi: usize = 0;
    while fi < 6
        invariant
            fi <= 6,
            forall|k: int| 0 <= k < 6 ==> face_order(#[trigger] faces[k]) == k,
            solution@ == done,
            done == old(solution)@,
            ts == tables@,
            x == coord@,
            depth == depth_remaining,
            depth > 0,
            ts.wf(),
            ts.holds(x),
            ts.bound(x) <= depth,
            none_before(ts, Group::G0, x, done, depth, 3 * fi),
        decreases 6 - fi,
    {
        let f = faces[fi];
        assert(face_order(f) == fi);
        if skip_face(solution.as_slice(), f) {
            proof {
                lemma_move_fails(ts, Group::G0, x, done, depth, Move(f, 1));
                lemma_move_fails(ts, Group::G0, x, done, depth, Move(f, 2));
                lemma_move_fails(ts, Group::G0, x, done, depth, Move(f, 3));
            }
        } else {
            let mut next = coord;
            let mut i: u8 = 0;
            while i < 3
                invariant
                    i <= 3,
                    fi < 6,
                    face_order(f) == fi,
                    !skips(done, f),
                    solution@ == done,
                    done == old(solution)@,
                    ts == tables@,
                    x == coord@,
                    depth == depth_remaining,
                    depth > 0,
                    ts.wf(),
                    ts.holds(x),
                    ts.bound(x) <= depth,
                    next@ == ts.steps(x, f, i as nat),
                    ts.holds(next@),
                    none_before(ts, Group::G0, x, done, depth, 3 * fi + i),
                decreases 3 - i,
            {
                next = tables.transition(next, f);
                let m = Move(f, i + 1);
                assert(move_order(m) == 3 * fi + i);
                assert(next@ == ts.steps(x, f, (i + 1) as nat));
                solution.push(m);
                if phase0(next, depth_remaining - 1, tables, solution) {
                    proof {
                        lemma_move_appended(ts, Group::G0, x, done, m, solution@);
                    }
                    return true;
                }
                solution.pop();
                proof {
                    assert(solution@ =~= done);
                    lemma_move_fails(ts, Group::G0, x, done, depth, m);
                }
                i += 1;
            }
        }
        fi += 1;
    }
    proof {
        lemma_all_moves_fail(ts, Group::G0, x, done, depth);
    }
    false
}

} // verus!
