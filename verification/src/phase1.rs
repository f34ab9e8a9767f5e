//! The second stage: from the subgroup `G1` to the solved cube.

use crate::coord::Coord;
use crate::cube::Cube;
use crate::perm_coord::{CPCoord, EPCoord, UD2Coord};
use crate::pieces::{Face, Move};
use crate::search::{
    allowed, closes, face_order, found, lemma_all_moves_fail, lemma_move_fails,
    lemma_move_appended, lemma_no_move_left, lemma_pruned, lemma_step_holds, move_order,
    none_before, nothing_found, skips, table_steps, Group, Table, TableSet, Triple,
};
use vstd::prelude::*;
use vstd::std_specs::convert::FromSpec;

verus! {

/// The coordinates of the second stage: the arrangement of the eight edges
/// of the U and D layers, of the eight corners, and of the four slice edges.
#[derive(Clone, Copy, Debug)]
pub struct Phase1Coord {
    pub ep: usize,
    pub cp: usize,
    pub ud2: usize,
}

impl View for Phase1Coord {
    type V = Triple;

    open spec fn view(&self) -> Triple {
        Triple { first: self.ep as int, second: self.cp as int, third: self.ud2 as int }
    }
}

impl Phase1Coord {
    /// Whether the cube is solved: all three coordinates are 0.
    pub fn is_solved(&self) -> (b: bool)
        ensures
            b == self@.is_zero(),
    {
        self.ep == 0 && self.cp == 0 && self.ud2 == 0
    }
}

impl From<Cube> for Phase1Coord {
    fn from(val: Cube) -> (coord: Phase1Coord) {
        Phase1Coord {
            ep: EPCoord::get_coord(&val),
            cp: CPCoord::get_coord(&val),
            ud2: UD2Coord::get_coord(&val),
        }
    }
}

impl vstd::std_specs::convert::FromSpecImpl<Cube> for Phase1Coord {
    open spec fn obeys_from_spec() -> bool {
        true
    }

    open spec fn from_spec(val: Cube) -> Phase1Coord {
        Phase1Coord {
            ep: EPCoord::encode(val@) as usize,
            cp: CPCoord::encode(val@) as usize,
            ud2: UD2Coord::encode(val@) as usize,
        }
    }
}

/// The coordinates of a solvable cube are values of the three coordinates of
/// the second stage.
pub proof fn lemma_phase1_coord_bounds(cube: Cube)
    requires
        cube@.valid(),
    ensures
        Phase1Coord::from_spec(cube).ep < 40320,
        Phase1Coord::from_spec(cube).cp < 40320,
        Phase1Coord::from_spec(cube).ud2 < 24,
{
    EPCoord::lemma_encode_bound(cube@);
    CPCoord::lemma_encode_bound(cube@);
    UD2Coord::lemma_encode_bound(cube@);
}

/// The transition and pruning tables of the three coordinates of the second
/// stage.
pub struct Phase1Tables<'a> {
    pub ep_t: &'a [[usize; 6]],
    pub cp_t: &'a [[usize; 6]],
    pub ud2_t: &'a [[usize; 6]],
    pub ep_p: &'a [usize],
    pub cp_p: &'a [usize],
    pub ud2_p: &'a [usize],
}

impl<'a> View for Phase1Tables<'a> {
    type V = TableSet;

    open spec fn view(&self) -> TableSet {
        TableSet {
            first: Table { moves: self.ep_t@, depths: self.ep_p@ },
            second: Table { moves: self.cp_t@, depths: self.cp_p@ },
            third: Table { moves: self.ud2_t@, depths: self.ud2_p@ },
        }
    }
}

impl<'a> Phase1Tables<'a> {
    /// The new `Phase1Coord` after doing the `face` move.
    /// note: This is a quarter turn for U/D and half turn for FBRL.
    pub fn transition(&self, coord: Phase1Coord, face: Face) -> (next: Phase1Coord)
        requires
            self@.wf(),
            self@.holds(coord@),
        ensures
            next@ == self@.step(coord@, face),
            self@.holds(next@),
    {
        proof {
            lemma_step_holds(self@, coord@, face);
        }
        let f = face.index();
        let ep = self.ep_t[coord.ep][f];
        let cp = self.cp_t[coord.cp][f];
        let ud2 = self.ud2_t[coord.ud2][f];
        Phase1Coord { ep, cp, ud2 }
    }

    /// The maximum prune depth for `coord`.
    pub fn prune_depth(&self, coord: Phase1Coord) -> (depth: usize)
        requires
            self@.wf(),
            self@.holds(coord@),
        ensures
            depth == self@.bound(coord@),
    {
        let ep = self.ep_p[coord.ep];
        let cp = self.cp_p[coord.cp];
        let ud2 = self.ud2_p[coord.ud2];
        let rest = if cp >= ud2 {
            cp
        } else {
            ud2
        };
        if ep >= rest {
            ep
        } else {
            rest
        }
    }
}

/// Check if a solution is valid. The second stage may end after any moves.
pub fn solution_check(solution: &[Move]) -> (b: bool)
    ensures
        b == closes(Group::G1, solution@),
{
    true
}

/// Check if a face should be skipped.
pub fn skip_face(solution: &[Move], face: Face) -> (b: bool)
    ensures
        b == skips(solution@, face),
{
    let len = solution.len();
    if len > 0 {
        // Check for A A.
        let last = solution[len - 1];
        if last.0 == face {
            return true;
        }
        if len > 1 {
            // Check for A B A where A and B are opposite faces.
            let before = solution[len - 2];
            if before.0.is_opposite(last.0) && before.0 == face {
                return true;
            }
        }
    }
    false
}

/// Phase 1: Reduce a cube from G1 to solved.
///
/// Looks for `depth_remaining` moves that take `coord` to the zero triple.
/// Where there are such moves, the first sequence in the order of the search
/// is appended to `solution`; where there are none, `solution` is left as it
/// was.
pub fn phase1(
    coord: Phase1Coord,
    depth_remaining: usize,
    tables: &Phase1Tables,
    solution: &mut Vec<Move>,
) -> (ok: bool)
    requires
        tables@.wf(),
        tables@.holds(coord@),
    ensures
        ok ==> final(solution)@.len() == old(solution)@.len() + depth_remaining,
        ok ==> final(solution)@.take(old(solution)@.len() as int) == old(solution)@,
        ok ==> found(
            tables@,
            Group::G1,
            coord@,
            old(solution)@,
            final(solution)@.skip(old(solution)@.len() as int),
        ),
        !ok ==> final(solution)@ == old(solution)@,
        !ok ==> nothing_found(
            tables@,
            Group::G1,
            coord@,
            old(solution)@,
            depth_remaining as nat,
        ),
    decreases depth_remaining,
{
    let ghost done = solution@;
    let ghost ts = tables@;
    let ghost x = coord@;
    let ghost depth = depth_remaining as nat;
    if depth_remaining == 0 {
        proof {
            lemma_no_move_left(ts, Group::G1, x, done);
            assert(done.skip(done.len() as int) =~= Seq::<Move>::empty());
            assert(done.take(done.len() as int) =~= done);
        }
        if !solution_check(solution.as_slice()) {
            return false;
        }
        return coord.is_solved();
    }
    if depth_remaining < tables.prune_depth(coord) {
        proof {
            lemma_pruned(ts, Group::G1, x, done, depth);
        }
        return false;
    }
    let faces = [Face::U, Face::D, Face::F, Face::B, Face::R, Face::L];
    let mut fi: usize = 0;
    while fi < 6
        invariant
            fi <= 6,
            forall|k: int| 0 <= k < 6 ==> face_order(#[trigger] faces[k]) == k,
            solution@ == done,
            done == old(solution)@,
            ts == tables@,
            x == coord@,
            depth == depth_remaining,
            depth > 0,
            ts.wf(),
            ts.holds(x),
            ts.bound(x) <= depth,
            none_before(ts, Group::G1, x, done, depth, 3 * fi),
        decreases 6 - fi,
    {
        let f = faces[fi];
        assert(face_order(f) == fi);
        if skip_face(solution.as_slice(), f) {
            proof {
                lemma_move_fails(ts, Group::G1, x, done, depth, Move(f, 1));
                lemma_move_fails(ts, Group::G1, x, done, depth, Move(f, 2));
                lemma_move_fails(ts, Group::G1, x, done, depth, Move(f, 3));
            }
        } else {
            // FBRL are half turns only.
            let quarters = f == Face::U || f == Face::D;
            let mut next = coord;
            let mut i: u8 = if quarters {
                0
            } else {
                1
            };
            let end: u8 = if quarters {
                3
            } else {
                2
            };
            proof {
                if !quarters {
                    lemma_move_fails(ts, Group::G1, x, done, depth, Move(f, 1));
                }
            }
            while i < end
                invariant
                    i <= end,
                    quarters == (f == Face::U || f == Face::D),
                    quarters ==> end == 3,
                    !quarters ==> end == 2 && i >= 1,
                    fi < 6,
                    face_order(f) == fi,
                    !skips(done, f),
                    solution@ == done,
                    done == old(solution)@,
                    ts == tables@,
                    x == coord@,
                    depth == depth_remaining,
                    depth > 0,
                    ts.wf(),
                    ts.holds(x),
                    ts.bound(x) <= depth,
                    quarters ==> next@ == ts.steps(x, f, i as nat),
                    !quarters ==> next@ == ts.steps(x, f, (i - 1) as nat),
                    ts.holds(next@),
                    none_before(ts, Group::G1, x, done, depth, 3 * fi + i),
                decreases end - i,
            {
                next = tables.transition(next, f);
                let m = Move(f, i + 1);
                assert(move_order(m) == 3 * fi + i);
                assert(allowed(Group::G1, m));
                assert(next@ == ts.steps(x, f, table_steps(Group::G1, m)));
                solution.push(m);
                if phase1(next, depth_remaining - 1, tables, solution) {
                    proof {
                        lemma_move_appended(ts, Group::G1, x, done, m, solution@);
                    }
                    return true;
                }
                solution.pop();
                proof {
                    assert(solution@ =~= done);
                    lemma_move_fails(ts, Group::G1, x, done, depth, m);
                }
                i += 1;
            }
            proof {
                if !quarters {
                    lemma_move_fails(ts, Group::G1, x, done, depth, Move(f, 3));
                }
            }
        }
        fi += 1;
    }
    proof {
        lemma_all_moves_fail(ts, Group::G1, x, done, depth);
    }
    false
}

} // verus!
