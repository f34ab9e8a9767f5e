//! Transition tables: for each value of a coordinate and each face, the
//! value of the coordinate after one step of that face.

use crate::coord::{COCoord, Coord, EOCoord};
use crate::cube::Cube;
use crate::perm_coord::{CPCoord, EPCoord, UD2Coord};
use crate::pieces::{Face, Move};
use crate::search::{step_move, Group};
use crate::slice_coord::UD1Coord;
use crate::state::{lemma_apply_valid, CubeState};
use vstd::prelude::*;

verus! {

/// What the transition table of `T` holds for the value `i` and `face`:
/// the coordinate of the cube that has the coordinate `i`, after the step.
pub open spec fn transition<T: Coord>(i: int, face: Face) -> int {
    T::encode(T::decode(CubeState::solved(), i).apply(step_move(T::group_of(), face)))
}

/// `table` is the transition table of the coordinate `T`.
pub open spec fn is_transition_table<T: Coord>(table: Seq<[usize; 6]>) -> bool {
    &&& table.len() == T::size()
    &&& forall|i: int, face: Face|
        0 <= i < table.len() ==> #[trigger] table[i][face.spec_index()] == transition::<T>(
            i,
            face,
        )
}

/// No step leaves the values that `table` covers.
pub open spec fn closed_table(table: Seq<[usize; 6]>) -> bool {
    forall|c: int, f: int|
        0 <= c < table.len() && 0 <= f < 6 ==> #[trigger] table[c][f] < table.len()
}

/// A step from a value of the coordinate leads to a value of the coordinate.
pub proof fn lemma_transition_bound<T: Coord>(i: int, face: Face)
    requires
        0 <= i < T::size(),
    ensures
        0 <= transition::<T>(i, face) < T::size(),
{
    let solved = CubeState::solved();
    crate::state::lemma_solved_valid();
    T::lemma_solved_fits();
    T::lemma_decode_encode(solved, i);
    let c = T::decode(solved, i);
    lemma_apply_valid(c, step_move(T::group_of(), face));
    T::lemma_encode_bound(c.apply(step_move(T::group_of(), face)));
}

/// Builds the transition table of the coordinate `T`: for each value the
/// solved cube is set to it, each face makes its step, and the coordinate of
/// what comes out is written down.
fn init_transition_table<T: Coord>() -> (v: Vec<[usize; 6]>)
    ensures
        is_transition_table::<T>(v@),
        closed_table(v@),
{
    let n = T::num_elems();
    let mut v: Vec<[usize; 6]> = Vec::new();
    let turn_counts: [u8; 6] = match T::group() {
        Group::G0 => [1, 1, 1, 1, 1, 1],
        Group::G1 => [1, 1, 2, 2, 2, 2],
    };
    let turns = [Face::U, Face::D, Face::F, Face::B, Face::R, Face::L];
    let mut i: usize = 0;
    while i < n
        invariant
            i <= n,
            n == T::size(),
            v@.len() == i,
            turns[0] == Face::U,
            turns[1] == Face::D,
            turns[2] == Face::F,
            turns[3] == Face::B,
            turns[4] == Face::R,
            turns[5] == Face::L,
            forall|k: int|
                0 <= k < 6 ==> Move(turns[k], #[trigger] turn_counts[k]) == step_move(
                    T::group_of(),
                    turns[k],
                ),
            forall|c: int, face: Face|
                0 <= c < i ==> #[trigger] v@[c][face.spec_index()] == transition::<T>(c, face),
            forall|c: int, f: int| 0 <= c < i && 0 <= f < 6 ==> #[trigger] v@[c][f] < n,
        decreases n - i,
    {
        let mut c = Cube::solved();
        proof {
            T::lemma_solved_fits();
        }
        T::set_coord(&mut c, i);
        let mut row = [0usize;6];
        let mut k: usize = 0;
        while k < 6
            invariant
                k <= 6,
                i < n,
                n == T::size(),
                c@ == T::decode(CubeState::solved(), i as int),
                c@.valid(),
                turns[0] == Face::U,
                turns[1] == Face::D,
                turns[2] == Face::F,
                turns[3] == Face::B,
                turns[4] == Face::R,
                turns[5] == Face::L,
                forall|m: int|
                    0 <= m < 6 ==> Move(turns[m], #[trigger] turn_counts[m]) == step_move(
                        T::group_of(),
                        turns[m],
                    ),
                forall|m: int|
                    0 <= m < k ==> #[trigger] row[turns[m].spec_index()] == transition::<T>(
                        i as int,
                        turns[m],
                    ),
                forall|f: int| 0 <= f < 6 ==> #[trigger] row[f] < n,
            decreases 6 - k,
        {
            let f = turns[k];
            let dir = turn_counts[k];
            let nc = c.apply_move(Move(f, dir));
            let coord = T::get_coord(&nc);
            proof {
                assert(Move(turns[k as int], turn_counts[k as int]) == step_move(
                    T::group_of(),
                    turns[k as int],
                ));
                lemma_transition_bound::<T>(i as int, f);
            }
            row[f.index()] = coord;
            k += 1;
        }
        proof {
            assert forall|face: Face| row[face.spec_index()] == transition::<T>(
                i as int,
                face,
            ) by {
                let m = match face {
                    Face::U => 0int,
                    Face::D => 1,
                    Face::F => 2,
                    Face::B => 3,
                    Face::R => 4,
                    Face::L => 5,
                };
                assert(turns[m] == face);
                assert(row[turns[m].spec_index()] == transition::<T>(i as int, turns[m]));
            }
        }
        v.push(row);
        i += 1;
    }
    v
}

/// Get the G0 CO transition table.
pub fn get_co_transition_table() -> (table: Vec<[usize; 6]>)
    ensures
        is_transition_table::<COCoord>(table@),
        closed_table(table@),
        table@.len() == 2187,
{
    init_transition_table::<COCoord>()
}

/// Get the G0 EO transition table.
pub fn get_eo_transition_table() -> (table: Vec<[usize; 6]>)
    ensures
        is_transition_table::<EOCoord>(table@),
        closed_table(table@),
        table@.len() == 2048,
{
    init_transition_table::<EOCoord>()
}

/// Get the G0 UD1 transition table.
pub fn get_ud1_transition_table() -> (table: Vec<[usize; 6]>)
    ensures
        is_transition_table::<UD1Coord>(table@),
        closed_table(table@),
        table@.len() == 495,
{
    init_transition_table::<UD1Coord>()
}

/// Get the G1 EP transition table.
pub fn get_ep_transition_table() -> (table: Vec<[usize; 6]>)
    ensures
        is_transition_table::<EPCoord>(table@),
        closed_table(table@),
        table@.len() == 40320,
{
    init_transition_table::<EPCoord>()
}

/// Get the G1 CP transition table.
pub fn get_cp_transition_table() -> (table: Vec<[usize; 6]>)
    ensures
        is_transition_table::<CPCoord>(table@),
        closed_table(table@),
        table@.len() == 40320,
{
    init_transition_table::<CPCoord>()
}

/// Get the G1 UD2 transition table.
pub fn get_ud2_transition_table() -> (table: Vec<[usize; 6]>)
    ensures
        is_transition_table::<UD2Coord>(table@),
        closed_table(table@),
        table@.len() == 24,
{
    init_transition_table::<UD2Coord>()
}

} // verus!
