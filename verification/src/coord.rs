//! Coordinates: numberings of what one part of the cube's state can be.
//! Here the two orientation coordinates; the others build on the same trait.

use crate::cube::Cube;
use crate::numbers::{
    all_digits, bytes, checked, digits_of, digits_value, lemma_checked_total,
    lemma_checked_unique, lemma_digits_len, lemma_digits_read, lemma_digits_spell, read_digits,
    total,
};
use crate::pieces::Face;
use crate::search::{step_move, Group};
use crate::state::{lemma_turned_once, CubeState};
use vstd::arithmetic::power::pow;
use vstd::prelude::*;

verus! {

/// A coordinate: a part of the cube's state, and a numbering of what that
/// part can be.
pub trait Coord {
    /// Number of elements in `Coord`'s transition table.
    spec fn size() -> nat;

    /// Which `Group` this `Coord` is defined for.
    spec fn group_of() -> Group;

    /// The states that the coordinate describes: those in which the part
    /// that it numbers lies where the coordinate expects it.
    spec fn fits(c: CubeState) -> bool;

    /// The part of the state that the coordinate numbers.
    spec fn visible(c: CubeState) -> Seq<int>;

    /// The coordinate of a state.
    spec fn encode(c: CubeState) -> int;

    /// The state `c` with the part that the coordinate numbers replaced by
    /// the one whose number is `coord`.
    spec fn decode(c: CubeState, coord: int) -> CubeState;

    /// Number of elements in `Coord`'s transition table.
    fn num_elems() -> (n: usize)
        ensures
            n == Self::size(),
    ;

    /// Which `Group` this `Coord` is defined for.
    fn group() -> (g: Group)
        ensures
            g == Self::group_of(),
    ;

    /// Modify `Cube` to have the given coordinate.
    fn set_coord(cube: &mut Cube, coord: usize)
        requires
            old(cube)@.valid(),
            Self::fits(old(cube)@),
            coord < Self::size(),
        ensures
            final(cube)@ == Self::decode(old(cube)@, coord as int),
            final(cube)@.valid(),
            Self::fits(final(cube)@),
            Self::encode(final(cube)@) == coord,
    ;

    /// Get the coordinate for a given `Cube`.
    fn get_coord(cube: &Cube) -> (coord: usize)
        ensures
            coord == Self::encode(cube@),
    ;

    /// The coordinate describes the solved cube.
    proof fn lemma_solved_fits()
        ensures
            Self::fits(CubeState::solved()),
    ;

    /// The coordinate of a solvable state is one of the `size()` numbers.
    proof fn lemma_encode_bound(c: CubeState)
        requires
            c.valid(),
        ensures
            0 <= Self::encode(c) < Self::size(),
    ;

    /// Setting a coordinate keeps the state solvable, and reading it then
    /// gives the number that was set.
    proof fn lemma_decode_encode(c: CubeState, coord: int)
        requires
            c.valid(),
            Self::fits(c),
            0 <= coord < Self::size(),
        ensures
            Self::decode(c, coord).valid(),
            Self::fits(Self::decode(c, coord)),
            Self::encode(Self::decode(c, coord)) == coord,
    ;

    /// Setting the coordinate that a state has leaves the part that the
    /// coordinate numbers as it was.
    proof fn lemma_encode_decode(c: CubeState)
        requires
            c.valid(),
            Self::fits(c),
        ensures
            Self::visible(Self::decode(c, Self::encode(c))) == Self::visible(c),
    ;

    /// The coordinate after one step of a face, as the tables of the
    /// coordinate's group take it, depends on the coordinate before the step
    /// alone: it is the same for the solved cube set to that coordinate.
    proof fn lemma_step(c: CubeState, face: Face)
        requires
            c.valid(),
        ensures
            Self::encode(c.apply(step_move(Self::group_of(), face))) == Self::encode(
                Self::decode(CubeState::solved(), Self::encode(c)).apply(
                    step_move(Self::group_of(), face),
                ),
            ),
    ;

    /// One step of a face, as the tables of the coordinate's group take it,
    /// leaves a state that the coordinate describes.
    proof fn lemma_step_fits(c: CubeState, face: Face)
        requires
            c.valid(),
            Self::fits(c),
        ensures
            Self::fits(c.apply(step_move(Self::group_of(), face))),
    ;
}

/// Two to the power 11 and three to the power 7.
pub proof fn lemma_orientation_sizes()
    ensures
        pow(2, 11) == 2048,
        pow(3, 7) == 2187,
{
    reveal_with_fuel(pow, 12);
}

/// The G0 EO coordinate is an 11-bit number where each bit corresponds
/// to the orientation of the edge at that index. The 12th edge's orientation
/// is calculated based on the first 11 edge orientations.
pub struct EOCoord;

impl EOCoord {
    /// Number of elements in the coordinate's transition table.
    pub const NUM_ELEMS: usize = 2048;
}

impl Coord for EOCoord {
    open spec fn size() -> nat {
        2048
    }

    open spec fn group_of() -> Group {
        Group::G0
    }

    open spec fn fits(c: CubeState) -> bool {
        true
    }

    open spec fn visible(c: CubeState) -> Seq<int> {
        c.eo
    }

    open spec fn encode(c: CubeState) -> int {
        digits_value(c.eo.take(11), 2)
    }

    open spec fn decode(c: CubeState, coord: int) -> CubeState {
        CubeState { cp: c.cp, co: c.co, ep: c.ep, eo: checked(digits_of(coord, 2, 11), 2) }
    }

    fn num_elems() -> (n: usize) {
        2048
    }

    fn group() -> (g: Group) {
        Group::G0
    }

    fn set_coord(cube: &mut Cube, eo: usize) {
        let ghost c0 = cube@;
        let ghost digits = digits_of(eo as int, 2, 11);
        let ghost mut sum: int = 0;
        let mut flips = cube.eo();
        let mut rest = eo;
        let mut last: u8 = 0;
        let mut i: usize = 11;
        proof {
            lemma_digits_len(eo as int, 2, 11);
            assert(digits =~= digits_of(rest as int, 2, 11) + bytes(flips@).subrange(11, 11));
        }
        while i > 0
            invariant
                i <= 11,
                digits.len() == 11,
                digits_of(rest as int, 2, i as nat).len() == i,
                digits == digits_of(rest as int, 2, i as nat) + bytes(flips@).subrange(
                    i as int,
                    11,
                ),
                total(digits) == total(digits_of(rest as int, 2, i as nat)) + sum,
                sum >= 0,
                last == sum % 2,
            decreases i,
        {
            let ghost before = bytes(flips@).subrange(i as int, 11);
            i -= 1;
            let bit = (rest & 1) as u8;
            assert(rest & 1 == rest % 2) by (bit_vector);
            assert(rest >> 1 == rest / 2) by (bit_vector);
            assert(last ^ bit == (last + bit) % 2) by (bit_vector)
                requires
                    last <= 1,
                    bit <= 1,
            ;
            proof {
                let lower = digits_of(rest as int / 2, 2, i as nat);
                lemma_digits_len(rest as int / 2, 2, i as nat);
                assert(digits_of(rest as int, 2, (i + 1) as nat) == lower.push(rest as int % 2));
                assert(lower.push(rest as int % 2).drop_last() =~= lower);
                sum = sum + rest as int % 2;
            }
            flips[i] = bit;
            last ^= bit;
            rest >>= 1;
            proof {
                assert(bytes(flips@).subrange(i as int, 11) =~= seq![bit as int] + before);
                assert(digits =~= digits_of(rest as int, 2, i as nat) + bytes(flips@).subrange(
                    i as int,
                    11,
                ));
            }
        }
        flips[11] = last;
        let cp = cube.cp();
        let co = cube.co();
        let ep = cube.ep();
        *cube = Cube::new_unchecked(cp, co, ep, flips);
        proof {
            assert(digits =~= bytes(flips@).subrange(0, 11));
            assert(bytes(flips@) =~= checked(digits, 2));
            Self::lemma_decode_encode(c0, eo as int);
        }
    }

    fn get_coord(cube: &Cube) -> (coord: usize) {
        let flips = cube.eo();
        proof {
            lemma_orientation_sizes();
        }
        read_digits(flips.as_slice(), 11, 2)
    }

    proof fn lemma_solved_fits() {
    }

    proof fn lemma_encode_bound(c: CubeState) {
        let s = c.eo.take(11);
        assert(all_digits(s, 2)) by {
            assert forall|i: int| 0 <= i < s.len() implies 0 <= #[trigger] s[i] < 2 by {
                assert(s[i] == c.eo[i]);
            }
        }
        lemma_digits_read(s, 2);
        lemma_orientation_sizes();
    }

    proof fn lemma_decode_encode(c: CubeState, coord: int) {
        let d = digits_of(coord, 2, 11);
        let e = checked(d, 2);
        lemma_orientation_sizes();
        lemma_digits_spell(coord, 2, 11);
        lemma_checked_total(d, 2);
        assert(e.take(11) =~= d);
        assert forall|i: int| 0 <= i < 12 implies 0 <= #[trigger] e[i] <= 1 by {}
    }

    proof fn lemma_encode_decode(c: CubeState) {
        let s = c.eo.take(11);
        assert(all_digits(c.eo, 2)) by {
            assert forall|i: int| 0 <= i < c.eo.len() implies 0 <= #[trigger] c.eo[i] < 2 by {}
        }
        assert(all_digits(s, 2)) by {
            assert forall|i: int| 0 <= i < s.len() implies 0 <= #[trigger] s[i] < 2 by {
                assert(s[i] == c.eo[i]);
            }
        }
        lemma_digits_read(s, 2);
        assert(c.eo.drop_last() =~= s);
        lemma_checked_unique(c.eo, 2);
    }

    proof fn lemma_step(c: CubeState, face: Face) {
        let b = Self::decode(CubeState::solved(), Self::encode(c));
        Self::lemma_encode_decode(c);
        assert(b.eo == c.eo);
        lemma_turned_once(c, face);
        lemma_turned_once(b, face);
        assert(c.quarter_turn(face).eo =~= b.quarter_turn(face).eo);
    }

    proof fn lemma_step_fits(c: CubeState, face: Face) {
    }
}

/// The G0 CO coordinate is 7 digit base-3 number where each digit corresponds
/// to the orientation of the corner at that index. The 8th corner's orientation
/// is calculated based on the first 7 corner orientations.
pub struct COCoord;

impl COCoord {
    /// Number of elements in the coordinate's transition table.
    pub const NUM_ELEMS: usize = 2187;
}

impl Coord for COCoord {
    open spec fn size() -> nat {
        2187
    }

    open spec fn group_of() -> Group {
        Group::G0
    }

    open spec fn fits(c: CubeState) -> bool {
        true
    }

    open spec fn visible(c: CubeState) -> Seq<int> {
        c.co
    }

    open spec fn encode(c: CubeState) -> int {
        digits_value(c.co.take(7), 3)
    }

    open spec fn decode(c: CubeState, coord: int) -> CubeState {
        CubeState { cp: c.cp, co: checked(digits_of(coord, 3, 7), 3), ep: c.ep, eo: c.eo }
    }

    fn num_elems() -> (n: usize) {
        2187
    }

    fn group() -> (g: Group) {
        Group::G0
    }

    fn set_coord(cube: &mut Cube, co: usize) {
        let ghost c0 = cube@;
        let ghost digits = digits_of(co as int, 3, 7);
        let ghost mut sum: int = 0;
        let mut twists = cube.co();
        let mut rest = co;
        let mut last: u8 = 0;
        let mut i: usize = 7;
        proof {
            lemma_digits_len(co as int, 3, 7);
            assert(digits =~= digits_of(rest as int, 3, 7) + bytes(twists@).subrange(7, 7));
        }
        while i > 0
            invariant
                i <= 7,
                digits.len() == 7,
                digits_of(rest as int, 3, i as nat).len() == i,
                digits == digits_of(rest as int, 3, i as nat) + bytes(twists@).subrange(
                    i as int,
                    7,
                ),
                total(digits) == total(digits_of(rest as int, 3, i as nat)) + sum,
                sum >= 0,
                last == (3 - sum % 3) % 3,
            decreases i,
        {
            let ghost before = bytes(twists@).subrange(i as int, 7);
            i -= 1;
            let digit = (rest % 3) as u8;
            proof {
                let lower = digits_of(rest as int / 3, 3, i as nat);
                lemma_digits_len(rest as int / 3, 3, i as nat);
                assert(digits_of(rest as int, 3, (i + 1) as nat) == lower.push(rest as int % 3));
                assert(lower.push(rest as int % 3).drop_last() =~= lower);
                sum = sum + rest as int % 3;
            }
            twists[i] = digit;
            rest /= 3;
            last = ((last + 3) - digit) % 3;
            proof {
                assert(bytes(twists@).subrange(i as int, 7) =~= seq![digit as int] + before);
                assert(digits =~= digits_of(rest as int, 3, i as nat) + bytes(twists@).subrange(
                    i as int,
                    7,
                ));
            }
        }
        twists[7] = last;
        let cp = cube.cp();
        let ep = cube.ep();
        let eo = cube.eo();
        *cube = Cube::new_unchecked(cp, twists, ep, eo);
        proof {
            assert(digits =~= bytes(twists@).subrange(0, 7));
            assert(bytes(twists@) =~= checked(digits, 3));
            Self::lemma_decode_encode(c0, co as int);
        }
    }

    fn get_coord(cube: &Cube) -> (coord: usize) {
        let twists = cube.co();
        proof {
            lemma_orientation_sizes();
        }
        read_digits(twists.as_slice(), 7, 3)
    }

    proof fn lemma_solved_fits() {
    }

    proof fn lemma_encode_bound(c: CubeState) {
        let s = c.co.take(7);
        assert(all_digits(s, 3)) by {
            assert forall|i: int| 0 <= i < s.len() implies 0 <= #[trigger] s[i] < 3 by {
                assert(s[i] == c.co[i]);
            }
        }
        lemma_digits_read(s, 3);
        lemma_orientation_sizes();
    }

    proof fn lemma_decode_encode(c: CubeState, coord: int) {
        let d = digits_of(coord, 3, 7);
        let e = checked(d, 3);
        lemma_orientation_sizes();
        lemma_digits_spell(coord, 3, 7);
        lemma_checked_total(d, 3);
        assert(e.take(7) =~= d);
        assert forall|i: int| 0 <= i < 8 implies 0 <= #[trigger] e[i] <= 2 by {}
    }

    proof fn lemma_encode_decode(c: CubeState) {
        let s = c.co.take(7);
        assert(all_digits(c.co, 3)) by {
            assert forall|i: int| 0 <= i < c.co.len() implies 0 <= #[trigger] c.co[i] < 3 by {}
        }
        assert(all_digits(s, 3)) by {
            assert forall|i: int| 0 <= i < s.len() implies 0 <= #[trigger] s[i] < 3 by {
                assert(s[i] == c.co[i]);
            }
        }
        lemma_digits_read(s, 3);
        assert(c.co.drop_last() =~= s);
        lemma_checked_unique(c.co, 3);
    }

    proof fn lemma_step(c: CubeState, face: Face) {
        let b = Self::decode(CubeState::solved(), Self::encode(c));
        Self::lemma_encode_decode(c);
        assert(b.co == c.co);
        lemma_turned_once(c, face);
        lemma_turned_once(b, face);
        assert(c.quarter_turn(face).co =~= b.quarter_turn(face).co);
    }

    proof fn lemma_step_fits(c: CubeState, face: Face) {
    }
}

} // verus!
