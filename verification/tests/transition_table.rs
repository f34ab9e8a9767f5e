use kociemba::numbers::{binomial, factorial_of};
use kociemba::Corner::{DBL, DFR, DLF, DRB, UBR, UFL, ULB, URF};
use kociemba::Edge::{BL, BR, DB, DF, DL, DR, FL, FR, UB, UF, UL, UR};
use kociemba::{
    factorial_digits, get_co_transition_table, get_cp_transition_table,
    get_eo_transition_table, get_ep_transition_table, get_nth_zero, get_ud1_transition_table,
    get_ud2_transition_table, COCoord, CPCoord, Coord, Cube, EOCoord, EPCoord, Face, Group,
    Move, UD1Coord, UD2Coord, NUM_CORNERS, NUM_EDGES,
};

fn exhaustive_coord_check<T: Coord>() {
    for i in 0..T::num_elems() {
        let mut c = Cube::solved();
        T::set_coord(&mut c, i);
        assert_eq!(i, T::get_coord(&c));
        assert_eq!(Ok(()), c.verify());
    }
}

#[test]
fn eo_coord() {
    let c = Cube::solved();
    assert_eq!(0, EOCoord::get_coord(&c));

    for i in 1..4 {
        let c = c.apply_move(Move(Face::U, i));
        assert_eq!(0, EOCoord::get_coord(&c));
    }

    let c = Cube::new(
        [URF, UFL, ULB, UBR, DFR, DLF, DBL, DRB],
        [0; NUM_CORNERS],
        [UR, UF, UL, UB, DR, DF, DL, DB, FR, FL, BL, BR],
        [1; NUM_EDGES],
    )
    .unwrap();
    assert_eq!(EOCoord::NUM_ELEMS - 1, EOCoord::get_coord(&c));
}

#[test]
fn eo_transition() {
    let eo = get_eo_transition_table();

    let c = Cube::solved();
    let c = c.apply_move(Move(Face::U, 3));
    assert_eq!(0, eo[EOCoord::get_coord(&c)][usize::from(Face::U)]);
}

#[test]
fn eo_coord_exhaustive() {
    exhaustive_coord_check::<EOCoord>();
}

#[test]
fn co_coord() {
    let c = Cube::solved();
    assert_eq!(0, COCoord::get_coord(&c));

    for i in 1..4 {
        let c = c.apply_move(Move(Face::U, i));
        assert_eq!(0, COCoord::get_coord(&c));
    }

    let c = Cube::new(
        [URF, UFL, ULB, UBR, DFR, DLF, DBL, DRB],
        [2, 2, 2, 2, 2, 2, 2, 1],
        [UR, UF, UL, UB, DR, DF, DL, DB, FR, FL, BL, BR],
        [0; NUM_EDGES],
    )
    .unwrap();
    assert_eq!(COCoord::NUM_ELEMS - 1, COCoord::get_coord(&c));
}

#[test]
fn co_transition() {
    let co = get_co_transition_table();

    let c = Cube::solved();
    let c = c.apply_move(Move(Face::F, 3));
    assert_eq!(0, co[COCoord::get_coord(&c)][usize::from(Face::F)]);
}

#[test]
fn co_coord_exhaustive() {
    exhaustive_coord_check::<COCoord>();
}

#[test]
fn ud1_transition() {
    let ud1 = get_ud1_transition_table();

    let c = Cube::solved();
    let c = c.apply_move(Move(Face::F, 3));
    assert_eq!(0, ud1[UD1Coord::get_coord(&c)][usize::from(Face::F)]);
}

#[test]
fn ud1_coord_exhaustive() {
    exhaustive_coord_check::<UD1Coord>();
}

#[test]
fn ep_transition() {
    let ep = get_ep_transition_table();

    let c = Cube::solved();
    let c = c.apply_move(Move(Face::F, 2));
    assert_eq!(0, ep[EPCoord::get_coord(&c)][usize::from(Face::F)]);
}

#[test]
fn ep_coord_exhaustive() {
    exhaustive_coord_check::<EPCoord>();
}

#[test]
fn fact_digits() {
    let digits = factorial_digits(463, 6);
    assert_eq!(vec![3, 4, 1, 0, 1, 0], digits.collect());

    let digits = factorial_digits(719, 6);
    assert_eq!(vec![5, 4, 3, 2, 1, 0], digits.collect());

    let digits = factorial_digits(2982, 7);
    assert_eq!(vec![4, 0, 4, 1, 0, 0, 0], digits.collect());

    let digits = factorial_digits(40319, 8);
    assert_eq!(vec![7, 6, 5, 4, 3, 2, 1, 0], digits.collect());
}

#[test]
fn fact_digits_one_at_a_time() {
    let mut digits = factorial_digits(463, 6);
    assert_eq!(Some(3), digits.next());
    assert_eq!(Some(4), digits.next());
    assert_eq!(vec![1, 0, 1, 0], digits.collect());
    let mut none = factorial_digits(5, 0);
    assert_eq!(None, none.next());
    // The first digit takes whatever the later ones cannot hold.
    assert_eq!(vec![500, 0, 0], factorial_digits(1000, 3).collect());
}

#[test]
fn cp_coord_exhaustive() {
    exhaustive_coord_check::<CPCoord>();
}

#[test]
fn ud2_coord_exhaustive() {
    exhaustive_coord_check::<UD2Coord>();
}

#[test]
fn cp_and_ud2_transition() {
    let cp = get_cp_transition_table();
    let c = Cube::solved().apply_move(Move(Face::R, 2));
    assert_eq!(0, cp[CPCoord::get_coord(&c)][usize::from(Face::R)]);
    let ud2 = get_ud2_transition_table();
    assert_eq!(0, ud2[UD2Coord::get_coord(&c)][usize::from(Face::R)]);
    let c = Cube::solved().apply_move(Move(Face::D, 3));
    assert_eq!(0, cp[CPCoord::get_coord(&c)][usize::from(Face::D)]);
}

#[test]
fn table_sizes_and_groups() {
    assert_eq!(2048, EOCoord::num_elems());
    assert_eq!(2187, COCoord::num_elems());
    assert_eq!(495, UD1Coord::num_elems());
    assert_eq!(40320, EPCoord::num_elems());
    assert_eq!(40320, CPCoord::num_elems());
    assert_eq!(24, UD2Coord::num_elems());
    assert_eq!(495, UD1Coord::NUM_ELEMS);
    assert_eq!(40320, EPCoord::NUM_ELEMS);
    assert_eq!(40320, CPCoord::NUM_ELEMS);
    assert_eq!(24, UD2Coord::NUM_ELEMS);
    assert_eq!(Group::G0, EOCoord::group());
    assert_eq!(Group::G0, COCoord::group());
    assert_eq!(Group::G0, UD1Coord::group());
    assert_eq!(Group::G1, EPCoord::group());
    assert_eq!(Group::G1, CPCoord::group());
    assert_eq!(Group::G1, UD2Coord::group());
    assert_eq!(2048, get_eo_transition_table().len());
    assert_eq!(2187, get_co_transition_table().len());
    assert_eq!(495, get_ud1_transition_table().len());
    assert_eq!(24, get_ud2_transition_table().len());
}

#[test]
fn transition_follows_the_cube() {
    // Each entry is the coordinate of the cube after the step.
    let eo = get_eo_transition_table();
    let co = get_co_transition_table();
    let ud1 = get_ud1_transition_table();
    let faces = [Face::U, Face::R, Face::F, Face::D, Face::B, Face::L];
    let mut cube = Cube::solved();
    for round in 0..30 {
        let f = faces[(round * 5 + round / 6) % 6];
        let next = cube.apply_move(Move(f, 1));
        assert_eq!(
            EOCoord::get_coord(&next),
            eo[EOCoord::get_coord(&cube)][usize::from(f)]
        );
        assert_eq!(
            COCoord::get_coord(&next),
            co[COCoord::get_coord(&cube)][usize::from(f)]
        );
        assert_eq!(
            UD1Coord::get_coord(&next),
            ud1[UD1Coord::get_coord(&cube)][usize::from(f)]
        );
        cube = next;
    }
}

#[test]
fn known_coordinates() {
    // F flips the edges of slots 1, 5, 8 and 9.
    let c = Cube::solved().apply_move(Move(Face::F, 1));
    assert_eq!(512 + 32 + 4 + 2, EOCoord::get_coord(&c));
    // F twists the corners of slots 0, 1, 4, 5 by 2, 1, 1, 2.
    assert_eq!(2 * 729 + 243 + 9 + 2 * 3, COCoord::get_coord(&c));
    // F leaves slice edges in slots 1, 5, 10 and 11.
    assert_eq!(
        binomial(9, 1) + binomial(8, 1) + binomial(7, 1) + binomial(6, 1) + binomial(4, 0)
            + binomial(3, 0)
            + binomial(2, 0),
        UD1Coord::get_coord(&c)
    );
    // The documented example of a UD1 coordinate.
    let c = Cube::new_unchecked(
        [URF, UFL, ULB, UBR, DFR, DLF, DBL, DRB],
        [0; 8],
        [UR, UF, FR, FL, UL, UB, DR, DF, BL, DL, BR, DB],
        [0; 12],
    );
    assert_eq!(223, UD1Coord::get_coord(&c));
    // U moves the edges of the U layer round.
    let c = Cube::solved().apply_move(Move(Face::U, 1));
    assert_eq!(1 + 2 + 6, EPCoord::get_coord(&c));
    assert_eq!(1 + 2 + 6, CPCoord::get_coord(&c));
    assert_eq!(0, UD2Coord::get_coord(&c));
    let c = Cube::solved().apply_move(Move(Face::R, 2));
    // R2 leaves the slice edges in the order BR, FL, BL, FR.
    assert_eq!(1 + 2 + 3 * 6, UD2Coord::get_coord(&c));
}

#[test]
fn set_coord_examples() {
    let mut c = Cube::solved();
    UD1Coord::set_coord(&mut c, 321);
    let slice: Vec<bool> = c.ep().iter().map(|e| e.index() >= 8).collect();
    assert_eq!(
        vec![false, false, true, false, false, true, false, true, false, true, false, false],
        slice
    );
    assert_eq!(
        [UR, UF, FR, UL, UB, FL, DR, BL, DF, BR, DL, DB],
        c.ep()
    );
    assert_eq!(Ok(()), c.verify());

    let mut c = Cube::solved();
    EOCoord::set_coord(&mut c, 1);
    assert_eq!([0, 0, 0, 0, 0, 0, 0, 0, 0, 0, 1, 1], c.eo());
    let mut c = Cube::solved();
    COCoord::set_coord(&mut c, 1);
    assert_eq!([0, 0, 0, 0, 0, 0, 1, 2], c.co());
    let mut c = Cube::solved();
    EPCoord::set_coord(&mut c, 1);
    assert_eq!(
        [UF, UR, UL, UB, DR, DF, DL, DB, FR, FL, BL, BR],
        c.ep()
    );
    assert_eq!([UFL, URF, ULB, UBR, DFR, DLF, DBL, DRB], c.cp());
    let mut c = Cube::solved();
    CPCoord::set_coord(&mut c, 1);
    assert_eq!([UFL, URF, ULB, UBR, DFR, DLF, DBL, DRB], c.cp());
    assert_eq!(
        [UF, UR, UL, UB, DR, DF, DL, DB, FR, FL, BL, BR],
        c.ep()
    );
    let mut c = Cube::solved();
    UD2Coord::set_coord(&mut c, 23);
    assert_eq!(
        [UR, UF, UL, UB, DR, DF, DL, DB, BR, BL, FL, FR],
        c.ep()
    );
    assert_eq!(Ok(()), c.verify());
}

#[test]
fn setting_the_coordinate_a_cube_has_keeps_what_it_numbers() {
    let start = Cube::solved()
        .apply_move(Move(Face::R, 1))
        .apply_move(Move(Face::U, 1))
        .apply_move(Move(Face::F, 3))
        .apply_move(Move(Face::B, 2));
    let mut c = start;
    EOCoord::set_coord(&mut c, EOCoord::get_coord(&start));
    assert_eq!(start.eo(), c.eo());
    let mut c = start;
    COCoord::set_coord(&mut c, COCoord::get_coord(&start));
    assert_eq!(start.co(), c.co());
    let mut c = start;
    CPCoord::set_coord(&mut c, CPCoord::get_coord(&start));
    assert_eq!(start.cp(), c.cp());
    let mut c = start;
    UD1Coord::set_coord(&mut c, UD1Coord::get_coord(&start));
    for i in 0..12 {
        assert_eq!(start.ep()[i].index() >= 8, c.ep()[i].index() >= 8);
    }
    let start = Cube::solved()
        .apply_move(Move(Face::R, 2))
        .apply_move(Move(Face::U, 1))
        .apply_move(Move(Face::F, 2))
        .apply_move(Move(Face::D, 3));
    let mut c = start;
    EPCoord::set_coord(&mut c, EPCoord::get_coord(&start));
    assert_eq!(start.ep()[..8], c.ep()[..8]);
    let mut c = start;
    UD2Coord::set_coord(&mut c, UD2Coord::get_coord(&start));
    assert_eq!(start.ep()[8..], c.ep()[8..]);
}

#[test]
fn nth_zero() {
    assert_eq!(0, get_nth_zero(0, 0));
    assert_eq!(3, get_nth_zero(0, 3));
    assert_eq!(7, get_nth_zero(0, 7));
    assert_eq!(8, get_nth_zero(0, 8));
    assert_eq!(1, get_nth_zero(0b0000_0101, 0));
    assert_eq!(3, get_nth_zero(0b0000_0101, 1));
    assert_eq!(4, get_nth_zero(0b0000_0101, 2));
    assert_eq!(8, get_nth_zero(0b1111_1111, 0));
    assert_eq!(6, get_nth_zero(0b1011_1111, 0));
    assert_eq!(8, get_nth_zero(0b1011_1111, 1));
}

#[test]
fn factorials_and_binomials() {
    assert_eq!(1, factorial_of(0));
    assert_eq!(120, factorial_of(5));
    assert_eq!(479001600, factorial_of(12));
    assert_eq!(1, binomial(0, 0));
    assert_eq!(165, binomial(11, 3));
    assert_eq!(495, binomial(12, 4));
    assert_eq!(1, binomial(4, 4));
    assert_eq!(0, binomial(2, 3));
}
