use kociemba::Corner::{DBL, DFR, DLF, DRB, UBR, UFL, ULB, URF};
use kociemba::Edge::{BL, BR, DB, DF, DL, DR, FL, FR, UB, UF, UL, UR};
use kociemba::{Cube, CubeStateErr, Face, Move, NUM_CORNERS, NUM_EDGES};

#[test]
fn solved_cube() {
    let cube = Cube::solved();
    let solved = Cube::new(
        [URF, UFL, ULB, UBR, DFR, DLF, DBL, DRB],
        [0; NUM_CORNERS],
        [UR, UF, UL, UB, DR, DF, DL, DB, FR, FL, BL, BR],
        [0; NUM_EDGES],
    )
    .unwrap();
    assert_eq!(solved, cube);
}

#[test]
fn invalid_cube() {
    let invalid_ep = Cube::new_unchecked(
        [URF, UFL, ULB, UBR, DFR, DLF, DBL, DRB],
        [0; NUM_CORNERS],
        [UF; 12],
        [0; NUM_EDGES],
    );
    assert_eq!(CubeStateErr::ErrEP, invalid_ep.verify().unwrap_err());

    let invalid_eo = Cube::new_unchecked(
        [URF, UFL, ULB, UBR, DFR, DLF, DBL, DRB],
        [0; NUM_CORNERS],
        [UR, UF, UL, UB, DR, DF, DL, DB, FR, FL, BL, BR],
        [3, 0, 0, 0, 0, 0, 0, 0, 0, 0, 0, 0],
    );
    assert_eq!(CubeStateErr::ErrEO, invalid_eo.verify().unwrap_err());

    let invalid_eo = Cube::new_unchecked(
        [URF, UFL, ULB, UBR, DFR, DLF, DBL, DRB],
        [0; NUM_CORNERS],
        [UR, UF, UL, UB, DR, DF, DL, DB, FR, FL, BL, BR],
        [1, 0, 0, 0, 0, 0, 0, 0, 0, 0, 0, 0],
    );
    assert_eq!(CubeStateErr::ErrEO, invalid_eo.verify().unwrap_err());

    let invalid_cp = Cube::new_unchecked(
        [URF; 8],
        [0; NUM_CORNERS],
        [UR, UF, UL, UB, DR, DF, DL, DB, FR, FL, BL, BR],
        [0; NUM_EDGES],
    );
    assert_eq!(CubeStateErr::ErrCP, invalid_cp.verify().unwrap_err());

    let invalid_co = Cube::new_unchecked(
        [URF, UFL, ULB, UBR, DFR, DLF, DBL, DRB],
        [1, 0, 0, 0, 0, 0, 0, 0],
        [UR, UF, UL, UB, DR, DF, DL, DB, FR, FL, BL, BR],
        [0; NUM_EDGES],
    );
    assert_eq!(CubeStateErr::ErrCO, invalid_co.verify().unwrap_err());

    let invalid_co = Cube::new_unchecked(
        [URF, UFL, ULB, UBR, DFR, DLF, DBL, DRB],
        [3, 0, 0, 0, 0, 0, 0, 0],
        [UR, UF, UL, UB, DR, DF, DL, DB, FR, FL, BL, BR],
        [0; NUM_EDGES],
    );
    assert_eq!(CubeStateErr::ErrCO, invalid_co.verify().unwrap_err());

    let invalid_edge_parity = Cube::new_unchecked(
        [URF, UFL, ULB, UBR, DFR, DLF, DBL, DRB],
        [0; NUM_CORNERS],
        [UF, UR, UL, UB, DR, DF, DL, DB, FR, FL, BL, BR],
        [0; NUM_EDGES],
    );
    assert_eq!(
        CubeStateErr::ErrParity,
        invalid_edge_parity.verify().unwrap_err()
    );

    let invalid_corner_parity = Cube::new_unchecked(
        [UFL, URF, ULB, UBR, DFR, DLF, DBL, DRB],
        [0; NUM_CORNERS],
        [UR, UF, UL, UB, DR, DF, DL, DB, FR, FL, BL, BR],
        [0; NUM_EDGES],
    );
    assert_eq!(
        CubeStateErr::ErrParity,
        invalid_corner_parity.verify().unwrap_err()
    );
}

#[test]
fn move_u() {
    let cube = Cube::solved();
    let cube = cube.apply_move(Move(Face::U, 1));
    let move_u = Cube::new(
        [UBR, URF, UFL, ULB, DFR, DLF, DBL, DRB],
        [0; NUM_CORNERS],
        [UB, UR, UF, UL, DR, DF, DL, DB, FR, FL, BL, BR],
        [0; NUM_EDGES],
    )
    .unwrap();
    assert_eq!(move_u, cube);
}

#[test]
fn move_r() {
    let cube = Cube::solved();
    let cube = cube.apply_move(Move(Face::R, 1));
    let move_r = Cube::new(
        [DFR, UFL, ULB, URF, DRB, DLF, DBL, UBR],
        [1, 0, 0, 2, 2, 0, 0, 1],
        [FR, UF, UL, UB, BR, DF, DL, DB, DR, FL, BL, UR],
        [0; NUM_EDGES],
    )
    .unwrap();
    assert_eq!(move_r, cube);
}

#[test]
fn move_f() {
    let cube = Cube::solved();
    let cube = cube.apply_move(Move(Face::F, 1));
    let move_f = Cube::new(
        [UFL, DLF, ULB, UBR, URF, DFR, DBL, DRB],
        [2, 1, 0, 0, 1, 2, 0, 0],
        [UR, FL, UL, UB, DR, FR, DL, DB, UF, DF, BL, BR],
        [0, 1, 0, 0, 0, 1, 0, 0, 1, 1, 0, 0],
    )
    .unwrap();
    assert_eq!(move_f, cube);
}

#[test]
fn move_d() {
    let cube = Cube::solved();
    let cube = cube.apply_move(Move(Face::D, 1));
    let move_d = Cube::new(
        [URF, UFL, ULB, UBR, DLF, DBL, DRB, DFR],
        [0; NUM_CORNERS],
        [UR, UF, UL, UB, DF, DL, DB, DR, FR, FL, BL, BR],
        [0; NUM_EDGES],
    )
    .unwrap();
    assert_eq!(move_d, cube);
}

#[test]
fn move_b() {
    let cube = Cube::solved();
    let cube = cube.apply_move(Move(Face::B, 1));
    let move_b = Cube::new(
        [URF, UFL, UBR, DRB, DFR, DLF, ULB, DBL],
        [0, 0, 2, 1, 0, 0, 1, 2],
        [UR, UF, UL, BR, DR, DF, DL, BL, FR, FL, UB, DB],
        [0, 0, 0, 1, 0, 0, 0, 1, 0, 0, 1, 1],
    )
    .unwrap();
    assert_eq!(move_b, cube);
}

#[test]
fn move_l() {
    let cube = Cube::solved();
    let cube = cube.apply_move(Move(Face::L, 1));
    let move_l = Cube::new(
        [URF, ULB, DBL, UBR, DFR, UFL, DLF, DRB],
        [0, 2, 1, 0, 0, 1, 2, 0],
        [UR, UF, BL, UB, DR, DF, FL, DB, FR, UL, DL, BR],
        [0; NUM_EDGES],
    )
    .unwrap();
    assert_eq!(move_l, cube);
}

#[test]
fn new_reports_each_error() {
    let cp = [URF, UFL, ULB, UBR, DFR, DLF, DBL, DRB];
    let ep = [UR, UF, UL, UB, DR, DF, DL, DB, FR, FL, BL, BR];
    assert_eq!(
        Err(CubeStateErr::ErrEP),
        Cube::new(cp, [0; 8], [UR; 12], [0; 12])
    );
    assert_eq!(
        Err(CubeStateErr::ErrEO),
        Cube::new(cp, [0; 8], ep, [0, 0, 0, 0, 0, 0, 0, 0, 0, 0, 0, 1])
    );
    assert_eq!(
        Err(CubeStateErr::ErrCP),
        Cube::new([DRB; 8], [0; 8], ep, [0; 12])
    );
    assert_eq!(
        Err(CubeStateErr::ErrCO),
        Cube::new(cp, [0, 0, 0, 0, 0, 0, 0, 2], ep, [0; 12])
    );
    assert_eq!(
        Err(CubeStateErr::ErrParity),
        Cube::new(
            cp,
            [0; 8],
            [UR, UF, UL, UB, DR, DF, DL, DB, FR, FL, BR, BL],
            [0; 12]
        )
    );
    // Where several conditions fail, the first in the order of checking is
    // reported.
    assert_eq!(
        Err(CubeStateErr::ErrEP),
        Cube::new([URF; 8], [3; 8], [UF; 12], [3; 12])
    );
}

#[test]
fn every_move_keeps_the_cube_solvable() {
    let faces = [Face::U, Face::R, Face::F, Face::D, Face::B, Face::L];
    let mut cube = Cube::solved();
    for round in 0..20 {
        for (i, &f) in faces.iter().enumerate() {
            let count = ((round + i) % 3 + 1) as u8;
            cube = cube.apply_move(Move(f, count));
            assert_eq!(Ok(()), cube.verify());
        }
    }
}

#[test]
fn four_quarter_turns_return() {
    let faces = [Face::U, Face::R, Face::F, Face::D, Face::B, Face::L];
    let start = Cube::solved()
        .apply_move(Move(Face::R, 1))
        .apply_move(Move(Face::U, 2))
        .apply_move(Move(Face::F, 3))
        .apply_move(Move(Face::L, 1));
    for &f in faces.iter() {
        let mut cube = start;
        for _ in 0..4 {
            cube = cube.apply_move(Move(f, 1));
        }
        assert_eq!(start, cube);
        assert_eq!(start, start.apply_move(Move(f, 4)));
        assert_eq!(
            start.apply_move(Move(f, 3)),
            start.apply_move(Move(f, 1)).apply_move(Move(f, 2))
        );
    }
    assert_eq!(start, start.apply_move(Move(Face::U, 0)));
}

#[test]
fn face_indices_and_opposites() {
    assert_eq!(0, usize::from(Face::U));
    assert_eq!(1, usize::from(Face::R));
    assert_eq!(2, usize::from(Face::F));
    assert_eq!(3, usize::from(Face::D));
    assert_eq!(4, usize::from(Face::B));
    assert_eq!(5, usize::from(Face::L));
    assert!(Face::U.is_opposite(Face::D));
    assert!(Face::L.is_opposite(Face::R));
    assert!(Face::B.is_opposite(Face::F));
    assert!(!Face::U.is_opposite(Face::U));
    assert!(!Face::U.is_opposite(Face::R));
    for i in 0..8 {
        assert_eq!(i, kociemba::Corner::from_index(i).index());
    }
    for i in 0..12 {
        assert_eq!(i, kociemba::Edge::from_index(i).index());
    }
}

#[test]
fn parity_of_a_quarter_turn() {
    let cube = Cube::solved();
    assert!(!cube.corner_parity());
    assert!(!cube.edge_parity());
    let turned = cube.apply_move(Move(Face::F, 1));
    assert!(turned.corner_parity());
    assert!(turned.edge_parity());
    assert!(turned.has_valid_parity());
    assert_eq!(turned.cp()[0], UFL);
    assert_eq!(turned.co()[0], 2);
    assert_eq!(turned.ep()[1], FL);
    assert_eq!(turned.eo()[1], 1);
}
