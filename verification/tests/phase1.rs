use kociemba::phase1::{skip_face, solution_check};
use kociemba::{
    get_cp_prune_table, get_cp_transition_table, get_ep_prune_table, get_ep_transition_table,
    get_ud2_prune_table, get_ud2_transition_table, phase1, Cube, Face, Move, Phase1Coord,
    Phase1Tables,
};

struct Tables {
    cp_t: Vec<[usize; 6]>,
    ep_t: Vec<[usize; 6]>,
    ud2_t: Vec<[usize; 6]>,
    cp_p: Box<[usize]>,
    ep_p: Box<[usize]>,
    ud2_p: Box<[usize]>,
}

fn build() -> Tables {
    let cp_t = get_cp_transition_table();
    let ep_t = get_ep_transition_table();
    let ud2_t = get_ud2_transition_table();
    let cp_p = get_cp_prune_table(&cp_t);
    let ep_p = get_ep_prune_table(&ep_t);
    let ud2_p = get_ud2_prune_table(&ud2_t);
    Tables {
        cp_t,
        ep_t,
        ud2_t,
        cp_p,
        ep_p,
        ud2_p,
    }
}

fn tables(t: &Tables) -> Phase1Tables<'_> {
    Phase1Tables {
        cp_t: &t.cp_t,
        ep_t: &t.ep_t,
        ud2_t: &t.ud2_t,
        cp_p: &t.cp_p,
        ep_p: &t.ep_p,
        ud2_p: &t.ud2_p,
    }
}

fn check_is_solved(cube: Cube, solution: &[Move]) -> bool {
    let solved = solution.iter().fold(cube, |acc, &cur| acc.apply_move(cur));
    Phase1Coord::from(solved).is_solved()
}

#[test]
fn phase1_basic() {
    let built = build();
    let phase1tables = tables(&built);

    let mut solution = vec![];
    let c = Cube::solved();
    assert!(phase1(c.into(), 0, &phase1tables, &mut solution));
    assert!(check_is_solved(c, &solution));

    let mut solution = vec![];
    let c = Cube::solved();
    let c = c.apply_move(Move(Face::U, 1));
    assert!(!phase1(c.into(), 0, &phase1tables, &mut solution));
    assert!(phase1(c.into(), 1, &phase1tables, &mut solution));
    assert!(match &solution[..] {
        [Move(Face::U, 3)] => true,
        _ => false,
    });
    assert!(check_is_solved(c, &solution));

    let mut solution = vec![];
    let c = Cube::solved();
    let c = c.apply_move(Move(Face::R, 2));
    assert!(!phase1(c.into(), 0, &phase1tables, &mut solution));
    assert!(!phase1(c.into(), 2, &phase1tables, &mut solution));
    assert!(phase1(c.into(), 1, &phase1tables, &mut solution));
    assert!(match &solution[..] {
        [Move(Face::R, 2)] => true,
        _ => false,
    });
    assert!(check_is_solved(c, &solution));

    let mut solution = vec![];
    let c = Cube::solved();
    let c = c.apply_move(Move(Face::R, 2));
    let c = c.apply_move(Move(Face::F, 2));
    assert!(!phase1(c.into(), 0, &phase1tables, &mut solution));
    assert!(!phase1(c.into(), 1, &phase1tables, &mut solution));
    assert!(phase1(c.into(), 2, &phase1tables, &mut solution));

    assert!(match &solution[..] {
        [Move(Face::F, 2), Move(Face::R, 2)] => true,
        _ => false,
    });
    assert!(check_is_solved(c, &solution));
}

#[test]
fn phase1_solves_a_longer_scramble() {
    let built = build();
    let phase1tables = tables(&built);
    let start = Cube::solved()
        .apply_move(Move(Face::U, 1))
        .apply_move(Move(Face::R, 2))
        .apply_move(Move(Face::D, 3))
        .apply_move(Move(Face::B, 2));
    let mut solution = vec![];
    let mut depth = 0;
    while !phase1(start.into(), depth, &phase1tables, &mut solution) {
        assert!(solution.is_empty());
        depth += 1;
        assert!(depth <= 4);
    }
    assert_eq!(depth, solution.len());
    assert!(check_is_solved(start, &solution));
    assert_eq!(
        Cube::solved(),
        solution.iter().fold(start, |acc, &m| acc.apply_move(m))
    );
    // F, B, R and L make half turns only.
    for m in solution.iter() {
        assert!(m.0 == Face::U || m.0 == Face::D || m.1 == 2);
    }
}

#[test]
fn phase1_coord_transition_and_depth() {
    let built = build();
    let phase1tables = tables(&built);
    let c = Cube::solved();
    let coord = Phase1Coord::from(c);
    assert_eq!((0, 0, 0), (coord.ep, coord.cp, coord.ud2));
    assert_eq!(0, phase1tables.prune_depth(coord));
    // One step of R in the tables of the second stage is a half turn.
    let moved = c.apply_move(Move(Face::R, 2));
    let next = phase1tables.transition(coord, Face::R);
    let expected = Phase1Coord::from(moved);
    assert_eq!(
        (expected.ep, expected.cp, expected.ud2),
        (next.ep, next.cp, next.ud2)
    );
    assert_eq!(1, phase1tables.prune_depth(next));
    assert!(!next.is_solved());
}

#[test]
fn second_stage_rules() {
    assert!(solution_check(&[]));
    assert!(solution_check(&[Move(Face::U, 2)]));
    assert!(skip_face(&[Move(Face::R, 2)], Face::R));
    assert!(skip_face(&[Move(Face::R, 2), Move(Face::L, 2)], Face::R));
    assert!(!skip_face(&[Move(Face::R, 2), Move(Face::U, 1)], Face::R));
}
