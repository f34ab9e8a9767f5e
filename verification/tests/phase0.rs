use kociemba::phase0::{skip_face, solution_check};
use kociemba::{
    get_co_prune_table, get_co_transition_table, get_eo_prune_table, get_eo_transition_table,
    get_ud1_prune_table, get_ud1_transition_table, phase0, Cube, Face, Move, Phase0Coord,
    Phase0Tables,
};

struct Tables {
    co_t: Vec<[usize; 6]>,
    eo_t: Vec<[usize; 6]>,
    ud1_t: Vec<[usize; 6]>,
    co_p: Box<[usize]>,
    eo_p: Box<[usize]>,
    ud1_p: Box<[usize]>,
}

fn build() -> Tables {
    let co_t = get_co_transition_table();
    let eo_t = get_eo_transition_table();
    let ud1_t = get_ud1_transition_table();
    let co_p = get_co_prune_table(&co_t);
    let eo_p = get_eo_prune_table(&eo_t);
    let ud1_p = get_ud1_prune_table(&ud1_t);
    Tables {
        co_t,
        eo_t,
        ud1_t,
        co_p,
        eo_p,
        ud1_p,
    }
}

fn tables(t: &Tables) -> Phase0Tables<'_> {
    Phase0Tables {
        co_t: &t.co_t,
        eo_t: &t.eo_t,
        ud1_t: &t.ud1_t,
        co_p: &t.co_p,
        eo_p: &t.eo_p,
        ud1_p: &t.ud1_p,
    }
}

#[test]
fn phase0_basic() {
    let built = build();
    let phase0tables = tables(&built);

    let mut solution = vec![];
    let c = Cube::solved();
    assert!(phase0(c.into(), 0, &phase0tables, &mut solution));

    let mut solution = vec![];
    let c = Cube::solved();
    let c = c.apply_move(Move(Face::U, 1));
    assert!(phase0(c.into(), 0, &phase0tables, &mut solution));

    let mut solution = vec![];
    let c = Cube::solved();
    let c = c.apply_move(Move(Face::F, 1));
    assert!(!phase0(c.into(), 0, &phase0tables, &mut solution));
    assert!(phase0(c.into(), 1, &phase0tables, &mut solution));
    assert!(match &solution[..] {
        [Move(Face::F, 1)] => true,
        _ => false,
    });

    let mut solution = vec![];
    let c = Cube::solved();
    let c = c.apply_move(Move(Face::F, 3));
    let c = c.apply_move(Move(Face::R, 3));
    assert!(!phase0(c.into(), 0, &phase0tables, &mut solution));
    assert!(!phase0(c.into(), 1, &phase0tables, &mut solution));
    assert!(phase0(c.into(), 2, &phase0tables, &mut solution));
    assert!(match &solution[..] {
        [Move(Face::R, 1), Move(Face::F, 1)] => true,
        _ => false,
    });

    let mut solution = vec![];
    let c = Cube::solved();
    let c = c.apply_move(Move(Face::R, 1));
    let c = c.apply_move(Move(Face::F, 2));
    let c = c.apply_move(Move(Face::R, 1));
    assert!(phase0(c.into(), 3, &phase0tables, &mut solution));
    assert!(match &solution[..] {
        [Move(Face::R, 3), Move(Face::F, 2), Move(Face::R, 1)] => true,
        _ => false,
    });

    let mut solution = vec![];
    let c = Cube::solved();
    let c = c.apply_move(Move(Face::R, 1));
    assert!(!phase0(c.into(), 2, &phase0tables, &mut solution));

    let mut solution = vec![];
    let c = Cube::solved();
    let c = c.apply_move(Move(Face::B, 1));
    let c = c.apply_move(Move(Face::R, 2));
    assert!(phase0(c.into(), 2, &phase0tables, &mut solution));
    assert!(match &solution[..] {
        [Move(Face::R, 2), Move(Face::B, 1)] => true,
        _ => false,
    });
    let mut solution = vec![];
    assert!(phase0(c.into(), 4, &phase0tables, &mut solution));
    assert!(match &solution[..] {
        [Move(Face::U, 2), Move(Face::D, 2), Move(Face::L, 2), Move(Face::F, 1)] => {
            true
        }
        _ => false,
    });

    let mut solution = vec![];
    let c = Cube::solved();
    let c = c.apply_move(Move(Face::L, 1));
    let c = c.apply_move(Move(Face::R, 1));
    assert!(phase0(c.into(), 2, &phase0tables, &mut solution));
    assert!(match &solution[..] {
        [Move(Face::R, 1), Move(Face::L, 1)] => true,
        _ => false,
    });
    let mut solution = vec![];
    assert!(phase0(c.into(), 5, &phase0tables, &mut solution));
    assert!(match &solution[..] {
        [Move(Face::U, 2), Move(Face::D, 2), Move(Face::F, 2), Move(Face::R, 1), Move(Face::L, 1)] => {
            true
        }
        _ => false,
    });
}

#[test]
fn prune() {
    let built = build();
    let phase0tables = tables(&built);

    // CO and UD1 require 2 moves.
    let c = Cube::solved();
    let c = c.apply_move(Move(Face::R, 1));
    let c = c.apply_move(Move(Face::U, 1));
    assert_eq!(2, phase0tables.prune_depth(c.into()));

    // CO depth is 4 moves, UD1 is 3 moves (F' U F).
    let c = Cube::solved();
    let c = c.apply_move(Move(Face::R, 1));
    let c = c.apply_move(Move(Face::U, 1));
    let c = c.apply_move(Move(Face::R, 3));
    let c = c.apply_move(Move(Face::U, 3));
    assert_eq!(4, phase0tables.prune_depth(c.into()));

    // CO depth is 5 moves (F2 U2 R' U F), EO and UD1 are 0 moves.
    let c = Cube::solved();
    let c = c.apply_move(Move(Face::R, 1));
    let c = c.apply_move(Move(Face::U, 1));
    let c = c.apply_move(Move(Face::R, 3));
    let c = c.apply_move(Move(Face::U, 1));
    let c = c.apply_move(Move(Face::R, 1));
    let c = c.apply_move(Move(Face::U, 2));
    let c = c.apply_move(Move(Face::R, 3));
    assert_eq!(5, phase0tables.prune_depth(c.into()));
}

#[test]
fn phase0_leaves_the_solution_alone_when_it_fails() {
    let built = build();
    let phase0tables = tables(&built);
    let c = Cube::solved().apply_move(Move(Face::F, 1));
    let mut solution = vec![Move(Face::R, 1)];
    assert!(!phase0(c.into(), 0, &phase0tables, &mut solution));
    assert_eq!(vec![Move(Face::R, 1)], solution);
    let c = Cube::solved().apply_move(Move(Face::R, 1));
    assert!(!phase0(c.into(), 2, &phase0tables, &mut solution));
    assert_eq!(vec![Move(Face::R, 1)], solution);
}

#[test]
fn phase0_appends_and_reaches_the_subgroup() {
    let built = build();
    let phase0tables = tables(&built);
    let start = Cube::solved()
        .apply_move(Move(Face::F, 1))
        .apply_move(Move(Face::U, 1))
        .apply_move(Move(Face::B, 3));
    let mut solution = vec![];
    let mut depth = 0;
    while !phase0(start.into(), depth, &phase0tables, &mut solution) {
        assert!(solution.is_empty());
        depth += 1;
        assert!(depth <= 3);
    }
    assert_eq!(depth, solution.len());
    let end = solution.iter().fold(start, |acc, &m| acc.apply_move(m));
    assert!(Phase0Coord::from(end).is_solved());
    // The first stage does not end with a turn of U or D, nor a half turn.
    let last = solution[solution.len() - 1];
    assert!(last.0 != Face::U && last.0 != Face::D && last.1 != 2);
}

#[test]
fn phase0_coord_and_transition() {
    let built = build();
    let phase0tables = tables(&built);
    let c = Cube::solved();
    let coord = Phase0Coord::from(c);
    assert_eq!((0, 0, 0), (coord.eo, coord.co, coord.ud1));
    assert!(coord.is_solved());
    let moved = c.apply_move(Move(Face::F, 1));
    let next = phase0tables.transition(coord, Face::F);
    let expected = Phase0Coord::from(moved);
    assert_eq!(
        (expected.eo, expected.co, expected.ud1),
        (next.eo, next.co, next.ud1)
    );
    assert!(!next.is_solved());
}

#[test]
fn first_stage_rules() {
    assert!(solution_check(&[]));
    assert!(solution_check(&[Move(Face::F, 1)]));
    assert!(solution_check(&[Move(Face::F, 3)]));
    assert!(!solution_check(&[Move(Face::F, 2)]));
    assert!(!solution_check(&[Move(Face::U, 1)]));
    assert!(!solution_check(&[Move(Face::D, 3)]));
    assert!(!solution_check(&[Move(Face::L, 2), Move(Face::R, 1)]));
    assert!(solution_check(&[Move(Face::L, 1), Move(Face::R, 1)]));
    assert!(solution_check(&[Move(Face::U, 2), Move(Face::R, 1)]));
    assert!(!skip_face(&[], Face::U));
    assert!(skip_face(&[Move(Face::U, 1)], Face::U));
    assert!(!skip_face(&[Move(Face::U, 1)], Face::D));
    assert!(skip_face(&[Move(Face::U, 1), Move(Face::D, 1)], Face::U));
    assert!(skip_face(&[Move(Face::U, 1), Move(Face::D, 1)], Face::D));
    assert!(!skip_face(&[Move(Face::U, 1), Move(Face::R, 1)], Face::U));
}

fn plain_search(
    coord: Phase0Coord,
    depth: usize,
    t: &Phase0Tables,
    solution: &mut Vec<Move>,
) -> bool {
    if depth == 0 {
        return solution_check(solution) && coord.is_solved();
    }
    for &f in &[Face::U, Face::D, Face::F, Face::B, Face::R, Face::L] {
        if skip_face(solution, f) {
            continue;
        }
        let mut next = coord;
        for i in 0..3 {
            next = t.transition(next, f);
            solution.push(Move(f, i + 1));
            if plain_search(next, depth - 1, t, solution) {
                return true;
            }
            solution.pop();
        }
    }
    false
}

#[test]
fn pruning_loses_nothing() {
    let built = build();
    let phase0tables = tables(&built);
    let starts = [
        Cube::solved(),
        Cube::solved().apply_move(Move(Face::F, 1)),
        Cube::solved()
            .apply_move(Move(Face::R, 1))
            .apply_move(Move(Face::U, 1)),
        Cube::solved()
            .apply_move(Move(Face::B, 3))
            .apply_move(Move(Face::L, 2))
            .apply_move(Move(Face::D, 1)),
    ];
    for start in starts.iter() {
        for depth in 0..4 {
            let mut with = vec![];
            let mut without = vec![];
            let a = phase0((*start).into(), depth, &phase0tables, &mut with);
            let b = plain_search((*start).into(), depth, &phase0tables, &mut without);
            assert_eq!(a, b);
            assert_eq!(with, without);
        }
    }
}
