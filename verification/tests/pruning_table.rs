use kociemba::{
    get_co_prune_table, get_co_transition_table, get_cp_prune_table, get_cp_transition_table,
    get_eo_prune_table, get_eo_transition_table, get_ep_prune_table, get_ep_transition_table,
    get_ud1_prune_table, get_ud1_transition_table, get_ud2_prune_table,
    get_ud2_transition_table,
};

#[test]
fn co_prune() {
    let co_t = get_co_transition_table();
    let co_p = get_co_prune_table(&co_t);
    assert!(co_p.iter().all(|&depth| depth < co_t.len()));
    assert_eq!(&6, co_p.iter().max().unwrap());
}

#[test]
fn eo_prune() {
    let eo_t = get_eo_transition_table();
    let eo_p = get_eo_prune_table(&eo_t);
    assert!(eo_p.iter().all(|&depth| depth < eo_t.len()));
    assert_eq!(&7, eo_p.iter().max().unwrap());
}

#[test]
fn ud1_prune() {
    let ud1_t = get_ud1_transition_table();
    let ud1_p = get_ud1_prune_table(&ud1_t);
    assert!(ud1_p.iter().all(|&depth| depth < ud1_t.len()));
    assert_eq!(&5, ud1_p.iter().max().unwrap());
}

#[test]
fn cp_prune() {
    let cp_t = get_cp_transition_table();
    let cp_p = get_cp_prune_table(&cp_t);
    assert!(cp_p.iter().all(|&depth| depth < cp_t.len()));
    assert_eq!(&13, cp_p.iter().max().unwrap());
}

#[test]
fn ep_prune() {
    let ep_t = get_ep_transition_table();
    let ep_p = get_ep_prune_table(&ep_t);
    assert!(ep_p.iter().all(|&depth| depth < ep_t.len()));
    assert_eq!(&8, ep_p.iter().max().unwrap());
}

#[test]
fn ud2_prune() {
    let ud2_t = get_ud2_transition_table();
    let ud2_p = get_ud2_prune_table(&ud2_t);
    assert!(ud2_p.iter().all(|&depth| depth < ud2_t.len()));
    assert_eq!(&4, ud2_p.iter().max().unwrap());
}

#[test]
fn solved_value_has_depth_zero() {
    let co_t = get_co_transition_table();
    assert_eq!(0, get_co_prune_table(&co_t)[0]);
    let eo_t = get_eo_transition_table();
    assert_eq!(0, get_eo_prune_table(&eo_t)[0]);
    let ud1_t = get_ud1_transition_table();
    assert_eq!(0, get_ud1_prune_table(&ud1_t)[0]);
    let ud2_t = get_ud2_transition_table();
    assert_eq!(0, get_ud2_prune_table(&ud2_t)[0]);
}

#[test]
fn entries_stay_below_the_depth() {
    let co_t = get_co_transition_table();
    assert!(get_co_prune_table(&co_t).iter().all(|&d| d < 7));
    let eo_t = get_eo_transition_table();
    assert!(get_eo_prune_table(&eo_t).iter().all(|&d| d < 8));
    let ud1_t = get_ud1_transition_table();
    assert!(get_ud1_prune_table(&ud1_t).iter().all(|&d| d < 6));
    let ud2_t = get_ud2_transition_table();
    assert!(get_ud2_prune_table(&ud2_t).iter().all(|&d| d < 5));
}

#[test]
fn small_table_by_hand() {
    // Four values in a ring: U steps forward, every other face stays.
    let t: Vec<[usize; 6]> = vec![
        [1, 0, 0, 0, 0, 0],
        [2, 1, 1, 1, 1, 1],
        [3, 2, 2, 2, 2, 2],
        [0, 3, 3, 3, 3, 3],
    ];
    // One move is one to three steps, so every value is one move away.
    assert_eq!(vec![0, 1, 1, 1], get_co_prune_table(&t).to_vec());
    // Five values in a line that ends in itself: the last needs two moves.
    let t: Vec<[usize; 6]> = vec![
        [1, 0, 0, 0, 0, 0],
        [2, 1, 1, 1, 1, 1],
        [3, 2, 2, 2, 2, 2],
        [4, 3, 3, 3, 3, 3],
        [4, 4, 4, 4, 4, 4],
        [5, 5, 5, 5, 5, 5],
    ];
    // The value 5 is never reached and keeps the number of values.
    assert_eq!(vec![0, 1, 1, 1, 2, 6], get_ud2_prune_table(&t).to_vec());
}

#[test]
fn neighbours_differ_by_one_move_at_most() {
    let t = get_ud1_transition_table();
    let p = get_ud1_prune_table(&t);
    for c in 0..t.len() {
        for f in 0..6 {
            let mut n = c;
            for _ in 0..3 {
                n = t[n][f];
                assert!(p[n] <= p[c] + 1);
            }
        }
    }
}

#[test]
fn depth_is_the_distance_to_the_solved_value() {
    // Going backwards from 0 gives the same depths as going forwards.
    let t = get_ud1_transition_table();
    let p = get_ud1_prune_table(&t);
    let n = t.len();
    let mut back = vec![n; n];
    back[0] = 0;
    let mut changed = true;
    while changed {
        changed = false;
        for c in 0..n {
            for f in 0..6 {
                let mut x = c;
                for _ in 0..3 {
                    x = t[x][f];
                    // One move leads from c to x.
                    if back[x] != n && back[x] + 1 < back[c] {
                        back[c] = back[x] + 1;
                        changed = true;
                    }
                }
            }
        }
    }
    assert_eq!(back, p.to_vec());
}
