use grid_sweep::{can_move, compute_score, compute_score_details, is_connected, Input, Output, NONE};

fn open_input(n: usize, ps: Vec<(usize, usize)>, k: usize) -> Input {
    Input {
        N: n,
        M: ps.len(),
        K: k,
        ps,
        wall_v: vec![vec![false; n - 1]; n],
        wall_h: vec![vec![false; n]; n - 1],
    }
}

#[test]
fn can_move_checks_edges_and_walls() {
    let mut input = open_input(3, vec![(0, 0)], 5);
    assert!(!can_move(&input, (0, 0), 0));
    assert!(!can_move(&input, (0, 0), 2));
    assert!(can_move(&input, (0, 0), 1));
    assert!(can_move(&input, (0, 0), 3));
    assert!(can_move(&input, (0, 0), 4));
    assert!(!can_move(&input, (2, 2), 1));
    assert!(!can_move(&input, (2, 2), 3));
    input.wall_h[0][0] = true;
    input.wall_v[1][1] = true;
    assert!(!can_move(&input, (0, 0), 1));
    assert!(!can_move(&input, (1, 0), 0));
    assert!(!can_move(&input, (1, 1), 3));
    assert!(!can_move(&input, (1, 2), 2));
    assert!(can_move(&input, (1, 1), 2));
}

#[test]
fn full_coverage_scores_bonus() {
    let input = open_input(2, vec![(0, 0)], 5);
    let out = Output { cs: (0..5).map(|c| vec![c]).collect(), actions: vec![3, 1, 2] };
    let (score, err, state) = compute_score_details(&input, &out, 3);
    assert_eq!(score, 9);
    assert!(err.is_empty());
    assert_eq!(state.ps, vec![(1, 0)]);
    assert_eq!(state.used, vec![vec![0, 0], vec![0, 0]]);
    assert_eq!(compute_score(&input, &out), (9, String::new()));
}

#[test]
fn partial_coverage_counts_cells() {
    let input = open_input(2, vec![(0, 0)], 5);
    let out = Output { cs: (0..5).map(|c| vec![c]).collect(), actions: vec![3, 1, 2] };
    let (score, _, state) = compute_score_details(&input, &out, 1);
    assert_eq!(score, 2);
    assert_eq!(state.ps, vec![(0, 1)]);
    assert_eq!(state.used, vec![vec![0, 0], vec![NONE, NONE]]);
    let (score, _, _) = compute_score_details(&input, &out, 0);
    assert_eq!(score, 1);
}

#[test]
fn used_keeps_last_visitor() {
    let input = open_input(2, vec![(0, 0), (0, 1)], 5);
    let out = Output { cs: (0..5).map(|c| vec![c, 4]).collect(), actions: vec![3, 0] };
    let (score, _, state) = compute_score_details(&input, &out, 2);
    assert_eq!(score, 2);
    assert_eq!(state.ps, vec![(0, 1), (0, 1)]);
    assert_eq!(state.used[0], vec![0, 1]);
    assert_eq!(state.used[1], vec![NONE, NONE]);
}

#[test]
fn walls_block_the_replay() {
    let mut input = open_input(3, vec![(1, 1)], 5);
    input.wall_v[1][1] = true;
    input.wall_h[1][1] = true;
    let out = Output { cs: (0..5).map(|c| vec![c]).collect(), actions: vec![3, 1, 0, 0, 2] };
    let (score, _, state) = compute_score_details(&input, &out, 5);
    assert_eq!(state.ps, vec![(0, 0)]);
    assert_eq!(score, 3);
}

#[test]
fn open_grid_is_connected() {
    let input = open_input(4, vec![(0, 0)], 5);
    assert!(is_connected(&input));
}

#[test]
fn walled_off_corner_is_not_connected() {
    let mut input = open_input(3, vec![(0, 0)], 5);
    input.wall_v[2][1] = true;
    input.wall_h[1][2] = true;
    assert!(!is_connected(&input));
    input.wall_h[1][2] = false;
    assert!(is_connected(&input));
}

#[test]
fn full_wall_splits_grid() {
    let mut input = open_input(5, vec![(0, 0)], 5);
    for j in 0..5 {
        input.wall_h[2][j] = true;
    }
    assert!(!is_connected(&input));
    input.wall_h[2][4] = false;
    assert!(is_connected(&input));
}
