use grid_sweep::{
    calc_bitboard, calc_distance, keep_best, lex_less, new_table, score_of, select_step, solve,
    sort_list, try_move, try_once, Rng, FAR, TRIALS,
};

fn open_grid(n: usize) -> (Vec<Vec<char>>, Vec<Vec<char>>) {
    (vec![vec!['0'; n - 1]; n], vec![vec!['0'; n]; n - 1])
}

fn seeded() -> Rng {
    Rng { x: 0xdead_c0de_0013_3331 }
}

fn count(bb: &[u32]) -> u32 {
    bb.iter().map(|w| w.count_ones()).sum()
}

#[test]
fn rng_next_matches_formula() {
    let mut rng = seeded();
    assert_eq!(rng.next(), 1534720226);
    assert_eq!(rng.x, 0x1a50_4a6c_a382_98fa);
    assert_eq!(rng.next(), 3112910967);
    assert_eq!(rng.next(), 3013578667);
}

#[test]
fn try_move_respects_edges_and_walls() {
    let (mut v, mut h) = open_grid(3);
    assert_eq!(try_move(0, 0, &v, &h, 'U'), None);
    assert_eq!(try_move(0, 0, &v, &h, 'L'), None);
    assert_eq!(try_move(0, 0, &v, &h, 'D'), Some((1, 0)));
    assert_eq!(try_move(0, 0, &v, &h, 'R'), Some((0, 1)));
    assert_eq!(try_move(2, 2, &v, &h, 'D'), None);
    assert_eq!(try_move(2, 2, &v, &h, 'R'), None);
    assert_eq!(try_move(1, 1, &v, &h, 'S'), Some((1, 1)));
    v[1][0] = '1';
    h[0][1] = '1';
    assert_eq!(try_move(1, 1, &v, &h, 'L'), None);
    assert_eq!(try_move(1, 0, &v, &h, 'R'), None);
    assert_eq!(try_move(1, 1, &v, &h, 'U'), None);
    assert_eq!(try_move(0, 1, &v, &h, 'D'), None);
    assert_eq!(try_move(1, 1, &v, &h, 'D'), Some((2, 1)));
}

#[test]
fn bitboard_marks_the_trail() {
    let (v, h) = open_grid(2);
    let alloc = vec![vec!['U', 'D', 'L', 'R', 'S']];
    let (bb, pts) = calc_bitboard(&[(0, 0)], &v, &h, &alloc, &[3, 1]);
    assert_eq!(bb, vec![0b11, 0b10]);
    assert_eq!(pts, vec![(1, 1)]);
}

#[test]
fn empty_program_marks_only_starts() {
    let (v, h) = open_grid(4);
    let alloc = vec![vec!['U'; 3], vec!['D'; 3], vec!['R'; 3]];
    let ij = [(0, 3), (2, 1), (3, 3)];
    let (bb, pts) = calc_bitboard(&ij, &v, &h, &alloc, &[]);
    assert_eq!(bb, vec![0b1000, 0, 0b10, 0b1000]);
    assert_eq!(count(&bb), 3);
    assert_eq!(pts, ij.to_vec());
}

#[test]
fn coverage_never_drops_along_a_program() {
    let (v, h) = open_grid(5);
    let alloc = vec![vec!['R', 'D', 'L', 'U', 'S'], vec!['L', 'U', 'R', 'D', 'S']];
    let ij = [(0, 0), (4, 4)];
    let ops = [0, 0, 1, 1, 2, 4, 3, 0, 1, 1, 2, 2];
    let mut last = 0;
    for t in 0..=ops.len() {
        let (bb, _) = calc_bitboard(&ij, &v, &h, &alloc, &ops[..t]);
        let c = count(&bb);
        assert!(c >= last);
        last = c;
    }
    assert!(last > 2);
}

#[test]
fn distance_field_is_shortest_path() {
    let (v, mut h) = open_grid(2);
    let dist = calc_distance(&v, &h, &[0b11, 0b10]);
    assert_eq!(dist, vec![vec![1, 2], vec![0, 1]]);
    h[0][0] = '1';
    let dist = calc_distance(&v, &h, &[0b11, 0b10]);
    assert_eq!(dist, vec![vec![3, 2], vec![0, 1]]);
}

#[test]
fn distance_field_far_when_all_visited() {
    let (v, h) = open_grid(3);
    let dist = calc_distance(&v, &h, &[0b111, 0b111, 0b111]);
    assert_eq!(dist, vec![vec![FAR; 3]; 3]);
}

#[test]
fn distance_field_recomputed_is_identical() {
    let (mut v, mut h) = open_grid(6);
    v[2][3] = '1';
    h[1][4] = '1';
    h[3][0] = '1';
    let bb = [0b111111, 0b011111, 0b111011, 0b111111, 0b101111, 0b111111];
    let a = calc_distance(&v, &h, &bb);
    let b = calc_distance(&v, &h, &bb);
    assert_eq!(a, b);
    assert_eq!(a[1][5], 0);
    assert_eq!(a[0][0], 4);
}

#[test]
fn select_step_prefers_smallest_distance() {
    let (v, h) = open_grid(2);
    let dist = calc_distance(&v, &h, &[0b01, 0b00]);
    let alloc = vec![vec!['S', 'U', 'R']];
    assert_eq!(select_step(&v, &h, &alloc, &[(0, 0)], &dist, 3), 2);
}

#[test]
fn select_step_tie_takes_smaller_index() {
    let (v, h) = open_grid(2);
    let dist = calc_distance(&v, &h, &[0b01, 0b00]);
    let alloc = vec![vec!['R', 'D', 'S']];
    assert_eq!(select_step(&v, &h, &alloc, &[(0, 0)], &dist, 3), 0);
    let alloc = vec![vec!['S', 'D', 'R']];
    assert_eq!(select_step(&v, &h, &alloc, &[(0, 0)], &dist, 3), 1);
}

#[test]
fn select_step_compares_sorted_lists() {
    let (v, h) = open_grid(3);
    let dist = calc_distance(&v, &h, &[0b111, 0b111, 0b011]);
    // Two agents: instruction 0 gives distances [1, 3], instruction 1 gives [0, 4].
    let alloc = vec![vec!['D', 'S'], vec!['S', 'D']];
    assert_eq!(dist[0][0], 4);
    assert_eq!(dist[1][2], 1);
    let pts = [(0, 0), (1, 2)];
    assert_eq!(select_step(&v, &h, &alloc, &pts, &dist, 2), 1);
}

#[test]
fn sort_and_lex_order() {
    assert_eq!(sort_list(&vec![3, 1, 2, 1]), vec![1, 1, 2, 3]);
    assert_eq!(sort_list(&vec![]), Vec::<i32>::new());
    assert!(lex_less(&vec![1, 2], &vec![1, 3]));
    assert!(!lex_less(&vec![1, 3], &vec![1, 2]));
    assert!(!lex_less(&vec![1, 2], &vec![1, 2]));
    assert!(lex_less(&vec![1], &vec![1, 0]));
}

#[test]
fn score_counts_cells_or_rewards_full_coverage() {
    assert_eq!(score_of(&[0b01, 0b00], 5, 2), 1);
    assert_eq!(score_of(&[0b11, 0b01], 8, 2), 3);
    assert_eq!(score_of(&[0b11, 0b11], 3, 2), 9);
    let full = vec![(1u32 << 30) - 1; 30];
    assert_eq!(score_of(&full, 0, 30), 2700);
    assert_eq!(score_of(&full, 1799, 30), 901);
    let mut partial = full.clone();
    partial[7] &= !(1 << 4);
    assert_eq!(score_of(&partial, 10, 30), 899);
}

#[test]
fn keep_best_only_on_strict_gain() {
    let mut best = (0u32, vec![vec!['D']], vec![]);
    let scores = [5u32, 3, 5, 8, 1, 8];
    let mut seen = vec![];
    for (i, &s) in scores.iter().enumerate() {
        keep_best(&mut best, (s, vec![vec!['U']], vec![i]));
        seen.push(best.0);
    }
    assert_eq!(seen, vec![5, 5, 5, 8, 8, 8]);
    assert_eq!(best.2, vec![3]);
}

#[test]
fn new_table_is_shuffled_seed() {
    let mut rng = seeded();
    let mut t = new_table(10, &mut rng);
    t.sort();
    assert_eq!(t, vec!['D', 'D', 'L', 'L', 'R', 'R', 'S', 'S', 'U', 'U']);
    let mut t = new_table(12, &mut rng);
    t.sort();
    assert_eq!(t, vec!['D', 'D', 'D', 'D', 'L', 'L', 'R', 'R', 'S', 'S', 'U', 'U']);
    let mut t = new_table(5, &mut rng);
    t.sort();
    assert_eq!(t, vec!['D', 'L', 'R', 'S', 'U']);
}

#[test]
fn two_by_two_open_grid_is_covered() {
    let (v, h) = open_grid(2);
    let mut rng = seeded();
    let (score, alloc, ops) = try_once(2, 1, 5, &[(0, 0)], &v, &h, &mut rng);
    assert_eq!(alloc.len(), 1);
    assert!(ops.len() <= 4);
    assert_eq!(ops.len(), 3);
    assert_eq!(score as usize, 12 - ops.len());
    assert!(score > 4);
    let (bb, _) = calc_bitboard(&[(0, 0)], &v, &h, &alloc, &ops);
    assert_eq!(bb, vec![0b11, 0b11]);
}

#[test]
fn solve_keeps_a_full_coverage_trial() {
    let (v, h) = open_grid(2);
    let mut rng = seeded();
    let (score, alloc, ops) = solve(2, 1, 5, &[(0, 0)], &v, &h, &mut rng, TRIALS);
    assert_eq!(score, 9);
    assert_eq!(ops.len(), 3);
    let (bb, _) = calc_bitboard(&[(0, 0)], &v, &h, &alloc, &ops);
    assert_eq!(bb, vec![0b11, 0b11]);
}

#[test]
fn solve_with_no_agents_keeps_default() {
    let (v, h) = open_grid(2);
    let mut rng = seeded();
    let (score, alloc, ops) = solve(2, 0, 3, &[], &v, &h, &mut rng, 4);
    assert_eq!(score, 0);
    assert!(alloc.is_empty());
    assert!(ops.is_empty());
}

#[test]
fn walled_grid_trial_is_consistent() {
    let n = 8;
    let (mut v, mut h) = open_grid(n);
    for i in 1..6 {
        v[i][3] = '1';
        h[4][i] = '1';
    }
    let ij = [(0, 0), (7, 7), (3, 5)];
    let mut rng = seeded();
    let (score, alloc, ops) = try_once(n, 3, 10, &ij, &v, &h, &mut rng);
    assert!(ops.len() <= 2 * n * n);
    let (bb, _) = calc_bitboard(&ij, &v, &h, &alloc, &ops);
    let c = count(&bb) as usize;
    if c == n * n {
        assert_eq!(score as usize, 3 * n * n - ops.len());
        assert!(score as usize > n * n);
        let (before, _) = calc_bitboard(&ij, &v, &h, &alloc, &ops[..ops.len() - 1]);
        assert!((count(&before) as usize) < n * n);
    } else {
        assert_eq!(ops.len(), 2 * n * n);
        assert_eq!(score as usize, c);
    }
}

#[test]
fn new_table_follows_fisher_yates_draws() {
    let mut rng = seeded();
    let table = new_table(10, &mut rng);
    let mut draws = seeded();
    let mut expected: Vec<char> = "UUDDLLRRSS".chars().collect();
    for j in 1..10 {
        let r = draws.next() as usize % (j + 1);
        expected.swap(r, j);
    }
    assert_eq!(table, expected);
    assert_eq!(rng.x, draws.x);
    let mut rng = seeded();
    let one = new_table(1, &mut rng);
    assert_eq!(one, vec!['U']);
    assert_eq!(rng.x, 0xdead_c0de_0013_3331);
}

#[test]
fn solve_returns_first_best_of_trials() {
    let n = 6;
    let (mut v, h) = open_grid(n);
    for i in 0..5 {
        v[i][2] = '1';
    }
    let ij = [(0, 0), (5, 5)];
    let mut rng = seeded();
    let (score, alloc, ops) = solve(n, 2, 10, &ij, &v, &h, &mut rng, 5);
    let mut replay = seeded();
    let mut best = 0u32;
    let mut first = None;
    for _ in 0..5 {
        let (s, a, o) = try_once(n, 2, 10, &ij, &v, &h, &mut replay);
        if s > best {
            best = s;
            first = Some((a, o));
        }
    }
    assert_eq!(score, best);
    let (a, o) = first.unwrap();
    assert_eq!(alloc, a);
    assert_eq!(ops, o);
    assert_eq!(rng.x, replay.x);
}
