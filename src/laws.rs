use vstd::prelude::*;
use vstd::set_lib::lemma_len_subset;
use crate::grid::{can_step, grid_ok, in_grid, moved, target, MAX_N};
use crate::trail::{bit, board_of, cell, covered, lemma_walk_in_grid, starts_ok, trail, visited};
use crate::field::{is_dist, label, lemma_near_mono, near, unvisited, FAR};
use crate::pick::{best_pick, lemma_lex_irreflexive, rank, reached};
use crate::search::{board_count, field_of, full, greedy_ok, lemma_ones_le, ones, positions, score_rule, trial_ok};

verus! {

/// Cells where some agent starts.
pub open spec fn start_cells(ij: Seq<(usize, usize)>, m: int) -> Set<(int, int)> {
    Set::new(|p: (int, int)| exists|a: int| 0 <= a < m && p == cell(ij[a]))
}

/// Before any instruction, the visited cells are exactly the start cells.
pub proof fn law_empty_program_marks_starts(
    v: Seq<Vec<char>>,
    h: Seq<Vec<char>>,
    ij: Seq<(usize, usize)>,
    alloc: Seq<Vec<char>>,
)
    requires
        ij.len() == alloc.len(),
    ensures
        visited(v, h, ij, alloc, Seq::empty()) == start_cells(ij, alloc.len() as int),
{
    lemma_covered_empty(v, h, ij, alloc, alloc.len() as int);
}

proof fn lemma_covered_empty(
    v: Seq<Vec<char>>,
    h: Seq<Vec<char>>,
    ij: Seq<(usize, usize)>,
    alloc: Seq<Vec<char>>,
    a: int,
)
    requires
        0 <= a <= alloc.len(),
    ensures
        covered(v, h, ij, alloc, Seq::empty(), a) == start_cells(ij, a),
    decreases a,
{
    if a == 0 {
        assert(covered(v, h, ij, alloc, Seq::empty(), a) =~= start_cells(ij, a));
    } else {
        lemma_covered_empty(v, h, ij, alloc, a - 1);
        let s = cell(ij[a - 1]);
        assert(trail(v, h, s, alloc[a - 1]@, Seq::empty()) == set![s]);
        assert forall|p: (int, int)| start_cells(ij, a).contains(p) implies
            covered(v, h, ij, alloc, Seq::empty(), a).contains(p) by {
            let b = choose|b: int| 0 <= b < a && p == cell(ij[b]);
            if b < a - 1 {
                assert(start_cells(ij, a - 1).contains(p));
            }
        }
        assert forall|p: (int, int)| covered(v, h, ij, alloc, Seq::empty(), a).contains(p) implies
            start_cells(ij, a).contains(p) by {
            if p != s {
                assert(start_cells(ij, a - 1).contains(p));
                let b = choose|b: int| 0 <= b < a - 1 && p == cell(ij[b]);
                assert(0 <= b < a && p == cell(ij[b]));
            } else {
                assert(0 <= a - 1 < a && p == cell(ij[a - 1]));
            }
        }
        assert(covered(v, h, ij, alloc, Seq::empty(), a) =~= start_cells(ij, a));
    }
}

/// The distance of a cell is determined by the visited cells alone: two
/// distance fields computed from one mask agree on every cell.
pub proof fn law_distance_field_unique(
    v: Seq<Vec<char>>,
    h: Seq<Vec<char>>,
    bb: Seq<u32>,
    d1: Seq<Vec<i32>>,
    d2: Seq<Vec<i32>>,
)
    requires
        field_of(v, h, bb, d1),
        field_of(v, h, bb, d2),
    ensures
        forall|p: (int, int)| in_grid(v.len() as int, p) ==> #[trigger] label(d1, p) == label(d2, p),
{
    assert forall|p: (int, int)| in_grid(v.len() as int, p) implies #[trigger] label(d1, p) == label(d2, p) by {
        lemma_dist_unique(v, h, bb, p, label(d1, p), label(d2, p));
    }
}

proof fn lemma_dist_unique(v: Seq<Vec<char>>, h: Seq<Vec<char>>, bb: Seq<u32>, p: (int, int), a: int, b: int)
    requires
        is_dist(v, h, bb, p, a),
        is_dist(v, h, bb, p, b),
    ensures
        a == b,
{
    if a != crate::field::FAR && b != crate::field::FAR {
        if a < b {
            lemma_near_mono(v, h, bb, p, a as nat, (b - 1) as nat);
        } else if b < a {
            lemma_near_mono(v, h, bb, p, b as nat, (a - 1) as nat);
        }
    }
}

proof fn lemma_trail_step(v: Seq<Vec<char>>, h: Seq<Vec<char>>, s: (int, int), row: Seq<char>, ops: Seq<usize>, t: int)
    requires
        0 <= t < ops.len(),
    ensures
        trail(v, h, s, row, ops.take(t)).subset_of(trail(v, h, s, row, ops.take(t + 1))),
{
    assert(ops.take(t + 1).drop_last() =~= ops.take(t));
}

proof fn lemma_trail_finite(v: Seq<Vec<char>>, h: Seq<Vec<char>>, s: (int, int), row: Seq<char>, ops: Seq<usize>)
    ensures
        trail(v, h, s, row, ops).finite(),
    decreases ops.len(),
{
    if ops.len() > 0 {
        lemma_trail_finite(v, h, s, row, ops.drop_last());
    }
}

proof fn lemma_covered_step(
    v: Seq<Vec<char>>,
    h: Seq<Vec<char>>,
    ij: Seq<(usize, usize)>,
    alloc: Seq<Vec<char>>,
    ops: Seq<usize>,
    t: int,
    a: int,
)
    requires
        0 <= t < ops.len(),
    ensures
        covered(v, h, ij, alloc, ops.take(t), a).subset_of(covered(v, h, ij, alloc, ops.take(t + 1), a)),
        covered(v, h, ij, alloc, ops.take(t), a).finite(),
    decreases a,
{
    if a > 0 {
        lemma_covered_step(v, h, ij, alloc, ops, t, a - 1);
        lemma_trail_step(v, h, cell(ij[a - 1]), alloc[a - 1]@, ops, t);
        lemma_trail_finite(v, h, cell(ij[a - 1]), alloc[a - 1]@, ops.take(t));
    }
}

proof fn lemma_covered_finite(
    v: Seq<Vec<char>>,
    h: Seq<Vec<char>>,
    ij: Seq<(usize, usize)>,
    alloc: Seq<Vec<char>>,
    ops: Seq<usize>,
    a: int,
)
    ensures
        covered(v, h, ij, alloc, ops, a).finite(),
    decreases a,
{
    if a > 0 {
        lemma_covered_finite(v, h, ij, alloc, ops, a - 1);
        lemma_trail_finite(v, h, cell(ij[a - 1]), alloc[a - 1]@, ops);
    }
}

/// Running a longer prefix of a program never loses a visited cell, so the
/// number of visited cells never drops.
pub proof fn law_coverage_grows(
    v: Seq<Vec<char>>,
    h: Seq<Vec<char>>,
    ij: Seq<(usize, usize)>,
    alloc: Seq<Vec<char>>,
    ops: Seq<usize>,
    t1: int,
    t2: int,
)
    requires
        0 <= t1 <= t2 <= ops.len(),
    ensures
        visited(v, h, ij, alloc, ops.take(t1)).subset_of(visited(v, h, ij, alloc, ops.take(t2))),
        visited(v, h, ij, alloc, ops.take(t1)).len() <= visited(v, h, ij, alloc, ops.take(t2)).len(),
    decreases t2 - t1,
{
    let m = alloc.len() as int;
    if t1 < t2 {
        law_coverage_grows(v, h, ij, alloc, ops, t1 + 1, t2);
        lemma_covered_step(v, h, ij, alloc, ops, t1, m);
    }
    lemma_covered_finite(v, h, ij, alloc, ops.take(t2), m);
    lemma_len_subset(visited(v, h, ij, alloc, ops.take(t1)), visited(v, h, ij, alloc, ops.take(t2)));
}

proof fn lemma_ones_high(w: u32, n: nat, j: nat)
    requires
        n <= j,
        forall|y: int| n <= y < j ==> !#[trigger] bit(w, y),
    ensures
        ones(w, j) == ones(w, n),
    decreases j,
{
    if j > n {
        lemma_ones_high(w, n, (j - 1) as nat);
    }
}

/// Over the first `r` rows of a board of cells on the grid, at most `r·n`
/// bits are set, and exactly `r·n` only when those rows are fully set.
proof fn lemma_rows_count(bb: Seq<u32>, n: int, s: Set<(int, int)>, r: int)
    requires
        0 <= n <= MAX_N,
        board_of(bb, n, s),
        forall|p: (int, int)| #[trigger] s.contains(p) ==> in_grid(n, p),
        0 <= r <= n,
    ensures
        board_count(bb.take(r)) <= r * n,
        board_count(bb.take(r)) == r * n <==> forall|p: (int, int)| 0 <= p.0 < r && 0 <= p.1 < n ==> #[trigger] s.contains(p),
    decreases r,
{
    if r > 0 {
        lemma_rows_count(bb, n, s, r - 1);
        assert(bb.take(r).drop_last() =~= bb.take(r - 1));
        let w = bb[r - 1];
        assert forall|y: int| n <= y < 32 implies !#[trigger] bit(w, y) by {
            assert(!s.contains((r - 1, y)));
        }
        lemma_ones_high(w, n as nat, 32);
        lemma_ones_le(w, n as nat);
        assert((r - 1) * n + n == r * n) by (nonlinear_arith);
        if board_count(bb.take(r)) == r * n {
            assert forall|p: (int, int)| 0 <= p.0 < r && 0 <= p.1 < n implies #[trigger] s.contains(p) by {
                if p.0 < r - 1 {
                    assert(s.contains(p));
                } else {
                    assert(bit(w, p.1));
                }
            }
        }
        if forall|p: (int, int)| 0 <= p.0 < r && 0 <= p.1 < n ==> #[trigger] s.contains(p) {
            assert forall|y: int| 0 <= y < n implies #[trigger] bit(w, y) by {
                assert(s.contains((r - 1, y)));
            }
            assert forall|p: (int, int)| 0 <= p.0 < r - 1 && 0 <= p.1 < n implies #[trigger] s.contains(p) by {
                assert(s.contains(p));
            }
        }
    }
}

/// A run that visits every cell of the grid within `t < 2·n²` steps scores
/// `3·n² − t`, more than `n²`, while a run that leaves some cell unvisited
/// scores less than `n²`.
pub proof fn law_full_coverage_bonus(
    n: int,
    bb: Seq<u32>,
    vis: Set<(int, int)>,
    t: int,
    bb2: Seq<u32>,
    vis2: Set<(int, int)>,
    t2: int,
)
    requires
        1 <= n <= MAX_N,
        board_of(bb, n, vis),
        forall|p: (int, int)| #[trigger] vis.contains(p) ==> in_grid(n, p),
        full(n, vis),
        0 <= t < 2 * n * n,
        board_of(bb2, n, vis2),
        forall|p: (int, int)| #[trigger] vis2.contains(p) ==> in_grid(n, p),
        !full(n, vis2),
    ensures
        score_rule(bb, t, n) == 3 * n * n - t,
        score_rule(bb, t, n) > n * n,
        score_rule(bb2, t2, n) < n * n,
{
    lemma_rows_count(bb, n, vis, n);
    lemma_rows_count(bb2, n, vis2, n);
    assert(bb.take(n) =~= bb);
    assert(bb2.take(n) =~= bb2);
    assert(board_count(bb) == n * n);
    assert(board_count(bb2) != n * n);
    assert(3 * n * n - t > n * n) by (nonlinear_arith)
        requires t < 2 * n * n;
}

/// Of two instructions with equal sorted distance lists, the greedy rule
/// never picks the later one.
pub proof fn law_tie_prefers_smaller(
    v: Seq<Vec<char>>,
    h: Seq<Vec<char>>,
    dist: Seq<Vec<i32>>,
    alloc: Seq<Vec<char>>,
    spots: Seq<(int, int)>,
    k: int,
    c: int,
    i: int,
    j: int,
)
    requires
        best_pick(v, h, dist, alloc, spots, k, c),
        0 <= i < j < k,
        rank(v, h, dist, alloc, spots, i) == rank(v, h, dist, alloc, spots, j),
    ensures
        c != j,
{
    lemma_lex_irreflexive(rank(v, h, dist, alloc, spots, i));
}

/// Two lists of command tables with the same symbols.
pub open spec fn same_tables(a1: Seq<Vec<char>>, a2: Seq<Vec<char>>) -> bool {
    a1.len() == a2.len() && forall|a: int| 0 <= a < a1.len() ==> (#[trigger] a1[a])@ == a2[a]@
}

proof fn lemma_covered_same(
    v: Seq<Vec<char>>, h: Seq<Vec<char>>, ij: Seq<(usize, usize)>,
    a1: Seq<Vec<char>>, a2: Seq<Vec<char>>, ops: Seq<usize>, a: int,
)
    requires
        same_tables(a1, a2),
        0 <= a <= a1.len(),
    ensures
        covered(v, h, ij, a1, ops, a) == covered(v, h, ij, a2, ops, a),
    decreases a,
{
    if a > 0 {
        lemma_covered_same(v, h, ij, a1, a2, ops, a - 1);
        assert(a1[a - 1]@ == a2[a - 1]@);
    }
}

proof fn lemma_near_same(v: Seq<Vec<char>>, h: Seq<Vec<char>>, bb1: Seq<u32>, bb2: Seq<u32>, p: (int, int), k: nat)
    requires
        forall|c: (int, int)| in_grid(v.len() as int, c) ==> #[trigger] unvisited(bb1, c) == unvisited(bb2, c),
        in_grid(v.len() as int, p),
    ensures
        near(v, h, bb1, p, k) == near(v, h, bb2, p, k),
    decreases k,
{
    if k > 0 {
        let b = (k - 1) as nat;
        if can_step(v, h, p.0, p.1, 'U') {
            lemma_near_same(v, h, bb1, bb2, target(p.0, p.1, 'U'), b);
        }
        if can_step(v, h, p.0, p.1, 'D') {
            lemma_near_same(v, h, bb1, bb2, target(p.0, p.1, 'D'), b);
        }
        if can_step(v, h, p.0, p.1, 'L') {
            lemma_near_same(v, h, bb1, bb2, target(p.0, p.1, 'L'), b);
        }
        if can_step(v, h, p.0, p.1, 'R') {
            lemma_near_same(v, h, bb1, bb2, target(p.0, p.1, 'R'), b);
        }
    }
}

/// Distance fields of two masks that mark the same cells agree.
proof fn lemma_fields_agree(
    v: Seq<Vec<char>>, h: Seq<Vec<char>>, bb1: Seq<u32>, bb2: Seq<u32>,
    d1: Seq<Vec<i32>>, d2: Seq<Vec<i32>>, s: Set<(int, int)>,
)
    requires
        grid_ok(v, h),
        board_of(bb1, v.len() as int, s),
        board_of(bb2, v.len() as int, s),
        field_of(v, h, bb1, d1),
        field_of(v, h, bb2, d2),
    ensures
        forall|p: (int, int)| in_grid(v.len() as int, p) ==> #[trigger] label(d1, p) == label(d2, p),
{
    let n = v.len() as int;
    assert forall|c: (int, int)| in_grid(n, c) implies #[trigger] unvisited(bb1, c) == unvisited(bb2, c) by {
        assert(bit(bb1[c.0], c.1) == s.contains(c));
        assert(bit(bb2[c.0], c.1) == s.contains(c));
    }
    assert forall|p: (int, int)| in_grid(n, p) implies #[trigger] label(d1, p) == label(d2, p) by {
        let l1 = label(d1, p);
        let l2 = label(d2, p);
        assert(is_dist(v, h, bb1, p, l1));
        assert(is_dist(v, h, bb2, p, l2));
        if l1 == FAR {
            assert forall|k: nat| !#[trigger] near(v, h, bb2, p, k) by {
                lemma_near_same(v, h, bb1, bb2, p, k);
                assert(!near(v, h, bb1, p, k));
            }
        } else {
            lemma_near_same(v, h, bb1, bb2, p, l1 as nat);
            if l1 > 0 {
                lemma_near_same(v, h, bb1, bb2, p, (l1 - 1) as nat);
            }
        }
        assert(is_dist(v, h, bb2, p, l1));
        lemma_dist_unique(v, h, bb2, p, l1, l2);
    }
}

/// After one prefix, tables with the same symbols lead to the same greedy pick.
proof fn lemma_pick_same(
    v: Seq<Vec<char>>, h: Seq<Vec<char>>, ij: Seq<(usize, usize)>, m: int, k: int,
    a1: Seq<Vec<char>>, a2: Seq<Vec<char>>, prefix: Seq<usize>, c1: usize, c2: usize,
)
    requires
        grid_ok(v, h),
        starts_ok(v.len() as int, ij, m),
        a1.len() == m,
        same_tables(a1, a2),
        greedy_ok(v, h, ij, a1, k, prefix, c1),
        greedy_ok(v, h, ij, a2, k, prefix, c2),
    ensures
        c1 == c2,
{
    let n = v.len() as int;
    let (bb1, d1) = choose|bb: Seq<u32>, dist: Seq<Vec<i32>>| #![trigger field_of(v, h, bb, dist)]
        board_of(bb, n, visited(v, h, ij, a1, prefix)) && field_of(v, h, bb, dist)
        && best_pick(v, h, dist, a1, positions(v, h, ij, a1, prefix), k, c1 as int);
    let (bb2, d2) = choose|bb: Seq<u32>, dist: Seq<Vec<i32>>| #![trigger field_of(v, h, bb, dist)]
        board_of(bb, n, visited(v, h, ij, a2, prefix)) && field_of(v, h, bb, dist)
        && best_pick(v, h, dist, a2, positions(v, h, ij, a2, prefix), k, c2 as int);
    lemma_covered_same(v, h, ij, a1, a2, prefix, m);
    let vis = visited(v, h, ij, a1, prefix);
    lemma_fields_agree(v, h, bb1, bb2, d1, d2, vis);
    let s1 = positions(v, h, ij, a1, prefix);
    let s2 = positions(v, h, ij, a2, prefix);
    assert forall|a: int| 0 <= a < m implies in_grid(n, #[trigger] s1[a]) by {
        assert(in_grid(n, cell(ij[a])));
        lemma_walk_in_grid(v, h, cell(ij[a]), a1[a]@, prefix);
    }
    assert(s1 =~= s2) by {
        assert forall|a: int| 0 <= a < m implies #[trigger] s1[a] == s2[a] by {
            assert(a1[a]@ == a2[a]@);
        }
    }
    assert forall|i: int| 0 <= i < k implies #[trigger] rank(v, h, d1, a1, s1, i) == rank(v, h, d2, a2, s2, i) by {
        let r1 = reached(v, h, d1, a1, s1, i);
        let r2 = reached(v, h, d2, a2, s2, i);
        assert forall|a: int| 0 <= a < m implies #[trigger] r1[a] == r2[a] by {
            assert(a1[a]@ == a2[a]@);
            let q = moved(v, h, s1[a], a1[a]@[i]);
            assert(in_grid(n, q));
            assert(label(d1, q) == label(d2, q));
        }
        assert(r1 =~= r2);
    }
    if c1 < c2 {
        assert(rank(v, h, d2, a2, s2, c1 as int) == rank(v, h, d1, a1, s1, c1 as int));
        assert(rank(v, h, d2, a2, s2, c2 as int) == rank(v, h, d1, a1, s1, c2 as int));
    } else if c2 < c1 {
        assert(rank(v, h, d2, a2, s2, c1 as int) == rank(v, h, d1, a1, s1, c1 as int));
        assert(rank(v, h, d2, a2, s2, c2 as int) == rank(v, h, d1, a1, s1, c2 as int));
    }
}

proof fn lemma_programs_agree(
    v: Seq<Vec<char>>, h: Seq<Vec<char>>, ij: Seq<(usize, usize)>, m: int, k: int,
    q1: (u32, Vec<Vec<char>>, Vec<usize>), q2: (u32, Vec<Vec<char>>, Vec<usize>), t: int,
)
    requires
        grid_ok(v, h),
        starts_ok(v.len() as int, ij, m),
        trial_ok(v, h, ij, m, k, q1),
        trial_ok(v, h, ij, m, k, q2),
        same_tables(q1.1@, q2.1@),
        0 <= t <= q1.2@.len(),
        t <= q2.2@.len(),
    ensures
        q1.2@.take(t) == q2.2@.take(t),
    decreases t,
{
    let o1 = q1.2@;
    let o2 = q2.2@;
    if t > 0 {
        lemma_programs_agree(v, h, ij, m, k, q1, q2, t - 1);
        let p = o1.take(t - 1);
        assert(greedy_ok(v, h, ij, q1.1@, k, o1.take(t - 1), o1[t - 1]));
        assert(greedy_ok(v, h, ij, q2.1@, k, o2.take(t - 1), o2[t - 1]));
        lemma_pick_same(v, h, ij, m, k, q1.1@, q2.1@, p, o1[t - 1], o2[t - 1]);
        assert(o1.take(t) =~= p.push(o1[t - 1]));
        assert(o2.take(t) =~= o2.take(t - 1).push(o2[t - 1]));
    } else {
        assert(o1.take(0) =~= o2.take(0));
    }
}

proof fn lemma_ones_same(w1: u32, w2: u32, j: nat)
    requires
        forall|y: int| 0 <= y < j ==> #[trigger] bit(w1, y) == bit(w2, y),
    ensures
        ones(w1, j) == ones(w2, j),
    decreases j,
{
    if j > 0 {
        lemma_ones_same(w1, w2, (j - 1) as nat);
    }
}

proof fn lemma_count_same(bb1: Seq<u32>, bb2: Seq<u32>, n: int, s: Set<(int, int)>, r: int)
    requires
        board_of(bb1, n, s),
        board_of(bb2, n, s),
        0 <= r <= n,
    ensures
        board_count(bb1.take(r)) == board_count(bb2.take(r)),
    decreases r,
{
    if r > 0 {
        lemma_count_same(bb1, bb2, n, s, r - 1);
        assert(bb1.take(r).drop_last() =~= bb1.take(r - 1));
        assert(bb2.take(r).drop_last() =~= bb2.take(r - 1));
        assert forall|y: int| 0 <= y < 32 implies #[trigger] bit(bb1[r - 1], y) == bit(bb2[r - 1], y) by {
            assert(bit(bb1[r - 1], y) == s.contains((r - 1, y)));
            assert(bit(bb2[r - 1], y) == s.contains((r - 1, y)));
        }
        lemma_ones_same(bb1[r - 1], bb2[r - 1], 32);
    }
}

/// A trial is determined by its command tables: two trials with the same
/// tables have the same program and the same score.
pub proof fn law_trial_determined(
    v: Seq<Vec<char>>, h: Seq<Vec<char>>, ij: Seq<(usize, usize)>, m: int, k: int,
    q1: (u32, Vec<Vec<char>>, Vec<usize>), q2: (u32, Vec<Vec<char>>, Vec<usize>),
)
    requires
        grid_ok(v, h),
        starts_ok(v.len() as int, ij, m),
        trial_ok(v, h, ij, m, k, q1),
        trial_ok(v, h, ij, m, k, q2),
        same_tables(q1.1@, q2.1@),
    ensures
        q1.2@ == q2.2@,
        q1.0 == q2.0,
{
    let n = v.len() as int;
    let o1 = q1.2@;
    let o2 = q2.2@;
    if o1.len() < o2.len() {
        lemma_programs_agree(v, h, ij, m, k, q1, q2, o1.len() as int);
        assert(o1.take(o1.len() as int) =~= o1);
        lemma_covered_same(v, h, ij, q1.1@, q2.1@, o1, m);
        assert(!full(n, visited(v, h, ij, q2.1@, o2.take(o1.len() as int))));
    } else if o2.len() < o1.len() {
        lemma_programs_agree(v, h, ij, m, k, q1, q2, o2.len() as int);
        assert(o2.take(o2.len() as int) =~= o2);
        lemma_covered_same(v, h, ij, q1.1@, q2.1@, o2, m);
        assert(!full(n, visited(v, h, ij, q1.1@, o1.take(o2.len() as int))));
    }
    lemma_programs_agree(v, h, ij, m, k, q1, q2, o1.len() as int);
    assert(o1.take(o1.len() as int) =~= o1);
    assert(o2.take(o2.len() as int) =~= o2);
    lemma_covered_same(v, h, ij, q1.1@, q2.1@, o1, m);
    let s = visited(v, h, ij, q1.1@, o1);
    let bb1 = choose|bb: Seq<u32>| #[trigger] board_of(bb, n, s) && q1.0 == score_rule(bb, o1.len() as int, n);
    let bb2 = choose|bb: Seq<u32>| #[trigger] board_of(bb, n, s) && q2.0 == score_rule(bb, o2.len() as int, n);
    lemma_count_same(bb1, bb2, n, s, n);
    assert(bb1.take(n) =~= bb1);
    assert(bb2.take(n) =~= bb2);
}

proof fn lemma_trail_has_start(v: Seq<Vec<char>>, h: Seq<Vec<char>>, st: (int, int), row: Seq<char>, ops: Seq<usize>)
    ensures
        trail(v, h, st, row, ops).contains(st),
    decreases ops.len(),
{
    if ops.len() > 0 {
        lemma_trail_has_start(v, h, st, row, ops.drop_last());
    }
}

proof fn lemma_covered_has_first(
    v: Seq<Vec<char>>, h: Seq<Vec<char>>, ij: Seq<(usize, usize)>, alloc: Seq<Vec<char>>, ops: Seq<usize>, a: int,
)
    requires
        1 <= a,
    ensures
        covered(v, h, ij, alloc, ops, a).contains(cell(ij[0])),
    decreases a,
{
    if a == 1 {
        lemma_trail_has_start(v, h, cell(ij[0]), alloc[0]@, ops);
    } else {
        lemma_covered_has_first(v, h, ij, alloc, ops, a - 1);
    }
}

proof fn lemma_ones_pos(w: u32, y: int, j: nat)
    requires
        0 <= y < j,
        bit(w, y),
    ensures
        ones(w, j) >= 1,
    decreases j,
{
    if y < j - 1 {
        lemma_ones_pos(w, y, (j - 1) as nat);
    }
}

proof fn lemma_count_pos(bb: Seq<u32>, x: int, r: int)
    requires
        0 <= x < r <= bb.len(),
        ones(bb[x], 32) >= 1,
    ensures
        board_count(bb.take(r)) >= 1,
    decreases r,
{
    assert(bb.take(r).drop_last() =~= bb.take(r - 1));
    if x < r - 1 {
        lemma_count_pos(bb, x, r - 1);
    }
}

/// With at least one agent, every trial scores above zero.
pub proof fn lemma_trial_score_positive(
    v: Seq<Vec<char>>, h: Seq<Vec<char>>, ij: Seq<(usize, usize)>, m: int, k: int,
    q: (u32, Vec<Vec<char>>, Vec<usize>),
)
    requires
        grid_ok(v, h),
        starts_ok(v.len() as int, ij, m),
        m >= 1,
        trial_ok(v, h, ij, m, k, q),
    ensures
        q.0 > 0,
{
    let n = v.len() as int;
    let ops = q.2@;
    let s = visited(v, h, ij, q.1@, ops);
    let bb = choose|bb: Seq<u32>| #[trigger] board_of(bb, n, s) && q.0 == score_rule(bb, ops.len() as int, n);
    if board_count(bb) == n * n {
        assert(3 * n * n - ops.len() > 0) by (nonlinear_arith)
            requires ops.len() <= 2 * n * n, n >= 1;
    } else {
        lemma_covered_has_first(v, h, ij, q.1@, ops, m);
        let c = cell(ij[0]);
        assert(in_grid(n, c));
        assert(bit(bb[c.0], c.1));
        lemma_ones_pos(bb[c.0], c.1, 32);
        lemma_count_pos(bb, c.0, n);
        assert(bb.take(n) =~= bb);
    }
}

proof fn lemma_ones_mono(w1: u32, w2: u32, j: nat)
    requires
        forall|y: int| 0 <= y < j && #[trigger] bit(w1, y) ==> bit(w2, y),
    ensures
        ones(w1, j) <= ones(w2, j),
    decreases j,
{
    if j > 0 {
        lemma_ones_mono(w1, w2, (j - 1) as nat);
    }
}

proof fn lemma_count_mono(bb1: Seq<u32>, bb2: Seq<u32>, n: int, r: int)
    requires
        bb1.len() == n,
        bb2.len() == n,
        0 <= r <= n,
        forall|x: int, y: int| 0 <= x < n && 0 <= y < 32 && #[trigger] bit(bb1[x], y) ==> bit(bb2[x], y),
    ensures
        board_count(bb1.take(r)) <= board_count(bb2.take(r)),
    decreases r,
{
    if r > 0 {
        lemma_count_mono(bb1, bb2, n, r - 1);
        assert(bb1.take(r).drop_last() =~= bb1.take(r - 1));
        assert(bb2.take(r).drop_last() =~= bb2.take(r - 1));
        assert forall|y: int| 0 <= y < 32 && #[trigger] bit(bb1[r - 1], y) implies bit(bb2[r - 1], y) by {
            assert(bit(bb1[r - 1], y));
        }
        lemma_ones_mono(bb1[r - 1], bb2[r - 1], 32);
    }
}

/// The masks of a longer prefix keep every bit of a shorter one, so the
/// number of set bits never drops.
pub proof fn law_masks_grow(
    v: Seq<Vec<char>>,
    h: Seq<Vec<char>>,
    ij: Seq<(usize, usize)>,
    alloc: Seq<Vec<char>>,
    ops: Seq<usize>,
    t1: int,
    t2: int,
    bb1: Seq<u32>,
    bb2: Seq<u32>,
)
    requires
        0 <= t1 <= t2 <= ops.len(),
        board_of(bb1, v.len() as int, visited(v, h, ij, alloc, ops.take(t1))),
        board_of(bb2, v.len() as int, visited(v, h, ij, alloc, ops.take(t2))),
    ensures
        forall|x: int, y: int| 0 <= x < v.len() && 0 <= y < 32 && #[trigger] bit(bb1[x], y) ==> bit(bb2[x], y),
        board_count(bb1) <= board_count(bb2),
{
    let n = v.len() as int;
    law_coverage_grows(v, h, ij, alloc, ops, t1, t2);
    let s1 = visited(v, h, ij, alloc, ops.take(t1));
    let s2 = visited(v, h, ij, alloc, ops.take(t2));
    assert forall|x: int, y: int| 0 <= x < n && 0 <= y < 32 && #[trigger] bit(bb1[x], y) implies bit(bb2[x], y) by {
        assert(s1.contains((x, y)));
        assert(s2.contains((x, y)));
    }
    lemma_count_mono(bb1, bb2, n, n);
    assert(bb1.take(n) =~= bb1);
    assert(bb2.take(n) =~= bb2);
}

/// Cells of `s` before column `j` of row `r`, in row-major order.
pub open spec fn cells_before(s: Set<(int, int)>, r: int, j: int) -> Set<(int, int)> {
    s.filter(|p: (int, int)| p.0 < r || (p.0 == r && p.1 < j))
}

proof fn lemma_row_cells(bb: Seq<u32>, n: int, s: Set<(int, int)>, r: int, j: nat)
    requires
        s.finite(),
        board_of(bb, n, s),
        0 <= r < n,
        j <= 32,
        board_count(bb.take(r)) == cells_before(s, r, 0).len(),
    ensures
        board_count(bb.take(r)) + ones(bb[r], j) == cells_before(s, r, j as int).len(),
    decreases j,
{
    if j > 0 {
        let y = j - 1;
        lemma_row_cells(bb, n, s, r, (j - 1) as nat);
        let before = cells_before(s, r, y);
        let after = cells_before(s, r, j as int);
        assert(bit(bb[r], y) == s.contains((r, y)));
        if s.contains((r, y)) {
            assert(after =~= before.insert((r, y)));
            assert(!before.contains((r, y)));
        } else {
            assert(after =~= before);
        }
    } else {
        assert(cells_before(s, r, 0) =~= cells_before(s, r, j as int));
    }
}

proof fn lemma_count_cells(bb: Seq<u32>, n: int, s: Set<(int, int)>, r: int)
    requires
        s.finite(),
        board_of(bb, n, s),
        forall|p: (int, int)| #[trigger] s.contains(p) ==> in_grid(n, p),
        0 <= n <= MAX_N,
        0 <= r <= n,
    ensures
        board_count(bb.take(r)) == cells_before(s, r, 0).len(),
    decreases r,
{
    if r == 0 {
        assert(cells_before(s, 0, 0) =~= Set::empty());
        assert(bb.take(0) =~= Seq::empty());
    } else {
        lemma_count_cells(bb, n, s, r - 1);
        lemma_row_cells(bb, n, s, r - 1, 32);
        assert(bb.take(r).drop_last() =~= bb.take(r - 1));
        assert(cells_before(s, r - 1, 32) =~= cells_before(s, r, 0));
    }
}

/// The set bits of a board count its cells.
pub proof fn lemma_board_count_is_len(bb: Seq<u32>, n: int, s: Set<(int, int)>)
    requires
        s.finite(),
        board_of(bb, n, s),
        forall|p: (int, int)| #[trigger] s.contains(p) ==> in_grid(n, p),
        0 <= n <= MAX_N,
    ensures
        board_count(bb) == s.len(),
{
    lemma_count_cells(bb, n, s, n);
    assert(bb.take(n) =~= bb);
    assert(cells_before(s, n, 0) =~= s);
}

proof fn lemma_start_cells_len(ij: Seq<(usize, usize)>, a: int)
    requires
        0 <= a <= ij.len(),
        forall|b: int, c: int| 0 <= b < c < ij.len() ==> #[trigger] ij[b] != #[trigger] ij[c],
    ensures
        start_cells(ij, a).finite(),
        start_cells(ij, a).len() == a,
    decreases a,
{
    if a == 0 {
        assert(start_cells(ij, 0) =~= Set::empty());
    } else {
        lemma_start_cells_len(ij, a - 1);
        let c = cell(ij[a - 1]);
        assert(start_cells(ij, a) =~= start_cells(ij, a - 1).insert(c)) by {
            assert forall|p: (int, int)| start_cells(ij, a).contains(p) implies start_cells(ij, a - 1).insert(c).contains(p) by {
                let b = choose|b: int| 0 <= b < a && p == cell(ij[b]);
                if b < a - 1 {
                    assert(start_cells(ij, a - 1).contains(p));
                }
            }
            assert forall|p: (int, int)| start_cells(ij, a - 1).insert(c).contains(p) implies start_cells(ij, a).contains(p) by {
                if p != c {
                    let b = choose|b: int| 0 <= b < a - 1 && p == cell(ij[b]);
                    assert(0 <= b < a && p == cell(ij[b]));
                } else {
                    assert(0 <= a - 1 < a && p == cell(ij[a - 1]));
                }
            }
        }
        if start_cells(ij, a - 1).contains(c) {
            let b = choose|b: int| 0 <= b < a - 1 && c == cell(ij[b]);
            assert(ij[b] == ij[a - 1]);
        }
    }
}

/// With distinct starts, the masks of the empty program have exactly one
/// bit per agent set.
pub proof fn law_empty_program_counts_starts(
    v: Seq<Vec<char>>,
    h: Seq<Vec<char>>,
    ij: Seq<(usize, usize)>,
    alloc: Seq<Vec<char>>,
    bb: Seq<u32>,
)
    requires
        grid_ok(v, h),
        starts_ok(v.len() as int, ij, alloc.len() as int),
        forall|b: int, c: int| 0 <= b < c < ij.len() ==> #[trigger] ij[b] != #[trigger] ij[c],
        board_of(bb, v.len() as int, visited(v, h, ij, alloc, Seq::empty())),
    ensures
        board_count(bb) == alloc.len(),
{
    let n = v.len() as int;
    let m = alloc.len() as int;
    law_empty_program_marks_starts(v, h, ij, alloc);
    lemma_start_cells_len(ij, m);
    let s = start_cells(ij, m);
    assert forall|p: (int, int)| #[trigger] s.contains(p) implies in_grid(n, p) by {
        let b = choose|b: int| 0 <= b < m && p == cell(ij[b]);
        assert(in_grid(n, cell(ij[b])));
    }
    lemma_board_count_is_len(bb, n, s);
}

} // verus!
