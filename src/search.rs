use vstd::prelude::*;
use crate::grid::{grid_ok, in_grid, is_dir, MAX_N};
use crate::trail::{bit, board_of, calc_bitboard, cell, runs_ok, starts_ok, visited, walk};
use crate::field::{calc_distance, is_dist, label, square};
use crate::pick::{best_pick, select_step, spots_of, tables_ok};

verus! {

pub const RNG_MUL: u64 = 0xdead_c0de_0013_3331;

pub const RNG_ADD: u64 = 2457;

/// Number of restarts the driver runs.
pub const TRIALS: usize = 50;

/// A linear congruential generator on 64 bits with a xor-shift output mix.
pub struct Rng {
    pub x: u64,
}

pub open spec fn lcg_next(x: u64) -> u64 {
    x.wrapping_mul(RNG_MUL).wrapping_add(RNG_ADD)
}

pub open spec fn mix(x: u64) -> u32 {
    ((x ^ (x << 10u64)) >> 32u64) as u32
}

impl Rng {
    /// Advances the state and returns the high bits of its mixed value.
    pub fn next(&mut self) -> (r: u32)
        ensures
            final(self).x == lcg_next(old(self).x),
            r == mix(final(self).x),
    {
        self.x = self.x.wrapping_mul(RNG_MUL).wrapping_add(RNG_ADD);
        let x = self.x;
        ((x ^ (x << 10u64)) >> 32u64) as u32
    }
}

/// Number of set bits of `w` below position `j`.
pub open spec fn ones(w: u32, j: nat) -> nat
    decreases j,
{
    if j == 0 {
        0
    } else {
        ones(w, (j - 1) as nat) + if bit(w, j - 1) { 1nat } else { 0nat }
    }
}

/// Number of set bits over all rows.
pub open spec fn board_count(bb: Seq<u32>) -> nat
    decreases bb.len(),
{
    if bb.len() == 0 {
        0
    } else {
        board_count(bb.drop_last()) + ones(bb.last(), 32)
    }
}

/// Score of a finished run: the number of visited cells, or `3·n² − steps`
/// once all `n²` cells are visited.
pub open spec fn score_rule(bb: Seq<u32>, steps: int, n: int) -> int {
    if board_count(bb) == n * n {
        3 * n * n - steps
    } else {
        board_count(bb) as int
    }
}

/// Every cell of the `n`×`n` grid is in `s`.
pub open spec fn full(n: int, s: Set<(int, int)>) -> bool {
    forall|p: (int, int)| in_grid(n, p) ==> #[trigger] s.contains(p)
}

fn count_row(w: u32) -> (r: u32)
    ensures
        r == ones(w, 32),
{
    let mut c: u32 = 0;
    let mut j: u32 = 0;
    while j < 32
        invariant
            j <= 32,
            c == ones(w, j as nat),
            c <= j,
        decreases 32 - j,
    {
        if (w >> j) & 1u32 == 1u32 {
            c = c + 1;
        }
        j = j + 1;
    }
    c
}

/// The scoring rule applied to the per-row masks of a run of `steps` steps.
pub fn score_of(bitboard: &[u32], steps: usize, n: usize) -> (r: u32)
    requires
        bitboard@.len() == n,
        n <= MAX_N,
        steps <= 3 * n * n,
    ensures
        r == score_rule(bitboard@, steps as int, n as int),
{
    let mut total: u32 = 0;
    let mut x: usize = 0;
    while x < n
        invariant
            x <= n,
            n <= MAX_N,
            bitboard@.len() == n,
            total == board_count(bitboard@.take(x as int)),
            total <= 32 * x,
        decreases n - x,
    {
        let c = count_row(bitboard[x]);
        proof {
            assert(bitboard@.take(x + 1).drop_last() =~= bitboard@.take(x as int));
            assert(ones(bitboard@[x as int], 32) <= 32) by {
                lemma_ones_le(bitboard@[x as int], 32);
            }
        }
        total = total + c;
        x = x + 1;
    }
    assert(bitboard@.take(n as int) =~= bitboard@);
    assert(n * n <= 900 && 3 * n * n <= 2700) by (nonlinear_arith)
        requires n <= 30;
    if total as usize == n * n {
        (3 * n * n - steps) as u32
    } else {
        total
    }
}

pub proof fn lemma_ones_le(w: u32, j: nat)
    ensures
        ones(w, j) <= j,
        ones(w, j) == j <==> forall|y: int| 0 <= y < j ==> #[trigger] bit(w, y),
    decreases j,
{
    if j > 0 {
        lemma_ones_le(w, (j - 1) as nat);
    }
}

/// Whether the masks mark every cell of the `n`×`n` grid.
fn all_visited(bitboard: &[u32], n: usize) -> (r: bool)
    requires
        bitboard@.len() == n,
        n <= MAX_N,
    ensures
        r == forall|p: (int, int)| in_grid(n as int, p) ==> #[trigger] bit(bitboard@[p.0], p.1),
{
    let mut x: usize = 0;
    while x < n
        invariant
            x <= n,
            n <= MAX_N,
            bitboard@.len() == n,
            forall|p: (int, int)| 0 <= p.0 < x && 0 <= p.1 < n ==> #[trigger] bit(bitboard@[p.0], p.1),
        decreases n - x,
    {
        let mut y: usize = 0;
        while y < n
            invariant
                x < n,
                y <= n,
                n <= MAX_N,
                bitboard@.len() == n,
                forall|p: (int, int)| 0 <= p.0 < x && 0 <= p.1 < n ==> #[trigger] bit(bitboard@[p.0], p.1),
                forall|c: int| 0 <= c < y ==> #[trigger] bit(bitboard@[x as int], c),
            decreases n - y,
        {
            if (bitboard[x] >> (y as u32)) & 1u32 != 1u32 {
                assert(!bit(bitboard@[(x as int, y as int).0], (x as int, y as int).1));
                return false;
            }
            y = y + 1;
        }
        assert forall|p: (int, int)| 0 <= p.0 <= x && 0 <= p.1 < n implies #[trigger] bit(bitboard@[p.0], p.1) by {
            if p.0 == x {
                assert(bit(bitboard@[x as int], p.1));
            }
        }
        x = x + 1;
    }
    true
}

/// Symbol placed in slot `j` of a command table of `k` slots before
/// shuffling. With ten slots or more: two of each of `U`, `D`, `L`, `R`, `S`
/// in the first ten, `D` beyond. With fewer, the five symbols in turn, so
/// that as many distinct directions as fit are present.
pub open spec fn seed_symbol(k: int, j: int) -> char {
    let c = if k >= 10 { j / 2 } else { j % 5 };
    if j >= 10 || c == 1 {
        'D'
    } else if c == 0 {
        'U'
    } else if c == 2 {
        'L'
    } else if c == 3 {
        'R'
    } else {
        'S'
    }
}

pub open spec fn seed_row(k: int) -> Seq<char> {
    Seq::new(k as nat, |j: int| seed_symbol(k, j))
}

proof fn lemma_swap_multiset(s: Seq<char>, i: int, j: int)
    requires
        0 <= i < s.len(),
        0 <= j < s.len(),
    ensures
        s.update(i, s[j]).update(j, s[i]).to_multiset() == s.to_multiset(),
{
    broadcast use vstd::seq_lib::to_multiset_update, vstd::seq_lib::group_to_multiset_ensures;
    let m = s.to_multiset();
    let s1 = s.update(i, s[j]);
    let m1 = s1.to_multiset();
    assert(m1 == m.insert(s[j]).remove(s[i]));
    assert(s1[j] == s[j]);
    let m2 = s1.update(j, s[i]).to_multiset();
    assert(m2 == m1.insert(s[i]).remove(s[j]));
    assert(m.count(s[i]) > 0) by {
        assert(s.contains(s[i]));
    }
    assert(m2 =~= m);
}

fn swap_slots(row: &mut Vec<char>, i: usize, j: usize)
    requires
        i < old(row)@.len(),
        j < old(row)@.len(),
    ensures
        final(row)@ == old(row)@.update(i as int, old(row)@[j as int]).update(j as int, old(row)@[i as int]),
{
    let a = row[i];
    let b = row[j];
    row.set(i, b);
    row.set(j, a);
}

/// Generator state after `c` draws from state `x`.
pub open spec fn rng_after(x: u64, c: nat) -> u64
    decreases c,
{
    if c == 0 {
        x
    } else {
        lcg_next(rng_after(x, (c - 1) as nat))
    }
}

/// Number of draws a table of `k` slots takes.
pub open spec fn draws(k: int) -> nat {
    if k <= 1 {
        0
    } else {
        (k - 1) as nat
    }
}

pub open spec fn swapped(s: Seq<char>, i: int, j: int) -> Seq<char> {
    s.update(i, s[j]).update(j, s[i])
}

/// `row` after the Fisher–Yates steps for slots `1..j`, started from state
/// `x`: slot `j` swaps with slot `d % (j + 1)`, `d` the `j`-th draw.
pub open spec fn shuffled(row: Seq<char>, x: u64, j: nat) -> Seq<char>
    decreases j,
{
    if j <= 1 {
        row
    } else {
        let prev = shuffled(row, x, (j - 1) as nat);
        let slot = (j - 1) as int;
        swapped(prev, (mix(rng_after(x, slot as nat)) as int) % (slot + 1), slot)
    }
}

pub proof fn lemma_rng_after_add(x: u64, a: nat, b: nat)
    ensures
        rng_after(rng_after(x, a), b) == rng_after(x, a + b),
    decreases b,
{
    if b > 0 {
        lemma_rng_after_add(x, a, (b - 1) as nat);
    }
}

/// A fresh command table of `k` slots: the seeded symbols shuffled by a
/// Fisher–Yates pass that draws from `rng` (slot `j` swaps with slot
/// `next() % (j + 1)`, for `j` from 1 up).
pub fn new_table(k: usize, rng: &mut Rng) -> (row: Vec<char>)
    ensures
        row@ == shuffled(seed_row(k as int), old(rng).x, k as nat),
        final(rng).x == rng_after(old(rng).x, draws(k as int)),
        row@.len() == k,
        row@.to_multiset() == seed_row(k as int).to_multiset(),
        forall|i: int| 0 <= i < k ==> is_dir(#[trigger] row@[i]),
{
    let mut row: Vec<char> = Vec::new();
    let mut j: usize = 0;
    while j < k
        invariant
            j <= k,
            row@ == seed_row(k as int).take(j as int),
        decreases k - j,
    {
        let slot = if k >= 10 { j / 2 } else { j % 5 };
        let c = if j >= 10 || slot == 1 {
            'D'
        } else if slot == 0 {
            'U'
        } else if slot == 2 {
            'L'
        } else if slot == 3 {
            'R'
        } else {
            'S'
        };
        row.push(c);
        j = j + 1;
        assert(row@ =~= seed_row(k as int).take(j as int));
    }
    assert(row@ =~= seed_row(k as int));
    let ghost x0 = rng.x;
    let mut j: usize = 1;
    while j < k
        invariant
            1 <= j,
            k > 0 ==> j <= k,
            k > 0 ==> row@ == shuffled(seed_row(k as int), x0, j as nat),
            k > 0 ==> rng.x == rng_after(x0, (j - 1) as nat),
            k == 0 ==> rng.x == x0,
            row@.len() == k,
            row@.to_multiset() == seed_row(k as int).to_multiset(),
            forall|i: int| 0 <= i < k ==> is_dir(#[trigger] row@[i]),
        decreases k - j,
    {
        let d = rng.next();
        let r = d as usize % (j + 1);
        let ghost s = row@;
        swap_slots(&mut row, r, j);
        proof {
            assert(rng.x == rng_after(x0, j as nat));
            assert(row@ == swapped(s, r as int, j as int));
            lemma_swap_multiset(s, r as int, j as int);
            assert(is_dir(s[r as int]) && is_dir(s[j as int]));
            assert forall|i: int| 0 <= i < k implies is_dir(#[trigger] row@[i]) by {
                assert(is_dir(s[i]));
            }
        }
        j = j + 1;
    }
    row
}

/// Where each agent stands after `prefix`.
pub open spec fn positions(
    v: Seq<Vec<char>>,
    h: Seq<Vec<char>>,
    ij: Seq<(usize, usize)>,
    alloc: Seq<Vec<char>>,
    prefix: Seq<usize>,
) -> Seq<(int, int)> {
    Seq::new(alloc.len(), |a: int| walk(v, h, cell(ij[a]), alloc[a]@, prefix))
}

/// `dist` holds, for every cell, its distance to the nearest cell left clear in `bb`.
pub open spec fn field_of(v: Seq<Vec<char>>, h: Seq<Vec<char>>, bb: Seq<u32>, dist: Seq<Vec<i32>>) -> bool {
    &&& square(dist, v.len() as int)
    &&& forall|p: (int, int)| #![trigger label(dist, p)]
        in_grid(v.len() as int, p) ==> is_dist(v, h, bb, p, label(dist, p))
}

/// After `prefix`, the greedy rule picks instruction `c`.
pub open spec fn greedy_ok(
    v: Seq<Vec<char>>,
    h: Seq<Vec<char>>,
    ij: Seq<(usize, usize)>,
    alloc: Seq<Vec<char>>,
    k: int,
    prefix: Seq<usize>,
    c: usize,
) -> bool {
    exists|bb: Seq<u32>, dist: Seq<Vec<i32>>| #![trigger field_of(v, h, bb, dist)]
        board_of(bb, v.len() as int, visited(v, h, ij, alloc, prefix))
        && field_of(v, h, bb, dist)
        && best_pick(v, h, dist, alloc, positions(v, h, ij, alloc, prefix), k, c as int)
}

proof fn lemma_runs_ok(alloc: Seq<Vec<char>>, ops: Seq<usize>, k: int)
    requires
        tables_ok(alloc, k),
        forall|t: int| 0 <= t < ops.len() ==> #[trigger] ops[t] < k,
    ensures
        runs_ok(alloc, ops),
{
    assert forall|a: int, t: int| #![trigger alloc[a], ops[t]] 0 <= a < alloc.len() && 0 <= t < ops.len()
        implies ops[t] < alloc[a]@.len() by {
        assert(alloc[a]@.len() == k);
    }
}

/// What a trial hands back: `m` shuffled tables of `k` slots; a program of
/// at most `2·n²` instructions, each the greedy pick after the ones before it,
/// which stops at the first full coverage; and the score of its visited cells.
pub open spec fn trial_ok(
    v: Seq<Vec<char>>,
    h: Seq<Vec<char>>,
    ij: Seq<(usize, usize)>,
    m: int,
    k: int,
    r: (u32, Vec<Vec<char>>, Vec<usize>),
) -> bool {
    let n = v.len() as int;
    let alloc = r.1@;
    let ops = r.2@;
    &&& alloc.len() == m
    &&& tables_ok(alloc, k)
    &&& forall|a: int| 0 <= a < m ==> (#[trigger] alloc[a])@.to_multiset() == seed_row(k).to_multiset()
    &&& ops.len() <= 2 * n * n
    &&& forall|t: int| 0 <= t < ops.len() ==> #[trigger] ops[t] < k
    &&& forall|t: int| 0 <= t < ops.len() ==> !full(n, visited(v, h, ij, alloc, #[trigger] ops.take(t)))
    &&& forall|t: int| 0 <= t < ops.len() ==> greedy_ok(v, h, ij, alloc, k, #[trigger] ops.take(t), ops[t])
    &&& ops.len() < 2 * n * n ==> full(n, visited(v, h, ij, alloc, ops))
    &&& exists|bb: Seq<u32>| #[trigger] board_of(bb, n, visited(v, h, ij, alloc, ops))
        && r.0 == score_rule(bb, ops.len() as int, n)
}

/// One trial: fresh command tables drawn from `rng`, then a program grown one
/// greedy instruction at a time until every cell is visited or `2·n²`
/// instructions stand; returns its score, the tables and the program.
pub fn try_once(
    n: usize,
    m: usize,
    k: usize,
    ij: &[(usize, usize)],
    v: &[Vec<char>],
    h: &[Vec<char>],
    rng: &mut Rng,
) -> (r: (u32, Vec<Vec<char>>, Vec<usize>))
    requires
        grid_ok(v@, h@),
        n == v@.len(),
        k >= 1,
        starts_ok(n as int, ij@, m as int),
    ensures
        trial_ok(v@, h@, ij@, m as int, k as int, r),
        tables_from(r.1@, m as int, k as int, old(rng).x),
        final(rng).x == rng_after(old(rng).x, (m * draws(k as int)) as nat),
{
    let ghost x0 = rng.x;
    let ghost d = draws(k as int);
    let mut alloc: Vec<Vec<char>> = Vec::new();
    let mut i: usize = 0;
    while i < m
        invariant
            d == draws(k as int),
            rng.x == rng_after(x0, (i * d) as nat),
            forall|a: int| 0 <= a < i ==> (#[trigger] alloc@[a])@
                == shuffled(seed_row(k as int), rng_after(x0, (a * d) as nat), k as nat),
            i <= m,
            alloc@.len() == i,
            tables_ok(alloc@, k as int),
            forall|a: int| 0 <= a < i ==> (#[trigger] alloc@[a])@.to_multiset() == seed_row(k as int).to_multiset(),
        decreases m - i,
    {
        let row = new_table(k, rng);
        proof {
            lemma_rng_after_add(x0, (i * d) as nat, d);
            assert(i * d + d == (i + 1) * d) by (nonlinear_arith);
            assert(i * d >= 0) by (nonlinear_arith);
        }
        alloc.push(row);
        i = i + 1;
    }
    proof {
        assert(2 * n * n <= 1800) by (nonlinear_arith)
            requires n <= 30;
    }
    let limit = 2 * n * n;
    let mut ops: Vec<usize> = Vec::new();
    let mut done = false;
    while !done && ops.len() < limit
        invariant
            grid_ok(v@, h@),
            n == v@.len(),
            k >= 1,
            starts_ok(n as int, ij@, m as int),
            alloc@.len() == m,
            tables_ok(alloc@, k as int),
            limit == 2 * n * n,
            ops@.len() <= limit,
            forall|t: int| 0 <= t < ops@.len() ==> #[trigger] ops@[t] < k,
            forall|t: int| 0 <= t < ops@.len() ==> !full(n as int, visited(v@, h@, ij@, alloc@, #[trigger] ops@.take(t))),
            forall|t: int| 0 <= t < ops@.len() ==> greedy_ok(v@, h@, ij@, alloc@, k as int, #[trigger] ops@.take(t), ops@[t]),
            done ==> full(n as int, visited(v@, h@, ij@, alloc@, ops@)),
        decreases limit - ops@.len() + if done { 0int } else { 1int },
    {
        proof {
            lemma_runs_ok(alloc@, ops@, k as int);
        }
        let (now_bb, now_pts) = calc_bitboard(ij, v, h, &alloc, &ops);
        let ghost vis = visited(v@, h@, ij@, alloc@, ops@);
        if all_visited(&now_bb, n) {
            proof {
                assert forall|p: (int, int)| in_grid(n as int, p) implies #[trigger] vis.contains(p) by {
                    assert(bit(now_bb@[p.0], p.1));
                }
            }
            done = true;
        } else {
            let dist = calc_distance(v, h, &now_bb);
            proof {
                assert forall|a: int| 0 <= a < now_pts@.len() implies in_grid(n as int, cell(#[trigger] now_pts@[a])) by {
                    crate::trail::lemma_walk_in_grid(v@, h@, cell(ij@[a]), alloc@[a]@, ops@);
                }
            }
            let c = select_step(v, h, &alloc, &now_pts, &dist, k);
            let ghost old_ops = ops@;
            proof {
                assert(spots_of(now_pts@) =~= positions(v@, h@, ij@, alloc@, ops@));
                assert(field_of(v@, h@, now_bb@, dist@));
                assert(greedy_ok(v@, h@, ij@, alloc@, k as int, old_ops, c));
                assert(!full(n as int, vis));
            }
            ops.push(c);
            proof {
                assert(ops@.take(old_ops.len() as int) =~= old_ops);
                assert forall|t: int| 0 <= t < old_ops.len() implies #[trigger] ops@.take(t) == old_ops.take(t) by {
                    assert(ops@.take(t) =~= old_ops.take(t));
                }
            }
        }
    }
    proof {
        lemma_runs_ok(alloc@, ops@, k as int);
        assert(2 * n * n <= 3 * n * n) by (nonlinear_arith);
    }
    let (bitboard, _) = calc_bitboard(ij, v, h, &alloc, &ops);
    let score = score_of(&bitboard, ops.len(), n);
    (score, alloc, ops)
}

/// `alloc` holds the tables a trial draws from generator state `x`.
pub open spec fn tables_from(alloc: Seq<Vec<char>>, m: int, k: int, x: u64) -> bool {
    alloc.len() == m && forall|a: int| 0 <= a < m ==> (#[trigger] alloc[a])@
        == shuffled(seed_row(k), rng_after(x, (a * draws(k)) as nat), k as nat)
}

/// `alloc` holds the tables of trial `t` of a run started from state `x`.
pub open spec fn trial_tables(alloc: Seq<Vec<char>>, m: int, k: int, x: u64, t: int) -> bool {
    tables_from(alloc, m, k, rng_after(x, (t * (m * draws(k))) as nat))
}

/// Keeps the better of the retained trial and a new one: the new one replaces
/// it only with a strictly higher score, so the retained score never drops.
pub fn keep_best(best: &mut (u32, Vec<Vec<char>>, Vec<usize>), cand: (u32, Vec<Vec<char>>, Vec<usize>))
    ensures
        final(best).0 >= old(best).0,
        final(best).0 >= cand.0,
        cand.0 > old(best).0 ==> *final(best) == cand,
        cand.0 <= old(best).0 ==> *final(best) == *old(best),
{
    if cand.0 > best.0 {
        *best = cand;
    }
}

/// Runs `trials` trials on one continuing stream of `rng` and returns the
/// first one of highest score; with no positive score (only when there are
/// no agents or no trials) it returns score 0, tables of `D` only and an
/// empty program.
pub fn solve(
    n: usize,
    m: usize,
    k: usize,
    ij: &[(usize, usize)],
    v: &[Vec<char>],
    h: &[Vec<char>],
    rng: &mut Rng,
    trials: usize,
) -> (r: (u32, Vec<Vec<char>>, Vec<usize>))
    requires
        grid_ok(v@, h@),
        n == v@.len(),
        k >= 1,
        starts_ok(n as int, ij@, m as int),
    ensures
        r.0 > 0 ==> trial_ok(v@, h@, ij@, m as int, k as int, r),
        r.0 == 0 ==> r.2@.len() == 0 && r.1@.len() == m
            && forall|a: int| 0 <= a < m ==> (#[trigger] r.1@[a])@ == Seq::new(k as nat, |j: int| 'D'),
        final(rng).x == rng_after(old(rng).x, (trials * (m * draws(k as int))) as nat),
        trials >= 1 && m >= 1 ==> r.0 > 0,
        forall|t: int, q: (u32, Vec<Vec<char>>, Vec<usize>)|
            #![trigger trial_ok(v@, h@, ij@, m as int, k as int, q), trial_tables(q.1@, m as int, k as int, old(rng).x, t)]
            0 <= t < trials && trial_ok(v@, h@, ij@, m as int, k as int, q)
                && trial_tables(q.1@, m as int, k as int, old(rng).x, t) ==> q.0 <= r.0,
        r.0 > 0 ==> exists|t: int| 0 <= t < trials && #[trigger] trial_tables(r.1@, m as int, k as int, old(rng).x, t)
            && forall|t2: int, q: (u32, Vec<Vec<char>>, Vec<usize>)|
                #![trigger trial_ok(v@, h@, ij@, m as int, k as int, q), trial_tables(q.1@, m as int, k as int, old(rng).x, t2)]
                0 <= t2 < t && trial_ok(v@, h@, ij@, m as int, k as int, q)
                    && trial_tables(q.1@, m as int, k as int, old(rng).x, t2) ==> q.0 < r.0,
{
    let ghost x0 = rng.x;
    let ghost per = (m * draws(k as int)) as nat;
    let mut tables: Vec<Vec<char>> = Vec::new();
    let mut a: usize = 0;
    while a < m
        invariant
            a <= m,
            tables@.len() == a,
            forall|b: int| 0 <= b < a ==> (#[trigger] tables@[b])@ == Seq::new(k as nat, |j: int| 'D'),
        decreases m - a,
    {
        let mut row: Vec<char> = Vec::new();
        let mut j: usize = 0;
        while j < k
            invariant
                j <= k,
                row@ == Seq::new(j as nat, |c: int| 'D'),
            decreases k - j,
        {
            row.push('D');
            j = j + 1;
            assert(row@ =~= Seq::new(j as nat, |c: int| 'D'));
        }
        tables.push(row);
        a = a + 1;
    }
    let mut best: (u32, Vec<Vec<char>>, Vec<usize>) = (0, tables, Vec::new());
    let mut t: usize = 0;
    while t < trials
        invariant
            grid_ok(v@, h@),
            n == v@.len(),
            k >= 1,
            starts_ok(n as int, ij@, m as int),
            t <= trials,
            per == m * draws(k as int),
            rng.x == rng_after(x0, (t * per) as nat),
            t >= 1 && m >= 1 ==> best.0 > 0,
            forall|t1: int, q: (u32, Vec<Vec<char>>, Vec<usize>)|
                #![trigger trial_ok(v@, h@, ij@, m as int, k as int, q), trial_tables(q.1@, m as int, k as int, x0, t1)]
                0 <= t1 < t && trial_ok(v@, h@, ij@, m as int, k as int, q)
                    && trial_tables(q.1@, m as int, k as int, x0, t1) ==> q.0 <= best.0,
            best.0 > 0 ==> exists|tb: int| 0 <= tb < t && #[trigger] trial_tables(best.1@, m as int, k as int, x0, tb)
                && forall|t2: int, q: (u32, Vec<Vec<char>>, Vec<usize>)|
                    #![trigger trial_ok(v@, h@, ij@, m as int, k as int, q), trial_tables(q.1@, m as int, k as int, x0, t2)]
                    0 <= t2 < tb && trial_ok(v@, h@, ij@, m as int, k as int, q)
                        && trial_tables(q.1@, m as int, k as int, x0, t2) ==> q.0 < best.0,
            best.0 > 0 ==> trial_ok(v@, h@, ij@, m as int, k as int, best),
            best.0 == 0 ==> best.2@.len() == 0 && best.1@.len() == m
                && forall|a: int| 0 <= a < m ==> (#[trigger] best.1@[a])@ == Seq::new(k as nat, |j: int| 'D'),
        decreases trials - t,
    {
        let ghost old_best = best;
        let cand = try_once(n, m, k, ij, v, h, rng);
        let ghost gc = cand;
        proof {
            assert(trial_tables(cand.1@, m as int, k as int, x0, t as int));
            if m >= 1 {
                crate::laws::lemma_trial_score_positive(v@, h@, ij@, m as int, k as int, cand);
            }
            assert forall|q: (u32, Vec<Vec<char>>, Vec<usize>)|
                #![trigger trial_ok(v@, h@, ij@, m as int, k as int, q), trial_tables(q.1@, m as int, k as int, x0, t as int)]
                trial_ok(v@, h@, ij@, m as int, k as int, q) && trial_tables(q.1@, m as int, k as int, x0, t as int)
                implies q.0 == cand.0 by {
                assert(crate::laws::same_tables(q.1@, cand.1@)) by {
                    assert forall|a: int| 0 <= a < q.1@.len() implies (#[trigger] q.1@[a])@ == cand.1@[a]@ by {
                        assert(q.1@[a]@ == shuffled(seed_row(k as int), rng_after(rng_after(x0, (t * per) as nat), (a * draws(k as int)) as nat), k as nat));
                        assert(cand.1@[a]@ == shuffled(seed_row(k as int), rng_after(rng_after(x0, (t * per) as nat), (a * draws(k as int)) as nat), k as nat));
                    }
                }
                crate::laws::law_trial_determined(v@, h@, ij@, m as int, k as int, q, cand);
            }
            assert(m * draws(k as int) >= 0) by (nonlinear_arith);
            lemma_rng_after_add(x0, (t * per) as nat, per);
            assert(t * per + per == (t + 1) * per) by (nonlinear_arith);
            assert(t * per >= 0) by (nonlinear_arith);
        }
        keep_best(&mut best, cand);
        proof {
            if gc.0 > old_best.0 {
                assert(trial_tables(best.1@, m as int, k as int, x0, t as int));
            }
        }
        t = t + 1;
    }
    best
}

} // verus!
