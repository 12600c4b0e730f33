use vstd::prelude::*;
use vstd::set_lib::{lemma_int_range, lemma_len_subset, set_int_range};
use crate::grid::{can_step, grid_ok, in_grid, target, try_move};
use crate::trail::{bit, cell};

verus! {

/// Distance recorded for a cell from which no unvisited cell can be reached.
pub const FAR: i32 = 1000;

/// The four moving directions, in the order the search expands them.
pub open spec fn dir_at(j: int) -> char {
    if j == 0 {
        'U'
    } else if j == 1 {
        'D'
    } else if j == 2 {
        'L'
    } else {
        'R'
    }
}

pub open spec fn opposite(d: char) -> char {
    if d == 'U' {
        'D'
    } else if d == 'D' {
        'U'
    } else if d == 'L' {
        'R'
    } else {
        'L'
    }
}

pub open spec fn unvisited(bb: Seq<u32>, p: (int, int)) -> bool {
    !bit(bb[p.0], p.1)
}

/// Some unvisited cell lies within `k` wall-respecting moves of `p`.
pub open spec fn near(v: Seq<Vec<char>>, h: Seq<Vec<char>>, bb: Seq<u32>, p: (int, int), k: nat) -> bool
    decreases k,
{
    unvisited(bb, p) || (k > 0 && (
        (can_step(v, h, p.0, p.1, 'U') && near(v, h, bb, target(p.0, p.1, 'U'), (k - 1) as nat))
        || (can_step(v, h, p.0, p.1, 'D') && near(v, h, bb, target(p.0, p.1, 'D'), (k - 1) as nat))
        || (can_step(v, h, p.0, p.1, 'L') && near(v, h, bb, target(p.0, p.1, 'L'), (k - 1) as nat))
        || (can_step(v, h, p.0, p.1, 'R') && near(v, h, bb, target(p.0, p.1, 'R'), (k - 1) as nat))))
}

/// `val` is the least number of moves from `p` to an unvisited cell, or
/// `FAR` where none can be reached at all.
pub open spec fn is_dist(v: Seq<Vec<char>>, h: Seq<Vec<char>>, bb: Seq<u32>, p: (int, int), val: int) -> bool {
    if val == FAR {
        forall|k: nat| !#[trigger] near(v, h, bb, p, k)
    } else {
        0 <= val && near(v, h, bb, p, val as nat) && (val == 0 || !near(v, h, bb, p, (val - 1) as nat))
    }
}

pub open spec fn label(dist: Seq<Vec<i32>>, p: (int, int)) -> int {
    dist[p.0]@[p.1] as int
}

pub open spec fn square(dist: Seq<Vec<i32>>, n: int) -> bool {
    dist.len() == n && forall|x: int| 0 <= x < n ==> (#[trigger] dist[x])@.len() == n
}

pub proof fn lemma_near_succ(v: Seq<Vec<char>>, h: Seq<Vec<char>>, bb: Seq<u32>, p: (int, int), a: nat)
    requires
        near(v, h, bb, p, a),
    ensures
        near(v, h, bb, p, a + 1),
    decreases a,
{
    if !unvisited(bb, p) {
        let b = (a - 1) as nat;
        if can_step(v, h, p.0, p.1, 'U') && near(v, h, bb, target(p.0, p.1, 'U'), b) {
            lemma_near_succ(v, h, bb, target(p.0, p.1, 'U'), b);
        } else if can_step(v, h, p.0, p.1, 'D') && near(v, h, bb, target(p.0, p.1, 'D'), b) {
            lemma_near_succ(v, h, bb, target(p.0, p.1, 'D'), b);
        } else if can_step(v, h, p.0, p.1, 'L') && near(v, h, bb, target(p.0, p.1, 'L'), b) {
            lemma_near_succ(v, h, bb, target(p.0, p.1, 'L'), b);
        } else {
            lemma_near_succ(v, h, bb, target(p.0, p.1, 'R'), b);
        }
    }
}

pub proof fn lemma_near_mono(v: Seq<Vec<char>>, h: Seq<Vec<char>>, bb: Seq<u32>, p: (int, int), a: nat, b: nat)
    requires
        a <= b,
        near(v, h, bb, p, a),
    ensures
        near(v, h, bb, p, b),
    decreases b - a,
{
    if a < b {
        lemma_near_succ(v, h, bb, p, a);
        lemma_near_mono(v, h, bb, p, a + 1, b);
    }
}

/// A step towards a cell within `k` moves puts the start within `k + 1`.
proof fn lemma_near_via(v: Seq<Vec<char>>, h: Seq<Vec<char>>, bb: Seq<u32>, p: (int, int), j: int, k: nat)
    requires
        0 <= j < 4,
        can_step(v, h, p.0, p.1, dir_at(j)),
        near(v, h, bb, target(p.0, p.1, dir_at(j)), k),
    ensures
        near(v, h, bb, p, k + 1),
{
}

/// Walls look the same from both sides.
proof fn lemma_back(v: Seq<Vec<char>>, h: Seq<Vec<char>>, p: (int, int), j: int)
    requires
        grid_ok(v, h),
        in_grid(v.len() as int, p),
        0 <= j < 4,
        can_step(v, h, p.0, p.1, dir_at(j)),
    ensures
        ({
            let q = target(p.0, p.1, dir_at(j));
            let jb = if j % 2 == 0 { j + 1 } else { j - 1 };
            &&& 0 <= jb < 4
            &&& dir_at(jb) == opposite(dir_at(j))
            &&& can_step(v, h, q.0, q.1, dir_at(jb))
            &&& target(q.0, q.1, dir_at(jb)) == p
        }),
{
}

pub proof fn lemma_index(n: int, p: (int, int), q: (int, int))
    requires
        in_grid(n, p),
        in_grid(n, q),
    ensures
        0 <= key(n as int, p) < n * n,
        key(n as int, p) == key(n as int, q) ==> p == q,
{
    assert(0 <= p.0 * n + p.1 < n * n) by (nonlinear_arith)
        requires 0 <= p.0 < n, 0 <= p.1 < n;
    assert(p.0 * n + p.1 == q.0 * n + q.1 ==> p.0 == q.0) by (nonlinear_arith)
        requires 0 <= p.0 < n, 0 <= p.1 < n, 0 <= q.0 < n, 0 <= q.1 < n;
}

/// Every labelled cell holds its exact distance, which is at most `top`.
pub open spec fn exact_upto(v: Seq<Vec<char>>, h: Seq<Vec<char>>, bb: Seq<u32>, dist: Seq<Vec<i32>>, top: int) -> bool {
    forall|p: (int, int)| #![trigger label(dist, p)] in_grid(v.len() as int, p) ==> {
        let val = label(dist, p);
        val == FAR || (0 <= val <= top && near(v, h, bb, p, val as nat) && (val == 0 || !near(v, h, bb, p, (val - 1) as nat)))
    }
}

/// Every cell within `d` moves of an unvisited cell is labelled.
pub open spec fn complete_at(v: Seq<Vec<char>>, h: Seq<Vec<char>>, bb: Seq<u32>, dist: Seq<Vec<i32>>, d: int) -> bool {
    forall|p: (int, int)| #![trigger label(dist, p)]
        in_grid(v.len() as int, p) && near(v, h, bb, p, d as nat) ==> label(dist, p) != FAR
}

/// `cells` lists exactly the cells labelled `val`.
pub open spec fn listed(dist: Seq<Vec<i32>>, cells: Seq<(usize, usize)>, n: int, val: int) -> bool {
    &&& forall|j: int| #![trigger cells[j]]
        0 <= j < cells.len() ==> in_grid(n, cell(cells[j])) && label(dist, cell(cells[j])) == val
    &&& forall|p: (int, int)| #![trigger label(dist, p)]
        in_grid(n, p) && label(dist, p) == val ==> in_list(cells, p)
}

pub open spec fn in_list(cells: Seq<(usize, usize)>, p: (int, int)) -> bool {
    exists|j: int| 0 <= j < cells.len() && cell(cells[j]) == p
}

pub proof fn lemma_in_list_push(cells: Seq<(usize, usize)>, c: (usize, usize))
    ensures
        in_list(cells.push(c), cell(c)),
        forall|p: (int, int)| in_list(cells, p) ==> #[trigger] in_list(cells.push(c), p),
{
    assert(cell(cells.push(c)[cells.len() as int]) == cell(c));
    assert forall|p: (int, int)| in_list(cells, p) implies #[trigger] in_list(cells.push(c), p) by {
        let j = choose|j: int| 0 <= j < cells.len() && cell(cells[j]) == p;
        assert(cell(cells.push(c)[j]) == p);
    }
}

/// The open neighbours of the first `i` cells of `cells` are labelled.
pub open spec fn expanded(v: Seq<Vec<char>>, h: Seq<Vec<char>>, dist: Seq<Vec<i32>>, cells: Seq<(usize, usize)>, i: int) -> bool {
    forall|j: int, e: int| #![trigger cells[j], dir_at(e)]
        0 <= j < i && 0 <= e < 4 && can_step(v, h, cells[j].0 as int, cells[j].1 as int, dir_at(e))
            ==> label(dist, target(cells[j].0 as int, cells[j].1 as int, dir_at(e))) != FAR
}

/// `lab` holds the index `x * n + y` of each labelled cell `(x, y)`.
/// Row-major index of a cell.
pub open spec fn key(n: int, p: (int, int)) -> int {
    p.0 * n + p.1
}

pub open spec fn tally(dist: Seq<Vec<i32>>, lab: Set<int>, n: int) -> bool {
    &&& lab.finite()
    &&& forall|k: int| lab.contains(k) ==> 0 <= k < n * n
    &&& forall|p: (int, int)| #![trigger label(dist, p)]
        in_grid(n, p) ==> (label(dist, p) != FAR <==> lab.contains(key(n as int, p)))
}

proof fn lemma_neighbour_labelled(
    v: Seq<Vec<char>>, h: Seq<Vec<char>>, bb: Seq<u32>, dist: Seq<Vec<i32>>,
    frontier: Seq<(usize, usize)>, d: int, p: (int, int), e: int,
)
    requires
        grid_ok(v, h),
        bb.len() == v.len(),
        square(dist, v.len() as int),
        d >= 0,
        exact_upto(v, h, bb, dist, d + 1),
        complete_at(v, h, bb, dist, d),
        listed(dist, frontier, v.len() as int, d),
        expanded(v, h, dist, frontier, frontier.len() as int),
        in_grid(v.len() as int, p),
        0 <= e < 4,
        can_step(v, h, p.0, p.1, dir_at(e)),
        near(v, h, bb, target(p.0, p.1, dir_at(e)), d as nat),
    ensures
        label(dist, p) != FAR,
{
    let n = v.len() as int;
    let q = target(p.0, p.1, dir_at(e));
    assert(label(dist, q) != FAR);
    let vq = label(dist, q);
    if vq < d {
        lemma_near_via(v, h, bb, p, e, vq as nat);
        lemma_near_mono(v, h, bb, p, (vq + 1) as nat, d as nat);
        assert(label(dist, p) != FAR);
    } else if vq == d {
        assert(in_list(frontier, q));
        let j = choose|j: int| 0 <= j < frontier.len() && cell(frontier[j]) == q;
        lemma_back(v, h, p, e);
        let jb = if e % 2 == 0 { e + 1 } else { e - 1 };
        assert(cell(frontier[j]) == q);
        assert(label(dist, target(frontier[j].0 as int, frontier[j].1 as int, dir_at(jb))) != FAR);
    }
}

proof fn lemma_level_done(
    v: Seq<Vec<char>>, h: Seq<Vec<char>>, bb: Seq<u32>, dist: Seq<Vec<i32>>,
    frontier: Seq<(usize, usize)>, d: int,
)
    requires
        grid_ok(v, h),
        bb.len() == v.len(),
        square(dist, v.len() as int),
        d >= 0,
        exact_upto(v, h, bb, dist, d + 1),
        complete_at(v, h, bb, dist, d),
        listed(dist, frontier, v.len() as int, d),
        expanded(v, h, dist, frontier, frontier.len() as int),
    ensures
        complete_at(v, h, bb, dist, d + 1),
{
    let n = v.len() as int;
    assert forall|p: (int, int)| #![trigger label(dist, p)]
        in_grid(n, p) && near(v, h, bb, p, (d + 1) as nat) implies label(dist, p) != FAR by {
        if !near(v, h, bb, p, d as nat) {
            let b = d as nat;
            if can_step(v, h, p.0, p.1, 'U') && near(v, h, bb, target(p.0, p.1, 'U'), b) {
                lemma_neighbour_labelled(v, h, bb, dist, frontier, d, p, 0);
            } else if can_step(v, h, p.0, p.1, 'D') && near(v, h, bb, target(p.0, p.1, 'D'), b) {
                lemma_neighbour_labelled(v, h, bb, dist, frontier, d, p, 1);
            } else if can_step(v, h, p.0, p.1, 'L') && near(v, h, bb, target(p.0, p.1, 'L'), b) {
                lemma_neighbour_labelled(v, h, bb, dist, frontier, d, p, 2);
            } else {
                lemma_neighbour_labelled(v, h, bb, dist, frontier, d, p, 3);
            }
        }
    }
}

/// Once a level `d` is empty, nothing beyond the labelled cells is near.
proof fn lemma_unreached(
    v: Seq<Vec<char>>, h: Seq<Vec<char>>, bb: Seq<u32>, dist: Seq<Vec<i32>>, d: int, p: (int, int), k: nat,
)
    requires
        grid_ok(v, h),
        bb.len() == v.len(),
        square(dist, v.len() as int),
        d >= 0,
        exact_upto(v, h, bb, dist, d),
        complete_at(v, h, bb, dist, d),
        forall|q: (int, int)| #![trigger label(dist, q)] in_grid(v.len() as int, q) ==> label(dist, q) != d,
        in_grid(v.len() as int, p),
        near(v, h, bb, p, k),
    ensures
        label(dist, p) != FAR,
    decreases k,
{
    if k <= d {
        lemma_near_mono(v, h, bb, p, k, d as nat);
        assert(label(dist, p) != FAR);
    } else if unvisited(bb, p) {
        assert(near(v, h, bb, p, d as nat));
        assert(label(dist, p) != FAR);
    } else {
        let b = (k - 1) as nat;
        let e: int = if can_step(v, h, p.0, p.1, 'U') && near(v, h, bb, target(p.0, p.1, 'U'), b) {
            0
        } else if can_step(v, h, p.0, p.1, 'D') && near(v, h, bb, target(p.0, p.1, 'D'), b) {
            1
        } else if can_step(v, h, p.0, p.1, 'L') && near(v, h, bb, target(p.0, p.1, 'L'), b) {
            2
        } else {
            3
        };
        let q = target(p.0, p.1, dir_at(e));
        lemma_unreached(v, h, bb, dist, d, q, b);
        let vq = label(dist, q);
        assert(vq != FAR);
        assert(vq < d);
        lemma_near_via(v, h, bb, p, e, vq as nat);
        lemma_near_mono(v, h, bb, p, (vq + 1) as nat, d as nat);
        assert(label(dist, p) != FAR);
    }
}

fn set_label(dist: &mut Vec<Vec<i32>>, x: usize, y: usize, val: i32)
    requires
        x < old(dist)@.len(),
        y < old(dist)@[x as int]@.len(),
    ensures
        final(dist)@.len() == old(dist)@.len(),
        forall|r: int| 0 <= r < old(dist)@.len() ==> (#[trigger] final(dist)@[r])@.len() == old(dist)@[r]@.len(),
        forall|p: (int, int)| #![trigger label(final(dist)@, p)]
            0 <= p.0 < old(dist)@.len() && 0 <= p.1 < old(dist)@[p.0]@.len()
            ==> label(final(dist)@, p) == if p == (x as int, y as int) { val as int } else { label(old(dist)@, p) },
{
    dist[x].set(y, val);
}

/// Breadth-first distances from every cell to the nearest cell whose bit in
/// `bitboard` is clear, moving through the grid without crossing walls;
/// `FAR` where no such cell can be reached.
pub fn calc_distance(v: &[Vec<char>], h: &[Vec<char>], bitboard: &[u32]) -> (dist: Vec<Vec<i32>>)
    requires
        grid_ok(v@, h@),
        bitboard@.len() == v@.len(),
    ensures
        square(dist@, v@.len() as int),
        forall|p: (int, int)| #![trigger label(dist@, p)]
            in_grid(v@.len() as int, p) ==> is_dist(v@, h@, bitboard@, p, label(dist@, p)),
{
    let n = v.len();
    let ghost bb = bitboard@;
    let mut dist: Vec<Vec<i32>> = Vec::new();
    let mut frontier: Vec<(usize, usize)> = Vec::new();
    let ghost mut lab: Set<int> = Set::empty();
    let mut x: usize = 0;
    while x < n
        invariant
            grid_ok(v@, h@),
            n == v@.len(),
            bb == bitboard@,
            bb.len() == n,
            x <= n,
            dist@.len() == x,
            forall|r: int| 0 <= r < x ==> (#[trigger] dist@[r])@.len() == n,
            forall|p: (int, int)| #![trigger label(dist@, p)] 0 <= p.0 < x && 0 <= p.1 < n
                ==> label(dist@, p) == if unvisited(bb, p) { 0int } else { FAR as int },
            forall|j: int| #![trigger frontier@[j]] 0 <= j < frontier@.len()
                ==> 0 <= frontier@[j].0 < x && frontier@[j].1 < n && unvisited(bb, cell(frontier@[j])),
            forall|p: (int, int)| #![trigger in_list(frontier@, p)] 0 <= p.0 < x && 0 <= p.1 < n && unvisited(bb, p)
                ==> in_list(frontier@, p),
            lab.finite(),
            forall|k: int| lab.contains(k) ==> 0 <= k < n * n,
            forall|p: (int, int)| #![trigger label(dist@, p)] 0 <= p.0 < x && 0 <= p.1 < n
                ==> (label(dist@, p) != FAR <==> lab.contains(key(n as int, p))),
            forall|p: (int, int)| #![trigger lab.contains(key(n as int, p))] x <= p.0 < n && 0 <= p.1 < n
                ==> !lab.contains(key(n as int, p)),
            lab.len() == frontier@.len(),
        decreases n - x,
    {
        let mut row: Vec<i32> = Vec::new();
        let mut y: usize = 0;
        while y < n
            invariant
                grid_ok(v@, h@),
                n == v@.len(),
                bb == bitboard@,
                bb.len() == n,
                x < n,
                y <= n,
                dist@.len() == x,
                forall|r: int| 0 <= r < x ==> (#[trigger] dist@[r])@.len() == n,
                forall|p: (int, int)| #![trigger label(dist@, p)] 0 <= p.0 < x && 0 <= p.1 < n
                    ==> label(dist@, p) == if unvisited(bb, p) { 0int } else { FAR as int },
                row@.len() == y,
                forall|c: int| #![trigger row@[c]] 0 <= c < y
                    ==> row@[c] as int == if unvisited(bb, (x as int, c)) { 0int } else { FAR as int },
                forall|j: int| #![trigger frontier@[j]] 0 <= j < frontier@.len()
                    ==> ((0 <= frontier@[j].0 < x && frontier@[j].1 < n) || (frontier@[j].0 == x && frontier@[j].1 < y))
                        && unvisited(bb, cell(frontier@[j])),
                forall|p: (int, int)| #![trigger in_list(frontier@, p)]
                    ((0 <= p.0 < x && 0 <= p.1 < n) || (p.0 == x && 0 <= p.1 < y)) && unvisited(bb, p)
                    ==> in_list(frontier@, p),
                lab.finite(),
                forall|k: int| lab.contains(k) ==> 0 <= k < n * n,
                forall|p: (int, int)| #![trigger label(dist@, p)] 0 <= p.0 < x && 0 <= p.1 < n
                    ==> (label(dist@, p) != FAR <==> lab.contains(key(n as int, p))),
                forall|c: int| #![trigger row@[c]] 0 <= c < y
                    ==> (row@[c] != FAR <==> lab.contains(key(n as int, (x as int, c)))),
                forall|p: (int, int)| #![trigger lab.contains(key(n as int, p))]
                    ((x < p.0 < n && 0 <= p.1 < n) || (p.0 == x && y <= p.1 < n)) ==> !lab.contains(key(n as int, p)),
                lab.len() == frontier@.len(),
            decreases n - y,
        {
            if (bitboard[x] >> (y as u32)) & 1u32 != 1u32 {
                row.push(0);
                proof {
                    let k = key(n as int, (x as int, y as int));
                    lemma_index(n as int, (x as int, y as int), (x as int, y as int));
                    assert forall|p: (int, int)| #![trigger lab.contains(key(n as int, p))]
                        0 <= p.0 < n && 0 <= p.1 < n && p != (x as int, y as int) implies key(n as int, p) != k by {
                        lemma_index(n as int, p, (x as int, y as int));
                    }
                    assert(!lab.contains(key(n as int, (x as int, y as int))));
                    lab = lab.insert(k);
                }
                proof {
                    lemma_in_list_push(frontier@, (x, y));
                }
                frontier.push((x, y));
            } else {
                assert(!lab.contains(key(n as int, (x as int, y as int))));
                row.push(FAR);
            }
            y = y + 1;
        }
        let ghost old_dist = dist@;
        dist.push(row);
        proof {
            assert forall|p: (int, int)| #![trigger label(dist@, p)] 0 <= p.0 <= x && 0 <= p.1 < n implies
                label(dist@, p) == if unvisited(bb, p) { 0int } else { FAR as int } by {
                if p.0 == x {
                    assert(row@[p.1] == dist@[p.0]@[p.1]);
                } else {
                    assert(label(old_dist, p) == label(dist@, p));
                }
            }
            assert forall|p: (int, int)| #![trigger label(dist@, p)] 0 <= p.0 <= x && 0 <= p.1 < n implies
                (label(dist@, p) != FAR <==> lab.contains(key(n as int, p))) by {
                if p.0 == x {
                    assert(row@[p.1] == dist@[p.0]@[p.1]);
                    assert(p == (x as int, p.1));
                } else {
                    assert(label(old_dist, p) == label(dist@, p));
                }
            }
        }
        x = x + 1;
    }
    proof {
        assert forall|p: (int, int)| #![trigger label(dist@, p)] in_grid(n as int, p) && label(dist@, p) == 0
            implies in_list(frontier@, p) by {
            assert(unvisited(bb, p));
        }
        assert forall|p: (int, int)| #![trigger label(dist@, p)] in_grid(n as int, p)
            && near(v@, h@, bb, p, 0) implies label(dist@, p) != FAR by {
        }
        assert(listed(dist@, frontier@, n as int, 0));
        assert(frontier@.len() > 0 ==> 0 < lab.len());
        lemma_int_range(0, n * n);
        lemma_len_subset(lab, set_int_range(0, n * n));
        assert(n * n <= 900) by (nonlinear_arith)
            requires n <= 30;
    }
    let mut d: i32 = 0;
    while frontier.len() > 0
        invariant
            grid_ok(v@, h@),
            n == v@.len(),
            bb == bitboard@,
            bb.len() == n,
            square(dist@, n as int),
            0 <= d,
            exact_upto(v@, h@, bb, dist@, d as int),
            complete_at(v@, h@, bb, dist@, d as int),
            listed(dist@, frontier@, n as int, d as int),
            tally(dist@, lab, n as int),
            frontier@.len() > 0 ==> d < lab.len(),
            lab.len() <= n * n,
        decreases n * n - lab.len(), frontier@.len(),
    {
        let ghost lab0 = lab;
        proof {
            assert(n * n <= 900) by (nonlinear_arith)
                requires n <= 30;
        }
        let mut next: Vec<(usize, usize)> = Vec::new();
        let mut i: usize = 0;
        while i < frontier.len()
            invariant
                grid_ok(v@, h@),
                n == v@.len(),
                bb == bitboard@,
                bb.len() == n,
                square(dist@, n as int),
                0 <= d,
                d + 1 < FAR,
                exact_upto(v@, h@, bb, dist@, d + 1),
                complete_at(v@, h@, bb, dist@, d as int),
                listed(dist@, frontier@, n as int, d as int),
                listed(dist@, next@, n as int, d + 1),
                expanded(v@, h@, dist@, frontier@, i as int),
                tally(dist@, lab, n as int),
                lab.len() == lab0.len() + next@.len(),
                d < lab0.len(),
                i <= frontier@.len(),
            decreases frontier@.len() - i,
        {
            let (x, y) = frontier[i];
            assert(in_grid(n as int, cell(frontier@[i as int])));
            assert(label(dist@, (x as int, y as int)) == d);
            let mut e: usize = 0;
            while e < 4
                invariant
                    grid_ok(v@, h@),
                    n == v@.len(),
                    bb == bitboard@,
                    bb.len() == n,
                    square(dist@, n as int),
                    0 <= d,
                    d + 1 < FAR,
                    exact_upto(v@, h@, bb, dist@, d + 1),
                    complete_at(v@, h@, bb, dist@, d as int),
                    listed(dist@, frontier@, n as int, d as int),
                    listed(dist@, next@, n as int, d + 1),
                    expanded(v@, h@, dist@, frontier@, i as int),
                    tally(dist@, lab, n as int),
                    lab.len() == lab0.len() + next@.len(),
                    d < lab0.len(),
                    i < frontier@.len(),
                    frontier@[i as int] == (x, y),
                    x < n,
                    y < n,
                    label(dist@, (x as int, y as int)) == d,
                    e <= 4,
                    forall|e2: int| #![trigger dir_at(e2)] 0 <= e2 < e && can_step(v@, h@, x as int, y as int, dir_at(e2))
                        ==> label(dist@, target(x as int, y as int, dir_at(e2))) != FAR,
                decreases 4 - e,
            {
                let dir = if e == 0 {
                    'U'
                } else if e == 1 {
                    'D'
                } else if e == 2 {
                    'L'
                } else {
                    'R'
                };
                assert(dir == dir_at(e as int));
                if let Some((nx, ny)) = try_move(x, y, v, h, dir) {
                    if dist[nx][ny] == FAR {
                        let ghost q = (nx as int, ny as int);
                        let ghost old_dist = dist@;
                        let ghost old_next = next@;
                        proof {
                            assert(label(dist@, q) == FAR);
                            lemma_back(v@, h@, (x as int, y as int), e as int);
                            let jb = if e % 2 == 0 { e + 1 } else { e - 1 };
                            assert(near(v@, h@, bb, (x as int, y as int), d as nat));
                            lemma_near_via(v@, h@, bb, q, jb as int, d as nat);
                            assert(!near(v@, h@, bb, q, d as nat));
                            lemma_index(n as int, q, q);
                            assert forall|p: (int, int)| in_grid(n as int, p) && p != q implies key(n as int, p) != key(n as int, q) by {
                                lemma_index(n as int, p, q);
                            }
                            assert(!lab.contains(key(n as int, q)));
                            lab = lab.insert(key(n as int, q));
                        }
                        set_label(&mut dist, nx, ny, d + 1);
                        next.push((nx, ny));
                        proof {
                            lemma_in_list_push(old_next, (nx, ny));
                            assert forall|p: (int, int)| #![trigger label(dist@, p)]
                                in_grid(n as int, p) && label(dist@, p) == d + 1
                                implies in_list(next@, p) by {
                                if p != q {
                                    assert(label(old_dist, p) == d + 1);
                                }
                            }
                            assert forall|p: (int, int)| #![trigger label(dist@, p)]
                                in_grid(n as int, p) && label(dist@, p) == d
                                implies in_list(frontier@, p) by {
                                assert(label(old_dist, p) == d);
                            }
                            assert forall|p: (int, int)| #![trigger label(dist@, p)]
                                in_grid(n as int, p) && near(v@, h@, bb, p, d as nat) implies label(dist@, p) != FAR by {
                                assert(label(old_dist, p) != FAR);
                            }
                            assert forall|j: int, e2: int| #![trigger frontier@[j], dir_at(e2)]
                                0 <= j < i && 0 <= e2 < 4 && can_step(v@, h@, frontier@[j].0 as int, frontier@[j].1 as int, dir_at(e2))
                                implies label(dist@, target(frontier@[j].0 as int, frontier@[j].1 as int, dir_at(e2))) != FAR by {
                                assert(label(old_dist, target(frontier@[j].0 as int, frontier@[j].1 as int, dir_at(e2))) != FAR);
                            }
                        }
                    }
                }
                e = e + 1;
            }
            i = i + 1;
        }
        proof {
            lemma_level_done(v@, h@, bb, dist@, frontier@, d as int);
            lemma_int_range(0, n * n);
            lemma_len_subset(lab, set_int_range(0, n * n));
        }
        frontier = next;
        d = d + 1;
    }
    proof {
        assert forall|p: (int, int)| #![trigger label(dist@, p)]
            in_grid(n as int, p) implies is_dist(v@, h@, bb, p, label(dist@, p)) by {
            if label(dist@, p) == FAR {
                assert forall|k: nat| !#[trigger] near(v@, h@, bb, p, k) by {
                    if near(v@, h@, bb, p, k) {
                        lemma_unreached(v@, h@, bb, dist@, d as int, p, k);
                    }
                }
            }
        }
    }
    dist
}

} // verus!
