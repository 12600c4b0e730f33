use vstd::prelude::*;
use crate::grid::{can_step, grid_ok, in_grid, is_dir, moved, try_move};

verus! {

pub open spec fn cell(p: (usize, usize)) -> (int, int) {
    (p.0 as int, p.1 as int)
}

/// Whether bit `j` of the row mask `w` is set.
pub open spec fn bit(w: u32, j: int) -> bool {
    (w >> (j as u32)) & 1u32 == 1u32
}

/// Every command table holds direction symbols only, and every instruction
/// of the program indexes into every table.
pub open spec fn runs_ok(alloc: Seq<Vec<char>>, ops: Seq<usize>) -> bool {
    &&& forall|a: int, i: int|
        0 <= a < alloc.len() && 0 <= i < alloc[a]@.len() ==> is_dir(#[trigger] alloc[a]@[i])
    &&& forall|a: int, t: int| #![trigger alloc[a], ops[t]]
        0 <= a < alloc.len() && 0 <= t < ops.len() ==> ops[t] < alloc[a]@.len()
}

/// All agents start on the grid, one start per command table.
pub open spec fn starts_ok(n: int, ij: Seq<(usize, usize)>, m: int) -> bool {
    ij.len() == m && forall|a: int| 0 <= a < m ==> in_grid(n, cell(#[trigger] ij[a]))
}

/// Position of an agent that starts at `start` and follows `row` under `ops`.
pub open spec fn walk(
    v: Seq<Vec<char>>,
    h: Seq<Vec<char>>,
    start: (int, int),
    row: Seq<char>,
    ops: Seq<usize>,
) -> (int, int)
    decreases ops.len(),
{
    if ops.len() == 0 {
        start
    } else {
        moved(v, h, walk(v, h, start, row, ops.drop_last()), row[ops.last() as int])
    }
}

/// Cells that agent occupies at some step, its start included.
pub open spec fn trail(
    v: Seq<Vec<char>>,
    h: Seq<Vec<char>>,
    start: (int, int),
    row: Seq<char>,
    ops: Seq<usize>,
) -> Set<(int, int)>
    decreases ops.len(),
{
    if ops.len() == 0 {
        set![start]
    } else {
        trail(v, h, start, row, ops.drop_last()).insert(walk(v, h, start, row, ops))
    }
}

/// Cells visited by the first `a` agents.
pub open spec fn covered(
    v: Seq<Vec<char>>,
    h: Seq<Vec<char>>,
    ij: Seq<(usize, usize)>,
    alloc: Seq<Vec<char>>,
    ops: Seq<usize>,
    a: int,
) -> Set<(int, int)>
    decreases a,
{
    if a <= 0 {
        Set::empty()
    } else {
        covered(v, h, ij, alloc, ops, a - 1).union(
            trail(v, h, cell(ij[a - 1]), alloc[a - 1]@, ops),
        )
    }
}

/// Cells visited by some agent at some step of `ops`.
pub open spec fn visited(
    v: Seq<Vec<char>>,
    h: Seq<Vec<char>>,
    ij: Seq<(usize, usize)>,
    alloc: Seq<Vec<char>>,
    ops: Seq<usize>,
) -> Set<(int, int)> {
    covered(v, h, ij, alloc, ops, alloc.len() as int)
}

/// `bb` holds one mask per row, bit `y` of row `x` set exactly for `(x, y)` in `s`.
pub open spec fn board_of(bb: Seq<u32>, n: int, s: Set<(int, int)>) -> bool {
    &&& bb.len() == n
    &&& forall|x: int, y: int|
        0 <= x < n && 0 <= y < 32 ==> (#[trigger] bit(bb[x], y) <==> s.contains((x, y)))
}

pub proof fn lemma_walk_in_grid(
    v: Seq<Vec<char>>,
    h: Seq<Vec<char>>,
    start: (int, int),
    row: Seq<char>,
    ops: Seq<usize>,
)
    requires
        in_grid(v.len() as int, start),
    ensures
        in_grid(v.len() as int, walk(v, h, start, row, ops)),
        forall|c: (int, int)| #[trigger] trail(v, h, start, row, ops).contains(c) ==> in_grid(v.len() as int, c),
    decreases ops.len(),
{
    if ops.len() > 0 {
        let prev = ops.drop_last();
        lemma_walk_in_grid(v, h, start, row, prev);
        let p = walk(v, h, start, row, prev);
        let d = row[ops.last() as int];
        assert(in_grid(v.len() as int, moved(v, h, p, d)));
        assert forall|c: (int, int)| #[trigger] trail(v, h, start, row, ops).contains(c) implies in_grid(v.len() as int, c) by {
            if c != walk(v, h, start, row, ops) {
                assert(trail(v, h, start, row, prev).contains(c));
            }
        }
    }
}

proof fn lemma_set_bit(w: u32, y: u32, j: u32)
    requires
        y < 32,
        j < 32,
    ensures
        ((w | (1u32 << y)) >> j) & 1u32 == 1u32 <==> ((w >> j) & 1u32 == 1u32 || j == y),
{
    assert(((w | (1u32 << y)) >> j) & 1u32 == 1u32 <==> ((w >> j) & 1u32 == 1u32 || j == y))
        by (bit_vector)
        requires y < 32u32, j < 32u32;
}

proof fn lemma_zero_bit(j: u32)
    ensures
        (0u32 >> j) & 1u32 != 1u32,
{
    assert((0u32 >> j) & 1u32 != 1u32) by (bit_vector);
}

fn mark(bb: &mut Vec<u32>, x: usize, y: usize, Ghost(s): Ghost<Set<(int, int)>>)
    requires
        board_of(old(bb)@, old(bb)@.len() as int, s),
        x < old(bb)@.len(),
        y < 32,
    ensures
        board_of(final(bb)@, old(bb)@.len() as int, s.insert((x as int, y as int))),
{
    let ghost n = bb@.len() as int;
    let ghost old_bb = bb@;
    let w = bb[x];
    bb.set(x, w | (1u32 << (y as u32)));
    assert forall|x2: int, y2: int| 0 <= x2 < n && 0 <= y2 < 32 implies (#[trigger] bit(
        bb@[x2],
        y2,
    ) <==> s.insert((x as int, y as int)).contains((x2, y2))) by {
        assert(bit(old_bb[x2], y2) <==> s.contains((x2, y2)));
        if x2 == x {
            lemma_set_bit(w, y as u32, y2 as u32);
        }
    }
}

/// Replays `ops` for every agent from its start: returns the per-row masks of
/// visited cells and each agent's final position.
pub fn calc_bitboard(
    ij: &[(usize, usize)],
    v: &[Vec<char>],
    h: &[Vec<char>],
    alloc: &[Vec<char>],
    ops: &[usize],
) -> (r: (Vec<u32>, Vec<(usize, usize)>))
    requires
        grid_ok(v@, h@),
        starts_ok(v@.len() as int, ij@, alloc@.len() as int),
        runs_ok(alloc@, ops@),
    ensures
        board_of(r.0@, v@.len() as int, visited(v@, h@, ij@, alloc@, ops@)),
        r.1@.len() == alloc@.len(),
        forall|a: int|
            0 <= a < alloc@.len() ==> cell(#[trigger] r.1@[a]) == walk(
                v@,
                h@,
                cell(ij@[a]),
                alloc@[a]@,
                ops@,
            ),
{
    let n = v.len();
    let mut bitboard: Vec<u32> = Vec::new();
    let mut r: usize = 0;
    while r < n
        invariant
            r <= n,
            bitboard@.len() == r,
            forall|x: int| 0 <= x < r ==> bitboard@[x] == 0,
        decreases n - r,
    {
        bitboard.push(0);
        r = r + 1;
    }
    assert forall|x: int, y: int| 0 <= x < n && 0 <= y < 32 implies !#[trigger] bit(
        bitboard@[x],
        y,
    ) by {
        lemma_zero_bit(y as u32);
    }
    assert(board_of(bitboard@, n as int, covered(v@, h@, ij@, alloc@, ops@, 0)));
    let mut pts: Vec<(usize, usize)> = Vec::new();
    let mut i: usize = 0;
    while i < alloc.len()
        invariant
            grid_ok(v@, h@),
            n == v@.len(),
            starts_ok(n as int, ij@, alloc@.len() as int),
            runs_ok(alloc@, ops@),
            i <= alloc@.len(),
            board_of(bitboard@, n as int, covered(v@, h@, ij@, alloc@, ops@, i as int)),
            pts@.len() == i,
            forall|a: int|
                0 <= a < i ==> cell(#[trigger] pts@[a]) == walk(
                    v@,
                    h@,
                    cell(ij@[a]),
                    alloc@[a]@,
                    ops@,
                ),
        decreases alloc@.len() - i,
    {
        let row = &alloc[i];
        let (mut x, mut y) = ij[i];
        let ghost start = cell(ij@[i as int]);
        let ghost before = covered(v@, h@, ij@, alloc@, ops@, i as int);
        mark(&mut bitboard, x, y, Ghost(before));
        assert(trail(v@, h@, start, row@, ops@.take(0)) =~= set![start]);
        assert(before.insert(start) =~= before.union(trail(v@, h@, start, row@, ops@.take(0))));
        let mut t: usize = 0;
        while t < ops.len()
            invariant
                grid_ok(v@, h@),
                n == v@.len(),
                runs_ok(alloc@, ops@),
                i < alloc@.len(),
                row == alloc@[i as int],
                t <= ops@.len(),
                x < n,
                y < n,
                (x as int, y as int) == walk(v@, h@, start, row@, ops@.take(t as int)),
                board_of(
                    bitboard@,
                    n as int,
                    before.union(trail(v@, h@, start, row@, ops@.take(t as int))),
                ),
            decreases ops@.len() - t,
        {
            let o = ops[t];
            assert(o < row@.len()) by {
                assert(ops@[t as int] < alloc@[i as int]@.len());
            }
            let letter = row[o];
            assert(is_dir(letter)) by {
                assert(is_dir(alloc@[i as int]@[o as int]));
            }
            if let Some((nx, ny)) = try_move(x, y, v, h, letter) {
                x = nx;
                y = ny;
            }
            let ghost tr = trail(v@, h@, start, row@, ops@.take(t as int));
            assert(ops@.take(t + 1).drop_last() =~= ops@.take(t as int));
            mark(&mut bitboard, x, y, Ghost(before.union(tr)));
            t = t + 1;
            assert(before.union(tr).insert((x as int, y as int)) =~= before.union(
                trail(v@, h@, start, row@, ops@.take(t as int)),
            ));
        }
        assert(ops@.take(ops@.len() as int) =~= ops@);
        pts.push((x, y));
        i = i + 1;
    }
    (bitboard, pts)
}

} // verus!
