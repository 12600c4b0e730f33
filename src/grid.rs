use vstd::prelude::*;

verus! {

/// Largest supported edge length of the grid.
pub const MAX_N: usize = 30;

/// Wall marker in the wall matrices.
pub const WALL: char = '1';

/// The five direction symbols an agent's command table may hold.
pub open spec fn is_dir(d: char) -> bool {
    d == 'U' || d == 'D' || d == 'L' || d == 'R' || d == 'S'
}

/// Well-formed walls of an `n`×`n` grid with `n == v.len()`: `v` holds the
/// walls between neighbouring columns of each row, `h` those between
/// neighbouring rows of each column.
pub open spec fn grid_ok(v: Seq<Vec<char>>, h: Seq<Vec<char>>) -> bool {
    &&& 1 <= v.len() <= MAX_N
    &&& h.len() + 1 == v.len()
    &&& forall|i: int| 0 <= i < v.len() ==> (#[trigger] v[i])@.len() + 1 == v.len()
    &&& forall|i: int| 0 <= i < h.len() ==> (#[trigger] h[i])@.len() == v.len()
}

pub open spec fn in_grid(n: int, p: (int, int)) -> bool {
    0 <= p.0 < n && 0 <= p.1 < n
}

/// The cell one unit away from `(x, y)` in direction `d`.
pub open spec fn target(x: int, y: int, d: char) -> (int, int) {
    if d == 'U' {
        (x - 1, y)
    } else if d == 'D' {
        (x + 1, y)
    } else if d == 'L' {
        (x, y - 1)
    } else if d == 'R' {
        (x, y + 1)
    } else {
        (x, y)
    }
}

/// Whether a wall lies across the move from `(x, y)` in direction `d`.
pub open spec fn blocked(v: Seq<Vec<char>>, h: Seq<Vec<char>>, x: int, y: int, d: char) -> bool {
    if d == 'U' {
        h[x - 1]@[y] == WALL
    } else if d == 'D' {
        h[x]@[y] == WALL
    } else if d == 'L' {
        v[x]@[y - 1] == WALL
    } else if d == 'R' {
        v[x]@[y] == WALL
    } else {
        false
    }
}

/// Moving from `(x, y)` in direction `d` stays on the grid and crosses no wall.
pub open spec fn can_step(v: Seq<Vec<char>>, h: Seq<Vec<char>>, x: int, y: int, d: char) -> bool {
    in_grid(v.len() as int, target(x, y, d)) && !blocked(v, h, x, y, d)
}

/// Where an agent at `p` ends up after trying direction `d`: blocked moves
/// leave it in place.
pub open spec fn moved(v: Seq<Vec<char>>, h: Seq<Vec<char>>, p: (int, int), d: char) -> (int, int) {
    if can_step(v, h, p.0, p.1, d) {
        target(p.0, p.1, d)
    } else {
        p
    }
}

/// The destination of one step from `(x, y)` in direction `dir`, or `None`
/// where the step would leave the grid or cross a wall.
pub fn try_move(x: usize, y: usize, v: &[Vec<char>], h: &[Vec<char>], dir: char) -> (r: Option<
    (usize, usize),
>)
    requires
        grid_ok(v@, h@),
        x < v@.len(),
        y < v@.len(),
        is_dir(dir),
    ensures
        r.is_some() == can_step(v@, h@, x as int, y as int, dir),
        r matches Some(p) ==> (p.0 as int, p.1 as int) == target(x as int, y as int, dir),
{
    let n = v.len();
    if dir == 'U' {
        if x == 0 || h[x - 1][y] == WALL {
            None
        } else {
            Some((x - 1, y))
        }
    } else if dir == 'D' {
        if x + 1 >= n || h[x][y] == WALL {
            None
        } else {
            Some((x + 1, y))
        }
    } else if dir == 'L' {
        if y == 0 || v[x][y - 1] == WALL {
            None
        } else {
            Some((x, y - 1))
        }
    } else if dir == 'R' {
        if y + 1 >= n || v[x][y] == WALL {
            None
        } else {
            Some((x, y + 1))
        }
    } else {
        Some((x, y))
    }
}

} // verus!
