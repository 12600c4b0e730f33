use vstd::prelude::*;
use crate::grid::{in_grid, MAX_N};
use vstd::set_lib::{lemma_int_range, lemma_len_subset, set_int_range};
use crate::trail::cell;
use crate::field::{in_list, key, lemma_in_list_push, lemma_index};

verus! {

/// Marker of a cell that no agent has entered.
pub const NONE: usize = usize::MAX;

/// A problem instance: edge length `N`, `M` agents starting at `ps`, command
/// tables of `K` slots; `wall_v[i][j]` separates `(i, j)` from `(i, j + 1)`,
/// `wall_h[i][j]` separates `(i, j)` from `(i + 1, j)`.
#[allow(non_snake_case)]
#[derive(Clone, Debug)]
pub struct Input {
    pub N: usize,
    pub M: usize,
    pub K: usize,
    pub ps: Vec<(usize, usize)>,
    pub wall_v: Vec<Vec<bool>>,
    pub wall_h: Vec<Vec<bool>>,
}

/// A submitted answer: `cs[c][a]` is the direction index (`U`, `D`, `L`,
/// `R`, `S` as 0 to 4) of agent `a` under instruction `c`; `actions` is the
/// program.
pub struct Output {
    pub cs: Vec<Vec<usize>>,
    pub actions: Vec<usize>,
}

/// Agents' positions after a replay, and for each cell the last agent that
/// entered it (`NONE` for none).
#[derive(Clone, Debug)]
pub struct State {
    pub ps: Vec<(usize, usize)>,
    pub used: Vec<Vec<usize>>,
}

pub open spec fn input_ok(input: Input) -> bool {
    let n = input.N as int;
    &&& 1 <= n <= MAX_N
    &&& input.wall_v@.len() == n
    &&& forall|i: int| 0 <= i < n ==> (#[trigger] input.wall_v@[i])@.len() == n - 1
    &&& input.wall_h@.len() == n - 1
    &&& forall|i: int| 0 <= i < n - 1 ==> (#[trigger] input.wall_h@[i])@.len() == n
    &&& input.ps@.len() == input.M
    &&& forall|a: int| 0 <= a < input.M ==> in_grid(n, cell(#[trigger] input.ps@[a]))
}

/// `out` fits `input`, and its first `t` actions can be replayed.
pub open spec fn output_ok(input: Input, out: Output, t: int) -> bool {
    &&& out.cs@.len() == input.K
    &&& forall|c: int| 0 <= c < input.K ==> (#[trigger] out.cs@[c])@.len() == input.M
    &&& forall|c: int, a: int| 0 <= c < input.K && 0 <= a < input.M ==> #[trigger] out.cs@[c]@[a] < 5
    &&& 0 <= t <= out.actions@.len()
    &&& forall|s: int| 0 <= s < t ==> #[trigger] out.actions@[s] < input.K
}

/// The cell one unit from `p` in direction index `d`.
pub open spec fn shift(p: (int, int), d: int) -> (int, int) {
    if d == 0 {
        (p.0 - 1, p.1)
    } else if d == 1 {
        (p.0 + 1, p.1)
    } else if d == 2 {
        (p.0, p.1 - 1)
    } else if d == 3 {
        (p.0, p.1 + 1)
    } else {
        p
    }
}

/// Direction index `d` may be taken from `p`: staying always may, a move
/// must stay on the grid and cross no wall.
pub open spec fn passable(input: Input, p: (int, int), d: int) -> bool {
    let q = shift(p, d);
    d == 4 || (in_grid(input.N as int, q) && !(
        if d == 0 {
            input.wall_h@[q.0]@[q.1]
        } else if d == 1 {
            input.wall_h@[p.0]@[p.1]
        } else if d == 2 {
            input.wall_v@[q.0]@[q.1]
        } else {
            input.wall_v@[p.0]@[p.1]
        }))
}

/// Position of agent `a` after the first `s` actions.
pub open spec fn agent_at(input: Input, out: Output, a: int, s: nat) -> (int, int)
    decreases s,
{
    if s == 0 {
        cell(input.ps@[a])
    } else {
        let p = agent_at(input, out, a, (s - 1) as nat);
        let d = out.cs@[out.actions@[s - 1] as int]@[a] as int;
        if passable(input, p, d) {
            shift(p, d)
        } else {
            p
        }
    }
}

/// Agent `a` stands on `c` after some `s <= t` actions.
pub open spec fn visits(input: Input, out: Output, a: int, c: (int, int), t: int) -> bool {
    exists|s: nat| s <= t && #[trigger] agent_at(input, out, a, s) == c
}

/// Some agent stands on `c` after some `s <= t` actions.
pub open spec fn seen(input: Input, out: Output, c: (int, int), t: int) -> bool {
    exists|a: int| 0 <= a < input.M && #[trigger] visits(input, out, a, c, t)
}

/// Cells of the first `c` columns of row `x` that `seen` leaves out.
pub open spec fn row_missing(input: Input, out: Output, t: int, x: int, c: int) -> int
    decreases c,
{
    if c <= 0 {
        0
    } else {
        row_missing(input, out, t, x, c - 1) + if seen(input, out, (x, c - 1), t) { 0int } else { 1int }
    }
}

/// Cells of the first `r` rows that `seen` leaves out.
pub open spec fn missing(input: Input, out: Output, t: int, r: int) -> int
    decreases r,
{
    if r <= 0 {
        0
    } else {
        missing(input, out, t, r - 1) + row_missing(input, out, t, r - 1, input.N as int)
    }
}

/// Score after `t` actions: `3·N² − t` with every cell visited, else the
/// number of visited cells.
pub open spec fn audit_score(input: Input, out: Output, t: int) -> int {
    let n = input.N as int;
    let rem = missing(input, out, t, n);
    if rem == 0 {
        3 * n * n - t
    } else {
        n * n - rem
    }
}

/// Whether direction index `dir` may be taken from `(i, j)`.
pub fn can_move(input: &Input, p: (usize, usize), dir: usize) -> (r: bool)
    requires
        input_ok(*input),
        in_grid(input.N as int, cell(p)),
        dir < 5,
    ensures
        r == passable(*input, cell(p), dir as int),
{
    let (i, j) = p;
    let n = input.N;
    if dir == 4 {
        true
    } else if dir == 0 {
        i > 0 && !input.wall_h[i - 1][j]
    } else if dir == 1 {
        i + 1 < n && !input.wall_h[i][j]
    } else if dir == 2 {
        j > 0 && !input.wall_v[i][j - 1]
    } else {
        j + 1 < n && !input.wall_v[i][j]
    }
}

/// `c` is seen after `s` actions, or is where one of the first `i` agents
/// stands after action `s + 1`.
pub open spec fn seen_part(input: Input, out: Output, s: nat, i: int, c: (int, int)) -> bool {
    seen(input, out, c, s as int) || exists|a: int| 0 <= a < i && #[trigger] agent_at(input, out, a, s + 1) == c
}

/// The mark `a` left on `c` is explained by the replay so far.
pub open spec fn mark_part(input: Input, out: Output, s: nat, i: int, a: int, c: (int, int)) -> bool {
    0 <= a < input.M && (visits(input, out, a, c, s as int) || (a < i && agent_at(input, out, a, s + 1) == c))
}

pub open spec fn grid_of(used: Seq<Vec<usize>>, n: int) -> bool {
    used.len() == n && forall|x: int| 0 <= x < n ==> (#[trigger] used[x])@.len() == n
}

pub open spec fn mark(used: Seq<Vec<usize>>, c: (int, int)) -> usize {
    used[c.0]@[c.1]
}

/// The marks agree with `seen_part`, and each names an agent that explains it.
pub open spec fn marks_ok(input: Input, out: Output, used: Seq<Vec<usize>>, s: nat, i: int) -> bool {
    forall|c: (int, int)| #![trigger mark(used, c)] in_grid(input.N as int, c) ==> {
        &&& (mark(used, c) != NONE <==> seen_part(input, out, s, i, c))
        &&& (mark(used, c) != NONE ==> mark_part(input, out, s, i, mark(used, c) as int, c))
    }
}

proof fn lemma_visits_next(input: Input, out: Output, a: int, c: (int, int), s: nat)
    ensures
        visits(input, out, a, c, (s + 1) as int) <==> (visits(input, out, a, c, s as int) || agent_at(input, out, a, s + 1) == c),
{
    if visits(input, out, a, c, (s + 1) as int) && agent_at(input, out, a, s + 1) != c {
        let s2 = choose|s2: nat| s2 <= s + 1 && #[trigger] agent_at(input, out, a, s2) == c;
        assert(s2 <= s);
    }
    if agent_at(input, out, a, s + 1) == c {
        assert(visits(input, out, a, c, (s + 1) as int));
    }
}

/// Marks covering a whole step of all agents are the marks after one more action.
proof fn lemma_step_done(input: Input, out: Output, used: Seq<Vec<usize>>, s: nat)
    requires
        marks_ok(input, out, used, s, input.M as int),
    ensures
        marks_ok(input, out, used, s + 1, 0),
{
    assert forall|c: (int, int)| #![trigger mark(used, c)] in_grid(input.N as int, c) implies {
        &&& (mark(used, c) != NONE <==> seen_part(input, out, s + 1, 0, c))
        &&& (mark(used, c) != NONE ==> mark_part(input, out, s + 1, 0, mark(used, c) as int, c))
    } by {
        if mark(used, c) != NONE {
            let a = mark(used, c) as int;
            lemma_visits_next(input, out, a, c, s);
            assert(visits(input, out, a, c, (s + 1) as int));
        }
        if seen(input, out, c, (s + 1) as int) {
            let a = choose|a: int| 0 <= a < input.M && #[trigger] visits(input, out, a, c, (s + 1) as int);
            lemma_visits_next(input, out, a, c, s);
            if !visits(input, out, a, c, s as int) {
                assert(agent_at(input, out, a, s + 1) == c);
            }
        }
        if seen_part(input, out, s, input.M as int, c) {
            if seen(input, out, c, s as int) {
                let a = choose|a: int| 0 <= a < input.M && #[trigger] visits(input, out, a, c, s as int);
                lemma_visits_next(input, out, a, c, s);
            } else {
                let a = choose|a: int| 0 <= a < input.M && #[trigger] agent_at(input, out, a, s + 1) == c;
                lemma_visits_next(input, out, a, c, s);
            }
        }
    }
}

fn set_mark(used: &mut Vec<Vec<usize>>, x: usize, y: usize, val: usize)
    requires
        x < old(used)@.len(),
        y < old(used)@[x as int]@.len(),
    ensures
        final(used)@.len() == old(used)@.len(),
        forall|r: int| 0 <= r < old(used)@.len() ==> (#[trigger] final(used)@[r])@.len() == old(used)@[r]@.len(),
        forall|c: (int, int)| #![trigger mark(final(used)@, c)]
            0 <= c.0 < old(used)@.len() && 0 <= c.1 < old(used)@[c.0]@.len()
            ==> mark(final(used)@, c) == if c == (x as int, y as int) { val } else { mark(old(used)@, c) },
{
    used[x].set(y, val);
}

proof fn lemma_missing_bounds(input: Input, out: Output, t: int, r: int)
    requires
        0 <= r,
        input.N <= MAX_N,
    ensures
        0 <= missing(input, out, t, r) <= r * input.N,
    decreases r,
{
    if r > 0 {
        lemma_missing_bounds(input, out, t, r - 1);
        lemma_row_missing_bounds(input, out, t, r - 1, input.N as int);
        assert((r - 1) * input.N + input.N == r * input.N) by (nonlinear_arith);
    }
}

proof fn lemma_row_missing_bounds(input: Input, out: Output, t: int, x: int, c: int)
    requires
        0 <= c,
    ensures
        0 <= row_missing(input, out, t, x, c) <= c,
    decreases c,
{
    if c > 0 {
        lemma_row_missing_bounds(input, out, t, x, c - 1);
    }
}

/// Replays the first `t` actions of `out`: returns the score after them, an
/// empty message, and the agents' positions with the last visitor of each cell.
pub fn compute_score_details(input: &Input, out: &Output, t: usize) -> (r: (i64, String, State))
    requires
        input_ok(*input),
        output_ok(*input, *out, t as int),
        t <= 3 * input.N * input.N,
    ensures
        r.0 == audit_score(*input, *out, t as int),
        r.1@.len() == 0,
        r.2.ps@.len() == input.M,
        forall|a: int| 0 <= a < input.M ==> cell(#[trigger] r.2.ps@[a]) == agent_at(*input, *out, a, t as nat),
        grid_of(r.2.used@, input.N as int),
        forall|c: (int, int)| #![trigger mark(r.2.used@, c)] in_grid(input.N as int, c) ==> {
            &&& (mark(r.2.used@, c) != NONE <==> seen(*input, *out, c, t as int))
            &&& (mark(r.2.used@, c) != NONE ==> mark(r.2.used@, c) < input.M
                && visits(*input, *out, mark(r.2.used@, c) as int, c, t as int))
        },
{
    let n = input.N;
    let m = input.M;
    let ghost inp = *input;
    let ghost o = *out;
    let mut used: Vec<Vec<usize>> = Vec::new();
    let mut x: usize = 0;
    while x < n
        invariant
            x <= n,
            used@.len() == x,
            forall|r: int| 0 <= r < x ==> (#[trigger] used@[r])@.len() == n,
            forall|c: (int, int)| #![trigger mark(used@, c)] 0 <= c.0 < x && 0 <= c.1 < n ==> mark(used@, c) == NONE,
        decreases n - x,
    {
        let mut row: Vec<usize> = Vec::new();
        let mut y: usize = 0;
        while y < n
            invariant
                y <= n,
                row@.len() == y,
                forall|c: int| 0 <= c < y ==> #[trigger] row@[c] == NONE,
            decreases n - y,
        {
            row.push(NONE);
            y = y + 1;
        }
        let ghost before = used@;
        used.push(row);
        assert forall|c: (int, int)| #![trigger mark(used@, c)] 0 <= c.0 <= x && 0 <= c.1 < n implies mark(used@, c) == NONE by {
            if c.0 < x {
                assert(mark(before, c) == NONE);
            } else {
                assert(row@[c.1] == NONE);
            }
        }
        x = x + 1;
    }
    let mut ps: Vec<(usize, usize)> = Vec::new();
    let mut i: usize = 0;
    while i < m
        invariant
            input_ok(inp),
            inp == *input,
            n == inp.N,
            m == inp.M,
            i <= m,
            grid_of(used@, n as int),
            ps@.len() == i,
            forall|a: int| 0 <= a < i ==> #[trigger] ps@[a] == inp.ps@[a],
            forall|c: (int, int)| #![trigger mark(used@, c)] in_grid(n as int, c) ==> {
                &&& (mark(used@, c) != NONE <==> exists|a: int| 0 <= a < i && #[trigger] cell(inp.ps@[a]) == c)
                &&& (mark(used@, c) != NONE ==> mark(used@, c) < i && cell(inp.ps@[mark(used@, c) as int]) == c)
            },
        decreases m - i,
    {
        let p = input.ps[i];
        assert(in_grid(n as int, cell(inp.ps@[i as int])));
        let ghost before = used@;
        set_mark(&mut used, p.0, p.1, i);
        assert forall|c: (int, int)| #![trigger mark(used@, c)] in_grid(n as int, c) implies {
            &&& (mark(used@, c) != NONE <==> exists|a: int| 0 <= a < i + 1 && #[trigger] cell(inp.ps@[a]) == c)
            &&& (mark(used@, c) != NONE ==> mark(used@, c) < i + 1 && cell(inp.ps@[mark(used@, c) as int]) == c)
        } by {
            assert(mark(before, c) != NONE <==> exists|a: int| 0 <= a < i && #[trigger] cell(inp.ps@[a]) == c);
            if c == cell(p) {
                assert(cell(inp.ps@[i as int]) == c);
            }
        }
        ps.push(p);
        i = i + 1;
    }
    proof {
        assert forall|c: (int, int)| #![trigger mark(used@, c)] in_grid(n as int, c) implies {
            &&& (mark(used@, c) != NONE <==> seen_part(inp, o, 0, 0, c))
            &&& (mark(used@, c) != NONE ==> mark_part(inp, o, 0, 0, mark(used@, c) as int, c))
        } by {
            if mark(used@, c) != NONE {
                let a = mark(used@, c) as int;
                assert(agent_at(inp, o, a, 0) == c);
                assert(visits(inp, o, a, c, 0));
            }
            if seen(inp, o, c, 0) {
                let a = choose|a: int| 0 <= a < inp.M && #[trigger] visits(inp, o, a, c, 0);
                let s2 = choose|s2: nat| s2 <= 0 && #[trigger] agent_at(inp, o, a, s2) == c;
                assert(cell(inp.ps@[a]) == c);
            }
        }
    }
    let mut s: usize = 0;
    while s < t
        invariant
            input_ok(inp),
            output_ok(inp, o, t as int),
            inp == *input,
            o == *out,
            n == inp.N,
            m == inp.M,
            s <= t,
            grid_of(used@, n as int),
            ps@.len() == m,
            forall|a: int| 0 <= a < m ==> cell(#[trigger] ps@[a]) == agent_at(inp, o, a, s as nat),
            marks_ok(inp, o, used@, s as nat, 0),
        decreases t - s,
    {
        let act = out.actions[s];
        let mut i: usize = 0;
        while i < m
            invariant
                input_ok(inp),
                output_ok(inp, o, t as int),
                inp == *input,
                o == *out,
                n == inp.N,
                m == inp.M,
                s < t,
                act == o.actions@[s as int],
                i <= m,
                grid_of(used@, n as int),
                ps@.len() == m,
                forall|a: int| 0 <= a < m ==> cell(#[trigger] ps@[a]) == agent_at(inp, o, a, if a < i { (s + 1) as nat } else { s as nat }),
                marks_ok(inp, o, used@, s as nat, i as int),
            decreases m - i,
        {
            let dir = out.cs[act][i];
            let p = ps[i];
            proof {
                assert(o.cs@[act as int]@[i as int] < 5);
                assert(cell(ps@[i as int]) == agent_at(inp, o, i as int, s as nat));
                crate::audit::lemma_agent_in_grid(inp, o, i as int, s as nat, t as int);
            }
            let ghost before = used@;
            if can_move(input, p, dir) {
                let q = if dir == 0 {
                    (p.0 - 1, p.1)
                } else if dir == 1 {
                    (p.0 + 1, p.1)
                } else if dir == 2 {
                    (p.0, p.1 - 1)
                } else if dir == 3 {
                    (p.0, p.1 + 1)
                } else {
                    p
                };
                ps.set(i, q);
                set_mark(&mut used, q.0, q.1, i);
            } else {
                set_mark(&mut used, p.0, p.1, i);
            }
            proof {
                let here = agent_at(inp, o, i as int, (s + 1) as nat);
                assert(cell(ps@[i as int]) == here);
                assert forall|c: (int, int)| #![trigger mark(used@, c)] in_grid(n as int, c) implies {
                    &&& (mark(used@, c) != NONE <==> seen_part(inp, o, s as nat, i + 1, c))
                    &&& (mark(used@, c) != NONE ==> mark_part(inp, o, s as nat, i + 1, mark(used@, c) as int, c))
                } by {
                    assert(mark(before, c) != NONE <==> seen_part(inp, o, s as nat, i as int, c));
                    if c == here {
                        assert(agent_at(inp, o, i as int, (s + 1) as nat) == c);
                    } else if seen_part(inp, o, s as nat, i + 1, c) && !seen(inp, o, c, s as int) {
                        let a = choose|a: int| 0 <= a < i + 1 && #[trigger] agent_at(inp, o, a, (s + 1) as nat) == c;
                        assert(a < i);
                    }
                }
            }
            i = i + 1;
        }
        proof {
            lemma_step_done(inp, o, used@, s as nat);
        }
        s = s + 1;
    }
    let mut rem: usize = 0;
    let mut x: usize = 0;
    while x < n
        invariant
            input_ok(inp),
            inp == *input,
            o == *out,
            n == inp.N,
            x <= n,
            grid_of(used@, n as int),
            marks_ok(inp, o, used@, t as nat, 0),
            rem == missing(inp, o, t as int, x as int),
            rem <= x * n,
        decreases n - x,
    {
        let mut y: usize = 0;
        let ghost base = rem as int;
        proof {
            assert(x * n + n <= n * n && n * n <= 900) by (nonlinear_arith)
                requires x < n, n <= 30;
        }
        while y < n
            invariant
                input_ok(inp),
                inp == *input,
                o == *out,
                n == inp.N,
                x < n,
                y <= n,
                grid_of(used@, n as int),
                marks_ok(inp, o, used@, t as nat, 0),
                base == missing(inp, o, t as int, x as int),
                base <= x * n,
                x * n + n <= 900,
                rem == base + row_missing(inp, o, t as int, x as int, y as int),
                rem <= base + y,
            decreases n - y,
        {
            assert(mark(used@, (x as int, y as int)) == used@[x as int]@[y as int]);
            assert(seen_part(inp, o, t as nat, 0, (x as int, y as int)) == seen(inp, o, (x as int, y as int), t as int));
            if used[x][y] == NONE {
                rem = rem + 1;
            }
            y = y + 1;
        }
        proof {
            assert(x * n + n == (x + 1) * n) by (nonlinear_arith);
        }
        x = x + 1;
    }
    proof {
        assert(n * n <= 900 && 3 * n * n <= 2700) by (nonlinear_arith)
            requires n <= 30;
        assert forall|c: (int, int)| #![trigger mark(used@, c)] in_grid(n as int, c) implies
            (mark(used@, c) != NONE <==> seen(inp, o, c, t as int)) by {
            assert(seen_part(inp, o, t as nat, 0, c) == seen(inp, o, c, t as int));
        }
    }
    let score: i64 = if rem == 0 {
        (3 * n * n - t) as i64
    } else {
        (n * n - rem) as i64
    };
    (score, String::new(), State { ps, used })
}

proof fn lemma_agent_in_grid(input: Input, out: Output, a: int, s: nat, t: int)
    requires
        input_ok(input),
        output_ok(input, out, t),
        s <= t,
        0 <= a < input.M,
    ensures
        in_grid(input.N as int, agent_at(input, out, a, s)),
    decreases s,
{
    if s > 0 {
        lemma_agent_in_grid(input, out, a, (s - 1) as nat, t);
    }
}

/// Score of a whole answer, with an empty message.
pub fn compute_score(input: &Input, out: &Output) -> (r: (i64, String))
    requires
        input_ok(*input),
        output_ok(*input, *out, out.actions@.len() as int),
        out.actions@.len() <= 3 * input.N * input.N,
    ensures
        r.0 == audit_score(*input, *out, out.actions@.len() as int),
        r.1@.len() == 0,
{
    let (mut score, err, _) = compute_score_details(input, out, out.actions.len());
    if !err.as_str().is_empty() {
        score = 0;
    }
    (score, err)
}

/// `p` reaches cell `(0, 0)` in at most `k` moves.
pub open spec fn linked(input: Input, p: (int, int), k: nat) -> bool
    decreases k,
{
    p == (0int, 0int) || (k > 0 && (
        (passable(input, p, 0) && linked(input, shift(p, 0), (k - 1) as nat))
        || (passable(input, p, 1) && linked(input, shift(p, 1), (k - 1) as nat))
        || (passable(input, p, 2) && linked(input, shift(p, 2), (k - 1) as nat))
        || (passable(input, p, 3) && linked(input, shift(p, 3), (k - 1) as nat))))
}

/// Every cell of the grid reaches `(0, 0)`.
pub open spec fn connected(input: Input) -> bool {
    forall|p: (int, int)| #![trigger in_grid(input.N as int, p)]
        in_grid(input.N as int, p) ==> exists|k: nat| #[trigger] linked(input, p, k)
}

pub open spec fn flag(seen: Seq<Vec<bool>>, p: (int, int)) -> bool {
    seen[p.0]@[p.1]
}

/// Walls look the same from both sides.
proof fn lemma_passable_back(input: Input, p: (int, int), d: int)
    requires
        input_ok(input),
        in_grid(input.N as int, p),
        0 <= d < 4,
        passable(input, p, d),
    ensures
        ({
            let q = shift(p, d);
            let b = if d % 2 == 0 { d + 1 } else { d - 1 };
            &&& 0 <= b < 4
            &&& in_grid(input.N as int, q)
            &&& passable(input, q, b)
            &&& shift(q, b) == p
        }),
{
}

/// A set of cells that holds `(0, 0)` and every open neighbour of its
/// members holds every cell linked to `(0, 0)`.
proof fn lemma_closed_holds_linked(input: Input, seen: Seq<Vec<bool>>, p: (int, int), k: nat)
    requires
        input_ok(input),
        grid_of_flags(seen, input.N as int),
        flag(seen, (0, 0)),
        forall|c: (int, int), d: int| #![trigger flag(seen, c), shift(c, d)]
            in_grid(input.N as int, c) && flag(seen, c) && 0 <= d < 4 && passable(input, c, d)
            ==> flag(seen, shift(c, d)),
        in_grid(input.N as int, p),
        linked(input, p, k),
    ensures
        flag(seen, p),
    decreases k,
{
    if p != (0int, 0int) {
        let b = (k - 1) as nat;
        let d: int = if passable(input, p, 0) && linked(input, shift(p, 0), b) {
            0
        } else if passable(input, p, 1) && linked(input, shift(p, 1), b) {
            1
        } else if passable(input, p, 2) && linked(input, shift(p, 2), b) {
            2
        } else {
            3
        };
        let q = shift(p, d);
        lemma_passable_back(input, p, d);
        lemma_closed_holds_linked(input, seen, q, b);
        let back = if d % 2 == 0 { d + 1 } else { d - 1 };
        assert(flag(seen, shift(q, back)));
    }
}

pub open spec fn grid_of_flags(seen: Seq<Vec<bool>>, n: int) -> bool {
    seen.len() == n && forall|x: int| 0 <= x < n ==> (#[trigger] seen[x])@.len() == n
}

fn set_flag(seen: &mut Vec<Vec<bool>>, x: usize, y: usize)
    requires
        x < old(seen)@.len(),
        y < old(seen)@[x as int]@.len(),
    ensures
        final(seen)@.len() == old(seen)@.len(),
        forall|r: int| 0 <= r < old(seen)@.len() ==> (#[trigger] final(seen)@[r])@.len() == old(seen)@[r]@.len(),
        forall|c: (int, int)| #![trigger flag(final(seen)@, c)]
            0 <= c.0 < old(seen)@.len() && 0 <= c.1 < old(seen)@[c.0]@.len()
            ==> flag(final(seen)@, c) == (c == (x as int, y as int) || flag(old(seen)@, c)),
{
    seen[x].set(y, true);
}

/// Whether every cell can reach every other without crossing a wall, found
/// by a depth-first search from `(0, 0)`.
pub fn is_connected(input: &Input) -> (r: bool)
    requires
        input_ok(*input),
    ensures
        r == connected(*input),
{
    let n = input.N;
    let ghost inp = *input;
    let mut seen: Vec<Vec<bool>> = Vec::new();
    let mut x: usize = 0;
    while x < n
        invariant
            x <= n,
            seen@.len() == x,
            forall|r: int| 0 <= r < x ==> (#[trigger] seen@[r])@.len() == n,
            forall|c: (int, int)| #![trigger flag(seen@, c)] 0 <= c.0 < x && 0 <= c.1 < n ==> !flag(seen@, c),
        decreases n - x,
    {
        let mut row: Vec<bool> = Vec::new();
        let mut y: usize = 0;
        while y < n
            invariant
                y <= n,
                row@.len() == y,
                forall|c: int| 0 <= c < y ==> !#[trigger] row@[c],
            decreases n - y,
        {
            row.push(false);
            y = y + 1;
        }
        let ghost before = seen@;
        seen.push(row);
        assert forall|c: (int, int)| #![trigger flag(seen@, c)] 0 <= c.0 <= x && 0 <= c.1 < n implies !flag(seen@, c) by {
            if c.0 < x {
                assert(!flag(before, c));
            } else {
                assert(!row@[c.1]);
            }
        }
        x = x + 1;
    }
    set_flag(&mut seen, 0, 0);
    let mut stack: Vec<(usize, usize)> = Vec::new();
    stack.push((0, 0));
    let ghost mut lab: Set<int> = set![0int];
    proof {
        assert(linked(inp, (0, 0), 0));
        assert(n * n >= 1) by (nonlinear_arith)
            requires n >= 1;
        lemma_index(n as int, (0, 0), (0, 0));
        assert forall|c: (int, int)| #![trigger flag(seen@, c)] in_grid(n as int, c)
            implies (flag(seen@, c) <==> lab.contains(key(n as int, c))) by {
            lemma_index(n as int, c, (0, 0));
        }
        assert(in_list(stack@, (0, 0))) by {
            assert(cell(stack@[0]) == (0int, 0int));
        }
        assert(lab.len() == 1);
    }
    while stack.len() > 0
        invariant
            input_ok(inp),
            inp == *input,
            n == inp.N,
            grid_of_flags(seen@, n as int),
            flag(seen@, (0, 0)),
            forall|j: int| 0 <= j < stack@.len() ==> in_grid(n as int, cell(#[trigger] stack@[j]))
                && flag(seen@, cell(stack@[j])),
            forall|c: (int, int)| #![trigger flag(seen@, c)] in_grid(n as int, c) && flag(seen@, c)
                ==> exists|k: nat| #[trigger] linked(inp, c, k),
            forall|c: (int, int), d: int| #![trigger flag(seen@, c), shift(c, d)]
                in_grid(n as int, c) && flag(seen@, c) && 0 <= d < 4 && passable(inp, c, d) && !flag(seen@, shift(c, d))
                ==> in_list(stack@, c),
            lab.finite(),
            forall|k: int| lab.contains(k) ==> 0 <= k < n * n,
            forall|c: (int, int)| #![trigger flag(seen@, c)] in_grid(n as int, c)
                ==> (flag(seen@, c) <==> lab.contains(key(n as int, c))),
            lab.len() <= n * n,
        decreases n * n - lab.len(), stack@.len(),
    {
        let ghost lab0 = lab;
        let ghost st0 = stack@;
        let p = stack.pop().unwrap();
        let ghost c0 = cell(p);
        proof {
            assert(st0 == stack@.push(p));
            assert(flag(seen@, cell(st0[st0.len() - 1])));
            assert(cell(st0[st0.len() - 1]) == c0);
            assert forall|c: (int, int)| in_list(st0, c) && c != c0 implies in_list(stack@, c) by {
                let j = choose|j: int| 0 <= j < st0.len() && cell(st0[j]) == c;
                assert(j < stack@.len());
                assert(cell(stack@[j]) == c);
            }
        }
        let mut d: usize = 0;
        while d < 4
            invariant
                input_ok(inp),
                inp == *input,
                n == inp.N,
                in_grid(n as int, c0),
                c0 == cell(p),
                grid_of_flags(seen@, n as int),
                flag(seen@, (0, 0)),
                flag(seen@, c0),
                d <= 4,
                forall|j: int| 0 <= j < stack@.len() ==> in_grid(n as int, cell(#[trigger] stack@[j]))
                    && flag(seen@, cell(stack@[j])),
                forall|c: (int, int)| #![trigger flag(seen@, c)] in_grid(n as int, c) && flag(seen@, c)
                    ==> exists|k: nat| #[trigger] linked(inp, c, k),
                forall|c: (int, int), e: int| #![trigger flag(seen@, c), shift(c, e)]
                    in_grid(n as int, c) && flag(seen@, c) && 0 <= e < 4 && passable(inp, c, e) && !flag(seen@, shift(c, e))
                    ==> in_list(stack@, c) || (c == c0 && e >= d),
                lab.finite(),
                forall|k: int| lab.contains(k) ==> 0 <= k < n * n,
                forall|c: (int, int)| #![trigger flag(seen@, c)] in_grid(n as int, c)
                    ==> (flag(seen@, c) <==> lab.contains(key(n as int, c))),
                lab0.subset_of(lab),
                lab.len() == lab0.len() + (stack@.len() - st0.len() + 1),
                stack@.len() + 1 >= st0.len(),
            decreases 4 - d,
        {
            if can_move(input, p, d) {
                let q = if d == 0 {
                    (p.0 - 1, p.1)
                } else if d == 1 {
                    (p.0 + 1, p.1)
                } else if d == 2 {
                    (p.0, p.1 - 1)
                } else {
                    (p.0, p.1 + 1)
                };
                proof {
                    lemma_passable_back(inp, c0, d as int);
                }
                if !seen[q.0][q.1] {
                    let ghost cq = cell(q);
                    let ghost old_seen = seen@;
                    let ghost old_stack = stack@;
                    proof {
                        assert(!flag(seen@, cq));
                        let k = choose|k: nat| #[trigger] linked(inp, c0, k);
                        let back = if d % 2 == 0 { d + 1 } else { d - 1 };
                        assert(linked(inp, cq, k + 1));
                        lemma_index(n as int, cq, cq);
                        assert forall|c: (int, int)| in_grid(n as int, c) && c != cq implies key(n as int, c) != key(n as int, cq) by {
                            lemma_index(n as int, c, cq);
                        }
                        assert(!lab.contains(key(n as int, cq)));
                        lab = lab.insert(key(n as int, cq));
                    }
                    set_flag(&mut seen, q.0, q.1);
                    stack.push(q);
                    proof {
                        lemma_in_list_push(old_stack, q);
                        assert forall|c: (int, int)| #![trigger flag(seen@, c)] in_grid(n as int, c) && flag(seen@, c)
                            implies exists|k: nat| #[trigger] linked(inp, c, k) by {
                            if c != cq {
                                assert(flag(old_seen, c));
                            } else {
                                let k = choose|k: nat| #[trigger] linked(inp, c0, k);
                                assert(linked(inp, cq, k + 1));
                            }
                        }
                        assert forall|c: (int, int), e: int| #![trigger flag(seen@, c), shift(c, e)]
                            in_grid(n as int, c) && flag(seen@, c) && 0 <= e < 4 && passable(inp, c, e) && !flag(seen@, shift(c, e))
                            implies in_list(stack@, c) || (c == c0 && e >= d + 1) by {
                            if c == cq {
                                assert(in_list(stack@, cq));
                            } else {
                                assert(flag(old_seen, c));
                                assert(!flag(old_seen, shift(c, e)));
                            }
                        }
                        assert forall|c: (int, int)| #![trigger flag(seen@, c)] in_grid(n as int, c)
                            implies (flag(seen@, c) <==> lab.contains(key(n as int, c))) by {
                            if c != cq {
                                assert(flag(old_seen, c) <==> flag(seen@, c));
                            }
                        }
                    }
                }
            }
            d = d + 1;
        }
        proof {
            lemma_int_range(0, n * n);
            lemma_len_subset(lab, set_int_range(0, n * n));
        }
    }
    proof {
        assert forall|c: (int, int), e: int| #![trigger flag(seen@, c), shift(c, e)]
            in_grid(n as int, c) && flag(seen@, c) && 0 <= e < 4 && passable(inp, c, e)
            implies flag(seen@, shift(c, e)) by {
            if !flag(seen@, shift(c, e)) {
                assert(in_list(stack@, c));
            }
        }
    }
    let mut all = true;
    let mut x: usize = 0;
    while x < n
        invariant
            input_ok(inp),
            inp == *input,
            n == inp.N,
            x <= n,
            grid_of_flags(seen@, n as int),
            all == forall|c: (int, int)| 0 <= c.0 < x && 0 <= c.1 < n ==> #[trigger] flag(seen@, c),
        decreases n - x,
    {
        let mut y: usize = 0;
        let ghost before = all;
        while y < n
            invariant
                x < n,
                y <= n,
                n == inp.N,
                grid_of_flags(seen@, n as int),
                before == forall|c: (int, int)| 0 <= c.0 < x && 0 <= c.1 < n ==> #[trigger] flag(seen@, c),
                all == (before && forall|c: int| 0 <= c < y ==> #[trigger] flag(seen@, (x as int, c))),
            decreases n - y,
        {
            assert(flag(seen@, (x as int, y as int)) == seen@[x as int]@[y as int]);
            if !seen[x][y] {
                all = false;
            }
            y = y + 1;
        }
        proof {
            if all {
                assert forall|c: (int, int)| 0 <= c.0 <= x && 0 <= c.1 < n implies #[trigger] flag(seen@, c) by {
                    if c.0 == x {
                        assert(flag(seen@, (x as int, c.1)));
                    }
                }
            } else if before {
                let c = choose|c: int| 0 <= c < n && !#[trigger] flag(seen@, (x as int, c));
                assert(!flag(seen@, (x as int, c)));
            }
        }
        x = x + 1;
    }
    proof {
        if all {
            assert forall|p: (int, int)| in_grid(n as int, p) implies exists|k: nat| #[trigger] linked(inp, p, k) by {
                assert(flag(seen@, p));
            }
        } else {
            let c = choose|c: (int, int)| !(0 <= c.0 < n && 0 <= c.1 < n ==> #[trigger] flag(seen@, c));
            assert(in_grid(n as int, c));
            if connected(inp) {
                let k = choose|k: nat| #[trigger] linked(inp, c, k);
                lemma_closed_holds_linked(inp, seen@, c, k);
            }
        }
    }
    all
}

proof fn lemma_row_missing_zero(input: Input, out: Output, t: int, x: int, c: int)
    requires
        0 <= c,
        forall|y: int| 0 <= y < c ==> #[trigger] seen(input, out, (x, y), t),
    ensures
        row_missing(input, out, t, x, c) == 0,
    decreases c,
{
    if c > 0 {
        lemma_row_missing_zero(input, out, t, x, c - 1);
    }
}

proof fn lemma_missing_zero(input: Input, out: Output, t: int, r: int)
    requires
        0 <= r <= input.N,
        forall|p: (int, int)| in_grid(input.N as int, p) ==> #[trigger] seen(input, out, p, t),
    ensures
        missing(input, out, t, r) == 0,
    decreases r,
{
    if r > 0 {
        lemma_missing_zero(input, out, t, r - 1);
        assert forall|y: int| 0 <= y < input.N implies #[trigger] seen(input, out, (r - 1, y), t) by {
            assert(in_grid(input.N as int, (r - 1, y)));
        }
        lemma_row_missing_zero(input, out, t, r - 1, input.N as int);
    }
}

/// When every cell has been visited after `t < 2·N²` actions, the audit
/// scores `3·N² − t`, more than the `N²` cells a partial run can count.
pub proof fn law_audit_full_bonus(input: Input, out: Output, t: int)
    requires
        0 <= t < 2 * input.N * input.N,
        forall|p: (int, int)| in_grid(input.N as int, p) ==> #[trigger] seen(input, out, p, t),
    ensures
        audit_score(input, out, t) == 3 * input.N * input.N - t,
        audit_score(input, out, t) > input.N * input.N,
{
    lemma_missing_zero(input, out, t, input.N as int);
    let n = input.N as int;
    assert(3 * n * n - t > n * n) by (nonlinear_arith)
        requires t < 2 * n * n;
}

} // verus!
