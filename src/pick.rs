use vstd::prelude::*;
use crate::grid::{grid_ok, in_grid, is_dir, moved, try_move};
use crate::trail::cell;
use crate::field::{label, square};

verus! {

/// `x` placed into the ascending sequence `s` before its first element not
/// smaller than `x`.
pub open spec fn insert_sorted(s: Seq<i32>, x: i32) -> Seq<i32>
    decreases s.len(),
{
    if s.len() == 0 {
        seq![x]
    } else if x <= s[0] {
        seq![x] + s
    } else {
        seq![s[0]] + insert_sorted(s.drop_first(), x)
    }
}

/// `s` in ascending order.
pub open spec fn sort_seq(s: Seq<i32>) -> Seq<i32>
    decreases s.len(),
{
    if s.len() == 0 {
        s
    } else {
        insert_sorted(sort_seq(s.drop_last()), s.last())
    }
}

/// Lexicographic order: the first differing element decides, and a proper
/// prefix comes first.
pub open spec fn lex_lt(a: Seq<i32>, b: Seq<i32>) -> bool
    decreases a.len(),
{
    if a.len() == 0 {
        b.len() > 0
    } else if b.len() == 0 {
        false
    } else if a[0] != b[0] {
        a[0] < b[0]
    } else {
        lex_lt(a.drop_first(), b.drop_first())
    }
}

/// Every command table has `k` direction symbols.
pub open spec fn tables_ok(alloc: Seq<Vec<char>>, k: int) -> bool {
    forall|a: int| 0 <= a < alloc.len() ==> {
        &&& (#[trigger] alloc[a])@.len() == k
        &&& forall|i: int| 0 <= i < k ==> is_dir(#[trigger] alloc[a]@[i])
    }
}

/// Distances reached by the agents at `spots` when every one of them follows
/// instruction `i` of its table.
pub open spec fn reached(
    v: Seq<Vec<char>>,
    h: Seq<Vec<char>>,
    dist: Seq<Vec<i32>>,
    alloc: Seq<Vec<char>>,
    spots: Seq<(int, int)>,
    i: int,
) -> Seq<i32> {
    Seq::new(alloc.len(), |a: int| dist[moved(v, h, spots[a], alloc[a]@[i]).0]@[moved(v, h, spots[a], alloc[a]@[i]).1])
}

/// The sorted distances by which instruction `i` is judged.
pub open spec fn rank(
    v: Seq<Vec<char>>,
    h: Seq<Vec<char>>,
    dist: Seq<Vec<i32>>,
    alloc: Seq<Vec<char>>,
    spots: Seq<(int, int)>,
    i: int,
) -> Seq<i32> {
    sort_seq(reached(v, h, dist, alloc, spots, i))
}

/// `c` is the first of the instructions `0..k` whose rank is lexicographically least.
pub open spec fn best_pick(
    v: Seq<Vec<char>>,
    h: Seq<Vec<char>>,
    dist: Seq<Vec<i32>>,
    alloc: Seq<Vec<char>>,
    spots: Seq<(int, int)>,
    k: int,
    c: int,
) -> bool {
    &&& 0 <= c < k
    &&& forall|j: int| 0 <= j < c ==> lex_lt(rank(v, h, dist, alloc, spots, c), #[trigger] rank(v, h, dist, alloc, spots, j))
    &&& forall|j: int| c < j < k ==> !lex_lt(#[trigger] rank(v, h, dist, alloc, spots, j), rank(v, h, dist, alloc, spots, c))
}

pub proof fn lemma_lex_irreflexive(a: Seq<i32>)
    ensures
        !lex_lt(a, a),
    decreases a.len(),
{
    if a.len() > 0 {
        lemma_lex_irreflexive(a.drop_first());
    }
}

pub proof fn lemma_lex_trans(a: Seq<i32>, b: Seq<i32>, c: Seq<i32>)
    requires
        lex_lt(a, b),
        lex_lt(b, c),
    ensures
        lex_lt(a, c),
    decreases a.len(),
{
    if a.len() > 0 && b.len() > 0 && c.len() > 0 && a[0] == b[0] && b[0] == c[0] {
        lemma_lex_trans(a.drop_first(), b.drop_first(), c.drop_first());
    }
}

pub proof fn lemma_lex_total(a: Seq<i32>, b: Seq<i32>)
    ensures
        a == b || lex_lt(a, b) || lex_lt(b, a),
    decreases a.len(),
{
    if a.len() > 0 && b.len() > 0 && a[0] == b[0] {
        lemma_lex_total(a.drop_first(), b.drop_first());
        if a.drop_first() == b.drop_first() {
            assert(a =~= seq![a[0]] + a.drop_first());
            assert(b =~= seq![b[0]] + b.drop_first());
        }
    } else if a.len() == 0 && b.len() == 0 {
        assert(a =~= b);
    }
}

proof fn lemma_insert_at(s: Seq<i32>, x: i32, p: int)
    requires
        0 <= p <= s.len(),
        forall|j: int| 0 <= j < p ==> s[j] < x,
        p < s.len() ==> x <= s[p],
    ensures
        insert_sorted(s, x) == s.take(p).push(x) + s.skip(p),
    decreases p,
{
    if p == 0 {
        assert(s.take(0).push(x) + s.skip(0) =~= seq![x] + s);
    } else {
        lemma_insert_at(s.drop_first(), x, p - 1);
        assert(s.take(p).push(x) + s.skip(p) =~= seq![s[0]] + (s.drop_first().take(p - 1).push(x)
            + s.drop_first().skip(p - 1)));
    }
}

fn insert_into(s: &Vec<i32>, x: i32) -> (r: Vec<i32>)
    ensures
        r@ == insert_sorted(s@, x),
{
    let mut p: usize = 0;
    while p < s.len() && s[p] < x
        invariant
            p <= s@.len(),
            forall|j: int| 0 <= j < p ==> s@[j] < x,
        decreases s@.len() - p,
    {
        p = p + 1;
    }
    proof {
        lemma_insert_at(s@, x, p as int);
    }
    let mut r: Vec<i32> = Vec::new();
    let mut j: usize = 0;
    while j < p
        invariant
            j <= p <= s@.len(),
            r@ == s@.take(j as int),
        decreases p - j,
    {
        r.push(s[j]);
        j = j + 1;
        assert(r@ =~= s@.take(j as int));
    }
    r.push(x);
    let ghost front = r@;
    while j < s.len()
        invariant
            p <= j <= s@.len(),
            front == s@.take(p as int).push(x),
            r@ == front + s@.subrange(p as int, j as int),
        decreases s@.len() - j,
    {
        r.push(s[j]);
        j = j + 1;
        assert(r@ =~= front + s@.subrange(p as int, j as int));
    }
    assert(s@.subrange(p as int, s@.len() as int) =~= s@.skip(p as int));
    r
}

/// `a` in ascending order.
pub fn sort_list(a: &Vec<i32>) -> (r: Vec<i32>)
    ensures
        r@ == sort_seq(a@),
{
    let mut r: Vec<i32> = Vec::new();
    let mut i: usize = 0;
    while i < a.len()
        invariant
            i <= a@.len(),
            r@ == sort_seq(a@.take(i as int)),
        decreases a@.len() - i,
    {
        proof {
            assert(a@.take(i + 1).drop_last() =~= a@.take(i as int));
        }
        r = insert_into(&r, a[i]);
        i = i + 1;
    }
    assert(a@.take(a@.len() as int) =~= a@);
    r
}

/// Whether `a` comes lexicographically before `b`.
pub fn lex_less(a: &Vec<i32>, b: &Vec<i32>) -> (r: bool)
    ensures
        r == lex_lt(a@, b@),
{
    let mut i: usize = 0;
    assert(a@.skip(0) =~= a@);
    assert(b@.skip(0) =~= b@);
    while i < a.len() && i < b.len() && a[i] == b[i]
        invariant
            i <= a@.len(),
            i <= b@.len(),
            lex_lt(a@, b@) == lex_lt(a@.skip(i as int), b@.skip(i as int)),
        decreases a@.len() - i,
    {
        assert(a@.skip(i as int).drop_first() =~= a@.skip(i + 1));
        assert(b@.skip(i as int).drop_first() =~= b@.skip(i + 1));
        i = i + 1;
    }
    if i == a.len() {
        i < b.len()
    } else if i == b.len() {
        false
    } else {
        a[i] < b[i]
    }
}

pub open spec fn spots_of(pts: Seq<(usize, usize)>) -> Seq<(int, int)> {
    pts.map_values(|p: (usize, usize)| cell(p))
}

/// The instruction to broadcast next: of `0..k`, the first one whose sorted
/// list of distances reached by the agents at `pts` is lexicographically least.
pub fn select_step(
    v: &[Vec<char>],
    h: &[Vec<char>],
    alloc: &[Vec<char>],
    pts: &[(usize, usize)],
    dist: &Vec<Vec<i32>>,
    k: usize,
) -> (r: usize)
    requires
        grid_ok(v@, h@),
        k >= 1,
        tables_ok(alloc@, k as int),
        pts@.len() == alloc@.len(),
        forall|a: int| 0 <= a < pts@.len() ==> in_grid(v@.len() as int, cell(#[trigger] pts@[a])),
        square(dist@, v@.len() as int),
    ensures
        best_pick(v@, h@, dist@, alloc@, spots_of(pts@), k as int, r as int),
{
    let ghost spots = spots_of(pts@);
    let ghost n = v@.len() as int;
    let mut best: Vec<i32> = Vec::new();
    let mut best_i: usize = 0;
    let mut i: usize = 0;
    while i < k
        invariant
            grid_ok(v@, h@),
            n == v@.len(),
            tables_ok(alloc@, k as int),
            pts@.len() == alloc@.len(),
            forall|a: int| 0 <= a < pts@.len() ==> in_grid(n, cell(#[trigger] pts@[a])),
            square(dist@, n),
            spots == spots_of(pts@),
            i <= k,
            i > 0 ==> best_i < i,
            i > 0 ==> best@ == rank(v@, h@, dist@, alloc@, spots, best_i as int),
            forall|j: int| 0 <= j < best_i ==> lex_lt(rank(v@, h@, dist@, alloc@, spots, best_i as int), #[trigger] rank(v@, h@, dist@, alloc@, spots, j)),
            forall|j: int| best_i < j < i ==> !lex_lt(#[trigger] rank(v@, h@, dist@, alloc@, spots, j), rank(v@, h@, dist@, alloc@, spots, best_i as int)),
        decreases k - i,
    {
        let mut sum: Vec<i32> = Vec::new();
        let mut a: usize = 0;
        while a < alloc.len()
            invariant
                grid_ok(v@, h@),
                n == v@.len(),
                tables_ok(alloc@, k as int),
                pts@.len() == alloc@.len(),
                forall|a: int| 0 <= a < pts@.len() ==> in_grid(n, cell(#[trigger] pts@[a])),
                square(dist@, n),
                spots == spots_of(pts@),
                i < k,
                a <= alloc@.len(),
                sum@ == reached(v@, h@, dist@, alloc@, spots, i as int).take(a as int),
            decreases alloc@.len() - a,
        {
            let d = alloc[a][i];
            assert(is_dir(alloc@[a as int]@[i as int]));
            let (px, py) = pts[a];
            assert(in_grid(n, cell(pts@[a as int])));
            let q = match try_move(px, py, v, h, d) {
                Some(q) => q,
                None => (px, py),
            };
            assert(cell(q) == moved(v@, h@, spots[a as int], d));
            sum.push(dist[q.0][q.1]);
            a = a + 1;
            assert(sum@ =~= reached(v@, h@, dist@, alloc@, spots, i as int).take(a as int));
        }
        assert(sum@ =~= reached(v@, h@, dist@, alloc@, spots, i as int));
        let key = sort_list(&sum);
        if i == 0 || lex_less(&key, &best) {
            proof {
                let ki = rank(v@, h@, dist@, alloc@, spots, i as int);
                if i > 0 {
                    let kb = rank(v@, h@, dist@, alloc@, spots, best_i as int);
                    assert forall|j: int| 0 <= j < i implies lex_lt(ki, #[trigger] rank(v@, h@, dist@, alloc@, spots, j)) by {
                        let kj = rank(v@, h@, dist@, alloc@, spots, j);
                        if j < best_i {
                            lemma_lex_trans(ki, kb, kj);
                        } else if j > best_i {
                            lemma_lex_total(kj, kb);
                            if kj != kb {
                                lemma_lex_trans(ki, kb, kj);
                            }
                        }
                    }
                }
            }
            best = key;
            best_i = i;
        }
        i = i + 1;
    }
    best_i
}

} // verus!
