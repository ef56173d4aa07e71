//! Candidate collision pairs: those the grid yields (same cell, plus four of
//! the eight neighbour directions), and the all-pairs scan they replace.

use vstd::prelude::*;
use crate::cell_map::CellKey;
use crate::grid::{Grid, bucket, lemma_bucket, lemma_bucket_distinct};

verus! {

/// A pair of particle indices, smaller first.
pub type Pair = (usize, usize);

/// Two cells are the same or one of the eight around each other.
pub open spec fn near(a: CellKey, b: CellKey) -> bool {
    -1 <= a.0 - b.0 <= 1 && -1 <= a.1 - b.1 <= 1
}

/// `p` is an unordered pair of distinct particles, written smaller index
/// first, whose cells are the same or adjacent.
pub open spec fn is_candidate(cells: Seq<CellKey>, p: Pair) -> bool {
    &&& p.0 < p.1 < cells.len()
    &&& near(cells[p.0 as int], cells[p.1 as int])
}

/// Horizontal step of scan direction `d`: 1 right, 2 bottom-right,
/// 3 bottom, 4 bottom-left.
pub open spec fn step_x(d: int) -> int {
    if d == 1 || d == 2 {
        1
    } else if d == 3 {
        0
    } else {
        -1
    }
}

/// Vertical step of scan direction `d`.
pub open spec fn step_y(d: int) -> int {
    if d == 1 {
        0
    } else {
        1
    }
}

/// The scan direction leading from cell `from` to cell `to`, or 0 when
/// `to` is not one of the four cells scanned from `from`.
pub open spec fn direction(from: CellKey, to: CellKey) -> int {
    let dx = to.0 - from.0;
    let dy = to.1 - from.1;
    if dx == 1 && dy == 0 {
        1
    } else if dx == 1 && dy == 1 {
        2
    } else if dx == 0 && dy == 1 {
        3
    } else if dx == -1 && dy == 1 {
        4
    } else {
        0
    }
}

/// The member of `p` whose cell the scan reaches `p` from.
pub open spec fn own(cells: Seq<CellKey>, p: Pair) -> usize {
    if direction(cells[p.1 as int], cells[p.0 as int]) != 0 {
        p.1
    } else {
        p.0
    }
}

/// The other member of `p`.
pub open spec fn other(cells: Seq<CellKey>, p: Pair) -> usize {
    if direction(cells[p.1 as int], cells[p.0 as int]) != 0 {
        p.0
    } else {
        p.1
    }
}

/// The cell whose scan yields `p`.
pub open spec fn origin(cells: Seq<CellKey>, p: Pair) -> CellKey {
    cells[own(cells, p) as int]
}

/// How the scan of `origin` reaches `p`: 0 within the cell, else the
/// direction to the other member's cell.
pub open spec fn kind(cells: Seq<CellKey>, p: Pair) -> int {
    direction(cells[own(cells, p) as int], cells[other(cells, p) as int])
}

/// `p` joins a member of `b` with a member of `nb`, smaller index first.
pub open spec fn linked(b: Seq<usize>, nb: Seq<usize>, p: Pair) -> bool {
    &&& p.0 < p.1
    &&& (b.contains(p.0) && nb.contains(p.1)) || (b.contains(p.1) && nb.contains(p.0))
}

/// The member of a linked pair that lies in `b`.
pub open spec fn in_first(b: Seq<usize>, p: Pair) -> usize {
    if b.contains(p.0) {
        p.0
    } else {
        p.1
    }
}

/// The member of a linked pair that does not lie in `b`.
pub open spec fn in_second(b: Seq<usize>, p: Pair) -> usize {
    if b.contains(p.0) {
        p.1
    } else {
        p.0
    }
}

/// Pushing a pair not yet present keeps a sequence free of duplicates and
/// adds exactly that pair.
proof fn lemma_push_fresh(before: Seq<Pair>, q: Pair)
    requires
        before.no_duplicates(),
        !before.contains(q),
    ensures
        before.push(q).no_duplicates(),
        forall|p: Pair| #[trigger] before.push(q).contains(p) <==> before.contains(p) || p == q,
{
    let after = before.push(q);
    assert forall|x: int, y: int|
        0 <= x < after.len() && 0 <= y < after.len() && x != y implies after[x] != after[y] by {
        if x < before.len() && y < before.len() {
            assert(before[x] != before[y]);
        } else if x < before.len() {
            assert(before.contains(before[x]));
        } else if y < before.len() {
            assert(before.contains(before[y]));
        }
    }
    assert forall|p: Pair| #[trigger] after.contains(p) <==> before.contains(p) || p == q by {
        if after.contains(p) && p != q {
            let m = choose|m: int| 0 <= m < after.len() && after[m] == p;
            assert(before[m] == p);
        }
        if before.contains(p) {
            let m = choose|m: int| 0 <= m < before.len() && before[m] == p;
            assert(after[m] == p);
        }
        assert(after[after.len() - 1] == q);
    }
}

/// The first `i + 1` items hold what the first `i` hold, and `s[i]`.
proof fn lemma_take_next(s: Seq<usize>, i: int)
    requires
        0 <= i < s.len(),
    ensures
        forall|y: usize| #[trigger]
            s.take(i + 1).contains(y) <==> s.take(i).contains(y) || y == s[i],
{
    assert forall|y: usize| #[trigger]
        s.take(i + 1).contains(y) <==> s.take(i).contains(y) || y == s[i] by {
        if s.take(i + 1).contains(y) {
            let m = choose|m: int| 0 <= m < i + 1 && #[trigger] s.take(i + 1)[m] == y;
            if m < i {
                assert(s.take(i)[m] == y);
            }
        }
        if s.take(i).contains(y) {
            let m = choose|m: int| 0 <= m < i && #[trigger] s.take(i)[m] == y;
            assert(s.take(i + 1)[m] == y);
        }
        assert(s.take(i + 1)[i] == s[i]);
    }
}

/// An item of a duplicate-free sequence is not among the items before it.
proof fn lemma_not_before(s: Seq<usize>, i: int)
    requires
        0 <= i < s.len(),
        s.no_duplicates(),
    ensures
        !s.take(i).contains(s[i]),
{
    if s.take(i).contains(s[i]) {
        let m = choose|m: int| 0 <= m < i && #[trigger] s.take(i)[m] == s[i];
        assert(s[m] == s[i]);
    }
}

/// Appends every pair of a member of `b` and a member of `nb`, smaller
/// index first, each once; the two buckets share no index.
fn cross_cell_pairs(out: &mut Vec<Pair>, b: &Vec<usize>, nb: &Vec<usize>)
    requires
        forall|x: usize| #[trigger] b@.contains(x) ==> !nb@.contains(x),
        b@.no_duplicates(),
        nb@.no_duplicates(),
        old(out)@.no_duplicates(),
        forall|p: Pair| #[trigger] old(out)@.contains(p) ==> !linked(b@, nb@, p),
    ensures
        final(out)@.no_duplicates(),
        forall|p: Pair| #[trigger]
            final(out)@.contains(p) <==> old(out)@.contains(p) || linked(b@, nb@, p),
{
    let ghost start = out@;
    let mut i: usize = 0;
    while i < b.len()
        invariant
            i <= b.len(),
            forall|x: usize| #[trigger] b@.contains(x) ==> !nb@.contains(x),
            b@.no_duplicates(),
            nb@.no_duplicates(),
            out@.no_duplicates(),
            forall|p: Pair| #[trigger] start.contains(p) ==> !linked(b@, nb@, p),
            forall|p: Pair| #[trigger]
                out@.contains(p) <==> start.contains(p) || (linked(b@, nb@, p) && b@.take(
                    i as int,
                ).contains(in_first(b@, p))),
        decreases b.len() - i,
    {
        let a = b[i];
        proof {
            lemma_take_next(b@, i as int);
            lemma_not_before(b@, i as int);
            assert(b@.contains(a));
        }
        let mut j: usize = 0;
        while j < nb.len()
            invariant
                i < b.len(),
                a == b@[i as int],
                b@.contains(a),
                !nb@.contains(a),
                !b@.take(i as int).contains(a),
                j <= nb.len(),
                forall|x: usize| #[trigger] b@.contains(x) ==> !nb@.contains(x),
                nb@.no_duplicates(),
                out@.no_duplicates(),
                forall|p: Pair| #[trigger] start.contains(p) ==> !linked(b@, nb@, p),
                forall|p: Pair| #[trigger]
                    out@.contains(p) <==> start.contains(p) || (linked(b@, nb@, p) && b@.take(
                        i as int,
                    ).contains(in_first(b@, p))) || (linked(b@, nb@, p) && in_first(b@, p) == a
                        && nb@.take(j as int).contains(in_second(b@, p))),
            decreases nb.len() - j,
        {
            let x = nb[j];
            let q = if a < x {
                (a, x)
            } else {
                (x, a)
            };
            proof {
                assert(nb@.contains(x));
                assert(!b@.contains(x));
                lemma_take_next(nb@, j as int);
                lemma_not_before(nb@, j as int);
                assert(linked(b@, nb@, q));
                assert(in_first(b@, q) == a);
                assert(in_second(b@, q) == x);
                assert(!out@.contains(q));
                lemma_push_fresh(out@, q);
            }
            out.push(q);
            j = j + 1;
        }
        proof {
            assert(nb@.take(nb.len() as int) =~= nb@);
        }
        i = i + 1;
    }
    assert(b@.take(b.len() as int) =~= b@);
}

/// Appends every pair of two distinct members of the strictly ascending
/// bucket `b`, each once.
fn same_cell_pairs(out: &mut Vec<Pair>, b: &Vec<usize>)
    requires
        forall|i: int, j: int| 0 <= i < j < b@.len() ==> b@[i] < b@[j],
        old(out)@.no_duplicates(),
        forall|p: Pair| #[trigger] old(out)@.contains(p) ==> !(b@.contains(p.0) && b@.contains(p.1)),
    ensures
        final(out)@.no_duplicates(),
        forall|p: Pair| #[trigger]
            final(out)@.contains(p) <==> old(out)@.contains(p) || (p.0 < p.1 && b@.contains(p.0)
                && b@.contains(p.1)),
{
    let ghost start = out@;
    let mut i: usize = 0;
    while i < b.len()
        invariant
            i <= b.len(),
            forall|i: int, j: int| 0 <= i < j < b@.len() ==> b@[i] < b@[j],
            out@.no_duplicates(),
            forall|p: Pair| #[trigger] start.contains(p) ==> !(b@.contains(p.0) && b@.contains(p.1)),
            forall|p: Pair| #[trigger]
                out@.contains(p) <==> start.contains(p) || (p.0 < p.1 && b@.take(i as int).contains(
                    p.0,
                ) && b@.contains(p.1)),
        decreases b.len() - i,
    {
        let mut j: usize = i + 1;
        while j < b.len()
            invariant
                i < b.len(),
                i + 1 <= j <= b.len(),
                forall|i: int, j: int| 0 <= i < j < b@.len() ==> b@[i] < b@[j],
                out@.no_duplicates(),
                forall|p: Pair| #[trigger] start.contains(p) ==> !(b@.contains(p.0) && b@.contains(p.1)),
                forall|p: Pair| #[trigger]
                    out@.contains(p) <==> start.contains(p) || (p.0 < p.1 && b@.take(i as int).contains(
                        p.0,
                    ) && b@.contains(p.1)) || (p.0 == b@[i as int] && b@.subrange(
                        i + 1,
                        j as int,
                    ).contains(p.1)),
            decreases b.len() - j,
        {
            let q = (b[i], b[j]);
            proof {
                assert(b@.contains(q.0) && b@.contains(q.1)) by {
                    assert(b@[i as int] == q.0);
                    assert(b@[j as int] == q.1);
                }
                assert(!b@.take(i as int).contains(q.0)) by {
                    if b@.take(i as int).contains(q.0) {
                        let m = choose|m: int| 0 <= m < i && #[trigger] b@.take(i as int)[m] == q.0;
                        assert(b@[m] < b@[i as int]);
                    }
                }
                assert(!b@.subrange(i + 1, j as int).contains(q.1)) by {
                    if b@.subrange(i + 1, j as int).contains(q.1) {
                        let m = choose|m: int|
                            0 <= m < j - i - 1 && #[trigger] b@.subrange(i + 1, j as int)[m] == q.1;
                        assert(b@[i + 1 + m] < b@[j as int]);
                    }
                }
                assert(!out@.contains(q));
                lemma_push_fresh(out@, q);
                assert forall|y: usize| #[trigger]
                    b@.subrange(i + 1, j + 1).contains(y) <==> b@.subrange(i + 1, j as int).contains(
                        y,
                    ) || y == b@[j as int] by {
                    if b@.subrange(i + 1, j + 1).contains(y) {
                        let m = choose|m: int|
                            0 <= m < j - i && #[trigger] b@.subrange(i + 1, j + 1)[m] == y;
                        if m < j - i - 1 {
                            assert(b@.subrange(i + 1, j as int)[m] == y);
                        }
                    }
                    if b@.subrange(i + 1, j as int).contains(y) {
                        let m = choose|m: int|
                            0 <= m < j - i - 1 && #[trigger] b@.subrange(i + 1, j as int)[m] == y;
                        assert(b@.subrange(i + 1, j + 1)[m] == y);
                    }
                    assert(b@.subrange(i + 1, j + 1)[j - i - 1] == b@[j as int]);
                }
            }
            out.push(q);
            j = j + 1;
        }
        proof {
            assert forall|p: Pair|
                p.0 == b@[i as int] && p.0 < p.1 && #[trigger] b@.contains(p.1) implies b@.subrange(
                i + 1,
                b.len() as int,
            ).contains(p.1) by {
                let m = choose|m: int| 0 <= m < b@.len() && #[trigger] b@[m] == p.1;
                if m <= i {
                    if m < i {
                        assert(b@[m] < b@[i as int]);
                    }
                }
                assert(b@.subrange(i + 1, b.len() as int)[m - i - 1] == p.1);
            }
            lemma_take_next(b@, i as int);
            assert forall|p: Pair| #[trigger]
                out@.contains(p) <==> start.contains(p) || (p.0 < p.1 && b@.take(i + 1).contains(p.0)
                    && b@.contains(p.1)) by {
                if p.0 == b@[i as int] && p.0 < p.1 && b@.contains(p.1) {
                    assert(b@.subrange(i + 1, b.len() as int).contains(p.1));
                }
                if b@.subrange(i + 1, b.len() as int).contains(p.1) {
                    let m = choose|m: int|
                        0 <= m < b.len() - i - 1 && #[trigger] b@.subrange(i + 1, b.len() as int)[m] == p.1;
                    assert(b@[i + 1 + m] == p.1);
                    assert(b@[i as int] < b@[i + 1 + m]);
                }
                if b@.take(i as int).contains(p.0) {
                    let m = choose|m: int| 0 <= m < i && #[trigger] b@.take(i as int)[m] == p.0;
                    assert(b@[m] == p.0);
                }
            }
        }
        i = i + 1;
    }
    assert(b@.take(b.len() as int) =~= b@);
}

/// The cell one step from `k` in scan direction `d`, or `None` when that
/// cell's coordinates leave the `i32` range (no particle can lie there).
pub fn neighbor(k: CellKey, d: u8) -> (r: Option<CellKey>)
    requires
        1 <= d <= 4,
    ensures
        match r {
            Some(nk) => nk.0 == k.0 + step_x(d as int) && nk.1 == k.1 + step_y(d as int),
            None => !(i32::MIN <= k.0 + step_x(d as int) <= i32::MAX && i32::MIN <= k.1 + step_y(
                d as int,
            ) <= i32::MAX),
        },
{
    let dx: i64 = if d == 1 || d == 2 {
        1
    } else if d == 3 {
        0
    } else {
        -1
    };
    let dy: i64 = if d == 1 {
        0
    } else {
        1
    };
    let x: i64 = k.0 as i64 + dx;
    let y: i64 = k.1 as i64 + dy;
    if x < i32::MIN as i64 || x > i32::MAX as i64 || y > i32::MAX as i64 {
        None
    } else {
        Some((x as i32, y as i32))
    }
}

/// The candidate pairs of the particles filed in `grid`, each exactly once
/// and smaller index first: the pairs within one cell, and the pairs across
/// each occupied cell and its right, bottom-right, bottom and bottom-left
/// neighbours. Every unordered pair of adjacent cells is seen from exactly
/// one of its two cells, so no pair is yielded twice.
pub fn grid_pairs(grid: &Grid) -> (r: Vec<Pair>)
    requires
        grid.wf(),
    ensures
        r@.no_duplicates(),
        forall|p: Pair| #[trigger] r@.contains(p) <==> is_candidate(grid.cells(), p),
{
    let ghost cells = grid.cells();
    proof {
        grid.lemma_cells_fit();
    }
    let keys = grid.occupied();
    let mut out: Vec<Pair> = Vec::new();
    let mut ki: usize = 0;
    while ki < keys.len()
        invariant
            grid.wf(),
            cells == grid.cells(),
            cells.len() <= usize::MAX,
            ki <= keys.len(),
            keys@.no_duplicates(),
            forall|k: CellKey| #[trigger] keys@.contains(k) <==> cells.contains(k),
            out@.no_duplicates(),
            forall|p: Pair| #[trigger]
                out@.contains(p) <==> is_candidate(cells, p) && keys@.take(ki as int).contains(
                    origin(cells, p),
                ),
        decreases keys.len() - ki,
    {
        let k = keys[ki];
        let ghost done = keys@.take(ki as int);
        proof {
            assert(keys@.contains(k));
            assert(!done.contains(k)) by {
                if done.contains(k) {
                    let m = choose|m: int| 0 <= m < ki && #[trigger] done[m] == k;
                    assert(keys@[m] == k);
                }
            }
            assert forall|c: CellKey| #[trigger]
                keys@.take(ki + 1).contains(c) <==> done.contains(c) || c == k by {
                if keys@.take(ki + 1).contains(c) {
                    let m = choose|m: int| 0 <= m < ki + 1 && #[trigger] keys@.take(ki + 1)[m] == c;
                    if m < ki {
                        assert(done[m] == c);
                    }
                }
                if done.contains(c) {
                    let m = choose|m: int| 0 <= m < ki && #[trigger] done[m] == c;
                    assert(keys@.take(ki + 1)[m] == c);
                }
                assert(keys@.take(ki + 1)[ki as int] == k);
            }
        }
        if let Some(b) = grid.bucket_of(&k) {
            proof {
                lemma_bucket(cells, k);
                assert forall|p: Pair| #[trigger] out@.contains(p) implies !(b@.contains(p.0)
                    && b@.contains(p.1)) by {
                    if b@.contains(p.0) && b@.contains(p.1) {
                        assert(origin(cells, p) == k);
                    }
                }
            }
            same_cell_pairs(&mut out, b);
            proof {
                assert forall|p: Pair| #[trigger]
                    out@.contains(p) <==> is_candidate(cells, p) && (done.contains(origin(cells, p))
                        || (origin(cells, p) == k && kind(cells, p) < 1)) by {
                    if is_candidate(cells, p) && origin(cells, p) == k && kind(cells, p) < 1 {
                        assert(b@.contains(p.0) && b@.contains(p.1));
                    }
                }
            }
            let mut d: u8 = 1;
            while d <= 4
                invariant
                    grid.wf(),
                    cells == grid.cells(),
                    cells.len() <= usize::MAX,
                    1 <= d <= 5,
                    b@ == bucket(cells, k),
                    cells.contains(k),
                    !done.contains(k),
                    out@.no_duplicates(),
                    forall|x: usize| #[trigger]
                        bucket(cells, k).contains(x) <==> x < cells.len() && cells[x as int] == k,
                    forall|p: Pair| #[trigger]
                        out@.contains(p) <==> is_candidate(cells, p) && (done.contains(
                            origin(cells, p),
                        ) || (origin(cells, p) == k && kind(cells, p) < d)),
                decreases 5 - d,
            {
                if let Some(nk) = neighbor(k, d) {
                    if let Some(nb) = grid.bucket_of(&nk) {
                        proof {
                            lemma_bucket(cells, nk);
                            lemma_bucket_distinct(cells, k);
                            lemma_bucket_distinct(cells, nk);
                            assert forall|p: Pair| #[trigger] out@.contains(p) implies !linked(
                                b@,
                                nb@,
                                p,
                            ) by {
                                if linked(b@, nb@, p) {
                                    assert(origin(cells, p) == k);
                                    assert(kind(cells, p) == d);
                                }
                            }
                        }
                        cross_cell_pairs(&mut out, b, nb);
                        proof {
                            assert forall|p: Pair| #[trigger]
                                out@.contains(p) <==> is_candidate(cells, p) && (done.contains(
                                    origin(cells, p),
                                ) || (origin(cells, p) == k && kind(cells, p) < d + 1)) by {
                                if is_candidate(cells, p) && origin(cells, p) == k && kind(cells, p)
                                    == d {
                                    assert(linked(b@, nb@, p));
                                }
                            }
                        }
                    } else {
                        proof {
                            assert forall|p: Pair|
                                is_candidate(cells, p) && origin(cells, p) == k && #[trigger] kind(
                                    cells,
                                    p,
                                ) == d implies false by {
                                assert(cells[other(cells, p) as int] == nk);
                                assert(cells.contains(nk));
                            }
                        }
                    }
                } else {
                    proof {
                        assert forall|p: Pair|
                            is_candidate(cells, p) && origin(cells, p) == k && #[trigger] kind(cells, p)
                                == d implies false by {
                            let c = cells[other(cells, p) as int];
                            assert(c.0 == k.0 + step_x(d as int));
                        }
                    }
                }
                d = d + 1;
            }
        } else {
            proof {
                assert(false);
            }
        }
        ki = ki + 1;
    }
    proof {
        assert(keys@.take(keys.len() as int) =~= keys@);
        assert forall|p: Pair| #[trigger] is_candidate(cells, p) implies keys@.contains(
            origin(cells, p),
        ) by {
            assert(cells.contains(cells[own(cells, p) as int]));
        }
    }
    out
}

/// `p` orders before `q`: by first index, then by second.
pub open spec fn lex_less(p: Pair, q: Pair) -> bool {
    p.0 < q.0 || (p.0 == q.0 && p.1 < q.1)
}

/// `p` is a pair of distinct indices below `n`, smaller first.
pub open spec fn is_index_pair(n: int, p: Pair) -> bool {
    p.0 < p.1 < n
}

/// Every pair of distinct indices below `n`, smaller first, in ascending
/// order: the pairs an all-pairs scan of `n` particles tests.
pub fn all_pairs(n: usize) -> (r: Vec<Pair>)
    ensures
        forall|p: Pair| #[trigger] r@.contains(p) <==> is_index_pair(n as int, p),
        forall|a: int, b: int| 0 <= a < b < r@.len() ==> lex_less(r@[a], r@[b]),
{
    let mut out: Vec<Pair> = Vec::new();
    let mut i: usize = 0;
    while i < n
        invariant
            i <= n,
            forall|p: Pair| #[trigger] out@.contains(p) <==> is_index_pair(n as int, p) && p.0 < i,
            forall|a: int, b: int| 0 <= a < b < out@.len() ==> lex_less(out@[a], out@[b]),
            forall|m: int| 0 <= m < out@.len() ==> out@[m].0 < i,
        decreases n - i,
    {
        let mut j: usize = i + 1;
        while j < n
            invariant
                i < n,
                i + 1 <= j <= n,
                forall|p: Pair| #[trigger]
                    out@.contains(p) <==> is_index_pair(n as int, p) && (p.0 < i || (p.0 == i
                        && p.1 < j)),
                forall|a: int, b: int| 0 <= a < b < out@.len() ==> lex_less(out@[a], out@[b]),
                forall|m: int| 0 <= m < out@.len() ==> lex_less(out@[m], (i, j)),
            decreases n - j,
        {
            let ghost before = out@;
            out.push((i, j));
            proof {
                assert forall|p: Pair| #[trigger]
                    out@.contains(p) <==> before.contains(p) || p == (i, j) by {
                    if out@.contains(p) && p != (i, j) {
                        let m = choose|m: int| 0 <= m < out@.len() && out@[m] == p;
                        assert(before[m] == p);
                    }
                    if before.contains(p) {
                        let m = choose|m: int| 0 <= m < before.len() && before[m] == p;
                        assert(out@[m] == p);
                    }
                    assert(out@[out@.len() - 1] == (i, j));
                }
            }
            j = j + 1;
        }
        i = i + 1;
    }
    out
}

/// Of two distinct cells that are the same or adjacent, exactly one lies in
/// the other's scan directions: each adjacent cell pair is scanned from one
/// side only.
pub proof fn lemma_scanned_from_one_side(a: CellKey, b: CellKey)
    requires
        near(a, b),
        a != b,
    ensures
        (direction(a, b) != 0) != (direction(b, a) != 0),
{
}

/// The pairs whose particles lie in the same or adjacent cells.
pub open spec fn cells_near(cells: Seq<CellKey>) -> spec_fn(Pair) -> bool {
    |p: Pair| near(cells[p.0 as int], cells[p.1 as int])
}

/// Keeping some items of a duplicate-free sequence keeps it duplicate-free.
proof fn lemma_filter_distinct(s: Seq<Pair>, keep: spec_fn(Pair) -> bool)
    requires
        s.no_duplicates(),
    ensures
        s.filter(keep).no_duplicates(),
    decreases s.len(),
{
    reveal(Seq::filter);
    if s.len() > 0 {
        let pre = s.drop_last();
        assert(pre.no_duplicates()) by {
            assert forall|i: int, j: int|
                0 <= i < pre.len() && 0 <= j < pre.len() && i != j implies pre[i] != pre[j] by {
                assert(s[i] != s[j]);
            }
        }
        lemma_filter_distinct(pre, keep);
        if keep(s.last()) {
            if pre.filter(keep).contains(s.last()) {
                pre.lemma_filter_contains_rev(keep, s.last());
                let m = choose|m: int| 0 <= m < pre.len() && pre[m] == s.last();
                assert(s[m] == s[s.len() - 1]);
            }
            lemma_push_fresh(pre.filter(keep), s.last());
        }
    }
}

/// The grid yields exactly the pairs of an all-pairs scan whose particles
/// lie in the same or adjacent cells, and exactly as many: no pair is
/// yielded twice.
pub proof fn lemma_grid_matches_all_pairs(
    cells: Seq<CellKey>,
    from_grid: Seq<Pair>,
    scanned: Seq<Pair>,
)
    requires
        from_grid.no_duplicates(),
        forall|p: Pair| #[trigger] from_grid.contains(p) <==> is_candidate(cells, p),
        forall|p: Pair| #[trigger] scanned.contains(p) <==> is_index_pair(cells.len() as int, p),
        forall|a: int, b: int| 0 <= a < b < scanned.len() ==> lex_less(scanned[a], scanned[b]),
    ensures
        forall|p: Pair| #[trigger]
            from_grid.contains(p) <==> scanned.filter(cells_near(cells)).contains(p),
        from_grid.len() == scanned.filter(cells_near(cells)).len(),
{
    let keep = cells_near(cells);
    let kept = scanned.filter(keep);
    assert(scanned.no_duplicates()) by {
        assert forall|i: int, j: int|
            0 <= i < scanned.len() && 0 <= j < scanned.len() && i != j implies scanned[i]
            != scanned[j] by {
            if i < j {
                assert(lex_less(scanned[i], scanned[j]));
            } else {
                assert(lex_less(scanned[j], scanned[i]));
            }
        }
    }
    lemma_filter_distinct(scanned, keep);
    scanned.filter_lemma(keep);
    assert forall|p: Pair| #[trigger] from_grid.contains(p) <==> kept.contains(p) by {
        if kept.contains(p) {
            scanned.lemma_filter_contains_rev(keep, p);
            let m = choose|m: int| 0 <= m < kept.len() && kept[m] == p;
            assert(keep(kept[m]));
        }
        if from_grid.contains(p) {
            assert(scanned.contains(p));
            let m = choose|m: int| 0 <= m < scanned.len() && scanned[m] == p;
            assert(kept.contains(scanned[m]));
        }
    }
    assert(from_grid.to_set() =~= kept.to_set());
    from_grid.unique_seq_to_set();
    kept.unique_seq_to_set();
}

} // verus!
