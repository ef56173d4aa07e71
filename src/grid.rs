//! The spatial grid: every particle index filed under the cell its position
//! falls in, rebuilt from scratch each substep.

use vstd::prelude::*;
use crate::cell_map::{CellKey, CellMap, appended};

verus! {

/// The indices `i` with `cells[i] == k`, ascending.
pub open spec fn bucket(cells: Seq<CellKey>, k: CellKey) -> Seq<usize>
    decreases cells.len(),
{
    if cells.len() == 0 {
        Seq::empty()
    } else {
        let prev = bucket(cells.drop_last(), k);
        if cells.last() == k {
            prev.push((cells.len() - 1) as usize)
        } else {
            prev
        }
    }
}

/// The sparse grid of a particle set whose `i`-th particle lies in cell
/// `cells[i]`: one entry per occupied cell, none for an empty one.
pub open spec fn grid_of(cells: Seq<CellKey>) -> Map<CellKey, Seq<usize>> {
    Map::new(|k: CellKey| cells.contains(k), |k: CellKey| bucket(cells, k))
}

/// A bucket holds exactly the indices filed under its cell, strictly
/// ascending.
pub proof fn lemma_bucket(cells: Seq<CellKey>, k: CellKey)
    requires
        cells.len() <= usize::MAX,
    ensures
        forall|x: usize| #[trigger]
            bucket(cells, k).contains(x) <==> x < cells.len() && cells[x as int] == k,
        forall|i: int, j: int|
            0 <= i < j < bucket(cells, k).len() ==> bucket(cells, k)[i] < bucket(cells, k)[j],
        forall|i: int|
            0 <= i < bucket(cells, k).len() ==> bucket(cells, k)[i] < cells.len(),
    decreases cells.len(),
{
    if cells.len() > 0 {
        let pre = cells.drop_last();
        let n = cells.len() - 1;
        lemma_bucket(pre, k);
        let prev = bucket(pre, k);
        let b = bucket(cells, k);
        assert forall|x: usize| #[trigger] b.contains(x) <==> x < cells.len() && cells[x as int] == k by {
            if x < pre.len() {
                assert(pre[x as int] == cells[x as int]);
            }
            if b.contains(x) {
                let j = choose|j: int| 0 <= j < b.len() && b[j] == x;
                if j < prev.len() {
                    assert(prev[j] == x);
                    assert(prev.contains(x));
                }
            }
            if x < cells.len() && cells[x as int] == k {
                if x < n {
                    assert(prev.contains(x));
                    let j = choose|j: int| 0 <= j < prev.len() && prev[j] == x;
                    assert(b[j] == x);
                } else {
                    assert(b[b.len() - 1] == x);
                }
            }
        }
    }
}

/// A bucket names no index twice.
pub proof fn lemma_bucket_distinct(cells: Seq<CellKey>, k: CellKey)
    requires
        cells.len() <= usize::MAX,
    ensures
        bucket(cells, k).no_duplicates(),
{
    lemma_bucket(cells, k);
    let b = bucket(cells, k);
    assert forall|i: int, j: int| 0 <= i < b.len() && 0 <= j < b.len() && i != j implies b[i]
        != b[j] by {
        if i < j {
            assert(b[i] < b[j]);
        } else {
            assert(b[j] < b[i]);
        }
    }
}

/// The spatial grid: the cell table together with the cell of each
/// particle it was filled from.
pub struct Grid {
    table: CellMap,
    cells: Ghost<Seq<CellKey>>,
}

impl View for Grid {
    type V = Map<CellKey, Seq<usize>>;

    closed spec fn view(&self) -> Map<CellKey, Seq<usize>> {
        self.table@
    }
}

impl Grid {
    /// The cell of each particle, by index, that the grid was last filled from.
    pub closed spec fn cells(&self) -> Seq<CellKey> {
        self.cells@
    }

    /// The table matches the particle cells it was filled from.
    pub closed spec fn wf(&self) -> bool {
        &&& self.cells@.len() <= usize::MAX
        &&& self.table@ == grid_of(self.cells@)
    }

    /// A well-formed grid holds no more particles than indices can name.
    pub proof fn lemma_cells_fit(&self)
        requires
            self.wf(),
        ensures
            self.cells().len() <= usize::MAX,
    {
    }

    /// An empty grid, as for a population of no particles.
    pub fn new() -> (r: Grid)
        ensures
            r.wf(),
            r.cells() == Seq::<CellKey>::empty(),
            r@ == grid_of(r.cells()),
    {
        let r = Grid { table: CellMap::new(), cells: Ghost(Seq::empty()) };
        assert(r.table@ =~= grid_of(Seq::empty()));
        r
    }

    /// The bucket of cell `k`, if any particle lies in it.
    pub fn bucket_of(&self, k: &CellKey) -> (r: Option<&Vec<usize>>)
        requires
            self.wf(),
        ensures
            match r {
                Some(b) => self.cells().contains(*k) && b@ == bucket(self.cells(), *k),
                None => !self.cells().contains(*k),
            },
    {
        self.table.get(k)
    }

    /// The occupied cells, each once.
    pub fn occupied(&self) -> (r: Vec<CellKey>)
        requires
            self.wf(),
        ensures
            r@.no_duplicates(),
            forall|k: CellKey| #[trigger] r@.contains(k) <==> self.cells().contains(k),
    {
        self.table.keys()
    }
}

/// Rebuilds `grid` for a particle set whose `i`-th particle lies in cell
/// `cells[i]`: the old entries are dropped, then each index is appended to
/// its cell's bucket in ascending order.
pub fn fill_grid(grid: &mut Grid, cells: &Vec<CellKey>)
    ensures
        final(grid).wf(),
        final(grid).cells() == cells@,
        final(grid)@ == grid_of(cells@),
{
    grid.table.clear();
    grid.cells = Ghost(Seq::empty());
    assert(grid.table@ =~= grid_of(Seq::empty()));
    assert(cells@.take(0) =~= Seq::<CellKey>::empty());
    let mut i: usize = 0;
    while i < cells.len()
        invariant
            i <= cells.len(),
            grid.cells@ == cells@.take(i as int),
            grid.table@ == grid_of(cells@.take(i as int)),
        decreases cells.len() - i,
    {
        let k = cells[i];
        let ghost before = cells@.take(i as int);
        let ghost after = cells@.take(i + 1);
        grid.table.append(k, i);
        grid.cells = Ghost(after);
        proof {
            assert(after.drop_last() =~= before);
            assert forall|c: CellKey| #[trigger] after.contains(c) <==> before.contains(c) || c == k by {
                if after.contains(c) {
                    let j = choose|j: int| 0 <= j < after.len() && after[j] == c;
                    if j < i {
                        assert(before[j] == c);
                    }
                }
                if before.contains(c) {
                    let j = choose|j: int| 0 <= j < before.len() && before[j] == c;
                    assert(after[j] == c);
                }
                assert(after[i as int] == k);
            }
            assert forall|c: CellKey| #[trigger] bucket(after, c) == (if c == k {
                appended(grid_of(before), k, i)
            } else {
                bucket(before, c)
            }) by {
                if c == k && !before.contains(k) {
                    lemma_bucket(before, k);
                    assert(bucket(before, k) =~= Seq::<usize>::empty()) by {
                        if bucket(before, k).len() > 0 {
                            assert(bucket(before, k).contains(bucket(before, k)[0]));
                        }
                    }
                }
            }
            assert(grid.table@ =~= grid_of(after));
        }
        i = i + 1;
    }
    assert(cells@.take(cells.len() as int) =~= cells@);
}

} // verus!
