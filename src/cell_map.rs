//! The sparse cell table: integer cell coordinates to the particle indices
//! stored under them, held in an `FxHashMap`.

use vstd::prelude::*;
use rustc_hash::FxHashMap;

verus! {

/// A cell coordinate `(cell_x, cell_y)`.
pub type CellKey = (i32, i32);

/// Sparse table from cell coordinates to index buckets.
///
/// The table lives in an `FxHashMap` (std's `HashMap` with rustc_hash's
/// hasher), whose behaviour Verus has no model of under that hasher; its
/// contents are known only through `cell_entries`.
#[verifier::external_body]
pub struct CellMap {
    map: FxHashMap<CellKey, Vec<usize>>,
}

/// What a `CellMap` holds: each present key with its bucket.
pub uninterp spec fn cell_entries(m: CellMap) -> Map<CellKey, Seq<usize>>;

impl View for CellMap {
    type V = Map<CellKey, Seq<usize>>;

    open spec fn view(&self) -> Map<CellKey, Seq<usize>> {
        cell_entries(*self)
    }
}

/// The table with no entry.
pub open spec fn no_cells() -> Map<CellKey, Seq<usize>> {
    Map::empty()
}

/// The bucket under `k` after `index` is appended to it (a fresh bucket
/// when `k` is absent).
pub open spec fn appended(m: Map<CellKey, Seq<usize>>, k: CellKey, index: usize) -> Seq<usize> {
    if m.contains_key(k) {
        m[k].push(index)
    } else {
        seq![index]
    }
}

impl CellMap {
    /// Relies on `FxHashMap::default`: a new map holds no entry.
    #[verifier::external_body]
    pub(crate) fn new() -> (r: CellMap)
        ensures
            cell_entries(r) == no_cells(),
    {
        CellMap { map: FxHashMap::default() }
    }

    /// Relies on `HashMap::clear`: every entry is removed.
    #[verifier::external_body]
    pub(crate) fn clear(&mut self)
        ensures
            cell_entries(*final(self)) == no_cells(),
    {
        self.map.clear()
    }

    /// Relies on `HashMap::entry` with `or_default`: the bucket under `k`
    /// (an empty one when `k` is absent) gets `index` at its end; no other
    /// entry changes.
    #[verifier::external_body]
    pub(crate) fn append(&mut self, k: CellKey, index: usize)
        ensures
            cell_entries(*final(self)) == cell_entries(*old(self)).insert(
                k,
                appended(cell_entries(*old(self)), k, index),
            ),
    {
        self.map.entry(k).or_default().push(index)
    }

    /// Relies on `HashMap::get`: the bucket under `k`, if `k` is present.
    #[verifier::external_body]
    pub(crate) fn get(&self, k: &CellKey) -> (r: Option<&Vec<usize>>)
        ensures
            match r {
                Some(b) => cell_entries(*self).contains_key(*k) && b@ == cell_entries(*self)[*k],
                None => !cell_entries(*self).contains_key(*k),
            },
    {
        self.map.get(k)
    }

    /// Relies on `HashMap::keys`: each present key exactly once, in the
    /// map's own order.
    #[verifier::external_body]
    pub(crate) fn keys(&self) -> (r: Vec<CellKey>)
        ensures
            r@.no_duplicates(),
            forall|k: CellKey| #[trigger] r@.contains(k) <==> cell_entries(*self).contains_key(k),
    {
        self.map.keys().copied().collect()
    }
}

} // verus!
