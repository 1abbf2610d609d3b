//! The spatial index as its consumers see it: one set of operations, with
//! contracts over the map from tracked entity to position, that a backend
//! implements.
use crate::geometry::{dist2, in_box, within, Pos};
use crate::index::{precedes, IndexError, TileGrid};
use vstd::prelude::*;

verus! {

pub trait SpatialIndex {
    /// Each tracked entity and its position.
    spec fn positions(&self) -> Map<u64, Pos>;

    /// The backend's own invariant.
    spec fn ready(&self) -> bool;

    /// Starts tracking `e` at `p`; refused if `e` is tracked already.
    fn insert(&mut self, e: u64, p: Pos) -> (r: Result<(), IndexError>)
        requires
            old(self).ready(),
        ensures
            final(self).ready(),
            old(self).positions().contains_key(e) ==> r == Err::<(), IndexError>(
                IndexError::AlreadyTracked,
            ) && final(self).positions() == old(self).positions(),
            !old(self).positions().contains_key(e) ==> r is Ok && final(self).positions() == old(
                self,
            ).positions().insert(e, p),
    ;

    /// Stops tracking `e`; refused if `e` is not tracked.
    fn remove(&mut self, e: u64) -> (r: Result<(), IndexError>)
        requires
            old(self).ready(),
        ensures
            final(self).ready(),
            !old(self).positions().contains_key(e) ==> r == Err::<(), IndexError>(
                IndexError::NotTracked,
            ) && final(self).positions() == old(self).positions(),
            old(self).positions().contains_key(e) ==> r is Ok && final(self).positions() == old(
                self,
            ).positions().remove(e),
    ;

    /// Moves `e` to `p`; refused if `e` is not tracked.
    fn update(&mut self, e: u64, p: Pos) -> (r: Result<(), IndexError>)
        requires
            old(self).ready(),
        ensures
            final(self).ready(),
            !old(self).positions().contains_key(e) ==> r == Err::<(), IndexError>(
                IndexError::NotTracked,
            ) && final(self).positions() == old(self).positions(),
            old(self).positions().contains_key(e) ==> r is Ok && final(self).positions() == old(
                self,
            ).positions().insert(e, p),
    ;

    /// The position at which `e` is tracked.
    fn position(&self, e: u64) -> (r: Option<Pos>)
        ensures
            r == (if self.positions().contains_key(e) {
                Some(self.positions()[e])
            } else {
                None::<Pos>
            }),
    ;

    /// Every tracked entity within `radius` of `center`, boundary included,
    /// each once, with its squared distance.
    fn query_radius(&self, center: Pos, radius: u32) -> (r: Vec<(u128, u64)>)
        requires
            self.ready(),
        ensures
            forall|i: int, j: int|
                0 <= i < r@.len() && 0 <= j < r@.len() && i != j ==> r@[i].1 != r@[j].1,
            forall|i: int|
                0 <= i < r@.len() ==> {
                    &&& self.positions().contains_key(#[trigger] r@[i].1)
                    &&& within(center, self.positions()[r@[i].1], radius as int)
                    &&& r@[i].0 == dist2(center, self.positions()[r@[i].1])
                },
            forall|e: u64|
                self.positions().contains_key(e) && within(
                    center,
                    self.positions()[e],
                    radius as int,
                ) ==> exists|i: int| 0 <= i < r@.len() && #[trigger] r@[i].1 == e,
    ;

    /// Every tracked entity in the closed box `[lo, hi]`, each once.
    fn query_aabb(&self, lo: Pos, hi: Pos) -> (r: Vec<u64>)
        requires
            self.ready(),
        ensures
            r@.no_duplicates(),
            forall|e: u64| #[trigger]
                r@.contains(e) <==> self.positions().contains_key(e) && in_box(
                    lo,
                    hi,
                    self.positions()[e],
                ),
    ;

    /// The `n` tracked entities nearest to `point`, nearest first, ties by
    /// lower id.
    fn nearest(&self, point: Pos, n: usize) -> (r: Vec<u64>)
        requires
            self.ready(),
        ensures
            r@.len() == (if n < self.positions().len() {
                n as nat
            } else {
                self.positions().len()
            }),
            forall|i: int| 0 <= i < r@.len() ==> self.positions().contains_key(#[trigger] r@[i]),
            forall|i: int, j: int|
                0 <= i < j < r@.len() ==> precedes(
                    point,
                    r@[i],
                    self.positions()[r@[i]],
                    r@[j],
                    self.positions()[r@[j]],
                ),
            forall|e: u64, i: int| #![trigger r@[i], self.positions()[e]]
                self.positions().contains_key(e) && !r@.contains(e) && 0 <= i < r@.len()
                    ==> precedes(point, r@[i], self.positions()[r@[i]], e, self.positions()[e]),
    ;
}

impl SpatialIndex for TileGrid {
    open spec fn positions(&self) -> Map<u64, Pos> {
        self@
    }

    open spec fn ready(&self) -> bool {
        self.wf()
    }

    fn insert(&mut self, e: u64, p: Pos) -> (r: Result<(), IndexError>) {
        TileGrid::insert(self, e, p)
    }

    fn remove(&mut self, e: u64) -> (r: Result<(), IndexError>) {
        TileGrid::remove(self, e)
    }

    fn update(&mut self, e: u64, p: Pos) -> (r: Result<(), IndexError>) {
        TileGrid::update(self, e, p)
    }

    fn position(&self, e: u64) -> (r: Option<Pos>) {
        TileGrid::position(self, e)
    }

    fn query_radius(&self, center: Pos, radius: u32) -> (r: Vec<(u128, u64)>) {
        TileGrid::query_radius(self, center, radius)
    }

    fn query_aabb(&self, lo: Pos, hi: Pos) -> (r: Vec<u64>) {
        TileGrid::query_aabb(self, lo, hi)
    }

    fn nearest(&self, point: Pos, n: usize) -> (r: Vec<u64>) {
        TileGrid::nearest(self, point, n)
    }
}

} // verus!
