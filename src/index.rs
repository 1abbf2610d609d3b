//! The tile grid spatial index: the plane is cut into square tiles, and each
//! tile that holds entities keeps the list of their ids.
use crate::geometry::{dist2, in_box, squared_distance, squared_radius, within, Pos};
use std::collections::HashMap;
use vstd::arithmetic::div_mod::{lemma_div_is_ordered, lemma_fundamental_div_mod};
use vstd::prelude::*;

verus! {

broadcast use vstd::std_specs::hash::group_hash_axioms;

/// Why an index operation was refused.
#[derive(Clone, Copy, Debug, PartialEq, Eq, Structural)]
pub enum IndexError {
    /// The entity is not in the index.
    NotTracked,
    /// The entity is in the index already.
    AlreadyTracked,
}

/// Settings of the spatial index.
#[derive(Clone, Copy, Debug, PartialEq, Eq, Structural)]
pub struct IndexPluginGroup {
    /// Side of a square tile, in world units.
    pub tile_size: u32,
}

impl IndexPluginGroup {
    /// The default tile side, in world units.
    pub const DEFAULT_TILE_SIZE: u32 = 10;

    pub fn new() -> (r: IndexPluginGroup)
        ensures
            r.tile_size == Self::DEFAULT_TILE_SIZE,
    {
        IndexPluginGroup { tile_size: Self::DEFAULT_TILE_SIZE }
    }

    /// An empty index with these settings; `None` for a tile side of zero.
    pub fn build(&self) -> (r: Option<TileGrid>)
        ensures
            r is Some <==> self.tile_size > 0,
            r matches Some(g) ==> g.wf() && g@ == Map::<u64, Pos>::empty() && g.tile_size()
                == self.tile_size,
    {
        if self.tile_size == 0 {
            None
        } else {
            Some(TileGrid::new(self.tile_size))
        }
    }
}

/// Seen from `p`, entity `a` (at `pa`) comes strictly before entity `b` (at
/// `pb`): nearer, or equally near with a lower id.
pub open spec fn precedes(p: Pos, a: u64, pa: Pos, b: u64, pb: Pos) -> bool {
    dist2(p, pa) < dist2(p, pb) || (dist2(p, pa) == dist2(p, pb) && a < b)
}

/// The lowest corner of the plane.
pub open spec fn world_min() -> Pos {
    Pos { x: i32::MIN, y: i32::MIN }
}

/// The highest corner of the plane.
pub open spec fn world_max() -> Pos {
    Pos { x: i32::MAX, y: i32::MAX }
}

/// A box that spans the whole plane holds every tracked entity, so a box
/// query over it returns exactly the tracked set, whatever inserts, updates
/// and removals came before.
pub proof fn lemma_world_box_holds_all(m: Map<u64, Pos>)
    ensures
        Set::new(|e: u64| m.contains_key(e) && in_box(world_min(), world_max(), m[e])) == m.dom(),
{
    assert(Set::new(|e: u64| m.contains_key(e) && in_box(world_min(), world_max(), m[e])) =~= m.dom());
}

/// The tile that holds coordinate `c`, along one axis: floor division.
pub open spec fn tile_of(c: int, size: int) -> int {
    c / size
}

/// The map key of the tile `(tx, ty)`.
pub open spec fn cell_key(tx: int, ty: int) -> int {
    (tx + 0x8000_0000) * 0x1_0000_0000 + (ty + 0x8000_0000)
}

/// The map key of the tile that holds `p`.
pub open spec fn cell_of(p: Pos, size: int) -> int {
    cell_key(tile_of(p.x as int, size), tile_of(p.y as int, size))
}

proof fn lemma_tile_in_range(x: int, s: int)
    requires
        i32::MIN <= x <= i32::MAX,
        s >= 1,
    ensures
        i32::MIN <= x / s <= i32::MAX,
{
    lemma_fundamental_div_mod(x, s);
    let q = x / s;
    let r = x % s;
    assert(0 <= r < s);
    assert(i32::MIN <= q <= i32::MAX) by (nonlinear_arith)
        requires
            x == s * q + r,
            0 <= r < s,
            s >= 1,
            i32::MIN <= x <= i32::MAX,
    ;
}

proof fn lemma_cell_key_injective(tx: int, ty: int, ux: int, uy: int)
    requires
        i32::MIN <= ty <= i32::MAX,
        i32::MIN <= uy <= i32::MAX,
        cell_key(tx, ty) == cell_key(ux, uy),
    ensures
        tx == ux,
        ty == uy,
{
}

proof fn lemma_prefix_step<A>(s: Seq<A>, i: int)
    requires
        0 <= i < s.len(),
    ensures
        forall|x: A|
            #[trigger] s.subrange(0, i + 1).contains(x) <==> (s.subrange(0, i).contains(x) || x
                == s[i]),
{
    assert forall|x: A| #[trigger] s.subrange(0, i + 1).contains(x) <==> (s.subrange(0, i).contains(x) || x == s[i]) by {
        let longer = s.subrange(0, i + 1);
        let shorter = s.subrange(0, i);
        if longer.contains(x) {
            let j = choose|j: int| 0 <= j < longer.len() && longer[j] == x;
            if j < i {
                assert(shorter[j] == x);
            }
        }
        if shorter.contains(x) {
            let j = choose|j: int| 0 <= j < shorter.len() && shorter[j] == x;
            assert(longer[j] == x);
        }
        if x == s[i] {
            assert(s.subrange(0, i + 1)[i] == x);
        }
    }
}

spec fn deref_all(s: Seq<&u64>) -> Seq<u64> {
    s.unref()
}

/// The tile of `c` along one axis.
fn tile_coord(c: i32, size: u32) -> (t: i64)
    requires
        size > 0,
    ensures
        t == tile_of(c as int, size as int),
        i32::MIN <= t <= i32::MAX,
{
    proof {
        lemma_tile_in_range(c as int, size as int);
    }
    match (c as i64).checked_div_euclid(size as i64) {
        Some(t) => t,
        None => 0,
    }
}

/// The map key of a tile.
fn tile_key(tx: i64, ty: i64) -> (k: u64)
    requires
        i32::MIN <= tx <= i32::MAX,
        i32::MIN <= ty <= i32::MAX,
    ensures
        k == cell_key(tx as int, ty as int),
{
    ((tx + 0x8000_0000) as u64) * 0x1_0000_0000 + ((ty + 0x8000_0000) as u64)
}

/// The map key of the tile that holds `p`.
fn key_of(p: Pos, size: u32) -> (k: u64)
    requires
        size > 0,
    ensures
        k == cell_of(p, size as int),
{
    tile_key(tile_coord(p.x, size), tile_coord(p.y, size))
}

/// Takes `e` out of the list of tile `key`; a list left empty is dropped.
fn detach(cells: &mut HashMap<u64, Vec<u64>>, key: u64, e: u64)
    requires
        old(cells)@.contains_key(key),
        old(cells)@[key]@.no_duplicates(),
    ensures
        forall|k: u64| k != key ==> #[trigger] final(cells)@.contains_key(k) == old(cells)@.contains_key(k),
        forall|k: u64| k != key && old(cells)@.contains_key(k) ==> #[trigger] final(cells)@[k] == old(cells)@[k],
        final(cells)@.contains_key(key) ==> {
            &&& final(cells)@[key]@.no_duplicates()
            &&& final(cells)@[key]@.len() > 0
            &&& forall|x: u64|
                final(cells)@[key]@.contains(x) <==> (old(cells)@[key]@.contains(x) && x != e)
        },
        !final(cells)@.contains_key(key) ==> forall|x: u64|
            old(cells)@[key]@.contains(x) ==> x == e,
{
    let ghost before = cells@;
    let mut list = match cells.remove(&key) {
        Some(l) => l,
        None => Vec::new(),
    };
    assert(list@ == before[key]@);
    let mut i: usize = 0;
    while i < list.len() && list[i] != e
        invariant
            before.contains_key(key),
            list@ == before[key]@,
            0 <= i <= list.len(),
            forall|j: int| 0 <= j < i ==> list@[j] != e,
        decreases list.len() - i,
    {
        i = i + 1;
    }
    if i < list.len() {
        let ghost l0 = list@;
        assert(l0[i as int] == e);
        list.swap_remove(i);
        assert forall|x: u64| list@.contains(x) <==> (l0.contains(x) && x != e) by {
            if l0.contains(x) && x != e {
                let j = choose|j: int| 0 <= j < l0.len() && l0[j] == x;
                if j == l0.len() - 1 {
                    assert(list@[i as int] == x);
                } else {
                    assert(list@[j] == x);
                }
            }
            if list@.contains(x) {
                let j = choose|j: int| 0 <= j < list@.len() && list@[j] == x;
                if j == i {
                    assert(x == l0[l0.len() - 1]);
                    assert(x != e);
                } else {
                    assert(x == l0[j]);
                }
            }
        }
        assert(list@.no_duplicates()) by {
            assert forall|a: int, b: int|
                0 <= a < list@.len() && 0 <= b < list@.len() && a != b implies list@[a]
                != list@[b] by {
                let ia = if a == i { l0.len() - 1 } else { a };
                let ib = if b == i { l0.len() - 1 } else { b };
                assert(list@[a] == l0[ia]);
                assert(list@[b] == l0[ib]);
            }
        }
    }
    if list.len() > 0 {
        cells.insert(key, list);
    } else {
        assert forall|x: u64| before[key]@.contains(x) implies x == e by {
            if x != e {
                assert(list@.contains(x));
            }
        }
    }
}

/// Adds `e` to the list of tile `key`, making the list if there is none.
fn attach(cells: &mut HashMap<u64, Vec<u64>>, key: u64, e: u64)
    requires
        old(cells)@.contains_key(key) ==> old(cells)@[key]@.no_duplicates() && !old(
            cells,
        )@[key]@.contains(e),
    ensures
        forall|k: u64| k != key ==> #[trigger] final(cells)@.contains_key(k) == old(cells)@.contains_key(k),
        forall|k: u64| k != key && old(cells)@.contains_key(k) ==> #[trigger] final(cells)@[k] == old(cells)@[k],
        final(cells)@.contains_key(key),
        final(cells)@[key]@.no_duplicates(),
        final(cells)@[key]@.len() > 0,
        forall|x: u64|
            final(cells)@[key]@.contains(x) <==> (x == e || (old(cells)@.contains_key(key) && old(
                cells,
            )@[key]@.contains(x))),
{
    let ghost before = cells@;
    let mut list = match cells.remove(&key) {
        Some(l) => l,
        None => Vec::new(),
    };
    let ghost l0 = list@;
    assert(before.contains_key(key) ==> l0 == before[key]@);
    assert(!before.contains_key(key) ==> l0.len() == 0);
    list.push(e);
    let ghost l1 = list@;
    cells.insert(key, list);
    assert(before == old(cells)@);
    assert forall|x: u64|
        #[trigger] cells@[key]@.contains(x) <==> (x == e || (old(cells)@.contains_key(key) && old(cells)@[key]@.contains(
            x,
        ))) by {
        assert(cells@[key]@ == l1);
        assert(l1 == l0.push(e));
        if l0.contains(x) {
            let j = choose|j: int| 0 <= j < l0.len() && l0[j] == x;
            assert(l1[j] == x);
        }
        if x == e {
            assert(l1[l0.len() as int] == e);
        }
        if l1.contains(x) {
            let j = choose|j: int| 0 <= j < l1.len() && l1[j] == x;
            if j < l0.len() {
                assert(l0[j] == x);
            }
        }
        if before.contains_key(key) {
            assert(l0 == before[key]@);
        } else {
            assert(!l0.contains(x));
        }
    }
}

/// The tile grid index. Its view maps each tracked entity to its position.
pub struct TileGrid {
    tile_size: u32,
    cells: HashMap<u64, Vec<u64>>,
    records: HashMap<u64, Pos>,
}

impl View for TileGrid {
    type V = Map<u64, Pos>;

    closed spec fn view(&self) -> Map<u64, Pos> {
        self.records@
    }
}

impl TileGrid {
    /// Side of a tile.
    pub closed spec fn tile_size(&self) -> u32 {
        self.tile_size
    }

    /// Every tracked entity stands, once, in the list of the tile that holds
    /// its position, and in no other list; no list is empty.
    pub closed spec fn wf(&self) -> bool {
        &&& self.tile_size > 0
        &&& forall|e: u64| #[trigger]
            self.records@.contains_key(e) ==> {
                &&& self.cells@.contains_key(cell_of(self.records@[e], self.tile_size as int) as u64)
                &&& self.cells@[cell_of(
                    self.records@[e],
                    self.tile_size as int,
                ) as u64]@.contains(e)
            }
        &&& forall|k: u64, x: u64|
            self.cells@.contains_key(k) && #[trigger] self.cells@[k]@.contains(x) ==> {
                &&& self.records@.contains_key(x)
                &&& cell_of(self.records@[x], self.tile_size as int) == k
            }
        &&& forall|k: u64| #[trigger]
            self.cells@.contains_key(k) ==> self.cells@[k]@.no_duplicates() && self.cells@[k]@.len()
                > 0
    }

    /// An empty index with tiles of side `tile_size`.
    pub fn new(tile_size: u32) -> (r: TileGrid)
        requires
            tile_size > 0,
        ensures
            r.wf(),
            r@ == Map::<u64, Pos>::empty(),
            r.tile_size() == tile_size,
    {
        TileGrid { tile_size, cells: HashMap::new(), records: HashMap::new() }
    }

    /// How many entities are tracked.
    pub fn len(&self) -> (n: usize)
        requires
            self.wf(),
        ensures
            n == self@.len(),
    {
        self.records.len()
    }

    /// Whether `e` is tracked.
    pub fn contains(&self, e: u64) -> (r: bool)
        ensures
            r == self@.contains_key(e),
    {
        self.records.contains_key(&e)
    }

    /// The position at which `e` is tracked.
    pub fn position(&self, e: u64) -> (r: Option<Pos>)
        ensures
            r == (if self@.contains_key(e) {
                Some(self@[e])
            } else {
                None::<Pos>
            }),
    {
        match self.records.get(&e) {
            Some(p) => Some(*p),
            None => None,
        }
    }

    /// Starts tracking `e` at `p`; refused if `e` is tracked already.
    pub fn insert(&mut self, e: u64, p: Pos) -> (r: Result<(), IndexError>)
        requires
            old(self).wf(),
        ensures
            final(self).wf(),
            final(self).tile_size() == old(self).tile_size(),
            old(self)@.contains_key(e) ==> r == Err::<(), IndexError>(IndexError::AlreadyTracked)
                && final(self)@ == old(self)@,
            !old(self)@.contains_key(e) ==> r is Ok && final(self)@ == old(self)@.insert(e, p),
    {
        if self.records.contains_key(&e) {
            return Err(IndexError::AlreadyTracked);
        }
        let ghost c0 = self.cells@;
        let ghost r0 = self.records@;
        let key = key_of(p, self.tile_size);
        proof {
            if c0.contains_key(key) && c0[key]@.contains(e) {
                assert(r0.contains_key(e));
            }
        }
        attach(&mut self.cells, key, e);
        self.records.insert(e, p);
        proof {
            let ts = self.tile_size as int;
            assert forall|k: u64| #[trigger] self.cells@.contains_key(k) implies self.cells@[k]@.no_duplicates()
                && self.cells@[k]@.len() > 0 by {
                if k != key {
                    assert(c0.remove(key).contains_key(k));
                }
            }
            assert forall|k: u64, x: u64|
                self.cells@.contains_key(k) && #[trigger] self.cells@[k]@.contains(x) implies {
                &&& self.records@.contains_key(x)
                &&& cell_of(self.records@[x], ts) == k
            } by {
                if k != key {
                    assert(c0.remove(key).contains_key(k));
                    assert(c0[k]@.contains(x));
                } else if x != e {
                    assert(c0[k]@.contains(x));
                }
            }
            assert forall|x: u64| #[trigger] self.records@.contains_key(x) implies {
                &&& self.cells@.contains_key(cell_of(self.records@[x], ts) as u64)
                &&& self.cells@[cell_of(self.records@[x], ts) as u64]@.contains(x)
            } by {
                if x != e {
                    let kx = cell_of(r0[x], ts) as u64;
                    assert(c0.contains_key(kx) && c0[kx]@.contains(x));
                    if kx != key {
                        assert(c0.remove(key).contains_key(kx));
                    }
                }
            }
        }
        Ok(())
    }

    /// Stops tracking `e`; refused if `e` is not tracked.
    pub fn remove(&mut self, e: u64) -> (r: Result<(), IndexError>)
        requires
            old(self).wf(),
        ensures
            final(self).wf(),
            final(self).tile_size() == old(self).tile_size(),
            !old(self)@.contains_key(e) ==> r == Err::<(), IndexError>(IndexError::NotTracked)
                && final(self)@ == old(self)@,
            old(self)@.contains_key(e) ==> r is Ok && final(self)@ == old(self)@.remove(e),
    {
        let p = match self.records.get(&e) {
            Some(p) => *p,
            None => {
                return Err(IndexError::NotTracked);
            },
        };
        let ghost c0 = self.cells@;
        let ghost r0 = self.records@;
        let key = key_of(p, self.tile_size);
        detach(&mut self.cells, key, e);
        self.records.remove(&e);
        proof {
            let ts = self.tile_size as int;
            assert forall|k: u64| #[trigger] self.cells@.contains_key(k) implies self.cells@[k]@.no_duplicates()
                && self.cells@[k]@.len() > 0 by {
                if k != key {
                    assert(c0.remove(key).contains_key(k));
                }
            }
            assert forall|k: u64, x: u64|
                self.cells@.contains_key(k) && #[trigger] self.cells@[k]@.contains(x) implies {
                &&& self.records@.contains_key(x)
                &&& cell_of(self.records@[x], ts) == k
            } by {
                if k != key {
                    assert(c0.remove(key).contains_key(k));
                    assert(c0[k]@.contains(x));
                    assert(x != e);
                } else {
                    assert(c0[k]@.contains(x));
                }
            }
            assert forall|x: u64| #[trigger] self.records@.contains_key(x) implies {
                &&& self.cells@.contains_key(cell_of(self.records@[x], ts) as u64)
                &&& self.cells@[cell_of(self.records@[x], ts) as u64]@.contains(x)
            } by {
                let kx = cell_of(r0[x], ts) as u64;
                assert(c0.contains_key(kx) && c0[kx]@.contains(x));
                if kx != key {
                    assert(c0.remove(key).contains_key(kx));
                }
            }
        }
        Ok(())
    }

    /// Moves `e` to `p`; refused if `e` is not tracked. Only the tiles of the
    /// old and the new position are touched, however far apart they are.
    pub fn update(&mut self, e: u64, p: Pos) -> (r: Result<(), IndexError>)
        requires
            old(self).wf(),
        ensures
            final(self).wf(),
            final(self).tile_size() == old(self).tile_size(),
            !old(self)@.contains_key(e) ==> r == Err::<(), IndexError>(IndexError::NotTracked)
                && final(self)@ == old(self)@,
            old(self)@.contains_key(e) ==> r is Ok && final(self)@ == old(self)@.insert(e, p),
    {
        let was = match self.records.get(&e) {
            Some(was) => *was,
            None => {
                return Err(IndexError::NotTracked);
            },
        };
        let ghost c0 = self.cells@;
        let ghost r0 = self.records@;
        let old_key = key_of(was, self.tile_size);
        let new_key = key_of(p, self.tile_size);
        if old_key != new_key {
            detach(&mut self.cells, old_key, e);
            let ghost c1 = self.cells@;
            proof {
                if c1.contains_key(new_key) {
                    assert(c0.remove(old_key).contains_key(new_key));
                    if c1[new_key]@.contains(e) {
                        assert(c0[new_key]@.contains(e));
                    }
                }
            }
            attach(&mut self.cells, new_key, e);
            proof {
                let ts = self.tile_size as int;
                assert forall|k: u64| #[trigger] self.cells@.contains_key(k) implies self.cells@[k]@.no_duplicates()
                    && self.cells@[k]@.len() > 0 by {
                    if k != new_key {
                        assert(c1.remove(new_key).contains_key(k));
                        if k != old_key {
                            assert(c0.remove(old_key).contains_key(k));
                        }
                    }
                }
            }
        }
        self.records.insert(e, p);
        proof {
            let ts = self.tile_size as int;
            let c2 = self.cells@;
            assert forall|k: u64| #[trigger] self.cells@.contains_key(k) implies self.cells@[k]@.no_duplicates()
                && self.cells@[k]@.len() > 0 by {
                if old_key == new_key {
                    assert(c0.contains_key(k));
                }
            }
            assert forall|k: u64, x: u64|
                self.cells@.contains_key(k) && #[trigger] self.cells@[k]@.contains(x) implies {
                &&& self.records@.contains_key(x)
                &&& cell_of(self.records@[x], ts) == k
            } by {
                if old_key == new_key {
                    assert(c0[k]@.contains(x));
                } else if k == new_key {
                    if x != e {
                        assert(c0.remove(old_key).contains_key(k));
                        assert(c0[k]@.contains(x));
                    }
                } else if k == old_key {
                    assert(c0[k]@.contains(x));
                } else {
                    assert(c0.remove(old_key).contains_key(k));
                    assert(c0[k]@.contains(x));
                    assert(x != e);
                }
            }
            assert forall|x: u64| #[trigger] self.records@.contains_key(x) implies {
                &&& self.cells@.contains_key(cell_of(self.records@[x], ts) as u64)
                &&& self.cells@[cell_of(self.records@[x], ts) as u64]@.contains(x)
            } by {
                if x != e && old_key != new_key {
                    let kx = cell_of(r0[x], ts) as u64;
                    assert(c0.contains_key(kx) && c0[kx]@.contains(x));
                    if kx != old_key && kx != new_key {
                        assert(c0.remove(old_key).contains_key(kx));
                    }
                }
            }
        }
        Ok(())
    }

    /// Whether `p` lies in a tile that the scan of `(tx, ty)` has passed:
    /// tiles are scanned column by column, each from its lowest row.
    spec fn scanned(&self, p: Pos, tx: int, ty: int) -> bool {
        let a = tile_of(p.x as int, self.tile_size as int);
        let b = tile_of(p.y as int, self.tile_size as int);
        a < tx || (a == tx && b < ty)
    }

    /// Every tracked entity whose position lies in the closed box `[lo, hi]`,
    /// each once, found by visiting the tiles that overlap the box.
    fn scan_tiles(&self, lo: Pos, hi: Pos) -> (r: Vec<u64>)
        requires
            self.wf(),
        ensures
            r@.no_duplicates(),
            forall|e: u64| #[trigger]
                r@.contains(e) <==> self@.contains_key(e) && in_box(lo, hi, self@[e]),
    {
        let mut out: Vec<u64> = Vec::new();
        if lo.x > hi.x || lo.y > hi.y {
            return out;
        }
        let ts = self.tile_size;
        let x0 = tile_coord(lo.x, ts);
        let x1 = tile_coord(hi.x, ts);
        let y0 = tile_coord(lo.y, ts);
        let y1 = tile_coord(hi.y, ts);
        proof {
            lemma_div_is_ordered(lo.x as int, hi.x as int, ts as int);
            lemma_div_is_ordered(lo.y as int, hi.y as int, ts as int);
            assert forall|e: u64| self.records@.contains_key(e) && in_box(lo, hi, self.records@[e]) implies
                x0 <= tile_of(self.records@[e].x as int, ts as int) <= x1 && y0 <= tile_of(
                self.records@[e].y as int,
                ts as int,
            ) <= y1 by {
                let q = self.records@[e];
                lemma_div_is_ordered(lo.x as int, q.x as int, ts as int);
                lemma_div_is_ordered(q.x as int, hi.x as int, ts as int);
                lemma_div_is_ordered(lo.y as int, q.y as int, ts as int);
                lemma_div_is_ordered(q.y as int, hi.y as int, ts as int);
            }
        }
        let mut tx: i64 = x0;
        while tx <= x1
            invariant
                self.wf(),
                ts == self.tile_size,
                i32::MIN <= x0 <= tx <= x1 + 1,
                x1 <= i32::MAX,
                i32::MIN <= y0 <= y1 <= i32::MAX,
                forall|e: u64| self.records@.contains_key(e) && in_box(lo, hi, self.records@[e]) ==>
                    x0 <= tile_of(self.records@[e].x as int, ts as int) <= x1 && y0 <= tile_of(
                    self.records@[e].y as int,
                    ts as int,
                ) <= y1,
                out@.no_duplicates(),
                forall|e: u64| #[trigger]
                    out@.contains(e) ==> self.records@.contains_key(e) && in_box(
                        lo,
                        hi,
                        self.records@[e],
                    ) && self.scanned(self.records@[e], tx as int, y0 as int),
                forall|e: u64|
                    self.records@.contains_key(e) && in_box(lo, hi, self.records@[e]) && self.scanned(
                        self.records@[e],
                        tx as int,
                        y0 as int,
                    ) ==> #[trigger] out@.contains(e),
            decreases x1 + 1 - tx,
        {
            let mut ty: i64 = y0;
            while ty <= y1
                invariant
                    self.wf(),
                    ts == self.tile_size,
                    i32::MIN <= x0 <= tx <= x1,
                    x1 <= i32::MAX,
                    i32::MIN <= y0 <= ty <= y1 + 1,
                    y1 <= i32::MAX,
                    forall|e: u64| self.records@.contains_key(e) && in_box(lo, hi, self.records@[e]) ==>
                        x0 <= tile_of(self.records@[e].x as int, ts as int) <= x1 && y0 <= tile_of(
                        self.records@[e].y as int,
                        ts as int,
                    ) <= y1,
                    out@.no_duplicates(),
                    forall|e: u64| #[trigger]
                        out@.contains(e) ==> self.records@.contains_key(e) && in_box(
                            lo,
                            hi,
                            self.records@[e],
                        ) && self.scanned(self.records@[e], tx as int, ty as int),
                    forall|e: u64|
                        self.records@.contains_key(e) && in_box(lo, hi, self.records@[e])
                            && self.scanned(self.records@[e], tx as int, ty as int) ==> #[trigger] out@.contains(e),
                decreases y1 + 1 - ty,
            {
                let key = tile_key(tx, ty);
                match self.cells.get(&key) {
                    Some(list) => {
                        let mut i: usize = 0;
                        while i < list.len()
                            invariant
                                self.wf(),
                                ts == self.tile_size,
                                self.cells@.contains_key(key),
                                self.cells@[key] == *list,
                                key == cell_key(tx as int, ty as int),
                                i32::MIN <= tx <= i32::MAX,
                                i32::MIN <= ty <= i32::MAX,
                                0 <= i <= list.len(),
                                out@.no_duplicates(),
                                forall|e: u64| #[trigger]
                                    out@.contains(e) ==> self.records@.contains_key(e) && in_box(
                                        lo,
                                        hi,
                                        self.records@[e],
                                    ) && (self.scanned(self.records@[e], tx as int, ty as int)
                                        || list@.subrange(0, i as int).contains(e)),
                                forall|e: u64|
                                    self.records@.contains_key(e) && in_box(lo, hi, self.records@[e])
                                        && (self.scanned(self.records@[e], tx as int, ty as int)
                                        || list@.subrange(0, i as int).contains(e)) ==> #[trigger] out@.contains(e),
                            decreases list.len() - i,
                        {
                            let e = list[i];
                            let ghost pre = out@;
                            assert(self.cells@[key]@.contains(e));
                            let q = match self.records.get(&e) {
                                Some(q) => *q,
                                None => Pos { x: 0, y: 0 },
                            };
                            proof {
                                lemma_tile_in_range(q.y as int, ts as int);
                                lemma_tile_in_range(q.x as int, ts as int);
                                lemma_cell_key_injective(
                                    tile_of(q.x as int, ts as int),
                                    tile_of(q.y as int, ts as int),
                                    tx as int,
                                    ty as int,
                                );
                                assert(!self.scanned(q, tx as int, ty as int));
                                assert(!list@.subrange(0, i as int).contains(e)) by {
                                    if list@.subrange(0, i as int).contains(e) {
                                        let j = choose|j: int|
                                            0 <= j < i && list@.subrange(0, i as int)[j] == e;
                                        assert(list@[j] == list@[i as int]);
                                    }
                                }
                                lemma_prefix_step(list@, i as int);
                            }
                            if lo.x <= q.x && q.x <= hi.x && lo.y <= q.y && q.y <= hi.y {
                                out.push(e);
                                proof {
                                    assert forall|a: int, b: int|
                                        0 <= a < out@.len() && 0 <= b < out@.len() && a != b implies out@[a]
                                        != out@[b] by {
                                        if a == pre.len() {
                                            assert(pre.contains(out@[b]));
                                        } else if b == pre.len() {
                                            assert(pre.contains(out@[a]));
                                        }
                                    }
                                    assert forall|x: u64| #[trigger] out@.contains(x) implies pre.contains(x) || x == e by {
                                        let j = choose|j: int| 0 <= j < out@.len() && out@[j] == x;
                                        if j < pre.len() {
                                            assert(pre[j] == x);
                                        }
                                    }
                                    assert(out@[pre.len() as int] == e);
                                }
                            }
                            proof {
                                assert forall|x: u64|
                                    self.records@.contains_key(x) && in_box(lo, hi, self.records@[x])
                                        && (self.scanned(self.records@[x], tx as int, ty as int)
                                        || list@.subrange(0, i + 1).contains(x)) implies #[trigger] out@.contains(x) by {
                                    if x != e {
                                        assert(pre.contains(x));
                                        let j = choose|j: int| 0 <= j < pre.len() && pre[j] == x;
                                        assert(out@[j] == x);
                                    } else {
                                        assert(out@[pre.len() as int] == e);
                                    }
                                }
                            }
                            i = i + 1;
                        }
                        proof {
                            assert(list@.subrange(0, list@.len() as int) == list@);
                            assert forall|e: u64|
                                self.records@.contains_key(e) && in_box(lo, hi, self.records@[e])
                                && self.scanned(self.records@[e], tx as int, ty + 1) implies #[trigger] out@.contains(e) by {
                                if !self.scanned(self.records@[e], tx as int, ty as int) {
                                    assert(self.cells@[cell_of(self.records@[e], ts as int) as u64]@.contains(e));
                                }
                            }
                        }
                    },
                    None => {
                        proof {
                            assert forall|e: u64|
                                self.records@.contains_key(e) && in_box(lo, hi, self.records@[e])
                                implies #[trigger] self.scanned(self.records@[e], tx as int, ty + 1)
                                == self.scanned(self.records@[e], tx as int, ty as int) by {
                                assert(self.cells@.contains_key(cell_of(self.records@[e], ts as int) as u64));
                            }
                        }
                    },
                }
                ty = ty + 1;
            }
            tx = tx + 1;
        }
        out
    }

    /// Every tracked entity within Euclidean distance `radius` of `center`,
    /// boundary included, each once, with its squared distance.
    pub fn query_radius(&self, center: Pos, radius: u32) -> (r: Vec<(u128, u64)>)
        requires
            self.wf(),
        ensures
            forall|i: int, j: int| 0 <= i < r@.len() && 0 <= j < r@.len() && i != j ==> r@[i].1 != r@[j].1,
            forall|i: int|
                0 <= i < r@.len() ==> {
                    &&& self@.contains_key(#[trigger] r@[i].1)
                    &&& within(center, self@[r@[i].1], radius as int)
                    &&& r@[i].0 == dist2(center, self@[r@[i].1])
                },
            forall|e: u64|
                self@.contains_key(e) && within(center, self@[e], radius as int) ==> exists|i: int|
                    0 <= i < r@.len() && #[trigger] r@[i].1 == e,
    {
        let lo = Pos {
            x: if (center.x as i64) - (radius as i64) < i32::MIN as i64 { i32::MIN } else { (center.x as i64 - radius as i64) as i32 },
            y: if (center.y as i64) - (radius as i64) < i32::MIN as i64 { i32::MIN } else { (center.y as i64 - radius as i64) as i32 },
        };
        let hi = Pos {
            x: if (center.x as i64) + (radius as i64) > i32::MAX as i64 { i32::MAX } else { (center.x as i64 + radius as i64) as i32 },
            y: if (center.y as i64) + (radius as i64) > i32::MAX as i64 { i32::MAX } else { (center.y as i64 + radius as i64) as i32 },
        };
        let boxed = self.query_aabb(lo, hi);
        let r2 = squared_radius(radius);
        let mut out: Vec<(u128, u64)> = Vec::new();
        let mut i: usize = 0;
        while i < boxed.len()
            invariant
                self.wf(),
                0 <= i <= boxed.len(),
                r2 == radius * radius,
                boxed@.no_duplicates(),
                forall|e: u64| #[trigger]
                    boxed@.contains(e) <==> self@.contains_key(e) && in_box(lo, hi, self@[e]),
                forall|a: int, b: int| 0 <= a < out@.len() && 0 <= b < out@.len() && a != b ==> out@[a].1 != out@[b].1,
                forall|a: int|
                    0 <= a < out@.len() ==> {
                        &&& self@.contains_key(#[trigger] out@[a].1)
                        &&& within(center, self@[out@[a].1], radius as int)
                        &&& out@[a].0 == dist2(center, self@[out@[a].1])
                        &&& boxed@.subrange(0, i as int).contains(out@[a].1)
                    },
                forall|e: u64|
                    boxed@.subrange(0, i as int).contains(e) && self@.contains_key(e) && within(center, self@[e], radius as int)
                        ==> exists|a: int| 0 <= a < out@.len() && #[trigger] out@[a].1 == e,
            decreases boxed.len() - i,
        {
            let e = boxed[i];
            assert(boxed@.contains(e));
            let q = match self.records.get(&e) {
                Some(q) => *q,
                None => Pos { x: 0, y: 0 },
            };
            let d = squared_distance(center, q);
            let ghost pre = out@;
            proof {
                lemma_prefix_step(boxed@, i as int);
                assert(!boxed@.subrange(0, i as int).contains(e)) by {
                    if boxed@.subrange(0, i as int).contains(e) {
                        let j = choose|j: int| 0 <= j < i && boxed@.subrange(0, i as int)[j] == e;
                        assert(boxed@[j] == boxed@[i as int]);
                    }
                }
            }
            if d <= r2 {
                out.push((d, e));
                proof {
                    assert(out@[pre.len() as int].1 == e);
                    assert forall|x: u64|
                        boxed@.subrange(0, i + 1).contains(x) && self@.contains_key(x) && within(center, self@[x], radius as int)
                        implies exists|a: int| 0 <= a < out@.len() && #[trigger] out@[a].1 == x by {
                        if x != e {
                            assert(boxed@.subrange(0, i as int).contains(x));
                            let a = choose|a: int| 0 <= a < pre.len() && #[trigger] pre[a].1 == x;
                            assert(out@[a].1 == x);
                        }
                    }
                }
            } else {
                proof {
                    assert forall|x: u64|
                        boxed@.subrange(0, i + 1).contains(x) && self@.contains_key(x) && within(center, self@[x], radius as int)
                        implies exists|a: int| 0 <= a < out@.len() && #[trigger] out@[a].1 == x by {
                        assert(boxed@.subrange(0, i as int).contains(x));
                    }
                }
            }
            i = i + 1;
        }
        proof {
            assert(boxed@.subrange(0, boxed@.len() as int) == boxed@);
            assert forall|e: u64| self@.contains_key(e) && within(center, self@[e], radius as int) implies
                boxed@.contains(e) by {
                let q = self@[e];
                let dx = center.x - q.x;
                let dy = center.y - q.y;
                let rr = radius as int;
                assert(-rr <= dx <= rr && -rr <= dy <= rr) by (nonlinear_arith)
                    requires
                        dx * dx + dy * dy <= rr * rr,
                        rr >= 0,
                ;
            }
        }
        out
    }

    /// Every tracked entity, each once.
    pub fn entities(&self) -> (r: Vec<u64>)
        ensures
            r@.no_duplicates(),
            forall|e: u64| #[trigger] r@.contains(e) <==> self@.contains_key(e),
    {
        let mut out: Vec<u64> = Vec::new();
        for k in it: self.records.keys()
            invariant
                out.len() == it.index(),
                forall|j: int| 0 <= j < it.index() ==> out@[j] == *it.seq()[j],
                deref_all(it.seq()).no_duplicates(),
                deref_all(it.seq()).to_set() == self.records@.dom(),
            ensures
                out@ == deref_all(it.seq()),
                out@.no_duplicates(),
                deref_all(it.seq()).to_set() == self.records@.dom(),
        {
            out.push(*k);
        }
        proof {
            assert(out@.to_set() == self.records@.dom());
            assert forall|e: u64| #[trigger] out@.contains(e) <==> self@.contains_key(e) by {
                assert(out@.to_set().contains(e) == out@.contains(e));
            }
        }
        out
    }

    /// Every tracked entity whose position lies in the closed box `[lo, hi]`,
    /// each once. Only the tiles that overlap the box are visited, unless
    /// they outnumber the tracked entities; then each entity is tested.
    pub fn query_aabb(&self, lo: Pos, hi: Pos) -> (r: Vec<u64>)
        requires
            self.wf(),
        ensures
            r@.no_duplicates(),
            forall|e: u64| #[trigger]
                r@.contains(e) <==> self@.contains_key(e) && in_box(lo, hi, self@[e]),
    {
        if lo.x > hi.x || lo.y > hi.y {
            return Vec::new();
        }
        let ts = self.tile_size;
        let x0 = tile_coord(lo.x, ts);
        let x1 = tile_coord(hi.x, ts);
        let y0 = tile_coord(lo.y, ts);
        let y1 = tile_coord(hi.y, ts);
        proof {
            lemma_div_is_ordered(lo.x as int, hi.x as int, ts as int);
            lemma_div_is_ordered(lo.y as int, hi.y as int, ts as int);
        }
        let w = (x1 - x0) as u128 + 1;
        let h = (y1 - y0) as u128 + 1;
        assert(w * h <= 0x1_0000_0000 * 0x1_0000_0000) by (nonlinear_arith)
            requires
                1 <= w <= 0x1_0000_0000,
                1 <= h <= 0x1_0000_0000,
        ;
        if w * h <= self.records.len() as u128 {
            return self.scan_tiles(lo, hi);
        }
        let all = self.entities();
        let mut out: Vec<u64> = Vec::new();
        let mut i: usize = 0;
        while i < all.len()
            invariant
                0 <= i <= all.len(),
                all@.no_duplicates(),
                forall|e: u64| #[trigger] all@.contains(e) <==> self@.contains_key(e),
                out@.no_duplicates(),
                forall|e: u64| #[trigger]
                    out@.contains(e) <==> all@.subrange(0, i as int).contains(e) && self@.contains_key(e) && in_box(
                        lo,
                        hi,
                        self@[e],
                    ),
            decreases all.len() - i,
        {
            let e = all[i];
            assert(all@.contains(e));
            let q = match self.records.get(&e) {
                Some(q) => *q,
                None => Pos { x: 0, y: 0 },
            };
            let ghost pre = out@;
            proof {
                lemma_prefix_step(all@, i as int);
                assert(!all@.subrange(0, i as int).contains(e)) by {
                    if all@.subrange(0, i as int).contains(e) {
                        let j = choose|j: int| 0 <= j < i && all@.subrange(0, i as int)[j] == e;
                        assert(all@[j] == all@[i as int]);
                    }
                }
            }
            if lo.x <= q.x && q.x <= hi.x && lo.y <= q.y && q.y <= hi.y {
                out.push(e);
                proof {
                    assert forall|x: u64| #[trigger] out@.contains(x) <==> (pre.contains(x) || x == e) by {
                        if out@.contains(x) {
                            let j = choose|j: int| 0 <= j < out@.len() && out@[j] == x;
                            if j < pre.len() {
                                assert(pre[j] == x);
                            }
                        }
                        if pre.contains(x) {
                            let j = choose|j: int| 0 <= j < pre.len() && pre[j] == x;
                            assert(out@[j] == x);
                        }
                        if x == e {
                            assert(out@[pre.len() as int] == e);
                        }
                    }
                    assert forall|a: int, b: int|
                        0 <= a < out@.len() && 0 <= b < out@.len() && a != b implies out@[a]
                        != out@[b] by {
                        if a == pre.len() {
                            assert(pre.contains(out@[b]));
                        } else if b == pre.len() {
                            assert(pre.contains(out@[a]));
                        }
                    }
                }
            }
            i = i + 1;
        }
        assert(all@.subrange(0, all@.len() as int) =~= all@);
        out
    }

    /// The `n` tracked entities nearest to `point` (all of them when fewer
    /// are tracked), nearest first; at equal distance the lower id first.
    pub fn nearest(&self, point: Pos, n: usize) -> (r: Vec<u64>)
        requires
            self.wf(),
        ensures
            r@.len() == (if n < self@.len() { n as nat } else { self@.len() }),
            forall|i: int| 0 <= i < r@.len() ==> self@.contains_key(#[trigger] r@[i]),
            forall|i: int, j: int|
                0 <= i < j < r@.len() ==> precedes(point, r@[i], self@[r@[i]], r@[j], self@[r@[j]]),
            forall|e: u64, i: int| #![trigger r@[i], self@[e]]
                self@.contains_key(e) && !r@.contains(e) && 0 <= i < r@.len() ==> precedes(
                    point,
                    r@[i],
                    self@[r@[i]],
                    e,
                    self@[e],
                ),
    {
        let mut rest = self.entities();
        proof {
            rest@.unique_seq_to_set();
            assert(rest@.to_set() =~= self@.dom());
        }
        let mut out: Vec<u64> = Vec::new();
        while out.len() < n && rest.len() > 0
            invariant
                rest@.no_duplicates(),
                out@.len() <= n,
                out@.len() + rest@.len() == self@.len(),
                forall|e: u64| #[trigger] rest@.contains(e) ==> self@.contains_key(e) && !out@.contains(e),
                forall|e: u64| self@.contains_key(e) ==> #[trigger] rest@.contains(e) || out@.contains(e),
                forall|i: int| 0 <= i < out@.len() ==> self@.contains_key(#[trigger] out@[i]),
                forall|i: int, j: int|
                    0 <= i < j < out@.len() ==> precedes(point, out@[i], self@[out@[i]], out@[j], self@[out@[j]]),
                forall|e: u64, i: int| #![trigger out@[i], self@[e]]
                    rest@.contains(e) && 0 <= i < out@.len() ==> precedes(
                        point,
                        out@[i],
                        self@[out@[i]],
                        e,
                        self@[e],
                    ),
            decreases rest.len(),
        {
            assert(rest@.contains(rest@[0]));
            let mut bi: usize = 0;
            let mut best_d = squared_distance(point, self.pos_in(rest[0]));
            let mut i: usize = 1;
            while i < rest.len()
                invariant
                    1 <= i <= rest.len(),
                    bi < i,
                    forall|e: u64| #[trigger] rest@.contains(e) ==> self@.contains_key(e),
                    best_d == dist2(point, self@[rest@[bi as int]]),
                    forall|j: int|
                        0 <= j < i ==> #[trigger] rest@[j] == rest@[bi as int] || precedes(
                            point,
                            rest@[bi as int],
                            self@[rest@[bi as int]],
                            rest@[j],
                            self@[rest@[j]],
                        ),
                decreases rest.len() - i,
            {
                let x = rest[i];
                assert(rest@.contains(x));
                let d = squared_distance(point, self.pos_in(x));
                if d < best_d || (d == best_d && x < rest[bi]) {
                    bi = i;
                    best_d = d;
                }
                i = i + 1;
            }
            let ghost r0 = rest@;
            let ghost o0 = out@;
            let m = rest.swap_remove(bi);
            out.push(m);
            proof {
                assert(r0.contains(m));
                assert forall|x: u64| #[trigger] rest@.contains(x) <==> (r0.contains(x) && x != m) by {
                    if rest@.contains(x) {
                        let j = choose|j: int| 0 <= j < rest@.len() && rest@[j] == x;
                        if j == bi {
                            assert(x == r0[r0.len() - 1]);
                        } else {
                            assert(x == r0[j]);
                        }
                    }
                    if r0.contains(x) && x != m {
                        let j = choose|j: int| 0 <= j < r0.len() && r0[j] == x;
                        if j == r0.len() - 1 {
                            assert(rest@[bi as int] == x);
                        } else {
                            assert(rest@[j] == x);
                        }
                    }
                }
                assert(rest@.no_duplicates()) by {
                    assert forall|a: int, b: int|
                        0 <= a < rest@.len() && 0 <= b < rest@.len() && a != b implies rest@[a]
                        != rest@[b] by {
                        let ia = if a == bi { r0.len() - 1 } else { a };
                        let ib = if b == bi { r0.len() - 1 } else { b };
                        assert(rest@[a] == r0[ia]);
                        assert(rest@[b] == r0[ib]);
                    }
                }
                assert forall|x: u64| #[trigger] out@.contains(x) <==> (o0.contains(x) || x == m) by {
                    if out@.contains(x) {
                        let j = choose|j: int| 0 <= j < out@.len() && out@[j] == x;
                        if j < o0.len() {
                            assert(o0[j] == x);
                        }
                    }
                    if o0.contains(x) {
                        let j = choose|j: int| 0 <= j < o0.len() && o0[j] == x;
                        assert(out@[j] == x);
                    }
                    if x == m {
                        assert(out@[o0.len() as int] == m);
                    }
                }
                assert forall|x: u64| rest@.contains(x) implies precedes(point, m, self@[m], x, self@[x]) by {
                    let j = choose|j: int| 0 <= j < r0.len() && r0[j] == x;
                    assert(r0[j] == x);
                }
                assert forall|e: u64, i: int| #![trigger out@[i], self@[e]]
                    rest@.contains(e) && 0 <= i < out@.len() implies precedes(
                    point,
                    out@[i],
                    self@[out@[i]],
                    e,
                    self@[e],
                ) by {
                    if i < o0.len() {
                        assert(out@[i] == o0[i]);
                        assert(r0.contains(e));
                    }
                }
                assert forall|a: int, b: int|
                    0 <= a < b < out@.len() implies precedes(point, out@[a], self@[out@[a]], out@[b], self@[out@[b]]) by {
                    if b == o0.len() {
                        assert(out@[a] == o0[a]);
                    } else {
                        assert(out@[a] == o0[a]);
                        assert(out@[b] == o0[b]);
                    }
                }
            }
        }
        proof {
            assert forall|e: u64, i: int| #![trigger out@[i], self@[e]]
                self@.contains_key(e) && !out@.contains(e) && 0 <= i < out@.len() implies precedes(
                point,
                out@[i],
                self@[out@[i]],
                e,
                self@[e],
            ) by {
                assert(rest@.contains(e));
            }
        }
        out
    }

    fn pos_in(&self, e: u64) -> (p: Pos)
        requires
            self@.contains_key(e),
        ensures
            p == self@[e],
    {
        match self.records.get(&e) {
            Some(p) => *p,
            None => Pos { x: 0, y: 0 },
        }
    }
}

} // verus!
