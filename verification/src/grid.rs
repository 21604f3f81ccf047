//! A spatial hash grid over an arena of entities.
//!
//! Every entity lives in a slot of a [`FreeList`] and is filed, by its slot
//! index, in the bucket of one cell. Between a move and the next
//! [`Grid::maintain`] an entity may be filed under the cell of an earlier
//! position; a grid where every entity is filed under the cell of its current
//! position is *settled*.

use crate::arena::{reverse, FreeList};
use crate::cells::{
    bucket_at, bucket_count, buckets_of, cells_of, new_map, put_bucket, take_bucket, Cell, CellMap,
};
use crate::grid_model::{
    among_cells, among_first, box_before, bucket_total, lemma_swap_removed, listed, paired, waiting,
    GridState, GridStats,
};
use crate::space::{
    cell_of, cell_reach, comes_before, dist2, distance2, grid_cell, in_box, radius2, reach, within, Point,
};
use rayon::iter::{IntoParallelIterator, ParallelIterator};
use vstd::prelude::*;

verus! {

/// What the grid needs of an entity: where it is, and whether it still counts.
///
/// An entity whose `alive` is false is skipped by queries and reclaimed by the
/// next maintenance pass.
pub trait Griddable {
    /// The entity's position, as contracts see it.
    spec fn position(&self) -> Point;

    /// Whether the entity is alive, as contracts see it.
    spec fn is_alive(&self) -> bool;

    /// The entity's current position.
    fn pos(&self) -> (p: Point)
        ensures
            p == self.position(),
    ;

    /// Whether the entity is alive.
    fn alive(&self) -> (a: bool)
        ensures
            a == self.is_alive(),
    ;

    /// The first coordinate of the position.
    fn x(&self) -> (x: i32)
        ensures
            x == self.position().0,
    {
        self.pos().0
    }

    /// The second coordinate of the position.
    fn y(&self) -> (y: i32)
        ensures
            y == self.position().1,
    {
        self.pos().1
    }
}

/// A spatial hash grid: entities in an arena, filed by cell.
pub struct Grid<T: Griddable> {
    scale: u32,
    grid: CellMap,
    elems: FreeList<T>,
    filed: Ghost<Map<usize, Cell>>,
}

impl<T: Griddable> View for Grid<T> {
    type V = GridState<T>;

    closed spec fn view(&self) -> GridState<T> {
        GridState {
            scale: self.scale as int,
            arena: self.elems@,
            buckets: buckets_of(self.grid),
            filed: self.filed@,
        }
    }
}

impl<T: Griddable> Grid<T> {
    /// Every occupied slot is filed in exactly one bucket, exactly once.
    pub open spec fn wf(&self) -> bool {
        self@.wf()
    }

    /// An empty grid with cells of side `scale`.
    pub fn new(scale: u32) -> (grid: Self)
        requires
            scale > 0,
        ensures
            grid.wf(),
            grid@ == GridState::<T>::empty(scale as int),
    {
        let grid = Grid { scale, grid: new_map(), elems: FreeList::new(), filed: Ghost(Map::empty()) };
        proof {
            assert(grid@.buckets =~= Map::<Cell, Seq<usize>>::empty());
            assert(grid@.filed =~= Map::<usize, Cell>::empty());
        }
        grid
    }

    /// The side of a cell.
    pub fn scale(&self) -> (scale: u32)
        ensures
            scale == self@.scale,
    {
        self.scale
    }

    /// The number of stored entities, dead ones included.
    pub fn count(&self) -> (n: usize)
        requires
            self.wf(),
        ensures
            n == self@.arena.count(),
    {
        self.elems.count()
    }

    /// The place in the bucket of `pos`'s cell of the first entity that stands
    /// exactly at `pos`.
    fn locate(&self, pos: Point) -> (place: Option<usize>)
        requires
            self.wf(),
        ensures
            match place {
                Some(k) => self@.first_at(pos, k as int),
                None => self@.none_at(pos),
            },
    {
        let cell = grid_cell(self.scale, pos);
        match bucket_at(&self.grid, cell) {
            None => None,
            Some(bucket) => {
                let mut k: usize = 0;
                while k < bucket.len()
                    invariant
                        self.wf(),
                        cell == cell_of(self@.scale, pos),
                        bucket@ == self@.bucket(cell),
                        0 <= k <= bucket.len(),
                        forall|j: int| 0 <= j < k ==> self@.position(#[trigger] bucket@[j]) != pos,
                    decreases bucket.len() - k,
                {
                    let index = bucket[k];
                    proof {
                        self@.lemma_bucket_occupied(cell, k as int);
                    }
                    let at = self.elems.at(index).pos();
                    if at.0 == pos.0 && at.1 == pos.1 {
                        return Some(k);
                    }
                    k += 1;
                }
                None
            },
        }
    }

    /// The first entity filed under `pos`'s cell that stands exactly at `pos`.
    pub fn get(&self, pos: Point) -> (found: Option<&T>)
        requires
            self.wf(),
        ensures
            match found {
                Some(e) => exists|k: int| #[trigger]
                    self@.first_at(pos, k) && *e == self@.entity(
                        self@.bucket(cell_of(self@.scale, pos))[k],
                    ),
                None => self@.none_at(pos),
            },
    {
        match self.locate(pos) {
            None => None,
            Some(k) => {
                let cell = grid_cell(self.scale, pos);
                let bucket = bucket_at(&self.grid, cell).unwrap();
                let index = bucket[k];
                proof {
                    self@.lemma_bucket_occupied(cell, k as int);
                }
                Some(self.elems.at(index))
            },
        }
    }

    /// Takes out the first entity filed under `pos`'s cell that stands exactly
    /// at `pos`, freeing its slot.
    pub fn remove(&mut self, pos: Point) -> (taken: Option<T>)
        requires
            old(self).wf(),
        ensures
            final(self).wf(),
            match taken {
                Some(e) => exists|k: int| #[trigger]
                    old(self)@.first_at(pos, k) && e == old(self)@.entity(
                        old(self)@.bucket(cell_of(old(self)@.scale, pos))[k],
                    ) && final(self)@ == old(self)@.remove_at(cell_of(old(self)@.scale, pos), k),
                None => old(self)@.none_at(pos) && final(self)@ == old(self)@,
            },
    {
        match self.locate(pos) {
            None => None,
            Some(k) => {
                let ghost before = self@;
                let cell = grid_cell(self.scale, pos);
                let mut bucket = take_bucket(&mut self.grid, cell).unwrap();
                let index = bucket.swap_remove(k);
                put_bucket(&mut self.grid, cell, bucket);
                proof {
                    before.lemma_bucket_occupied(cell, k as int);
                    before.lemma_remove_at(cell, k as int);
                }
                let taken = self.elems.remove(index);
                self.filed = Ghost(self.filed@.remove(index));
                proof {
                    assert(self@.buckets =~= before.remove_at(cell, k as int).buckets);
                    assert(self@ == before.remove_at(cell, k as int));
                    assert(before.first_at(pos, k as int));
                }
                taken
            },
        }
    }

    /// The entity in slot `index`, or `None` if the slot is free.
    pub fn entity(&self, index: usize) -> (found: Option<&T>)
        ensures
            found is Some == self@.arena.occupied(index as int),
            found matches Some(e) ==> *e == self@.entity(index),
    {
        self.elems.get(index)
    }

    /// Mutable access to the entity in slot `index`, or `None` if the slot is
    /// free. The entity may move or die through the reference: it stays filed
    /// where it was until the next maintenance pass.
    pub fn entity_mut(&mut self, index: usize) -> (found: Option<&mut T>)
        requires
            old(self).wf(),
        ensures
            found is Some == old(self)@.arena.occupied(index as int),
            match found {
                Some(e) => *e == old(self)@.entity(index) && final(self)@ == old(self)@.replace(
                    index,
                    *final(e),
                ),
                None => final(self)@ == old(self)@,
            },
            final(self).wf(),
    {
        proof {
            let before = self@;
            assert forall|x: T| before.arena.occupied(index as int) implies #[trigger] before.replace(
                index,
                x,
            ).wf() by {
                before.lemma_replace(index, x);
            }
        }
        self.elems.get_mut(index)
    }

    /// Appends to `found` the entities of the bucket of `cell` that are alive
    /// and within `radius` of `pos`.
    fn scan_cell(&self, cell: Cell, pos: Point, radius: u32, found: &mut Vec<(u128, usize)>)
        requires
            self.wf(),
            forall|k: int| 0 <= k < old(found)@.len() ==> {
                &&& self@.filed.contains_key((#[trigger] old(found)@[k]).1)
                &&& self@.filed[old(found)@[k].1] != cell
            },
        ensures
            final(found)@.len() >= old(found)@.len(),
            final(found)@.subrange(0, old(found)@.len() as int) == old(found)@,
            forall|k: int| old(found)@.len() <= k < final(found)@.len() ==> {
                &&& self@.filed.contains_key((#[trigger] final(found)@[k]).1)
                &&& self@.filed[final(found)@[k].1] == cell
                &&& self@.near(pos, radius as int, final(found)@[k].1)
                &&& final(found)@[k].0 == dist2(pos, self@.position(final(found)@[k].1))
            },
            forall|a: int, b: int| old(found)@.len() <= a < b < final(found)@.len()
                ==> final(found)@[a].1 != final(found)@[b].1,
            forall|i: usize| self@.filed.contains_key(i) && self@.filed[i] == cell && self@.near(
                pos,
                radius as int,
                i,
            ) ==> listed(final(found)@, i),
    {
        let ghost start = found@;
        let r2 = radius2(radius);
        match bucket_at(&self.grid, cell) {
            None => {
                proof {
                    assert(found@.subrange(0, start.len() as int) =~= start);
                    assert forall|i: usize| self@.filed.contains_key(i) && self@.filed[i] == cell implies false by {
                        assert(self@.in_bucket(cell, i));
                    }
                }
            },
            Some(bucket) => {
                let mut j: usize = 0;
                while j < bucket.len()
                    invariant
                        self.wf(),
                        bucket@ == self@.bucket(cell),
                        r2 == radius * radius,
                        0 <= j <= bucket.len(),
                        found@.len() >= start.len(),
                        found@.subrange(0, start.len() as int) == start,
                        forall|k: int| start.len() <= k < found@.len() ==> {
                            &&& self@.filed.contains_key((#[trigger] found@[k]).1)
                            &&& self@.filed[found@[k].1] == cell
                            &&& self@.near(pos, radius as int, found@[k].1)
                            &&& found@[k].0 == dist2(pos, self@.position(found@[k].1))
                            &&& exists|p: int| 0 <= p < j && bucket@[p] == found@[k].1
                        },
                        forall|a: int, b: int| start.len() <= a < b < found@.len() ==> found@[a].1
                            != found@[b].1,
                        forall|p: int| 0 <= p < j && self@.near(pos, radius as int, #[trigger] bucket@[p])
                            ==> listed(found@, bucket@[p]),
                    decreases bucket.len() - j,
                {
                    let index = bucket[j];
                    proof {
                        self@.lemma_bucket_occupied(cell, j as int);
                    }
                    let elem = self.elems.at(index);
                    let d = distance2(pos, elem.pos());
                    if d <= r2 && elem.alive() {
                        let ghost before = found@;
                        found.push((d, index));
                        proof {
                            assert(found@.subrange(0, start.len() as int) =~= start);
                            assert(found@[found@.len() - 1].1 == index);
                            assert forall|k: int| start.len() <= k < found@.len() implies exists|p: int|
                                0 <= p < j + 1 && bucket@[p] == (#[trigger] found@[k]).1 by {
                                if k < before.len() {
                                    assert(found@[k] == before[k]);
                                    let p = choose|p: int| 0 <= p < j && bucket@[p] == before[k].1;
                                    assert(bucket@[p] == found@[k].1);
                                } else {
                                    assert(bucket@[j as int] == found@[k].1);
                                }
                            }
                            assert forall|a: int, b: int| start.len() <= a < b < found@.len() implies found@[a].1
                                != found@[b].1 by {
                                if b == found@.len() - 1 {
                                    assert(found@[a] == before[a]);
                                    let p = choose|p: int| 0 <= p < j && bucket@[p] == before[a].1;
                                    assert(bucket@[p] != bucket@[j as int]);
                                } else {
                                    assert(found@[a] == before[a] && found@[b] == before[b]);
                                }
                            }
                            assert forall|p: int|
                                0 <= p < j + 1 && self@.near(pos, radius as int, #[trigger] bucket@[p]) implies listed(
                                found@,
                                bucket@[p],
                            ) by {
                                if p < j {
                                    assert(listed(before, bucket@[p]));
                                    let k = choose|k: int| 0 <= k < before.len() && (#[trigger] before[k]).1 == bucket@[p];
                                    assert(found@[k].1 == bucket@[p]);
                                } else {
                                    assert(found@[found@.len() - 1].1 == bucket@[p]);
                                }
                            }
                        }
                    }
                    j += 1;
                }
                proof {
                    assert forall|i: usize| self@.filed.contains_key(i) && self@.filed[i] == cell && self@.near(
                        pos,
                        radius as int,
                        i,
                    ) implies listed(found@, i) by {
                        assert(self@.in_bucket(cell, i));
                        let p = choose|p: int| 0 <= p < bucket@.len() && bucket@[p] == i;
                        assert(self@.near(pos, radius as int, bucket@[p]));
                    }
                }
            },
        }
    }

    /// Every live entity that is filed within reach of `pos` and stands within
    /// `radius` of it, as pairs of squared distance and slot index. In a
    /// settled grid these are all live entities within `radius` of `pos`.
    pub fn query_with_dist(&self, pos: Point, radius: u32) -> (found: Vec<(u128, usize)>)
        requires
            self.wf(),
        ensures
            self@.answers(pos, radius as int, found@),
    {
        let center = grid_cell(self.scale, pos);
        let k: i64 = cell_reach(self.scale, radius) as i64;
        let lo_x: i64 = if center.0 as i64 - k < i32::MIN as i64 { i32::MIN as i64 } else { center.0 as i64 - k };
        let hi_x: i64 = if center.0 as i64 + k > i32::MAX as i64 { i32::MAX as i64 } else { center.0 as i64 + k };
        let lo_y: i64 = if center.1 as i64 - k < i32::MIN as i64 { i32::MIN as i64 } else { center.1 as i64 - k };
        let hi_y: i64 = if center.1 as i64 + k > i32::MAX as i64 { i32::MAX as i64 } else { center.1 as i64 + k };
        let mut found: Vec<(u128, usize)> = Vec::new();
        let buckets = bucket_count(&self.grid);
        let columns: u64 = (hi_x - lo_x + 1) as u64;
        let rows: u64 = (hi_y - lo_y + 1) as u64;
        if columns > buckets as u64 || rows > buckets as u64 {
            // The square has more cells than the grid has buckets: walk the buckets.
            let cells = cells_of(&self.grid);
            let mut n: usize = 0;
            while n < cells.len()
                invariant
                    self.wf(),
                    0 <= n <= cells.len(),
                    cells@.no_duplicates(),
                    forall|c: Cell| cells@.contains(c) <==> self@.buckets.contains_key(c),
                    center == cell_of(self@.scale, pos),
                    k == reach(self@.scale, radius as int),
                    i32::MIN <= lo_x <= hi_x <= i32::MAX,
                    i32::MIN <= lo_y <= hi_y <= i32::MAX,
                    forall|cell: Cell| in_box(center, k as int, cell) <==> (lo_x <= cell.0 <= hi_x && lo_y
                        <= cell.1 <= hi_y),
                    forall|a: int, b: int| 0 <= a < b < found@.len() ==> found@[a].1 != found@[b].1,
                    forall|m: int| 0 <= m < found@.len() ==> {
                        &&& self@.hit(pos, radius as int, (#[trigger] found@[m]).1)
                        &&& found@[m].0 == dist2(pos, self@.position(found@[m].1))
                        &&& among_cells(cells@, n as int, self@.filed[found@[m].1])
                    },
                    forall|i: usize| self@.hit(pos, radius as int, i) && among_cells(
                        cells@,
                        n as int,
                        self@.filed[i],
                    ) ==> listed(found@, i),
                decreases cells.len() - n,
            {
                let cell = cells[n];
                let inside = lo_x <= cell.0 as i64 && cell.0 as i64 <= hi_x && lo_y <= cell.1 as i64 && cell.1 as i64
                    <= hi_y;
                let ghost before = found@;
                if inside {
                    proof {
                        assert forall|m: int| 0 <= m < found@.len() implies self@.filed.contains_key(
                            (#[trigger] found@[m]).1,
                        ) && self@.filed[found@[m].1] != cell by {
                            assert(among_cells(cells@, n as int, self@.filed[found@[m].1]));
                            let j = choose|j: int| 0 <= j < n && cells@[j] == self@.filed[found@[m].1];
                            assert(cells@[j] != cells@[n as int]);
                        }
                    }
                    self.scan_cell(cell, pos, radius, &mut found);
                }
                proof {
                    assert forall|m: int| 0 <= m < before.len() implies found@[m] == before[m] by {
                        if inside {
                            assert(found@.subrange(0, before.len() as int)[m] == before[m]);
                        }
                    }
                    assert forall|m: int| 0 <= m < found@.len() implies self@.hit(
                        pos,
                        radius as int,
                        (#[trigger] found@[m]).1,
                    ) && found@[m].0 == dist2(pos, self@.position(found@[m].1)) && among_cells(
                        cells@,
                        n + 1,
                        self@.filed[found@[m].1],
                    ) by {
                        if m < before.len() {
                            assert(found@[m] == before[m]);
                            assert(among_cells(cells@, n as int, self@.filed[before[m].1]));
                            let j = choose|j: int| 0 <= j < n && cells@[j] == self@.filed[before[m].1];
                            assert(cells@[j] == self@.filed[found@[m].1]);
                        } else {
                            assert(cells@[n as int] == self@.filed[found@[m].1]);
                        }
                    }
                    assert forall|a: int, b: int| 0 <= a < b < found@.len() implies found@[a].1 != found@[b].1 by {
                        if b < before.len() {
                            assert(found@[a] == before[a] && found@[b] == before[b]);
                        } else if a < before.len() {
                            assert(found@[a] == before[a]);
                            assert(among_cells(cells@, n as int, self@.filed[before[a].1]));
                            let j = choose|j: int| 0 <= j < n && cells@[j] == self@.filed[before[a].1];
                            assert(cells@[j] != cells@[n as int]);
                            assert(self@.filed[found@[b].1] == cell);
                        }
                    }
                    assert forall|i: usize| self@.hit(pos, radius as int, i) && among_cells(
                        cells@,
                        n + 1,
                        self@.filed[i],
                    ) implies listed(found@, i) by {
                        let j = choose|j: int| 0 <= j < n + 1 && cells@[j] == self@.filed[i];
                        if j == n {
                            assert(in_box(center, k as int, cell));
                            assert(inside);
                        } else {
                            assert(among_cells(cells@, n as int, self@.filed[i]));
                            assert(listed(before, i));
                            let m = choose|m: int| 0 <= m < before.len() && (#[trigger] before[m]).1 == i;
                            assert(found@[m].1 == i);
                        }
                    }
                }
                n += 1;
            }
            proof {
                assert forall|i: usize| self@.hit(pos, radius as int, i) implies listed(found@, i) by {
                    let c = self@.filed[i];
                    assert(self@.in_bucket(c, i));
                    assert(self@.buckets.contains_key(c));
                    assert(cells@.contains(c));
                    let j = choose|j: int| 0 <= j < cells@.len() && cells@[j] == c;
                    assert(among_cells(cells@, n as int, self@.filed[i]));
                }
            }
            return found;
        }
        let mut cx: i64 = lo_x;
        while cx <= hi_x
            invariant
                self.wf(),
                center == cell_of(self@.scale, pos),
                k == reach(self@.scale, radius as int),
                lo_x <= cx <= hi_x + 1,
                i32::MIN <= lo_x <= hi_x <= i32::MAX,
                i32::MIN <= lo_y <= hi_y <= i32::MAX,
                forall|cell: Cell| in_box(center, k as int, cell) <==> (lo_x <= cell.0 <= hi_x && lo_y
                    <= cell.1 <= hi_y),
                forall|a: int, b: int| 0 <= a < b < found@.len() ==> found@[a].1 != found@[b].1,
                forall|n: int| 0 <= n < found@.len() ==> {
                    &&& self@.hit(pos, radius as int, (#[trigger] found@[n]).1)
                    &&& found@[n].0 == dist2(pos, self@.position(found@[n].1))
                    &&& self@.filed[found@[n].1].0 < cx
                },
                forall|i: usize| self@.hit(pos, radius as int, i) && self@.filed[i].0 < cx ==> listed(found@, i),
            decreases hi_x + 1 - cx,
        {
            let mut cy: i64 = lo_y;
            while cy <= hi_y
                invariant
                    self.wf(),
                    center == cell_of(self@.scale, pos),
                    k == reach(self@.scale, radius as int),
                    lo_x <= cx <= hi_x,
                    lo_y <= cy <= hi_y + 1,
                    i32::MIN <= lo_x <= hi_x <= i32::MAX,
                    i32::MIN <= lo_y <= hi_y <= i32::MAX,
                    forall|cell: Cell| in_box(center, k as int, cell) <==> (lo_x <= cell.0 <= hi_x && lo_y
                        <= cell.1 <= hi_y),
                    forall|a: int, b: int| 0 <= a < b < found@.len() ==> found@[a].1 != found@[b].1,
                    forall|n: int| 0 <= n < found@.len() ==> {
                        &&& self@.hit(pos, radius as int, (#[trigger] found@[n]).1)
                        &&& found@[n].0 == dist2(pos, self@.position(found@[n].1))
                        &&& box_before(center, k as int, cx as int, cy as int, self@.filed[found@[n].1])
                    },
                    forall|i: usize| self@.hit(pos, radius as int, i) && box_before(
                        center,
                        k as int,
                        cx as int,
                        cy as int,
                        self@.filed[i],
                    ) ==> listed(found@, i),
                decreases hi_y + 1 - cy,
            {
                let cell: Cell = (cx as i32, cy as i32);
                let ghost before = found@;
                self.scan_cell(cell, pos, radius, &mut found);
                proof {
                    assert forall|n: int| 0 <= n < before.len() implies found@[n] == before[n] by {
                        assert(found@.subrange(0, before.len() as int)[n] == before[n]);
                    }
                    assert(in_box(center, k as int, cell));
                    assert forall|n: int| 0 <= n < found@.len() implies {
                        &&& self@.hit(pos, radius as int, (#[trigger] found@[n]).1)
                        &&& found@[n].0 == dist2(pos, self@.position(found@[n].1))
                        &&& box_before(center, k as int, cx as int, cy + 1, self@.filed[found@[n].1])
                    } by {
                        if n < before.len() {
                            assert(found@[n] == before[n]);
                            assert(box_before(center, k as int, cx as int, cy as int, self@.filed[before[n].1]));
                        }
                    }
                    assert forall|a: int, b: int| 0 <= a < b < found@.len() implies found@[a].1
                        != found@[b].1 by {
                        if b < before.len() {
                            assert(found@[a] == before[a] && found@[b] == before[b]);
                        } else if a < before.len() {
                            assert(found@[a] == before[a]);
                            assert(box_before(center, k as int, cx as int, cy as int, self@.filed[before[a].1]));
                            assert(self@.filed[found@[b].1] == cell);
                        }
                    }
                    assert forall|i: usize| self@.hit(pos, radius as int, i) && box_before(
                        center,
                        k as int,
                        cx as int,
                        cy + 1,
                        self@.filed[i],
                    ) implies listed(found@, i) by {
                        if self@.filed[i] == cell {
                        } else {
                            assert(box_before(center, k as int, cx as int, cy as int, self@.filed[i]));
                            assert(listed(before, i));
                            let n = choose|n: int| 0 <= n < before.len() && (#[trigger] before[n]).1 == i;
                            assert(found@[n].1 == i);
                        }
                    }
                }
                cy += 1;
            }
            proof {
                assert forall|i: usize| self@.hit(pos, radius as int, i) && self@.filed[i].0 < cx + 1 implies listed(
                    found@,
                    i,
                ) by {
                    assert(box_before(center, k as int, cx as int, cy as int, self@.filed[i]));
                }
            }
            cx += 1;
        }
        found
    }

    /// The entities that a query at `pos` with `radius` finds.
    pub fn query_at(&self, pos: Point, radius: u32) -> (found: Vec<&T>)
        requires
            self.wf(),
        ensures
            exists|hits: Seq<(u128, usize)>| #[trigger]
                self@.answers(pos, radius as int, hits) && found@.len() == hits.len() && forall|k: int|
                    0 <= k < hits.len() ==> *found@[k] == self@.entity((#[trigger] hits[k]).1),
    {
        let hits = self.query_with_dist(pos, radius);
        let mut found: Vec<&T> = Vec::new();
        let mut k: usize = 0;
        while k < hits.len()
            invariant
                self.wf(),
                self@.answers(pos, radius as int, hits@),
                0 <= k <= hits.len(),
                found@.len() == k,
                forall|n: int| 0 <= n < k ==> *found@[n] == self@.entity((#[trigger] hits@[n]).1),
            decreases hits.len() - k,
        {
            let index = hits[k].1;
            assert(self@.hit(pos, radius as int, hits@[k as int].1));
            found.push(self.elems.at(index));
            k += 1;
        }
        found
    }

    /// The slot nearest to `pos` among those that a query at `pos` with
    /// `radius` finds, with its squared distance; `None` if the query finds
    /// nothing. Among equally near slots any one may be returned.
    pub fn nearest_dist(&self, pos: Point, radius: u32) -> (best: Option<(u128, usize)>)
        requires
            self.wf(),
        ensures
            match best {
                Some((d, i)) => self@.nearest_hit(pos, radius as int, i) && d == dist2(
                    pos,
                    self@.position(i),
                ),
                None => forall|i: usize| !self@.hit(pos, radius as int, i),
            },
    {
        let hits = self.query_with_dist(pos, radius);
        let mut best: Option<(u128, usize)> = None;
        let mut k: usize = 0;
        while k < hits.len()
            invariant
                self.wf(),
                self@.answers(pos, radius as int, hits@),
                0 <= k <= hits.len(),
                best is None ==> k == 0,
                best matches Some((d, i)) ==> {
                    &&& self@.hit(pos, radius as int, i)
                    &&& d == dist2(pos, self@.position(i))
                    &&& forall|n: int| 0 <= n < k ==> d <= (#[trigger] hits@[n]).0
                },
            decreases hits.len() - k,
        {
            let hit = hits[k];
            let better = match best {
                None => true,
                Some((d, _)) => hit.0 < d,
            };
            if better {
                best = Some(hit);
            }
            k += 1;
        }
        proof {
            match best {
                Some((d, i)) => {
                    assert forall|j: usize| #[trigger] self@.hit(pos, radius as int, j) implies d <= dist2(
                        pos,
                        self@.position(j),
                    ) by {
                        assert(listed(hits@, j));
                        let n = choose|n: int| 0 <= n < hits@.len() && (#[trigger] hits@[n]).1 == j;
                        assert(d <= hits@[n].0);
                    }
                },
                None => {
                    assert forall|i: usize| !self@.hit(pos, radius as int, i) by {
                        if self@.hit(pos, radius as int, i) {
                            assert(listed(hits@, i));
                        }
                    }
                },
            }
        }
        best
    }

    /// The entity nearest to `pos` among those that a query at `pos` with
    /// `radius` finds.
    pub fn nearest(&self, pos: Point, radius: u32) -> (best: Option<&T>)
        requires
            self.wf(),
        ensures
            match best {
                Some(e) => exists|i: usize| #[trigger]
                    self@.nearest_hit(pos, radius as int, i) && *e == self@.entity(i),
                None => forall|i: usize| !self@.hit(pos, radius as int, i),
            },
    {
        match self.nearest_dist(pos, radius) {
            Some((_, index)) => {
                assert(self@.hit(pos, radius as int, index));
                Some(self.elems.at(index))
            },
            None => None,
        }
    }

    /// The slot with the lowest score among those that a query at `pos` with
    /// `radius` finds and that `score` accepts. `score` is called once for
    /// each slot found, with the squared distance and the entity; `None`
    /// rejects the slot.
    pub fn nearest_by<P: Fn(u128, &T) -> Option<u128>>(&self, pos: Point, radius: u32, score: P) -> (best:
        Option<(u128, usize)>)
        requires
            self.wf(),
            forall|d: u128, e: &T| call_requires(score, (d, e)),
        ensures
            match best {
                Some((s, i)) => {
                    &&& self@.hit(pos, radius as int, i)
                    &&& call_ensures(score, (dist2(pos, self@.position(i)) as u128, &self@.entity(i)), Some(s))
                    &&& forall|j: usize| #[trigger]
                        self@.hit(pos, radius as int, j) ==> exists|r: Option<u128>| #[trigger]
                            call_ensures(score, (dist2(pos, self@.position(j)) as u128, &self@.entity(j)), r)
                                && (r matches Some(t) ==> s <= t)
                },
                None => forall|j: usize| #[trigger]
                    self@.hit(pos, radius as int, j) ==> call_ensures(
                        score,
                        (dist2(pos, self@.position(j)) as u128, &self@.entity(j)),
                        None,
                    ),
            },
    {
        let hits = self.query_with_dist(pos, radius);
        let mut best: Option<(u128, usize)> = None;
        let ghost mut results: Seq<Option<u128>> = Seq::empty();
        let mut k: usize = 0;
        while k < hits.len()
            invariant
                self.wf(),
                self@.answers(pos, radius as int, hits@),
                forall|d: u128, e: &T| call_requires(score, (d, e)),
                0 <= k <= hits.len(),
                results.len() == k,
                forall|n: int| 0 <= n < k ==> call_ensures(
                    score,
                    ((#[trigger] hits@[n]).0, &self@.entity(hits@[n].1)),
                    results[n],
                ),
                best is None ==> forall|n: int| 0 <= n < k ==> (#[trigger] results[n]) is None,
                best matches Some((s, i)) ==> {
                    &&& exists|m: int| 0 <= m < k && hits@[m].1 == i && #[trigger] results[m] == Some(s)
                    &&& forall|n: int| 0 <= n < k ==> ((#[trigger] results[n]) matches Some(t) ==> s <= t)
                },
            decreases hits.len() - k,
        {
            let hit = hits[k];
            assert(self@.hit(pos, radius as int, hits@[k as int].1));
            let result = score(hit.0, self.elems.at(hit.1));
            let ghost previous = results;
            proof {
                results = results.push(result);
            }
            match result {
                Some(t) => {
                    let better = match best {
                        None => true,
                        Some((s, _)) => t < s,
                    };
                    if better {
                        best = Some((t, hit.1));
                        proof {
                            assert(results[k as int] == Some(t));
                            assert forall|n: int| 0 <= n < k + 1 implies ((#[trigger] results[n]) matches Some(u)
                                ==> t <= u) by {
                                if n < k {
                                    assert(results[n] == previous[n]);
                                }
                            }
                        }
                    } else {
                        proof {
                            let (s, i) = best->0;
                            let m = choose|m: int| 0 <= m < k && hits@[m].1 == i && #[trigger] previous[m] == Some(s);
                            assert(results[m] == Some(s));
                            assert forall|n: int| 0 <= n < k + 1 implies ((#[trigger] results[n]) matches Some(u)
                                ==> s <= u) by {
                                if n < k {
                                    assert(results[n] == previous[n]);
                                }
                            }
                        }
                    }
                },
                None => {
                    proof {
                        match best {
                            Some((s, i)) => {
                                let m = choose|m: int|
                                    0 <= m < k && hits@[m].1 == i && #[trigger] previous[m] == Some(s);
                                assert(results[m] == Some(s));
                                assert forall|n: int| 0 <= n < k + 1 implies ((#[trigger] results[n]) matches Some(
                                    u,
                                ) ==> s <= u) by {
                                    if n < k {
                                        assert(results[n] == previous[n]);
                                    }
                                }
                            },
                            None => {
                                assert forall|n: int| 0 <= n < k + 1 implies (#[trigger] results[n]) is None by {
                                    if n < k {
                                        assert(results[n] == previous[n]);
                                    }
                                }
                            },
                        }
                    }
                },
            }
            proof {
                assert forall|n: int| 0 <= n < k + 1 implies call_ensures(
                    score,
                    ((#[trigger] hits@[n]).0, &self@.entity(hits@[n].1)),
                    results[n],
                ) by {
                    if n < k {
                        assert(results[n] == previous[n]);
                    }
                }
            }
            k += 1;
        }
        proof {
            match best {
                Some((s, i)) => {
                    let m = choose|m: int| 0 <= m < k && hits@[m].1 == i && #[trigger] results[m] == Some(s);
                    assert(self@.hit(pos, radius as int, hits@[m].1));
                    assert forall|j: usize| #[trigger] self@.hit(pos, radius as int, j) implies exists|
                        r: Option<u128>,
                    | #[trigger]
                        call_ensures(score, (dist2(pos, self@.position(j)) as u128, &self@.entity(j)), r) && (r matches Some(
                            t,
                        ) ==> s <= t) by {
                        assert(listed(hits@, j));
                        let n = choose|n: int| 0 <= n < hits@.len() && (#[trigger] hits@[n]).1 == j;
                        let r = results[n];
                        assert(call_ensures(score, (dist2(pos, self@.position(j)) as u128, &self@.entity(j)), r));
                    }
                },
                None => {
                    assert forall|j: usize| #[trigger] self@.hit(pos, radius as int, j) implies call_ensures(
                        score,
                        (dist2(pos, self@.position(j)) as u128, &self@.entity(j)),
                        None,
                    ) by {
                        assert(listed(hits@, j));
                        let n = choose|n: int| 0 <= n < hits@.len() && (#[trigger] hits@[n]).1 == j;
                        assert(results[n] is None);
                    }
                },
            }
        }
        best
    }

    /// One bucket's share of a maintenance pass: frees the entities of the
    /// bucket of `cell` that are dead, and moves those that stand in another
    /// cell out of the bucket and into `moved`, to be filed later.
    fn sift(&mut self, cell: Cell, moved: &mut Vec<(Cell, usize)>)
        requires
            old(self)@.filing(old(moved)@),
            old(self)@.buckets.contains_key(cell),
        ensures
            final(self)@.filing(final(moved)@),
            final(self)@.scale == old(self)@.scale,
            final(self)@.arena.slots.len() == old(self)@.arena.slots.len(),
            forall|c: Cell| final(self)@.buckets.contains_key(c) <==> old(self)@.buckets.contains_key(c),
            forall|i: usize| #[trigger]
                final(self)@.filed.contains_key(i) ==> {
                    &&& old(self)@.filed.contains_key(i)
                    &&& final(self)@.arena.get(i as int) == old(self)@.arena.get(i as int)
                },
            forall|i: usize| #[trigger]
                old(self)@.filed.contains_key(i) && !final(self)@.filed.contains_key(i) ==> {
                    &&& old(self)@.in_bucket(cell, i)
                    &&& !old(self)@.entity(i).is_alive()
                },
            forall|i: usize| #[trigger]
                final(self)@.filed.contains_key(i) && !old(self)@.in_bucket(cell, i) ==> {
                    &&& final(self)@.filed[i] == old(self)@.filed[i]
                    &&& waiting(final(moved)@, i) == waiting(old(moved)@, i)
                },
            forall|i: usize| #[trigger]
                final(self)@.filed.contains_key(i) && old(self)@.in_bucket(cell, i) ==> final(self)@.tidy(i),
            forall|i: usize| #[trigger]
                final(self)@.filed.contains_key(i) ==> {
                    &&& !waiting(final(moved)@, i) ==> final(self)@.filed[i] == old(self)@.filed[i]
                    &&& waiting(final(moved)@, i) ==> waiting(old(moved)@, i) || old(self)@.in_bucket(cell, i)
                },
    {
        let ghost start = self@;
        let ghost waited = moved@;
        let mut bucket = take_bucket(&mut self.grid, cell).unwrap();
        let ghost mut now = start;
        proof {
            assert(self@.buckets =~= now.buckets.remove(cell));
        }
        let mut j: usize = 0;
        while j < bucket.len()
            invariant
                now.filing(moved@),
                self@.scale == now.scale,
                self@.arena == now.arena,
                self@.filed == now.filed,
                self@.buckets == now.buckets.remove(cell),
                now.buckets.contains_key(cell),
                now.buckets[cell] == bucket@,
                0 <= j <= bucket.len(),
                start.filing(waited),
                now.scale == start.scale,
                now.arena.slots.len() == start.arena.slots.len(),
                forall|c: Cell| now.buckets.contains_key(c) <==> start.buckets.contains_key(c),
                forall|i: usize| #[trigger]
                    now.filed.contains_key(i) ==> {
                        &&& start.filed.contains_key(i)
                        &&& now.arena.get(i as int) == start.arena.get(i as int)
                    },
                forall|i: usize| #[trigger]
                    start.filed.contains_key(i) && !now.filed.contains_key(i) ==> {
                        &&& start.in_bucket(cell, i)
                        &&& !start.entity(i).is_alive()
                    },
                forall|i: usize| #[trigger]
                    now.filed.contains_key(i) && !start.in_bucket(cell, i) ==> {
                        &&& now.filed[i] == start.filed[i]
                        &&& waiting(moved@, i) == waiting(waited, i)
                    },
                forall|i: usize| #[trigger] now.in_bucket(cell, i) ==> start.in_bucket(cell, i),
                forall|i: usize| #[trigger]
                    now.filed.contains_key(i) ==> {
                        &&& !waiting(moved@, i) ==> now.filed[i] == start.filed[i]
                        &&& waiting(moved@, i) ==> waiting(waited, i) || start.in_bucket(cell, i)
                    },
                forall|i: usize| #[trigger]
                    now.filed.contains_key(i) && start.in_bucket(cell, i) && !now.in_bucket(cell, i)
                        ==> now.tidy(i),
                forall|p: int| 0 <= p < j ==> now.tidy(#[trigger] bucket@[p]),
            decreases bucket.len() - j,
        {
            let index = bucket[j];
            let ghost before = now;
            let ghost pending = moved@;
            proof {
                assert(now.bucket(cell) == bucket@);
                assert(bucket@.contains(index));
                assert(now.in_bucket(cell, index));
            }
            let elem = self.elems.at(index);
            let alive = elem.alive();
            let at = grid_cell(self.scale, elem.pos());
            if !alive {
                proof {
                    now.lemma_filing_drop(pending, cell, j as int);
                    lemma_swap_removed(bucket@, j as int);
                    now = now.remove_at(cell, j as int);
                    before.arena.lemma_remove(index as int);
                }
                self.elems.remove(index);
                bucket.swap_remove(j);
                self.filed = Ghost(self.filed@.remove(index));
                proof {
                    assert(self@.buckets =~= now.buckets.remove(cell));
                    assert(now.bucket(cell) == bucket@);
                    assert forall|i: usize| #[trigger] now.in_bucket(cell, i) implies start.in_bucket(cell, i) by {
                        assert(before.in_bucket(cell, i));
                    }
                    assert forall|i: usize| #[trigger]
                        now.filed.contains_key(i) && start.in_bucket(cell, i) && !now.in_bucket(cell, i) implies now.tidy(
                        i,
                    ) by {
                        assert(before.filed.contains_key(i));
                        assert(!before.in_bucket(cell, i));
                        assert(before.tidy(i));
                        assert(now.arena.get(i as int) == before.arena.get(i as int));
                    }
                    assert forall|p: int| 0 <= p < j implies now.tidy(#[trigger] bucket@[p]) by {
                        let was = before.buckets[cell];
                        assert(before.bucket(cell) == was);
                        assert(before.tidy(was[p]));
                        assert(bucket@[p] == was[p]);
                        assert(was[p] != was[j as int]);
                        assert(now.arena.get(was[p] as int) == before.arena.get(was[p] as int));
                        before.lemma_filing_drop(pending, cell, p);
                    }
                    assert forall|i: usize| #[trigger] now.filed.contains_key(i) implies start.filed.contains_key(i)
                        && now.arena.get(i as int) == start.arena.get(i as int) by {
                        assert(before.filed.contains_key(i));
                        assert(now.arena.get(i as int) == before.arena.get(i as int));
                    }
                    assert forall|i: usize| #[trigger]
                        start.filed.contains_key(i) && !now.filed.contains_key(i) implies start.in_bucket(cell, i)
                        && !start.entity(i).is_alive() by {
                        if i == index {
                            assert(before.filed.contains_key(i));
                        } else {
                            assert(!before.filed.contains_key(i));
                        }
                    }
                    assert forall|i: usize| #[trigger]
                        now.filed.contains_key(i) && !start.in_bucket(cell, i) implies now.filed[i] == start.filed[i]
                        && waiting(moved@, i) == waiting(waited, i) by {
                        assert(before.filed.contains_key(i));
                    }
                }
            } else if at.0 != cell.0 || at.1 != cell.1 {
                proof {
                    now.lemma_filing_defer(pending, cell, j as int, at);
                    lemma_swap_removed(bucket@, j as int);
                    now = now.defer_at(cell, j as int, at);
                }
                moved.push((at, index));
                bucket.swap_remove(j);
                self.filed = Ghost(self.filed@.insert(index, at));
                proof {
                    assert(self@.buckets =~= now.buckets.remove(cell));
                    assert(now.bucket(cell) == bucket@);
                    assert(moved@[moved@.len() - 1].1 == index);
                    assert(waiting(moved@, index));
                    assert forall|i: usize| i != index implies waiting(moved@, i) == waiting(pending, i) by {
                        if waiting(moved@, i) {
                            let p = choose|p: int| 0 <= p < moved@.len() && (#[trigger] moved@[p]).1 == i;
                            assert(pending[p].1 == i);
                        }
                        if waiting(pending, i) {
                            let p = choose|p: int| 0 <= p < pending.len() && (#[trigger] pending[p]).1 == i;
                            assert(moved@[p].1 == i);
                        }
                    }
                    assert forall|i: usize| #[trigger] now.in_bucket(cell, i) implies start.in_bucket(cell, i) by {
                        assert(before.in_bucket(cell, i));
                    }
                    assert forall|i: usize| #[trigger]
                        now.filed.contains_key(i) && start.in_bucket(cell, i) && !now.in_bucket(cell, i) implies now.tidy(
                        i,
                    ) by {
                        if i != index {
                            assert(before.filed.contains_key(i));
                            assert(!before.in_bucket(cell, i));
                            assert(before.tidy(i));
                        }
                    }
                    assert forall|p: int| 0 <= p < j implies now.tidy(#[trigger] bucket@[p]) by {
                        let was = before.buckets[cell];
                        assert(before.bucket(cell) == was);
                        assert(before.tidy(was[p]));
                        assert(bucket@[p] == was[p]);
                        assert(was[p] != was[j as int]);
                    }
                    assert forall|i: usize| #[trigger] now.filed.contains_key(i) implies start.filed.contains_key(i)
                        && now.arena.get(i as int) == start.arena.get(i as int) by {
                        assert(before.filed.contains_key(i));
                    }
                    assert forall|i: usize| #[trigger]
                        start.filed.contains_key(i) && !now.filed.contains_key(i) implies start.in_bucket(cell, i)
                        && !start.entity(i).is_alive() by {
                        assert(!before.filed.contains_key(i));
                    }
                    assert forall|i: usize| #[trigger]
                        now.filed.contains_key(i) && !start.in_bucket(cell, i) implies now.filed[i] == start.filed[i]
                        && waiting(moved@, i) == waiting(waited, i) by {
                        assert(before.filed.contains_key(i));
                        assert(i != index);
                    }
                }
            } else {
                proof {
                    assert(at == cell);
                    assert(now.filed[index] == cell);
                }
                j += 1;
            }
        }
        put_bucket(&mut self.grid, cell, bucket);
        proof {
            assert(self@.buckets =~= now.buckets);
            assert(self@ == now);
            assert forall|i: usize| #[trigger]
                self@.filed.contains_key(i) && start.in_bucket(cell, i) implies self@.tidy(i) by {
                if now.in_bucket(cell, i) {
                    let p = choose|p: int| 0 <= p < bucket@.len() && bucket@[p] == i;
                    assert(now.tidy(bucket@[p]));
                }
            }
        }
    }

    /// Puts the arena's free list in decreasing order, so that the inserts
    /// that follow reuse the lowest free slots first. The list names the same
    /// slots as before, and nothing else changes.
    fn sort_frees(&mut self)
        requires
            old(self).wf(),
        ensures
            final(self).wf(),
            final(self)@.arena.frees_descending(),
            final(self)@.arena.frees.len() == old(self)@.arena.frees.len(),
            forall|x: usize| final(self)@.arena.frees.contains(x) <==> old(self)@.arena.frees.contains(x),
            final(self)@.scale == old(self)@.scale,
            final(self)@.arena.slots == old(self)@.arena.slots,
            final(self)@.buckets == old(self)@.buckets,
            final(self)@.filed == old(self)@.filed,
    {
        self.elems.sort_frees();
        proof {
            let after = self@;
            assert(after.arena.slots == old(self)@.arena.slots);
            assert(after.buckets == old(self)@.buckets);
            assert forall|i: usize| #[trigger] after.filed.contains_key(i) <==> after.arena.occupied(
                i as int,
            ) by {
                assert(old(self)@.filed.contains_key(i) <==> old(self)@.arena.occupied(i as int));
            }
            assert forall|c: Cell, i: usize| #[trigger]
                after.in_bucket(c, i) <==> (after.filed.contains_key(i) && after.filed[i] == c) by {
                assert(old(self)@.in_bucket(c, i) <==> (old(self)@.filed.contains_key(i) && old(self)@.filed[i]
                    == c));
            }
        }
    }

    /// A maintenance pass over the buckets of `cells`: frees every dead
    /// entity filed there, and files every other one under the cell of its
    /// current position. What is filed elsewhere stays as it is. Entities
    /// that changed cell are first collected and then filed, so no bucket
    /// grows while the buckets are walked. The order inside a bucket is not
    /// fixed by the contract.
    pub fn maintain_cells(&mut self, cells: &Vec<Cell>)
        requires
            old(self).wf(),
        ensures
            final(self).wf(),
            old(self)@.passed(final(self)@, cells@),
            final(self)@.arena.slots.len() == old(self)@.arena.slots.len(),
            forall|c: Cell| old(self)@.buckets.contains_key(c) ==> final(self)@.buckets.contains_key(c),
    {
        let ghost start = self@;
        proof {
            start.lemma_filing_empty();
        }
        let mut moved: Vec<(Cell, usize)> = Vec::new();
        let mut n: usize = 0;
        while n < cells.len()
            invariant
                0 <= n <= cells.len(),
                start.wf(),
                self@.filing(moved@),
                self@.scale == start.scale,
                self@.arena.slots.len() == start.arena.slots.len(),
                forall|c: Cell| start.buckets.contains_key(c) <==> self@.buckets.contains_key(c),
                forall|i: usize| #[trigger]
                    self@.filed.contains_key(i) ==> {
                        &&& start.filed.contains_key(i)
                        &&& self@.arena.get(i as int) == start.arena.get(i as int)
                        &&& !waiting(moved@, i) ==> self@.filed[i] == start.filed[i]
                        &&& waiting(moved@, i) ==> cells@.contains(start.filed[i])
                    },
                forall|i: usize| #[trigger]
                    start.filed.contains_key(i) && !self@.filed.contains_key(i) ==> {
                        &&& !start.entity(i).is_alive()
                        &&& cells@.contains(start.filed[i])
                    },
                forall|i: usize| #[trigger]
                    self@.filed.contains_key(i) && (waiting(moved@, i) || among_cells(
                        cells@,
                        n as int,
                        start.filed[i],
                    )) ==> self@.tidy(i),
            decreases cells.len() - n,
        {
            let cell = cells[n];
            let ghost before = self@;
            let ghost pending = moved@;
            proof {
                assert(cells@.contains(cell));
            }
            let has_bucket = bucket_at(&self.grid, cell).is_some();
            if has_bucket {
                self.sift(cell, &mut moved);
            }
            proof {
                assert forall|i: usize| #[trigger] self@.filed.contains_key(i) implies start.filed.contains_key(i)
                    && self@.arena.get(i as int) == start.arena.get(i as int) && (!waiting(moved@, i)
                    ==> self@.filed[i] == start.filed[i]) && (waiting(moved@, i) ==> cells@.contains(
                    start.filed[i],
                )) by {
                    assert(before.filed.contains_key(i));
                    if has_bucket && before.in_bucket(cell, i) {
                        assert(!waiting(pending, i));
                        assert(before.filed[i] == cell);
                    }
                }
                assert forall|i: usize| #[trigger]
                    start.filed.contains_key(i) && !self@.filed.contains_key(i) implies !start.entity(i).is_alive()
                    && cells@.contains(start.filed[i]) by {
                    if before.filed.contains_key(i) {
                        assert(before.arena.get(i as int) == start.arena.get(i as int));
                        assert(before.in_bucket(cell, i));
                        assert(!waiting(pending, i));
                    }
                }
                assert forall|i: usize| #[trigger]
                    self@.filed.contains_key(i) && (waiting(moved@, i) || among_cells(
                        cells@,
                        n + 1,
                        start.filed[i],
                    )) implies self@.tidy(i) by {
                    assert(before.filed.contains_key(i));
                    if has_bucket && before.in_bucket(cell, i) {
                    } else {
                        if has_bucket {
                            assert(self@.filed[i] == before.filed[i]);
                            assert(waiting(moved@, i) == waiting(pending, i));
                        }
                        assert(self@.arena.get(i as int) == before.arena.get(i as int));
                        if waiting(pending, i) {
                            assert(before.tidy(i));
                        } else {
                            let m = choose|m: int| 0 <= m < n + 1 && cells@[m] == start.filed[i];
                            if m == n {
                                assert(before.filed[i] == cell);
                                assert(before.in_bucket(cell, i));
                                assert(before.buckets.contains_key(cell));
                            } else {
                                assert(among_cells(cells@, n as int, start.filed[i]));
                                assert(before.tidy(i));
                            }
                        }
                    }
                }
            }
            n += 1;
        }
        proof {
            assert(moved@.subrange(0, moved@.len() as int) =~= moved@);
        }
        let ghost sifted = self@;
        let mut m: usize = 0;
        while m < moved.len()
            invariant
                0 <= m <= moved.len(),
                self@.filing(moved@.subrange(m as int, moved@.len() as int)),
                self@.scale == sifted.scale,
                self@.arena == sifted.arena,
                self@.filed == sifted.filed,
                forall|c: Cell| sifted.buckets.contains_key(c) ==> self@.buckets.contains_key(c),
            decreases moved.len() - m,
        {
            let (cell, index) = moved[m];
            let ghost before = self@;
            let ghost pending = moved@.subrange(m as int, moved@.len() as int);
            let mut bucket = match take_bucket(&mut self.grid, cell) {
                Some(bucket) => bucket,
                None => Vec::new(),
            };
            bucket.push(index);
            put_bucket(&mut self.grid, cell, bucket);
            proof {
                assert(pending[0] == moved@[m as int]);
                before.lemma_filing_file(pending);
                assert(self@.buckets =~= before.file(cell, index).buckets);
                assert(self@ == before.file(cell, index));
                assert(pending.subrange(1, pending.len() as int) =~= moved@.subrange(
                    m + 1,
                    moved@.len() as int,
                ));
            }
            m += 1;
        }
        proof {
            assert(moved@.subrange(m as int, moved@.len() as int) =~= Seq::<(Cell, usize)>::empty());
            self@.lemma_filing_empty();
            assert forall|c: Cell| old(self)@.buckets.contains_key(c) implies self@.buckets.contains_key(c) by {
                assert(sifted.buckets.contains_key(c));
            }
            assert forall|i: usize| #[trigger] self@.filed.contains_key(i) implies old(self)@.filed.contains_key(i)
                && self@.arena.get(i as int) == old(self)@.arena.get(i as int) && (cells@.contains(
                old(self)@.filed[i],
            ) ==> self@.tidy(i)) && (!cells@.contains(old(self)@.filed[i]) ==> self@.filed[i] == old(
                self,
            )@.filed[i]) by {
                assert(sifted.filed.contains_key(i));
                if cells@.contains(start.filed[i]) {
                    let k = choose|k: int| 0 <= k < cells@.len() && cells@[k] == start.filed[i];
                    assert(among_cells(cells@, n as int, start.filed[i]));
                    assert(sifted.tidy(i));
                }
            }
        }
    }

    /// Brings the grid in line with its entities: frees every dead entity and
    /// files every other one under the cell of its current position.
    pub fn maintain(&mut self)
        requires
            old(self).wf(),
        ensures
            final(self).wf(),
            final(self)@.settled(),
            final(self)@.all_live(),
            final(self)@.scale == old(self)@.scale,
            final(self)@.arena.slots.len() == old(self)@.arena.slots.len(),
            forall|i: usize| #[trigger]
                final(self)@.arena.get(i as int) == (if old(self)@.live(i) {
                    old(self)@.arena.get(i as int)
                } else {
                    None
                }),
            forall|c: Cell| old(self)@.buckets.contains_key(c) ==> final(self)@.buckets.contains_key(c),
    {
        self.sort_frees();
        let ghost start = self@;
        let cells = cells_of(&self.grid);
        self.maintain_cells(&cells);
        proof {
            start.lemma_whole_pass(self@, cells@);
            assert forall|i: usize| #[trigger]
                self@.arena.get(i as int) == (if old(self)@.live(i) {
                    old(self)@.arena.get(i as int)
                } else {
                    None
                }) by {
                assert(self@.filed.contains_key(i) <==> self@.arena.occupied(i as int));
                assert(start.filed.contains_key(i) <==> start.arena.occupied(i as int));
                if self@.filed.contains_key(i) {
                    assert(self@.tidy(i));
                }
            }
        }
    }

    /// The cells that have a bucket, each once, in no particular order.
    pub fn cells(&self) -> (cells: Vec<Cell>)
        ensures
            cells@.no_duplicates(),
            forall|c: Cell| cells@.contains(c) <==> self@.buckets.contains_key(c),
    {
        cells_of(&self.grid)
    }

    /// Whether a maintenance pass has nothing to do in the bucket of `cell`:
    /// every entity filed there is alive and stands in the cell. This reads
    /// the grid only, so many buckets may be looked at at the same time.
    pub fn bucket_tidy(&self, cell: Cell) -> (tidy: bool)
        requires
            self.wf(),
        ensures
            tidy == self@.cell_tidy(cell),
    {
        match bucket_at(&self.grid, cell) {
            None => {
                proof {
                    assert forall|i: usize| #[trigger] self@.filed.contains_key(i) && self@.filed[i] == cell implies self@.tidy(
                        i,
                    ) by {
                        assert(self@.in_bucket(cell, i));
                    }
                }
                true
            },
            Some(bucket) => {
                let mut j: usize = 0;
                while j < bucket.len()
                    invariant
                        self.wf(),
                        bucket@ == self@.bucket(cell),
                        0 <= j <= bucket.len(),
                        forall|p: int| 0 <= p < j ==> self@.tidy(#[trigger] bucket@[p]),
                    decreases bucket.len() - j,
                {
                    let index = bucket[j];
                    proof {
                        self@.lemma_bucket_occupied(cell, j as int);
                    }
                    let elem = self.elems.at(index);
                    let at = grid_cell(self.scale, elem.pos());
                    if !elem.alive() || at.0 != cell.0 || at.1 != cell.1 {
                        proof {
                            assert(!self@.tidy(index));
                        }
                        return false;
                    }
                    j += 1;
                }
                proof {
                    assert forall|i: usize| #[trigger] self@.filed.contains_key(i) && self@.filed[i] == cell implies self@.tidy(
                        i,
                    ) by {
                        assert(self@.in_bucket(cell, i));
                        let p = choose|p: int| 0 <= p < bucket@.len() && bucket@[p] == i;
                        assert(self@.tidy(bucket@[p]));
                    }
                }
                true
            },
        }
    }

    /// Whether a maintenance pass has something to do in the bucket of
    /// `cell`: an entity filed there is dead or stands in another cell.
    pub fn bucket_untidy(&self, cell: Cell) -> (untidy: bool)
        requires
            self.wf(),
        ensures
            untidy == !self@.cell_tidy(cell),
    {
        !self.bucket_tidy(cell)
    }

    /// Frees every entity for which `keep` answers false, and takes it out of
    /// its bucket. `keep` is asked once for each stored entity. The entities
    /// that stay keep their slots and the cells they are filed under.
    pub fn retain<P: Fn(&T) -> bool>(&mut self, keep: P)
        requires
            old(self).wf(),
            forall|e: &T| call_requires(keep, (e,)),
        ensures
            final(self).wf(),
            final(self)@.scale == old(self)@.scale,
            final(self)@.arena.slots.len() == old(self)@.arena.slots.len(),
            forall|c: Cell| final(self)@.buckets.contains_key(c) <==> old(self)@.buckets.contains_key(c),
            forall|i: usize| #[trigger]
                final(self)@.filed.contains_key(i) ==> {
                    &&& old(self)@.filed.contains_key(i)
                    &&& final(self)@.filed[i] == old(self)@.filed[i]
                    &&& final(self)@.arena.get(i as int) == old(self)@.arena.get(i as int)
                    &&& call_ensures(keep, (&old(self)@.entity(i),), true)
                },
            forall|i: usize| #[trigger]
                old(self)@.filed.contains_key(i) && !final(self)@.filed.contains_key(i) ==> call_ensures(
                    keep,
                    (&old(self)@.entity(i),),
                    false,
                ),
    {
        let ghost start = self@;
        let cells = cells_of(&self.grid);
        let mut n: usize = 0;
        while n < cells.len()
            invariant
                0 <= n <= cells.len(),
                cells@.no_duplicates(),
                self.wf(),
                start.wf(),
                forall|e: &T| call_requires(keep, (e,)),
                self@.scale == start.scale,
                self@.arena.slots.len() == start.arena.slots.len(),
                forall|c: Cell| cells@.contains(c) <==> self@.buckets.contains_key(c),
                forall|c: Cell| start.buckets.contains_key(c) <==> self@.buckets.contains_key(c),
                forall|i: usize| #[trigger]
                    self@.filed.contains_key(i) ==> {
                        &&& start.filed.contains_key(i)
                        &&& self@.filed[i] == start.filed[i]
                        &&& self@.arena.get(i as int) == start.arena.get(i as int)
                    },
                forall|i: usize| #[trigger]
                    self@.filed.contains_key(i) && (exists|m: int| 0 <= m < n && cells@[m] == self@.filed[i])
                        ==> call_ensures(keep, (&start.entity(i),), true),
                forall|i: usize| #[trigger]
                    start.filed.contains_key(i) && !self@.filed.contains_key(i) ==> call_ensures(
                        keep,
                        (&start.entity(i),),
                        false,
                    ),
            decreases cells.len() - n,
        {
            let cell = cells[n];
            proof {
                assert(cells@.contains(cell));
            }
            let ghost entry = self@;
            let mut bucket = take_bucket(&mut self.grid, cell).unwrap();
            let ghost mut now = entry;
            proof {
                assert(self@.buckets =~= now.buckets.remove(cell));
            }
            let mut j: usize = 0;
            while j < bucket.len()
                invariant
                    now.wf(),
                    start.wf(),
                    forall|e: &T| call_requires(keep, (e,)),
                    self@.scale == now.scale,
                    self@.arena == now.arena,
                    self@.filed == now.filed,
                    self@.buckets == now.buckets.remove(cell),
                    now.buckets.contains_key(cell),
                    now.buckets[cell] == bucket@,
                    0 <= j <= bucket.len(),
                    now.scale == start.scale,
                    now.arena.slots.len() == start.arena.slots.len(),
                    forall|c: Cell| now.buckets.contains_key(c) <==> entry.buckets.contains_key(c),
                    forall|i: usize| #[trigger]
                        now.filed.contains_key(i) ==> {
                            &&& start.filed.contains_key(i)
                            &&& entry.filed.contains_key(i)
                            &&& now.filed[i] == start.filed[i]
                            &&& now.arena.get(i as int) == start.arena.get(i as int)
                        },
                    forall|i: usize| #[trigger]
                        entry.filed.contains_key(i) ==> entry.filed[i] == start.filed[i],
                    forall|i: usize| #[trigger]
                        entry.filed.contains_key(i) && entry.filed[i] != cell ==> now.filed.contains_key(i),
                    forall|i: usize| #[trigger]
                        start.filed.contains_key(i) && !now.filed.contains_key(i) ==> call_ensures(
                            keep,
                            (&start.entity(i),),
                            false,
                        ),
                    forall|p: int| 0 <= p < j ==> call_ensures(keep, (&start.entity(#[trigger] bucket@[p]),), true),
                decreases bucket.len() - j,
            {
                let index = bucket[j];
                let ghost before = now;
                proof {
                    assert(now.bucket(cell) == bucket@);
                    now.lemma_bucket_occupied(cell, j as int);
                }
                let stay = keep(self.elems.at(index));
                if !stay {
                    proof {
                        now.lemma_remove_at(cell, j as int);
                        lemma_swap_removed(bucket@, j as int);
                        before.arena.lemma_remove(index as int);
                        now = now.remove_at(cell, j as int);
                    }
                    self.elems.remove(index);
                    bucket.swap_remove(j);
                    self.filed = Ghost(self.filed@.remove(index));
                    proof {
                        assert(self@.buckets =~= now.buckets.remove(cell));
                        assert(now.bucket(cell) == bucket@);
                        assert forall|i: usize| #[trigger] now.filed.contains_key(i) implies start.filed.contains_key(i)
                            && entry.filed.contains_key(i) && now.filed[i] == start.filed[i] && now.arena.get(
                            i as int,
                        ) == start.arena.get(i as int) by {
                            assert(before.filed.contains_key(i));
                            assert(now.arena.get(i as int) == before.arena.get(i as int));
                        }
                        assert forall|i: usize| #[trigger]
                            entry.filed.contains_key(i) && entry.filed[i] != cell implies now.filed.contains_key(
                            i,
                        ) by {
                            assert(before.filed.contains_key(i));
                            assert(before.filed[i] == start.filed[i]);
                            assert(entry.filed[i] == start.filed[i]);
                        }
                        assert forall|i: usize| #[trigger]
                            start.filed.contains_key(i) && !now.filed.contains_key(i) implies call_ensures(
                            keep,
                            (&start.entity(i),),
                            false,
                        ) by {
                            if i == index {
                                assert(before.filed.contains_key(i));
                                assert(before.arena.get(i as int) == start.arena.get(i as int));
                            } else {
                                assert(!before.filed.contains_key(i));
                            }
                        }
                        assert forall|p: int| 0 <= p < j implies call_ensures(
                            keep,
                            (&start.entity(#[trigger] bucket@[p]),),
                            true,
                        ) by {
                            assert(bucket@[p] == before.buckets[cell][p]);
                        }
                    }
                } else {
                    proof {
                        assert(before.arena.get(index as int) == start.arena.get(index as int));
                    }
                    j += 1;
                }
            }
            put_bucket(&mut self.grid, cell, bucket);
            proof {
                assert(self@.buckets =~= now.buckets);
                assert(self@ == now);
                assert forall|i: usize| #[trigger]
                    self@.filed.contains_key(i) && (exists|m: int|
                        0 <= m < n + 1 && cells@[m] == self@.filed[i]) implies call_ensures(
                    keep,
                    (&start.entity(i),),
                    true,
                ) by {
                    let m = choose|m: int| 0 <= m < n + 1 && cells@[m] == self@.filed[i];
                    assert(entry.filed.contains_key(i));
                    assert(entry.filed[i] == start.filed[i]);
                    if m == n {
                        assert(now.in_bucket(cell, i));
                        let p = choose|p: int| 0 <= p < bucket@.len() && bucket@[p] == i;
                        assert(call_ensures(keep, (&start.entity(bucket@[p]),), true));
                    } else {
                        assert(cells@[m] == entry.filed[i]);
                    }
                }
            }
            n += 1;
        }
        proof {
            assert forall|i: usize| #[trigger] self@.filed.contains_key(i) implies call_ensures(
                keep,
                (&start.entity(i),),
                true,
            ) by {
                let c = self@.filed[i];
                assert(self@.in_bucket(c, i));
                assert(self@.buckets.contains_key(c));
                assert(cells@.contains(c));
                let m = choose|m: int| 0 <= m < cells@.len() && cells@[m] == c;
                assert(cells@[m] == self@.filed[i]);
            }
        }
    }

    /// Drops the buckets that are empty. No entity changes.
    pub fn cleanup(&mut self)
        requires
            old(self).wf(),
        ensures
            final(self).wf(),
            final(self)@.scale == old(self)@.scale,
            final(self)@.arena == old(self)@.arena,
            final(self)@.filed == old(self)@.filed,
            forall|c: Cell| #[trigger]
                final(self)@.buckets.contains_key(c) <==> (old(self)@.buckets.contains_key(c) && old(
                    self,
                )@.buckets[c].len() > 0),
            forall|c: Cell| #[trigger]
                final(self)@.buckets.contains_key(c) ==> final(self)@.buckets[c] == old(self)@.buckets[c],
    {
        let ghost start = self@;
        let cells = cells_of(&self.grid);
        let mut n: usize = 0;
        while n < cells.len()
            invariant
                0 <= n <= cells.len(),
                cells@.no_duplicates(),
                forall|c: Cell| cells@.contains(c) <==> start.buckets.contains_key(c),
                self@.scale == start.scale,
                self@.arena == start.arena,
                self@.filed == start.filed,
                forall|c: Cell| #[trigger]
                    self@.buckets.contains_key(c) <==> (start.buckets.contains_key(c) && (start.buckets[c].len()
                        > 0 || !exists|m: int| 0 <= m < n && cells@[m] == c)),
                forall|c: Cell| #[trigger]
                    self@.buckets.contains_key(c) ==> self@.buckets[c] == start.buckets[c],
            decreases cells.len() - n,
        {
            let cell = cells[n];
            proof {
                assert(cells@.contains(cell));
                assert(!exists|m: int| 0 <= m < n && cells@[m] == cell);
            }
            let ghost before = self@;
            let empty = match bucket_at(&self.grid, cell) {
                Some(bucket) => bucket.len() == 0,
                None => false,
            };
            if empty {
                take_bucket(&mut self.grid, cell);
            }
            proof {
                assert forall|c: Cell| #[trigger]
                    self@.buckets.contains_key(c) <==> (start.buckets.contains_key(c) && (start.buckets[c].len()
                        > 0 || !exists|m: int| 0 <= m < n + 1 && cells@[m] == c)) by {
                    assert(before.buckets.contains_key(c) <==> (start.buckets.contains_key(c) && (
                    start.buckets[c].len() > 0 || !exists|m: int| 0 <= m < n && cells@[m] == c)));
                    if c == cell {
                        assert(cells@[n as int] == c);
                    } else {
                        if exists|m: int| 0 <= m < n + 1 && cells@[m] == c {
                            let m = choose|m: int| 0 <= m < n + 1 && cells@[m] == c;
                            assert(m < n);
                        }
                    }
                }
                assert forall|c: Cell| #[trigger] self@.buckets.contains_key(c) implies self@.buckets[c]
                    == start.buckets[c] by {
                    assert(before.buckets.contains_key(c));
                }
            }
            n += 1;
        }
        proof {
            assert forall|c: Cell| #[trigger]
                self@.buckets.contains_key(c) <==> (start.buckets.contains_key(c) && start.buckets[c].len()
                    > 0) by {
                if start.buckets.contains_key(c) {
                    assert(cells@.contains(c));
                    let m = choose|m: int| 0 <= m < cells@.len() && cells@[m] == c;
                    assert(0 <= m < n && cells@[m] == c);
                }
            }
            assert forall|c: Cell, i: usize| #[trigger]
                self@.in_bucket(c, i) <==> (self@.filed.contains_key(i) && self@.filed[i] == c) by {
                assert(start.in_bucket(c, i) <==> (start.filed.contains_key(i) && start.filed[i] == c));
                if start.buckets.contains_key(c) && start.buckets[c].len() > 0 {
                    assert(self@.buckets.contains_key(c));
                    assert(self@.bucket(c) == start.bucket(c));
                } else {
                    assert(!self@.buckets.contains_key(c));
                    assert(self@.bucket(c) =~= start.bucket(c));
                }
            }
            assert forall|c: Cell| #[trigger] self@.buckets.contains_key(c) implies self@.buckets[c].no_duplicates() by {
                assert(start.buckets.contains_key(c));
            }
        }
    }

    /// The slots of the live entities, in increasing order.
    pub fn indices(&self) -> (out: Vec<usize>)
        requires
            self.wf(),
        ensures
            out@ == self@.live_slots(self@.arena.slots.len() as int),
    {
        let n = self.elems.capacity();
        let mut out: Vec<usize> = Vec::new();
        let mut i: usize = 0;
        while i < n
            invariant
                0 <= i <= n,
                n == self@.arena.slots.len(),
                out@ == self@.live_slots(i as int),
            decreases n - i,
        {
            match self.elems.get(i) {
                Some(elem) => {
                    if elem.alive() {
                        out.push(i);
                    }
                },
                None => {},
            }
            i += 1;
        }
        out
    }

    /// The live entities, in slot order.
    pub fn iter(&self) -> (out: Vec<&T>)
        requires
            self.wf(),
        ensures
            out@.len() == self@.live_slots(self@.arena.slots.len() as int).len(),
            forall|k: int| 0 <= k < out@.len() ==> *(#[trigger] out@[k]) == self@.entity(
                self@.live_slots(self@.arena.slots.len() as int)[k],
            ),
    {
        let n = self.elems.capacity();
        let mut out: Vec<&T> = Vec::new();
        let mut i: usize = 0;
        while i < n
            invariant
                0 <= i <= n,
                n == self@.arena.slots.len(),
                out@.len() == self@.live_slots(i as int).len(),
                forall|k: int| 0 <= k < out@.len() ==> *(#[trigger] out@[k]) == self@.entity(
                    self@.live_slots(i as int)[k],
                ),
            decreases n - i,
        {
            match self.elems.get(i) {
                Some(elem) => {
                    if elem.alive() {
                        out.push(elem);
                    }
                },
                None => {},
            }
            i += 1;
        }
        out
    }

    /// Every pair of slots `(a, b)` such that `a` is alive, a query around
    /// `a` with `distance` finds `b`, and `a` stands before `b` in the order
    /// of points. In a settled grid these are the unordered pairs of live
    /// entities at different positions within `distance` of each other, each
    /// reported once.
    pub fn nearby_pairs(&self, distance: u32) -> (pairs: Vec<(usize, usize)>)
        requires
            self.wf(),
        ensures
            self@.all_pairs(distance as int, pairs@),
    {
        let slots = self.indices();
        let ghost total = self@.arena.slots.len() as int;
        proof {
            self@.lemma_live_slots(total);
        }
        let mut pairs: Vec<(usize, usize)> = Vec::new();
        let mut n: usize = 0;
        while n < slots.len()
            invariant
                self.wf(),
                0 <= n <= slots.len(),
                total == self@.arena.slots.len(),
                slots@ == self@.live_slots(total),
                forall|k: int| 0 <= k < slots@.len() ==> self@.live(#[trigger] slots@[k]),
                forall|j: int, k: int| 0 <= j < k < slots@.len() ==> slots@[j] < slots@[k],
                forall|i: usize| i < total && self@.live(i) ==> slots@.contains(i),
                forall|j: int, k: int| 0 <= j < k < pairs@.len() ==> pairs@[j] != pairs@[k],
                forall|k: int| 0 <= k < pairs@.len() ==> {
                    &&& self@.close_pair(distance as int, (#[trigger] pairs@[k]).0, pairs@[k].1)
                    &&& among_first(slots@, n as int, pairs@[k].0)
                },
                forall|m: int, b: usize| 0 <= m < n && #[trigger] self@.close_pair(distance as int, slots@[m], b)
                    ==> paired(pairs@, slots@[m], b),
            decreases slots.len() - n,
        {
            let a = slots[n];
            assert(self@.live(slots@[n as int]));
            let at = self.elems.at(a).pos();
            let hits = self.query_with_dist(at, distance);
            let ghost entry = pairs@;
            let mut h: usize = 0;
            while h < hits.len()
                invariant
                    self.wf(),
                    0 <= n < slots.len(),
                    a == slots@[n as int],
                    self@.live(a),
                    at == self@.position(a),
                    forall|j: int, k: int| 0 <= j < k < slots@.len() ==> slots@[j] < slots@[k],
                    self@.answers(at, distance as int, hits@),
                    0 <= h <= hits.len(),
                    pairs@.len() >= entry.len(),
                    forall|k: int| 0 <= k < entry.len() ==> pairs@[k] == entry[k],
                    forall|k: int| 0 <= k < entry.len() ==> among_first(slots@, n as int, (#[trigger] entry[k]).0),
                    forall|k: int| entry.len() <= k < pairs@.len() ==> {
                        &&& (#[trigger] pairs@[k]).0 == a
                        &&& self@.close_pair(distance as int, a, pairs@[k].1)
                        &&& exists|g: int| 0 <= g < h && hits@[g].1 == pairs@[k].1
                    },
                    forall|j: int, k: int| entry.len() <= j < k < pairs@.len() ==> pairs@[j] != pairs@[k],
                    forall|g: int| 0 <= g < h && self@.close_pair(distance as int, a, (#[trigger] hits@[g]).1)
                        ==> paired(pairs@, a, hits@[g].1),
                decreases hits.len() - h,
            {
                let b = hits[h].1;
                assert(self@.hit(at, distance as int, hits@[h as int].1));
                let other = self.elems.at(b).pos();
                if comes_before(at, other) {
                    let ghost before = pairs@;
                    pairs.push((a, b));
                    proof {
                        assert forall|k: int| entry.len() <= k < pairs@.len() implies (#[trigger] pairs@[k]).0 == a
                            && self@.close_pair(distance as int, a, pairs@[k].1) && exists|g: int|
                            0 <= g < h + 1 && hits@[g].1 == pairs@[k].1 by {
                            if k < before.len() {
                                assert(pairs@[k] == before[k]);
                                let g = choose|g: int| 0 <= g < h && hits@[g].1 == before[k].1;
                                assert(hits@[g].1 == pairs@[k].1);
                            } else {
                                assert(hits@[h as int].1 == pairs@[k].1);
                            }
                        }
                        assert forall|j: int, k: int| entry.len() <= j < k < pairs@.len() implies pairs@[j]
                            != pairs@[k] by {
                            if k == pairs@.len() - 1 {
                                assert(pairs@[j] == before[j]);
                                let g = choose|g: int| 0 <= g < h && hits@[g].1 == before[j].1;
                                assert(hits@[g].1 != hits@[h as int].1);
                            } else {
                                assert(pairs@[j] == before[j] && pairs@[k] == before[k]);
                            }
                        }
                        assert forall|g: int|
                            0 <= g < h + 1 && self@.close_pair(distance as int, a, (#[trigger] hits@[g]).1) implies paired(
                            pairs@,
                            a,
                            hits@[g].1,
                        ) by {
                            if g < h {
                                assert(paired(before, a, hits@[g].1));
                                let k = choose|k: int| 0 <= k < before.len() && #[trigger] before[k] == (a, hits@[g].1);
                                assert(pairs@[k] == (a, hits@[g].1));
                            } else {
                                assert(pairs@[pairs@.len() - 1] == (a, hits@[g].1));
                            }
                        }
                        assert forall|k: int| 0 <= k < entry.len() implies pairs@[k] == entry[k] by {
                            assert(pairs@[k] == before[k]);
                        }
                    }
                }
                h += 1;
            }
            proof {
                assert forall|j: int, k: int| 0 <= j < k < pairs@.len() implies pairs@[j] != pairs@[k] by {
                    if k < entry.len() {
                        assert(pairs@[j] == entry[j] && pairs@[k] == entry[k]);
                    } else if j < entry.len() {
                        assert(pairs@[j] == entry[j]);
                        assert(among_first(slots@, n as int, entry[j].0));
                        let m = choose|m: int| 0 <= m < n && slots@[m] == entry[j].0;
                        assert(slots@[m] < slots@[n as int]);
                        assert(pairs@[k].0 == a);
                    }
                }
                assert forall|k: int| 0 <= k < pairs@.len() implies self@.close_pair(
                    distance as int,
                    (#[trigger] pairs@[k]).0,
                    pairs@[k].1,
) && among_first(slots@, n + 1, pairs@[k].0) by {
                    if k < entry.len() {
                        assert(pairs@[k] == entry[k]);
                        assert(among_first(slots@, n as int, entry[k].0));
                        let m = choose|m: int| 0 <= m < n && slots@[m] == entry[k].0;
                        assert(slots@[m] == pairs@[k].0);
                    } else {
                        assert(slots@[n as int] == pairs@[k].0);
                    }
                }
                assert forall|m: int, b: usize|
                    0 <= m < n + 1 && #[trigger] self@.close_pair(distance as int, slots@[m], b) implies paired(
                    pairs@,
                    slots@[m],
                    b,
                ) by {
                    if m < n {
                        assert(paired(entry, slots@[m], b));
                        let k = choose|k: int| 0 <= k < entry.len() && #[trigger] entry[k] == (slots@[m], b);
                        assert(pairs@[k] == (slots@[m], b));
                    } else {
                        assert(listed(hits@, b));
                        let g = choose|g: int| 0 <= g < hits@.len() && (#[trigger] hits@[g]).1 == b;
                        assert(paired(pairs@, a, hits@[g].1));
                    }
                }
            }
            n += 1;
        }
        proof {
            assert forall|a: usize, b: usize| self@.close_pair(distance as int, a, b) implies paired(pairs@, a, b) by {
                assert(slots@.contains(a));
                let m = choose|m: int| 0 <= m < slots@.len() && slots@[m] == a;
                assert(self@.close_pair(distance as int, slots@[m], b));
            }
        }
        pairs
    }

    /// A grid with cells of side `scale` that holds `items`, inserted one by
    /// one in order.
    pub fn from_iter(scale: u32, items: Vec<T>) -> (grid: Self)
        requires
            scale > 0,
        ensures
            grid.wf(),
            grid@ == GridState::<T>::empty(scale as int).insert_all(items@),
    {
        let mut grid = Grid::new(scale);
        let mut items = items;
        let ghost all = items@;
        let ghost mut done: Seq<T> = Seq::empty();
        reverse(&mut items);
        while items.len() > 0
            invariant
                grid.wf(),
                done.len() + items@.len() == all.len(),
                forall|k: int| 0 <= k < done.len() ==> done[k] == all[k],
                forall|k: int| 0 <= k < items@.len() ==> items@[k] == all[all.len() - 1 - k],
                grid@ == GridState::<T>::empty(scale as int).insert_all(done),
            decreases items@.len(),
        {
            let item = items.pop().unwrap();
            proof {
                let next = done.push(item);
                assert(next.drop_last() =~= done);
                done = next;
            }
            grid.insert(item);
        }
        proof {
            assert(done =~= all);
        }
        grid
    }

    /// Counts the buckets, the entities, and how they are spread: the longest
    /// bucket, and the sum of the lengths of all buckets, which over the
    /// number of buckets is the mean.
    pub fn dbg_analytics(&self) -> (stats: GridStats)
        requires
            self.wf(),
        ensures
            stats.len == self@.arena.count(),
            exists|cells: Seq<Cell>| #[trigger]
                cells.no_duplicates() && (forall|c: Cell| cells.contains(c) <==> self@.buckets.contains_key(c))
                    && stats.cells == cells.len() && stats.total == bucket_total(
                    self@.buckets,
                    cells,
                    cells.len() as int,
                ),
            stats.max matches Some(most) ==> (exists|c: Cell|
                self@.buckets.contains_key(c) && #[trigger] self@.buckets[c].len() == most) && forall|c: Cell|
                self@.buckets.contains_key(c) ==> (#[trigger] self@.buckets[c]).len() <= most,
            stats.max is None ==> forall|c: Cell| !self@.buckets.contains_key(c),
    {
        let cells = cells_of(&self.grid);
        let mut max: Option<usize> = None;
        let mut total: usize = 0;
        let mut n: usize = 0;
        proof {
            self@.lemma_total_bounded(cells@, 0);
        }
        while n < cells.len()
            invariant
                self.wf(),
                0 <= n <= cells.len(),
                cells@.no_duplicates(),
                forall|c: Cell| cells@.contains(c) <==> self@.buckets.contains_key(c),
                total == bucket_total(self@.buckets, cells@, n as int),
                max is None ==> n == 0,
                max matches Some(most) ==> (exists|m: int| 0 <= m < n && #[trigger] self@.buckets[cells@[m]].len()
                    == most) && forall|m: int| 0 <= m < n ==> (#[trigger] self@.buckets[cells@[m]]).len() <= most,
            decreases cells.len() - n,
        {
            let cell = cells[n];
            proof {
                assert(cells@.contains(cell));
                self@.lemma_total_bounded(cells@, n + 1);
            }
            let size = bucket_at(&self.grid, cell).unwrap().len();
            let more = match max {
                None => true,
                Some(most) => size > most,
            };
            if more {
                max = Some(size);
                proof {
                    assert(self@.buckets[cells@[n as int]].len() == size);
                }
            } else {
                proof {
                    let most = max->0;
                    let m = choose|m: int| 0 <= m < n && #[trigger] self@.buckets[cells@[m]].len() == most;
                    assert(self@.buckets[cells@[m]].len() == most);
                }
            }
            total = total + size;
            n += 1;
        }
        proof {
            match max {
                Some(most) => {
                    let m = choose|m: int| 0 <= m < n && #[trigger] self@.buckets[cells@[m]].len() == most;
                    assert(cells@.contains(cells@[m]));
                    assert(self@.buckets.contains_key(cells@[m]) && self@.buckets[cells@[m]].len() == most);
                    assert forall|c: Cell| self@.buckets.contains_key(c) implies (#[trigger] self@.buckets[c]).len()
                        <= most by {
                        assert(cells@.contains(c));
                        let k = choose|k: int| 0 <= k < cells@.len() && cells@[k] == c;
                        assert(self@.buckets[cells@[k]].len() <= most);
                    }
                },
                None => {
                    assert forall|c: Cell| !self@.buckets.contains_key(c) by {
                        if self@.buckets.contains_key(c) {
                            assert(cells@.contains(c));
                        }
                    }
                },
            }
        }
        GridStats { cells: cells.len(), len: self.elems.count(), max, total }
    }

    /// Stores `item` and files it under the cell of its position. Returns the
    /// slot index, which stays the same until the item is removed.
    pub fn insert(&mut self, item: T) -> (index: usize)
        requires
            old(self).wf(),
        ensures
            final(self).wf(),
            index == old(self)@.arena.next_index(),
            final(self)@ == old(self)@.insert(item),
    {
        let cell = grid_cell(self.scale, item.pos());
        let ghost before = self@;
        let index = self.elems.insert(item);
        let mut bucket = match take_bucket(&mut self.grid, cell) {
            Some(bucket) => bucket,
            None => Vec::new(),
        };
        bucket.push(index);
        put_bucket(&mut self.grid, cell, bucket);
        self.filed = Ghost(self.filed@.insert(index, cell));
        proof {
            assert(self@.buckets =~= before.insert(item).buckets);
            assert(self@ == before.insert(item));
            if before.arena.frees.len() == 0 {
                assert(before.arena.slots.len() < self@.arena.slots.len());
            }
            before.lemma_insert(item);
        }
        index
    }
}

impl<T: Griddable + Send + Sync> Grid<T> {
    /// rayon's `into_par_iter().filter(..).collect()` over `cells`, with
    /// [`Grid::bucket_untidy`] as the filter, which reads the grid from many
    /// threads at the same time. Not proved: the result holds exactly those
    /// of `cells` whose bucket is not tidy.
    #[verifier::external_body]
    fn untidy_among(&self, cells: Vec<Cell>) -> (untidy: Vec<Cell>)
        requires
            self.wf(),
        ensures
            forall|c: Cell| untidy@.contains(c) <==> (cells@.contains(c) && !self@.cell_tidy(c)),
    {
        cells.into_par_iter().filter(|cell| self.bucket_untidy(*cell)).collect()
    }

    /// The same as [`Grid::maintain`], with the buckets looked at in
    /// parallel: all buckets are read at the same time to find those with a
    /// dead or displaced entity, and only those are then worked through. The
    /// order inside a bucket may differ from what `maintain` leaves.
    pub fn par_maintain(&mut self)
        requires
            old(self).wf(),
        ensures
            final(self).wf(),
            final(self)@.settled(),
            final(self)@.all_live(),
            final(self)@.scale == old(self)@.scale,
            final(self)@.arena.slots.len() == old(self)@.arena.slots.len(),
            forall|i: usize| #[trigger]
                final(self)@.arena.get(i as int) == (if old(self)@.live(i) {
                    old(self)@.arena.get(i as int)
                } else {
                    None
                }),
            forall|c: Cell| old(self)@.buckets.contains_key(c) ==> final(self)@.buckets.contains_key(c),
    {
        self.sort_frees();
        let ghost start = self@;
        let cells = cells_of(&self.grid);
        let untidy = self.untidy_among(cells);
        self.maintain_cells(&untidy);
        proof {
            start.lemma_partial_pass(self@, untidy@);
        }
    }
}

} // verus!
