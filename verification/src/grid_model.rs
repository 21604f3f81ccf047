//! The grid as a mathematical value: what it holds, when it is well formed,
//! what its operations make of it, and the laws that follow.

use crate::arena::ArenaState;
use crate::cells::Cell;
use crate::grid::Griddable;
use crate::space::{
    cell_of, dist2, in_box, lemma_dist2_symmetric, lemma_within_box, point_before, reach, within, Point,
};
use vstd::prelude::*;

verus! {

/// The bucket `b` after `swap_remove(k)`: the last index takes the place of
/// the one at `k`.
pub open spec fn swap_removed(b: Seq<usize>, k: int) -> Seq<usize> {
    b.update(k, b.last()).drop_last()
}

/// Appending `x` adds `x` and nothing else.
pub proof fn lemma_push_contains(s: Seq<usize>, x: usize)
    ensures
        forall|y: usize| #[trigger] s.push(x).contains(y) <==> (s.contains(y) || y == x),
        s.no_duplicates() && !s.contains(x) ==> s.push(x).no_duplicates(),
{
    let t = s.push(x);
    assert forall|y: usize| #[trigger] t.contains(y) <==> (s.contains(y) || y == x) by {
        if s.contains(y) {
            let k = choose|k: int| 0 <= k < s.len() && s[k] == y;
            assert(t[k] == y);
        }
        if y == x {
            assert(t[t.len() - 1] == y);
        }
    }
}

/// `swap_remove(k)` takes out the index at `k` and nothing else.
pub proof fn lemma_swap_removed(s: Seq<usize>, k: int)
    requires
        0 <= k < s.len(),
        s.no_duplicates(),
    ensures
        swap_removed(s, k).no_duplicates(),
        swap_removed(s, k).len() == s.len() - 1,
        forall|y: usize| #[trigger] swap_removed(s, k).contains(y) <==> (s.contains(y) && y != s[k]),
{
    let t = swap_removed(s, k);
    let n = s.len() as int;
    assert forall|y: usize| #[trigger] t.contains(y) <==> (s.contains(y) && y != s[k]) by {
        if t.contains(y) {
            let j = choose|j: int| 0 <= j < t.len() && t[j] == y;
            if j == k {
                assert(s[n - 1] == y);
            } else {
                assert(s[j] == y);
            }
        }
        if s.contains(y) && y != s[k] {
            let j = choose|j: int| 0 <= j < s.len() && s[j] == y;
            if j == n - 1 {
                assert(t[k] == y);
            } else {
                assert(t[j] == y);
            }
        }
    }
}

/// Whether `found` lists slot `i`.
pub open spec fn listed(found: Seq<(u128, usize)>, i: usize) -> bool {
    exists|k: int| 0 <= k < found.len() && (#[trigger] found[k]).1 == i
}

/// Whether `cell` lies in the square of cells around `center` and comes
/// before column `cx`, or in column `cx` before row `cy`.
pub open spec fn box_before(center: Cell, k: int, cx: int, cy: int, cell: Cell) -> bool {
    in_box(center, k, cell) && (cell.0 < cx || (cell.0 == cx && cell.1 < cy))
}

/// Whether slot `i` waits in `pending` to be filed.
pub open spec fn waiting(pending: Seq<(Cell, usize)>, i: usize) -> bool {
    exists|p: int| 0 <= p < pending.len() && (#[trigger] pending[p]).1 == i
}

/// Whether `a` is among the first `n` of `slots`.
pub open spec fn among_first(slots: Seq<usize>, n: int, a: usize) -> bool {
    exists|m: int| 0 <= m < n && slots[m] == a
}

/// Whether `cell` is among the first `n` of `cells`.
pub open spec fn among_cells(cells: Seq<Cell>, n: int, cell: Cell) -> bool {
    exists|m: int| 0 <= m < n && cells[m] == cell
}

/// The sum of the lengths of the buckets of the first `n` of `cells`.
pub open spec fn bucket_total(buckets: Map<Cell, Seq<usize>>, cells: Seq<Cell>, n: int) -> nat
    decreases n,
{
    if n <= 0 {
        0
    } else {
        bucket_total(buckets, cells, n - 1) + buckets[cells[n - 1]].len()
    }
}

/// How full a grid is.
#[derive(Clone, Copy, Debug)]
pub struct GridStats {
    /// The number of buckets.
    pub cells: usize,
    /// The number of stored entities.
    pub len: usize,
    /// The length of the longest bucket; `None` without buckets.
    pub max: Option<usize>,
    /// The sum of the lengths of all buckets.
    pub total: usize,
}

/// Whether `pairs` lists the pair `(a, b)`.
pub open spec fn paired(pairs: Seq<(usize, usize)>, a: usize, b: usize) -> bool {
    exists|k: int| 0 <= k < pairs.len() && #[trigger] pairs[k] == (a, b)
}

/// A sequence of different numbers below `bound` is no longer than `bound`.
pub proof fn lemma_distinct_below(s: Seq<usize>, bound: nat)
    requires
        s.no_duplicates(),
        forall|k: int| 0 <= k < s.len() ==> (#[trigger] s[k]) < bound,
    ensures
        s.len() <= bound,
{
    let range = Set::new(|i: int| 0 <= i < bound);
    vstd::set_lib::lemma_int_range(0, bound as int);
    assert(range =~= vstd::set_lib::set_int_range(0, bound as int));
    s.unique_seq_to_set();
    let mapped = s.to_set().map(|i: usize| i as int);
    assert(mapped.subset_of(range)) by {
        assert forall|x: int| mapped.contains(x) implies range.contains(x) by {
            let i = choose|i: usize| s.to_set().contains(i) && x == i as int;
            let k = choose|k: int| 0 <= k < s.len() && s[k] == i;
            assert(s[k] < bound);
        }
    }
    vstd::set_lib::lemma_len_subset(mapped, range);
    vstd::set_lib::lemma_map_size(s.to_set(), mapped, |i: usize| i as int);
}

/// A grid as a mathematical value.
pub struct GridState<T> {
    /// The side of a cell, in world units.
    pub scale: int,
    /// The entities, by slot index.
    pub arena: ArenaState<T>,
    /// For each cell that has a bucket, the slot indices filed there, in
    /// bucket order.
    pub buckets: Map<Cell, Seq<usize>>,
    /// For each occupied slot index, the cell under which it is filed.
    pub filed: Map<usize, Cell>,
}

impl<T: Griddable> GridState<T> {
    /// The grid without entities.
    pub open spec fn empty(scale: int) -> Self {
        GridState {
            scale,
            arena: ArenaState::empty(),
            buckets: Map::empty(),
            filed: Map::empty(),
        }
    }

    /// The entity in slot `i`.
    pub open spec fn entity(self, i: usize) -> T {
        self.arena.slots[i as int]->0
    }

    /// The position of the entity in slot `i`.
    pub open spec fn position(self, i: usize) -> Point {
        self.entity(i).position()
    }

    /// The cell of the current position of the entity in slot `i`.
    pub open spec fn home(self, i: usize) -> Cell {
        cell_of(self.scale, self.position(i))
    }

    /// Whether slot `i` holds an entity that is alive.
    pub open spec fn live(self, i: usize) -> bool {
        self.arena.occupied(i as int) && self.entity(i).is_alive()
    }

    /// The bucket of `cell`; empty where the cell has none.
    pub open spec fn bucket(self, cell: Cell) -> Seq<usize> {
        if self.buckets.contains_key(cell) {
            self.buckets[cell]
        } else {
            Seq::empty()
        }
    }

    /// Whether index `i` stands in the bucket of `cell`.
    pub open spec fn in_bucket(self, cell: Cell, i: usize) -> bool {
        self.bucket(cell).contains(i)
    }

    /// Every occupied slot is filed in exactly one bucket, exactly once, and
    /// nothing else is filed.
    pub open spec fn wf(self) -> bool {
        &&& 1 <= self.scale <= u32::MAX
        &&& self.arena.wf()
        &&& forall|cell: Cell| #[trigger]
            self.buckets.contains_key(cell) ==> self.buckets[cell].no_duplicates()
        &&& forall|i: usize| #[trigger]
            self.filed.contains_key(i) <==> self.arena.occupied(i as int)
        &&& forall|cell: Cell, i: usize| #[trigger]
            self.in_bucket(cell, i) <==> (self.filed.contains_key(i) && self.filed[i] == cell)
    }

    /// Every entity is filed under the cell of its current position.
    pub open spec fn settled(self) -> bool {
        forall|i: usize| #[trigger] self.filed.contains_key(i) ==> self.filed[i] == self.home(i)
    }

    /// Every stored entity is alive.
    pub open spec fn all_live(self) -> bool {
        forall|i: usize| self.arena.occupied(i as int) ==> (#[trigger] self.entity(i)).is_alive()
    }

    /// The grid after `item` went into the arena and was filed under the cell
    /// of its position.
    pub open spec fn insert(self, item: T) -> Self {
        let index = self.arena.next_index() as usize;
        let cell = cell_of(self.scale, item.position());
        GridState {
            scale: self.scale,
            arena: self.arena.insert(item),
            buckets: self.buckets.insert(cell, self.bucket(cell).push(index)),
            filed: self.filed.insert(index, cell),
        }
    }

    /// The grid after the index at place `k` of the bucket of `cell` was taken
    /// out of the bucket and its slot was freed.
    pub open spec fn remove_at(self, cell: Cell, k: int) -> Self {
        let index = self.bucket(cell)[k];
        GridState {
            scale: self.scale,
            arena: self.arena.remove(index as int),
            buckets: self.buckets.insert(cell, swap_removed(self.bucket(cell), k)),
            filed: self.filed.remove(index),
        }
    }

    /// Whether place `k` is the first in the bucket of `pos`'s cell whose
    /// entity stands exactly at `pos`.
    pub open spec fn first_at(self, pos: Point, k: int) -> bool {
        let b = self.bucket(cell_of(self.scale, pos));
        &&& 0 <= k < b.len()
        &&& self.position(b[k]) == pos
        &&& forall|j: int| 0 <= j < k ==> self.position(#[trigger] b[j]) != pos
    }

    /// Whether no entity in the bucket of `pos`'s cell stands exactly at `pos`.
    pub open spec fn none_at(self, pos: Point) -> bool {
        let b = self.bucket(cell_of(self.scale, pos));
        forall|j: int| 0 <= j < b.len() ==> self.position(#[trigger] b[j]) != pos
    }

    /// The grid with the entity in the occupied slot `i` replaced by `value`.
    pub open spec fn replace(self, i: usize, value: T) -> Self {
        GridState {
            scale: self.scale,
            arena: self.arena.replace(i as int, value),
            buckets: self.buckets,
            filed: self.filed,
        }
    }

    /// Replacing an entity keeps the grid well formed, wherever the new
    /// entity stands.
    pub proof fn lemma_replace(self, i: usize, value: T)
        requires
            self.wf(),
            self.arena.occupied(i as int),
        ensures
            self.replace(i, value).wf(),
    {
        let after = self.replace(i, value);
        self.arena.lemma_replace(i as int, value);
        assert forall|j: usize| #[trigger] after.filed.contains_key(j) <==> after.arena.occupied(j as int) by {
            assert(self.filed.contains_key(j) <==> self.arena.occupied(j as int));
        }
        assert forall|c: Cell, j: usize| #[trigger]
            after.in_bucket(c, j) <==> (after.filed.contains_key(j) && after.filed[j] == c) by {
            assert(after.bucket(c) == self.bucket(c));
            assert(self.in_bucket(c, j) <==> (self.filed.contains_key(j) && self.filed[j] == c));
        }
    }

    /// Every index in a bucket names an occupied slot.
    pub proof fn lemma_bucket_occupied(self, cell: Cell, k: int)
        requires
            self.wf(),
            0 <= k < self.bucket(cell).len(),
        ensures
            self.arena.occupied(self.bucket(cell)[k] as int),
            self.filed.contains_key(self.bucket(cell)[k]),
            self.filed[self.bucket(cell)[k]] == cell,
    {
        let index = self.bucket(cell)[k];
        assert(self.bucket(cell).contains(index));
        assert(self.in_bucket(cell, index));
    }

    /// Whether the entity in slot `i` is alive and within `radius` of `pos`.
    pub open spec fn near(self, pos: Point, radius: int, i: usize) -> bool {
        self.entity(i).is_alive() && within(pos, self.position(i), radius)
    }

    /// Whether a query at `pos` with `radius` finds slot `i`: the entity is
    /// filed in the square of cells around `pos`'s cell that the radius can
    /// reach, it is alive, and it is within `radius` of `pos`.
    pub open spec fn hit(self, pos: Point, radius: int, i: usize) -> bool {
        &&& self.filed.contains_key(i)
        &&& in_box(cell_of(self.scale, pos), reach(self.scale, radius), self.filed[i])
        &&& self.near(pos, radius, i)
    }

    /// Whether `found` lists exactly the slots that a query at `pos` with
    /// `radius` finds, each once, each with its squared distance from `pos`.
    pub open spec fn answers(self, pos: Point, radius: int, found: Seq<(u128, usize)>) -> bool {
        &&& forall|a: int, b: int| 0 <= a < b < found.len() ==> found[a].1 != found[b].1
        &&& forall|k: int| 0 <= k < found.len() ==> {
            &&& self.hit(pos, radius, (#[trigger] found[k]).1)
            &&& found[k].0 == dist2(pos, self.position(found[k].1))
        }
        &&& forall|i: usize| self.hit(pos, radius, i) ==> listed(found, i)
    }

    /// Bucket invariant: in a settled grid every bucket holds entities of its
    /// own cell only, and every stored entity stands in the bucket of the cell
    /// of its position, there and nowhere else.
    pub proof fn lemma_bucket_invariant(self)
        requires
            self.wf(),
            self.settled(),
        ensures
            forall|cell: Cell, k: int| #![trigger self.bucket(cell)[k]]
                0 <= k < self.bucket(cell).len() ==> self.home(self.bucket(cell)[k]) == cell
                    && self.arena.occupied(self.bucket(cell)[k] as int),
            forall|i: usize, cell: Cell| #![trigger self.in_bucket(cell, i)]
                self.arena.occupied(i as int) ==> (self.in_bucket(cell, i) <==> cell == self.home(i)),
    {
        assert forall|cell: Cell, k: int| #![trigger self.bucket(cell)[k]]
            0 <= k < self.bucket(cell).len() implies self.home(self.bucket(cell)[k]) == cell
            && self.arena.occupied(self.bucket(cell)[k] as int) by {
            self.lemma_bucket_occupied(cell, k);
        }
        assert forall|i: usize, cell: Cell| #![trigger self.in_bucket(cell, i)]
            self.arena.occupied(i as int) implies (self.in_bucket(cell, i) <==> cell == self.home(i)) by {
            assert(self.filed.contains_key(i));
        }
    }

    /// Query completeness: in a settled grid a query finds exactly the live
    /// entities within `radius` of `pos`, whatever the scale.
    pub proof fn lemma_query_complete(self, pos: Point, radius: int, i: usize)
        requires
            self.wf(),
            self.settled(),
            radius >= 0,
        ensures
            self.hit(pos, radius, i) <==> (self.live(i) && within(pos, self.position(i), radius)),
    {
        assert(self.filed.contains_key(i) <==> self.arena.occupied(i as int));
        if self.live(i) && within(pos, self.position(i), radius) {
            lemma_within_box(self.scale, pos, self.position(i), radius);
        }
    }

    /// Whether slot `i` is found by a query at `pos` with `radius`, and no
    /// slot that the query finds is nearer to `pos`.
    pub open spec fn nearest_hit(self, pos: Point, radius: int, i: usize) -> bool {
        &&& self.hit(pos, radius, i)
        &&& forall|j: usize| #[trigger]
            self.hit(pos, radius, j) ==> dist2(pos, self.position(i)) <= dist2(pos, self.position(j))
    }

    /// Well-formedness in the middle of a maintenance pass: every occupied
    /// slot either stands in the bucket of the cell it is filed under, or
    /// waits in `pending` with that cell, and never both.
    pub open spec fn filing(self, pending: Seq<(Cell, usize)>) -> bool {
        &&& 1 <= self.scale <= u32::MAX
        &&& self.arena.wf()
        &&& forall|cell: Cell| #[trigger]
            self.buckets.contains_key(cell) ==> self.buckets[cell].no_duplicates()
        &&& forall|i: usize| #[trigger]
            self.filed.contains_key(i) <==> self.arena.occupied(i as int)
        &&& forall|a: int, b: int| 0 <= a < b < pending.len() ==> pending[a].1 != pending[b].1
        &&& forall|p: int| 0 <= p < pending.len() ==> {
            &&& self.filed.contains_key((#[trigger] pending[p]).1)
            &&& self.filed[pending[p].1] == pending[p].0
        }
        &&& forall|cell: Cell, i: usize| #[trigger]
            self.in_bucket(cell, i) <==> (self.filed.contains_key(i) && self.filed[i] == cell
                && !waiting(pending, i))
    }

    /// Whether the entity in slot `i` is alive and filed under the cell of
    /// its position.
    pub open spec fn tidy(self, i: usize) -> bool {
        self.entity(i).is_alive() && self.filed[i] == self.home(i)
    }

    /// The grid after the index at place `k` of the bucket of `cell` was taken
    /// out of the bucket to be filed under `to` later.
    pub open spec fn defer_at(self, cell: Cell, k: int, to: Cell) -> Self {
        let index = self.bucket(cell)[k];
        GridState {
            scale: self.scale,
            arena: self.arena,
            buckets: self.buckets.insert(cell, swap_removed(self.bucket(cell), k)),
            filed: self.filed.insert(index, to),
        }
    }

    /// The grid after slot `i` was appended to the bucket of `cell`.
    pub open spec fn file(self, cell: Cell, i: usize) -> Self {
        GridState {
            scale: self.scale,
            arena: self.arena,
            buckets: self.buckets.insert(cell, self.bucket(cell).push(i)),
            filed: self.filed,
        }
    }

    /// A grid is well formed exactly when it is in order with nothing pending.
    pub proof fn lemma_filing_empty(self)
        ensures
            self.wf() <==> self.filing(Seq::empty()),
    {
        assert(forall|i: usize| !waiting(Seq::<(Cell, usize)>::empty(), i));
    }

    /// Dropping an entity from its bucket and from the arena keeps the grid
    /// in order.
    pub proof fn lemma_filing_drop(self, pending: Seq<(Cell, usize)>, cell: Cell, k: int)
        requires
            self.filing(pending),
            0 <= k < self.bucket(cell).len(),
        ensures
            self.remove_at(cell, k).filing(pending),
            self.arena.occupied(self.bucket(cell)[k] as int),
    {
        let after = self.remove_at(cell, k);
        let b = self.bucket(cell);
        let index = b[k];
        assert(b.contains(index));
        assert(self.in_bucket(cell, index));
        self.arena.lemma_remove(index as int);
        lemma_swap_removed(b, k);
        assert forall|c: Cell| #[trigger] after.buckets.contains_key(c) implies after.buckets[c].no_duplicates() by {
            if c != cell {
                assert(self.buckets.contains_key(c));
            }
        }
        assert forall|i: usize| #[trigger] after.filed.contains_key(i) <==> after.arena.occupied(i as int) by {
            if i != index {
                assert(after.arena.get(i as int) == self.arena.get(i as int));
                assert(self.filed.contains_key(i) <==> self.arena.occupied(i as int));
            }
        }
        assert forall|p: int| 0 <= p < pending.len() implies after.filed.contains_key((#[trigger] pending[p]).1)
            && after.filed[pending[p].1] == pending[p].0 by {
            assert(self.filed.contains_key(pending[p].1));
            assert(waiting(pending, pending[p].1));
        }
        assert forall|c: Cell, i: usize| #[trigger]
            after.in_bucket(c, i) <==> (after.filed.contains_key(i) && after.filed[i] == c && !waiting(
                pending,
                i,
            )) by {
            if c == cell {
                assert(after.bucket(c) == swap_removed(b, k));
                assert(self.in_bucket(cell, i) <==> (self.filed.contains_key(i) && self.filed[i] == cell
                    && !waiting(pending, i)));
            } else {
                assert(after.bucket(c) == self.bucket(c));
                assert(self.in_bucket(c, i) <==> (self.filed.contains_key(i) && self.filed[i] == c
                    && !waiting(pending, i)));
            }
        }
    }

    /// Taking an entity out of its bucket to wait for another cell keeps the
    /// grid in order.
    pub proof fn lemma_filing_defer(self, pending: Seq<(Cell, usize)>, cell: Cell, k: int, to: Cell)
        requires
            self.filing(pending),
            0 <= k < self.bucket(cell).len(),
        ensures
            self.defer_at(cell, k, to).filing(pending.push((to, self.bucket(cell)[k]))),
            self.arena.occupied(self.bucket(cell)[k] as int),
    {
        let after = self.defer_at(cell, k, to);
        let b = self.bucket(cell);
        let index = b[k];
        let later = pending.push((to, index));
        assert(b.contains(index));
        assert(self.in_bucket(cell, index));
        lemma_swap_removed(b, k);
        assert forall|i: usize| waiting(later, i) <==> (waiting(pending, i) || i == index) by {
            if waiting(later, i) {
                let p = choose|p: int| 0 <= p < later.len() && (#[trigger] later[p]).1 == i;
                if p < pending.len() {
                    assert(pending[p].1 == i);
                }
            }
            if waiting(pending, i) {
                let p = choose|p: int| 0 <= p < pending.len() && (#[trigger] pending[p]).1 == i;
                assert(later[p].1 == i);
            }
            if i == index {
                assert(later[later.len() - 1].1 == i);
            }
        }
        assert forall|c: Cell| #[trigger] after.buckets.contains_key(c) implies after.buckets[c].no_duplicates() by {
            if c != cell {
                assert(self.buckets.contains_key(c));
            }
        }
        assert forall|i: usize| #[trigger] after.filed.contains_key(i) <==> after.arena.occupied(i as int) by {
            assert(self.filed.contains_key(i) <==> self.arena.occupied(i as int));
        }
        assert forall|a: int, b: int| 0 <= a < b < later.len() implies later[a].1 != later[b].1 by {
            if b == later.len() - 1 {
                assert(waiting(pending, pending[a].1));
            }
        }
        assert forall|p: int| 0 <= p < later.len() implies after.filed.contains_key((#[trigger] later[p]).1)
            && after.filed[later[p].1] == later[p].0 by {
            if p < pending.len() {
                assert(self.filed.contains_key(pending[p].1));
                assert(waiting(pending, pending[p].1));
            }
        }
        assert forall|c: Cell, i: usize| #[trigger]
            after.in_bucket(c, i) <==> (after.filed.contains_key(i) && after.filed[i] == c && !waiting(
                later,
                i,
            )) by {
            if c == cell {
                assert(after.bucket(c) == swap_removed(b, k));
                assert(self.in_bucket(cell, i) <==> (self.filed.contains_key(i) && self.filed[i] == cell
                    && !waiting(pending, i)));
            } else {
                assert(after.bucket(c) == self.bucket(c));
                assert(self.in_bucket(c, i) <==> (self.filed.contains_key(i) && self.filed[i] == c
                    && !waiting(pending, i)));
            }
        }
    }

    /// Filing the first waiting entity in the bucket of its cell keeps the
    /// grid in order.
    pub proof fn lemma_filing_file(self, pending: Seq<(Cell, usize)>)
        requires
            self.filing(pending),
            pending.len() > 0,
        ensures
            self.file(pending[0].0, pending[0].1).filing(pending.subrange(1, pending.len() as int)),
    {
        let cell = pending[0].0;
        let index = pending[0].1;
        let after = self.file(cell, index);
        let rest = pending.subrange(1, pending.len() as int);
        assert(waiting(pending, index));
        assert(!self.in_bucket(cell, index));
        lemma_push_contains(self.bucket(cell), index);
        assert forall|i: usize| waiting(pending, i) <==> (waiting(rest, i) || i == index) by {
            if waiting(pending, i) {
                let p = choose|p: int| 0 <= p < pending.len() && (#[trigger] pending[p]).1 == i;
                if p > 0 {
                    assert(rest[p - 1].1 == i);
                }
            }
            if waiting(rest, i) {
                let p = choose|p: int| 0 <= p < rest.len() && (#[trigger] rest[p]).1 == i;
                assert(pending[p + 1].1 == i);
            }
        }
        assert(!waiting(rest, index)) by {
            if waiting(rest, index) {
                let p = choose|p: int| 0 <= p < rest.len() && (#[trigger] rest[p]).1 == index;
                assert(pending[p + 1].1 == index);
            }
        }
        assert forall|c: Cell| #[trigger] after.buckets.contains_key(c) implies after.buckets[c].no_duplicates() by {
            if c != cell {
                assert(self.buckets.contains_key(c));
            } else if self.buckets.contains_key(cell) {
            }
        }
        assert forall|a: int, b: int| 0 <= a < b < rest.len() implies rest[a].1 != rest[b].1 by {
            assert(rest[a] == pending[a + 1] && rest[b] == pending[b + 1]);
        }
        assert forall|p: int| 0 <= p < rest.len() implies after.filed.contains_key((#[trigger] rest[p]).1)
            && after.filed[rest[p].1] == rest[p].0 by {
            assert(rest[p] == pending[p + 1]);
        }
        assert forall|c: Cell, i: usize| #[trigger]
            after.in_bucket(c, i) <==> (after.filed.contains_key(i) && after.filed[i] == c && !waiting(
                rest,
                i,
            )) by {
            if c == cell {
                assert(after.bucket(c) == self.bucket(cell).push(index));
                assert(self.in_bucket(cell, i) <==> (self.filed.contains_key(i) && self.filed[i] == cell
                    && !waiting(pending, i)));
            } else {
                assert(after.bucket(c) == self.bucket(c));
                assert(self.in_bucket(c, i) <==> (self.filed.contains_key(i) && self.filed[i] == c
                    && !waiting(pending, i)));
            }
        }
    }

    /// Whether `nearby_pairs` with `distance` reports the pair `(a, b)`: `a`
    /// is alive, a query around `a` finds `b`, and `a` stands before `b` in
    /// the order of points.
    pub open spec fn close_pair(self, distance: int, a: usize, b: usize) -> bool {
        &&& self.live(a)
        &&& self.hit(self.position(a), distance, b)
        &&& point_before(self.position(a), self.position(b))
    }

    /// Whether `pairs` lists exactly the close pairs, each once.
    pub open spec fn all_pairs(self, distance: int, pairs: Seq<(usize, usize)>) -> bool {
        &&& forall|j: int, k: int| 0 <= j < k < pairs.len() ==> pairs[j] != pairs[k]
        &&& forall|k: int| 0 <= k < pairs.len() ==> self.close_pair(
            distance,
            (#[trigger] pairs[k]).0,
            pairs[k].1,
        )
        &&& forall|a: usize, b: usize| self.close_pair(distance, a, b) ==> paired(pairs, a, b)
    }

    /// Pair uniqueness: in a settled grid, of two live entities at different
    /// positions and within `distance` of each other exactly one order is a
    /// close pair, and no others are close pairs.
    pub proof fn lemma_pairs_once(self, distance: int, a: usize, b: usize)
        requires
            self.wf(),
            self.settled(),
            distance >= 0,
        ensures
            self.close_pair(distance, a, b) <==> (self.live(a) && self.live(b) && within(
                self.position(a),
                self.position(b),
                distance,
            ) && point_before(self.position(a), self.position(b))),
            !(self.close_pair(distance, a, b) && self.close_pair(distance, b, a)),
            self.live(a) && self.live(b) && self.position(a) != self.position(b) && within(
                self.position(a),
                self.position(b),
                distance,
            ) ==> (self.close_pair(distance, a, b) || self.close_pair(distance, b, a)),
    {
        self.lemma_query_complete(self.position(a), distance, b);
        self.lemma_query_complete(self.position(b), distance, a);
        lemma_dist2_symmetric(self.position(a), self.position(b));
    }

    /// The live slots below `n`, in increasing order.
    pub open spec fn live_slots(self, n: int) -> Seq<usize>
        decreases n,
    {
        if n <= 0 {
            Seq::empty()
        } else if self.live((n - 1) as usize) {
            self.live_slots(n - 1).push((n - 1) as usize)
        } else {
            self.live_slots(n - 1)
        }
    }

    /// `live_slots` lists exactly the live slots below `n`, in increasing order.
    pub proof fn lemma_live_slots(self, n: int)
        requires
            0 <= n <= self.arena.slots.len() <= usize::MAX,
        ensures
            forall|k: int| 0 <= k < self.live_slots(n).len() ==> (#[trigger] self.live_slots(n)[k]) < n
                && self.live(self.live_slots(n)[k]),
            forall|j: int, k: int| 0 <= j < k < self.live_slots(n).len() ==> self.live_slots(n)[j]
                < self.live_slots(n)[k],
            forall|i: usize| i < n && self.live(i) ==> self.live_slots(n).contains(i),
        decreases n,
    {
        if n > 0 {
            self.lemma_live_slots(n - 1);
            let prev = self.live_slots(n - 1);
            let cur = self.live_slots(n);
            assert forall|i: usize| i < n && self.live(i) implies cur.contains(i) by {
                if i == n - 1 {
                    assert(cur[cur.len() - 1] == i);
                } else {
                    let k = choose|k: int| 0 <= k < prev.len() && prev[k] == i;
                    assert(cur[k] == i);
                }
            }
        }
    }

    /// The grid after the items were inserted one by one, in order.
    pub open spec fn insert_all(self, items: Seq<T>) -> Self
        decreases items.len(),
    {
        if items.len() == 0 {
            self
        } else {
            self.insert_all(items.drop_last()).insert(items.last())
        }
    }

    /// Whether every entity filed under `cell` is alive and stands in the cell.
    pub open spec fn cell_tidy(self, cell: Cell) -> bool {
        forall|i: usize| #[trigger] self.filed.contains_key(i) && self.filed[i] == cell ==> self.tidy(i)
    }

    /// Whether `after` is what a maintenance pass over `cells` may leave of
    /// this grid.
    ///
    /// Every entity that is left was there before, unchanged. One that was
    /// filed under one of `cells` is now alive and filed under the cell of its
    /// position; any other is filed where it was. Every entity that is gone
    /// was dead and filed under one of `cells`.
    pub open spec fn passed(self, after: Self, cells: Seq<Cell>) -> bool {
        &&& after.wf()
        &&& after.scale == self.scale
        &&& forall|i: usize| #[trigger]
            after.filed.contains_key(i) ==> {
                &&& self.filed.contains_key(i)
                &&& after.arena.get(i as int) == self.arena.get(i as int)
                &&& cells.contains(self.filed[i]) ==> after.tidy(i)
                &&& !cells.contains(self.filed[i]) ==> after.filed[i] == self.filed[i]
            }
        &&& forall|i: usize| #[trigger]
            self.filed.contains_key(i) && !after.filed.contains_key(i) ==> {
                &&& !self.entity(i).is_alive()
                &&& cells.contains(self.filed[i])
            }
    }

    /// A pass over every cell that has a bucket leaves a settled grid of
    /// live entities.
    pub proof fn lemma_whole_pass(self, after: Self, cells: Seq<Cell>)
        requires
            self.wf(),
            self.passed(after, cells),
            forall|c: Cell| self.buckets.contains_key(c) ==> cells.contains(c),
        ensures
            after.settled(),
            after.all_live(),
            forall|i: usize| #[trigger] after.filed.contains_key(i) ==> after.tidy(i),
    {
        assert forall|i: usize| #[trigger] after.filed.contains_key(i) implies after.tidy(i) by {
            assert(self.filed.contains_key(i));
            assert(self.in_bucket(self.filed[i], i));
            assert(self.buckets.contains_key(self.filed[i]));
        }
        assert forall|i: usize| after.arena.occupied(i as int) implies (#[trigger] after.entity(i)).is_alive() by {
            assert(after.filed.contains_key(i));
            assert(after.tidy(i));
        }
    }

    /// Parallel maintenance: a pass over a set of cells that holds every
    /// bucket with something to do leaves the same as a pass over all of
    /// them, a settled grid of live entities.
    pub proof fn lemma_partial_pass(self, after: Self, cells: Seq<Cell>)
        requires
            self.wf(),
            self.passed(after, cells),
            forall|c: Cell| self.buckets.contains_key(c) && !self.cell_tidy(c) ==> cells.contains(c),
        ensures
            after.settled(),
            after.all_live(),
            forall|i: usize| #[trigger]
                after.arena.get(i as int) == (if self.live(i) {
                    self.arena.get(i as int)
                } else {
                    None
                }),
    {
        assert forall|i: usize| #[trigger] after.filed.contains_key(i) implies after.tidy(i) by {
            assert(self.filed.contains_key(i));
            let c = self.filed[i];
            assert(self.in_bucket(c, i));
            assert(self.buckets.contains_key(c));
            if !cells.contains(c) {
                assert(self.cell_tidy(c));
                assert(self.tidy(i));
            }
        }
        assert forall|i: usize| after.arena.occupied(i as int) implies (#[trigger] after.entity(i)).is_alive() by {
            assert(after.filed.contains_key(i));
            assert(after.tidy(i));
        }
        assert forall|i: usize| #[trigger]
            after.arena.get(i as int) == (if self.live(i) {
                self.arena.get(i as int)
            } else {
                None
            }) by {
            assert(after.filed.contains_key(i) <==> after.arena.occupied(i as int));
            assert(self.filed.contains_key(i) <==> self.arena.occupied(i as int));
            if after.filed.contains_key(i) {
                assert(after.tidy(i));
            } else if self.filed.contains_key(i) {
                let c = self.filed[i];
                assert(cells.contains(c));
            }
        }
    }

    /// The buckets of different cells hold different slots, so their lengths
    /// add up to no more than there are slots.
    pub proof fn lemma_total_bounded(self, cells: Seq<Cell>, n: int)
        requires
            self.wf(),
            cells.no_duplicates(),
            0 <= n <= cells.len(),
            forall|c: Cell| cells.contains(c) ==> self.buckets.contains_key(c),
        ensures
            bucket_total(self.buckets, cells, n) <= self.arena.slots.len(),
    {
        let gathered = self.lemma_gather(cells, n);
    }

    /// The slots in the buckets of the first `n` of `cells`, each once.
    pub proof fn lemma_gather(self, cells: Seq<Cell>, n: int) -> (all: Seq<usize>)
        requires
            self.wf(),
            cells.no_duplicates(),
            0 <= n <= cells.len(),
            forall|c: Cell| cells.contains(c) ==> self.buckets.contains_key(c),
        ensures
            all.no_duplicates(),
            all.len() == bucket_total(self.buckets, cells, n),
            forall|i: usize| all.contains(i) <==> (exists|m: int| 0 <= m < n && #[trigger] self.in_bucket(cells[m], i)),
            all.len() <= self.arena.slots.len(),
        decreases n,
    {
        if n <= 0 {
            Seq::empty()
        } else {
            let before = self.lemma_gather(cells, n - 1);
            let cell = cells[n - 1];
            assert(cells.contains(cell));
            let bucket = self.buckets[cell];
            assert(self.bucket(cell) == bucket);
            let all = before + bucket;
            assert forall|i: usize| all.contains(i) <==> (exists|m: int|
                0 <= m < n && #[trigger] self.in_bucket(cells[m], i)) by {
                if all.contains(i) {
                    let k = choose|k: int| 0 <= k < all.len() && all[k] == i;
                    if k < before.len() {
                        assert(before[k] == i);
                        assert(before.contains(i));
                        let m = choose|m: int| 0 <= m < n - 1 && #[trigger] self.in_bucket(cells[m], i);
                        assert(self.in_bucket(cells[m], i));
                    } else {
                        assert(bucket[k - before.len()] == i);
                        assert(self.in_bucket(cells[n - 1], i));
                    }
                }
                if exists|m: int| 0 <= m < n && #[trigger] self.in_bucket(cells[m], i) {
                    let m = choose|m: int| 0 <= m < n && #[trigger] self.in_bucket(cells[m], i);
                    if m < n - 1 {
                        assert(before.contains(i));
                        let k = choose|k: int| 0 <= k < before.len() && before[k] == i;
                        assert(all[k] == i);
                    } else {
                        let k = choose|k: int| 0 <= k < bucket.len() && bucket[k] == i;
                        assert(all[before.len() + k] == i);
                    }
                }
            }
            assert forall|j: int, k: int| 0 <= j < all.len() && 0 <= k < all.len() && j != k implies all[j]
                != all[k] by {
                if j < before.len() && k < before.len() {
                } else if j >= before.len() && k >= before.len() {
                    assert(bucket[j - before.len()] != bucket[k - before.len()]);
                } else {
                    let (a, b) = if j < before.len() { (j, k) } else { (k, j) };
                    let i = all[a];
                    assert(before[a] == i);
                    assert(before.contains(i));
                    let m = choose|m: int| 0 <= m < n - 1 && #[trigger] self.in_bucket(cells[m], i);
                    let other = bucket[b - before.len()];
                    assert(bucket.contains(other));
                    if other == i {
                        assert(self.in_bucket(cell, i));
                        assert(self.filed[i] == cells[m] && self.filed[i] == cell);
                    }
                }
            }
            assert forall|k: int| 0 <= k < all.len() implies (#[trigger] all[k]) < self.arena.slots.len() by {
                assert(all.contains(all[k]));
                let m = choose|m: int| 0 <= m < n && #[trigger] self.in_bucket(cells[m], all[k]);
                assert(self.filed.contains_key(all[k]));
            }
            lemma_distinct_below(all, self.arena.slots.len());
            all
        }
    }

    /// Inserting keeps the grid well formed; a settled grid stays settled.
    pub proof fn lemma_insert(self, item: T)
        requires
            self.wf(),
            self.arena.frees.len() == 0 ==> self.arena.slots.len() < usize::MAX,
        ensures
            self.insert(item).wf(),
            self.settled() ==> self.insert(item).settled(),
            self.all_live() && item.is_alive() ==> self.insert(item).all_live(),
    {
        let after = self.insert(item);
        let index = self.arena.next_index() as usize;
        let cell = cell_of(self.scale, item.position());
        self.arena.lemma_insert(item);
        assert(!self.filed.contains_key(index));
        assert(!self.in_bucket(cell, index));
        lemma_push_contains(self.bucket(cell), index);
        assert forall|c: Cell| #[trigger] after.buckets.contains_key(c) implies after.buckets[c].no_duplicates() by {
            if c != cell {
                assert(self.buckets.contains_key(c));
            } else if self.buckets.contains_key(cell) {
            }
        }
        assert forall|i: usize| #[trigger] after.filed.contains_key(i) <==> after.arena.occupied(i as int) by {
            if i != index {
                assert(after.arena.get(i as int) == self.arena.get(i as int));
            }
        }
        assert forall|c: Cell, i: usize| #[trigger]
            after.in_bucket(c, i) <==> (after.filed.contains_key(i) && after.filed[i] == c) by {
            if c == cell {
                assert(after.bucket(c) == self.bucket(cell).push(index));
                assert(self.in_bucket(cell, i) <==> (self.filed.contains_key(i) && self.filed[i] == cell));
            } else {
                assert(after.bucket(c) == self.bucket(c));
                assert(self.in_bucket(c, i) <==> (self.filed.contains_key(i) && self.filed[i] == c));
            }
        }
        if self.settled() {
            assert forall|i: usize| #[trigger] after.filed.contains_key(i) implies after.filed[i] == after.home(i) by {
                if i != index {
                    assert(self.filed.contains_key(i));
                    assert(after.arena.get(i as int) == self.arena.get(i as int));
                }
            }
        }
        if self.all_live() && item.is_alive() {
            assert forall|i: usize| after.arena.occupied(i as int) implies (#[trigger] after.entity(i)).is_alive() by {
                if i != index {
                    assert(after.arena.get(i as int) == self.arena.get(i as int));
                    assert(self.entity(i).is_alive());
                }
            }
        }
    }

    /// Taking an entity out keeps the grid well formed; a settled grid stays
    /// settled.
    pub proof fn lemma_remove_at(self, cell: Cell, k: int)
        requires
            self.wf(),
            0 <= k < self.bucket(cell).len(),
        ensures
            self.remove_at(cell, k).wf(),
            self.arena.occupied(self.bucket(cell)[k] as int),
            self.settled() ==> self.remove_at(cell, k).settled(),
            self.all_live() ==> self.remove_at(cell, k).all_live(),
    {
        let after = self.remove_at(cell, k);
        let b = self.bucket(cell);
        let index = b[k];
        assert(b.contains(index));
        assert(self.in_bucket(cell, index));
        assert(self.buckets.contains_key(cell));
        self.arena.lemma_remove(index as int);
        lemma_swap_removed(b, k);
        assert forall|c: Cell| #[trigger] after.buckets.contains_key(c) implies after.buckets[c].no_duplicates() by {
            if c != cell {
                assert(self.buckets.contains_key(c));
            }
        }
        assert forall|i: usize| #[trigger] after.filed.contains_key(i) <==> after.arena.occupied(i as int) by {
            if i != index {
                assert(after.arena.get(i as int) == self.arena.get(i as int));
                assert(self.filed.contains_key(i) <==> self.arena.occupied(i as int));
            }
        }
        assert forall|c: Cell, i: usize| #[trigger]
            after.in_bucket(c, i) <==> (after.filed.contains_key(i) && after.filed[i] == c) by {
            if c == cell {
                assert(after.bucket(c) == swap_removed(b, k));
                assert(self.in_bucket(cell, i) <==> (self.filed.contains_key(i) && self.filed[i] == cell));
            } else {
                assert(after.bucket(c) == self.bucket(c));
                assert(self.in_bucket(c, i) <==> (self.filed.contains_key(i) && self.filed[i] == c));
                assert(self.in_bucket(cell, index));
            }
        }
        if self.settled() {
            assert forall|i: usize| #[trigger] after.filed.contains_key(i) implies after.filed[i] == after.home(i) by {
                assert(self.filed.contains_key(i));
                assert(after.arena.get(i as int) == self.arena.get(i as int));
            }
        }
        if self.all_live() {
            assert forall|i: usize| after.arena.occupied(i as int) implies (#[trigger] after.entity(i)).is_alive() by {
                assert(after.arena.get(i as int) == self.arena.get(i as int));
                assert(self.entity(i).is_alive());
            }
        }
    }
}

} // verus!
