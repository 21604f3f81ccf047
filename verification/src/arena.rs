//! Stable-index storage with free-slot reuse.
//!
//! A [`FreeList`] hands out an index for every value it takes in. The index
//! names the same slot until it is removed; removing a slot leaves every other
//! index untouched, and the freed slot is handed out again by a later insert.
//!
//! Contracts are stated over [`ArenaState`], the list as a mathematical value,
//! and its transitions `insert` and `remove`.

use vstd::prelude::*;

verus! {

/// A free-list arena as a mathematical value.
pub struct ArenaState<T> {
    /// The slots in index order; a free slot is `None`.
    pub slots: Seq<Option<T>>,
    /// The free indices in the order in which they wait for reuse: the last
    /// one is handed out first.
    pub frees: Seq<usize>,
}

impl<T> ArenaState<T> {
    /// The arena without slots.
    pub open spec fn empty() -> Self {
        ArenaState { slots: Seq::empty(), frees: Seq::empty() }
    }

    /// Whether `i` names an occupied slot.
    pub open spec fn occupied(self, i: int) -> bool {
        0 <= i < self.slots.len() && self.slots[i] is Some
    }

    /// What slot `i` holds; `None` for a free slot and for an index past the end.
    pub open spec fn get(self, i: int) -> Option<T> {
        if 0 <= i < self.slots.len() {
            self.slots[i]
        } else {
            None
        }
    }

    /// Whether the free list names slot `i`.
    pub open spec fn listed_free(self, i: int) -> bool {
        exists|k: int| 0 <= k < self.frees.len() && (#[trigger] self.frees[k]) as int == i
    }

    /// The index that the next insert returns.
    pub open spec fn next_index(self) -> int {
        if self.frees.len() > 0 {
            self.frees.last() as int
        } else {
            self.slots.len() as int
        }
    }

    /// The arena after `value` went into the slot `next_index()`.
    pub open spec fn insert(self, value: T) -> Self {
        if self.frees.len() > 0 {
            ArenaState {
                slots: self.slots.update(self.frees.last() as int, Some(value)),
                frees: self.frees.drop_last(),
            }
        } else {
            ArenaState { slots: self.slots.push(Some(value)), frees: self.frees }
        }
    }

    /// The arena after slot `i` was freed; unchanged if it was not occupied.
    pub open spec fn remove(self, i: int) -> Self {
        if self.occupied(i) {
            ArenaState { slots: self.slots.update(i, None), frees: self.frees.push(i as usize) }
        } else {
            self
        }
    }

    /// The arena with the value in the occupied slot `i` replaced by `value`.
    pub open spec fn replace(self, i: int, value: T) -> Self {
        ArenaState { slots: self.slots.update(i, Some(value)), frees: self.frees }
    }

    /// The number of occupied slots.
    pub open spec fn count(self) -> nat {
        live_count(self.slots)
    }

    /// The free list names every free slot exactly once, and nothing else.
    pub open spec fn wf(self) -> bool {
        &&& self.slots.len() <= usize::MAX
        &&& self.frees.no_duplicates()
        &&& forall|k: int| 0 <= k < self.frees.len() ==> {
            &&& (#[trigger] self.frees[k]) < self.slots.len()
            &&& self.slots[self.frees[k] as int] is None
        }
        &&& forall|i: int| 0 <= i < self.slots.len() && (#[trigger] self.slots[i]) is None
            ==> self.listed_free(i)
        &&& live_count(self.slots) + self.frees.len() == self.slots.len()
    }

    /// Whether the free list is in strictly decreasing order, so that inserts
    /// reuse the lowest free slot first.
    pub open spec fn frees_descending(self) -> bool {
        forall|j: int, k: int| 0 <= j < k < self.frees.len() ==> self.frees[j] > self.frees[k]
    }

    /// Inserting keeps the arena well formed, fills a slot that was not
    /// occupied, and leaves every other slot as it was.
    pub proof fn lemma_insert(self, value: T)
        requires
            self.wf(),
            self.frees.len() == 0 ==> self.slots.len() < usize::MAX,
        ensures
            self.insert(value).wf(),
            !self.occupied(self.next_index()),
            self.insert(value).get(self.next_index()) == Some(value),
            forall|i: int| i != self.next_index() ==> self.insert(value).get(i) == self.get(i),
            self.insert(value).count() == self.count() + 1,
    {
        let after = self.insert(value);
        if self.frees.len() > 0 {
            let index = self.frees.last() as int;
            assert(self.frees[self.frees.len() - 1] == index);
            lemma_live_count_update(self.slots, index, Some(value));
            assert forall|i: int|
                0 <= i < after.slots.len() && (#[trigger] after.slots[i]) is None implies after.listed_free(
                i,
            ) by {
                assert(self.slots[i] is None);
                assert(self.listed_free(i));
                let k = choose|k: int| 0 <= k < self.frees.len() && (#[trigger] self.frees[k]) as int == i;
                assert(after.frees[k] as int == i);
            }
        } else {
            lemma_live_count_push(self.slots, Some(value));
            assert forall|i: int|
                0 <= i < after.slots.len() && (#[trigger] after.slots[i]) is None implies after.listed_free(
                i,
            ) by {
                assert(self.slots[i] is None);
            }
        }
    }

    /// Removing keeps the arena well formed, frees the slot, and leaves every
    /// other slot as it was.
    pub proof fn lemma_remove(self, index: int)
        requires
            self.wf(),
        ensures
            self.remove(index).wf(),
            !self.remove(index).occupied(index),
            self.remove(index).get(index) is None,
            forall|i: int| i != index ==> self.remove(index).get(i) == self.get(i),
            self.occupied(index) ==> self.remove(index).count() + 1 == self.count(),
    {
        let after = self.remove(index);
        if self.occupied(index) {
            lemma_live_count_update(self.slots, index, None);
            assert forall|i: int|
                0 <= i < after.slots.len() && (#[trigger] after.slots[i]) is None implies after.listed_free(
                i,
            ) by {
                if i == index {
                    assert(after.frees[after.frees.len() - 1] as int == i);
                } else {
                    assert(self.slots[i] is None);
                    assert(self.listed_free(i));
                    let k = choose|k: int|
                        0 <= k < self.frees.len() && (#[trigger] self.frees[k]) as int == i;
                    assert(after.frees[k] as int == i);
                }
            }
        }
    }

    /// Replacing the value of an occupied slot keeps the arena well formed.
    pub proof fn lemma_replace(self, index: int, value: T)
        requires
            self.wf(),
            self.occupied(index),
        ensures
            self.replace(index, value).wf(),
            self.replace(index, value).count() == self.count(),
    {
        let after = self.replace(index, value);
        lemma_live_count_update(self.slots, index, Some(value));
        assert forall|i: int|
            0 <= i < after.slots.len() && (#[trigger] after.slots[i]) is None implies after.listed_free(
            i,
        ) by {
            assert(self.slots[i] is None);
            assert(self.listed_free(i));
            let k = choose|k: int| 0 <= k < self.frees.len() && (#[trigger] self.frees[k]) as int == i;
            assert(after.frees[k] as int == i);
        }
    }

    /// With the free list in decreasing order, the next insert reuses the
    /// lowest free slot.
    pub proof fn lemma_descending_reuses_lowest(self)
        requires
            self.wf(),
            self.frees_descending(),
        ensures
            forall|i: int| 0 <= i < self.slots.len() && self.slots[i] is None
                ==> self.next_index() <= i,
            self.frees.len() == 0 ==> forall|i: int| 0 <= i < self.slots.len() ==> self.occupied(i),
    {
        assert forall|i: int| 0 <= i < self.slots.len() && self.slots[i] is None implies self.next_index()
            <= i by {
            assert(self.listed_free(i));
            let k = choose|k: int| 0 <= k < self.frees.len() && (#[trigger] self.frees[k]) as int == i;
            if k < self.frees.len() - 1 {
                assert(self.frees[k] > self.frees[self.frees.len() - 1]);
            }
        }
        if self.frees.len() == 0 {
            assert forall|i: int| 0 <= i < self.slots.len() implies self.occupied(i) by {
                if self.slots[i] is None {
                    assert(self.listed_free(i));
                }
            }
        }
    }
}

/// One step in the life of an arena.
pub enum ArenaOp<T> {
    /// Store a value in the slot that the arena picks.
    Insert(T),
    /// Free the slot with this index.
    Remove(usize),
}

/// The arena that a run of operations leaves, starting from the empty one.
pub open spec fn arena_after<T>(ops: Seq<ArenaOp<T>>) -> ArenaState<T>
    decreases ops.len(),
{
    if ops.len() == 0 {
        ArenaState::empty()
    } else {
        match ops.last() {
            ArenaOp::Insert(value) => arena_after(ops.drop_last()).insert(value),
            ArenaOp::Remove(index) => arena_after(ops.drop_last()).remove(index as int),
        }
    }
}

/// What a run of operations has stored and not removed since: for each index
/// that an insert returned, the value of the latest such insert, unless a later
/// remove named the index.
pub open spec fn stored_by<T>(ops: Seq<ArenaOp<T>>) -> Map<int, T>
    decreases ops.len(),
{
    if ops.len() == 0 {
        Map::empty()
    } else {
        match ops.last() {
            ArenaOp::Insert(value) => stored_by(ops.drop_last()).insert(
                arena_after(ops.drop_last()).next_index(),
                value,
            ),
            ArenaOp::Remove(index) => stored_by(ops.drop_last()).remove(index as int),
        }
    }
}

/// Round trip: after any run of inserts and removes, every index that was
/// handed out and not removed since holds exactly the value it was inserted
/// with, and every other index holds nothing.
pub proof fn lemma_round_trip<T>(ops: Seq<ArenaOp<T>>)
    requires
        ops.len() <= usize::MAX,
    ensures
        arena_after(ops).wf(),
        arena_after(ops).slots.len() <= ops.len(),
        forall|i: int| #[trigger]
            stored_by(ops).contains_key(i) ==> arena_after(ops).get(i) == Some(stored_by(ops)[i]),
        forall|i: int| !(#[trigger] stored_by(ops).contains_key(i)) ==> arena_after(ops).get(i) is None,
    decreases ops.len(),
{
    if ops.len() > 0 {
        let before = arena_after(ops.drop_last());
        lemma_round_trip(ops.drop_last());
        let stored = stored_by(ops.drop_last());
        let after = arena_after(ops);
        match ops.last() {
            ArenaOp::Insert(value) => {
                before.lemma_insert(value);
                let at = before.next_index();
                assert(stored_by(ops) == stored.insert(at, value));
                assert forall|i: int| #[trigger] stored_by(ops).contains_key(i) implies after.get(i)
                    == Some(stored_by(ops)[i]) by {
                    if i != at {
                        assert(stored.contains_key(i));
                        assert(after.get(i) == before.get(i));
                    }
                }
                assert forall|i: int| !(#[trigger] stored_by(ops).contains_key(i)) implies after.get(
                    i,
                ) is None by {
                    assert(!stored.contains_key(i));
                    assert(after.get(i) == before.get(i));
                }
            },
            ArenaOp::Remove(index) => {
                before.lemma_remove(index as int);
                assert(stored_by(ops) == stored.remove(index as int));
                assert forall|i: int| #[trigger] stored_by(ops).contains_key(i) implies after.get(i)
                    == Some(stored_by(ops)[i]) by {
                    assert(stored.contains_key(i));
                    assert(after.get(i) == before.get(i));
                }
                assert forall|i: int| !(#[trigger] stored_by(ops).contains_key(i)) implies after.get(
                    i,
                ) is None by {
                    if i != index as int {
                        assert(!stored.contains_key(i));
                        assert(after.get(i) == before.get(i));
                    }
                }
            },
        }
    }
}

/// The number of occupied slots in `slots`.
pub open spec fn live_count<T>(slots: Seq<Option<T>>) -> nat
    decreases slots.len(),
{
    if slots.len() == 0 {
        0
    } else {
        live_count(slots.drop_last()) + if slots.last() is Some {
            1nat
        } else {
            0nat
        }
    }
}

/// The occupied indices of `slots` below `n`, in increasing order.
pub open spec fn live_indices<T>(slots: Seq<Option<T>>, n: int) -> Seq<usize>
    decreases n,
{
    if n <= 0 {
        Seq::empty()
    } else if n <= slots.len() && slots[n - 1] is Some {
        live_indices(slots, n - 1).push((n - 1) as usize)
    } else {
        live_indices(slots, n - 1)
    }
}

/// Writing `value` over slot `i` changes the count by what the slot gains or loses.
pub proof fn lemma_live_count_update<T>(slots: Seq<Option<T>>, i: int, value: Option<T>)
    requires
        0 <= i < slots.len(),
    ensures
        live_count(slots.update(i, value)) + (if slots[i] is Some { 1nat } else { 0nat })
            == live_count(slots) + (if value is Some { 1nat } else { 0nat }),
    decreases slots.len(),
{
    let after = slots.update(i, value);
    if i == slots.len() - 1 {
        assert(after.drop_last() =~= slots.drop_last());
    } else {
        assert(after.drop_last() =~= slots.drop_last().update(i, value));
        lemma_live_count_update(slots.drop_last(), i, value);
    }
}

/// Appending a slot adds one to the count exactly when the slot is occupied.
pub proof fn lemma_live_count_push<T>(slots: Seq<Option<T>>, value: Option<T>)
    ensures
        live_count(slots.push(value)) == live_count(slots) + (if value is Some { 1nat } else { 0nat }),
{
    assert(slots.push(value).drop_last() =~= slots);
}

/// `live_indices` lists exactly the occupied indices below `n`, each once, in
/// increasing order.
pub proof fn lemma_live_indices<T>(slots: Seq<Option<T>>, n: int)
    requires
        0 <= n <= slots.len(),
        slots.len() <= usize::MAX,
    ensures
        forall|k: int| 0 <= k < live_indices(slots, n).len() ==> {
            &&& 0 <= (#[trigger] live_indices(slots, n)[k]) < n
            &&& slots[live_indices(slots, n)[k] as int] is Some
        },
        forall|j: int, k: int| 0 <= j < k < live_indices(slots, n).len()
            ==> live_indices(slots, n)[j] < live_indices(slots, n)[k],
        forall|i: int| 0 <= i < n && slots[i] is Some
            ==> live_indices(slots, n).contains(i as usize),
        live_indices(slots, n).len() == live_count(slots.take(n)),
    decreases n,
{
    if n > 0 {
        lemma_live_indices(slots, n - 1);
        let prev = live_indices(slots, n - 1);
        let cur = live_indices(slots, n);
        assert(slots.take(n).drop_last() =~= slots.take(n - 1));
        assert forall|i: int| 0 <= i < n && slots[i] is Some implies cur.contains(i as usize) by {
            if i == n - 1 {
                assert(cur[cur.len() - 1] == i as usize);
            } else {
                let k = choose|k: int| 0 <= k < prev.len() && prev[k] == i as usize;
                assert(cur[k] == i as usize);
            }
        }
    } else {
        assert(slots.take(0) =~= Seq::<Option<T>>::empty());
    }
}

/// Calls `slice::sort_unstable` on the vector's contents. Not proved: the
/// vector then holds the same values, each as often as before, in ascending
/// order.
#[verifier::external_body]
fn sort_ascending(v: &mut Vec<usize>)
    ensures
        final(v)@.to_multiset() == old(v)@.to_multiset(),
        forall|i: int, j: int| 0 <= i < j < final(v)@.len() ==> final(v)@[i] <= final(v)@[j],
{
    v.sort_unstable();
}

/// Reverses the vector.
pub(crate) fn reverse<T>(items: &mut Vec<T>)
    ensures
        final(items)@.len() == old(items)@.len(),
        forall|k: int| 0 <= k < old(items)@.len() ==> final(items)@[k] == old(items)@[old(items)@.len() - 1 - k],
{
    let mut out: Vec<T> = Vec::new();
    let ghost all = items@;
    while items.len() > 0
        invariant
            out@.len() + items@.len() == all.len(),
            forall|k: int| 0 <= k < items@.len() ==> items@[k] == all[k],
            forall|k: int| 0 <= k < out@.len() ==> out@[k] == all[all.len() - 1 - k],
        decreases items@.len(),
    {
        let item = items.pop().unwrap();
        out.push(item);
    }
    *items = out;
}

/// Free-list backed storage: a sequence of slots, each occupied or free.
pub struct FreeList<T> {
    slots: Vec<Option<T>>,
    frees: Vec<usize>,
}

impl<T> View for FreeList<T> {
    type V = ArenaState<T>;

    closed spec fn view(&self) -> ArenaState<T> {
        ArenaState { slots: self.slots@, frees: self.frees@ }
    }
}

impl<T> FreeList<T> {
    /// The free list names every free slot exactly once, and nothing else.
    pub open spec fn wf(&self) -> bool {
        self@.wf()
    }

    /// An empty list.
    pub fn new() -> (list: Self)
        ensures
            list.wf(),
            list@ == ArenaState::<T>::empty(),
    {
        let list = FreeList { slots: Vec::new(), frees: Vec::new() };
        assert(list@.slots =~= Seq::<Option<T>>::empty());
        assert(list@.frees =~= Seq::<usize>::empty());
        list
    }

    /// The number of slots, occupied or free.
    pub fn capacity(&self) -> (n: usize)
        ensures
            n == self@.slots.len(),
    {
        self.slots.len()
    }

    /// The number of occupied slots.
    pub fn count(&self) -> (n: usize)
        requires
            self.wf(),
        ensures
            n == self@.count(),
    {
        self.slots.len() - self.frees.len()
    }

    /// Stores `value` and returns its index: the slot that waited last in the
    /// free list if there is one, else a new slot at the end.
    pub fn insert(&mut self, value: T) -> (index: usize)
        requires
            old(self).wf(),
        ensures
            final(self).wf(),
            index == old(self)@.next_index(),
            final(self)@ == old(self)@.insert(value),
    {
        match self.frees.pop() {
            Some(index) => {
                assert(old(self)@.frees[old(self)@.frees.len() - 1] == index);
                self.slots[index] = Some(value);
                proof {
                    old(self)@.lemma_insert(value);
                    assert(self@.slots =~= old(self)@.insert(value).slots);
                    assert(self@.frees =~= old(self)@.insert(value).frees);
                }
                index
            },
            None => {
                let index = self.slots.len();
                self.slots.push(Some(value));
                proof {
                    assert(self.slots.len() == self.slots@.len());
                    old(self)@.lemma_insert(value);
                    assert(self@.slots =~= old(self)@.insert(value).slots);
                    assert(self@.frees =~= old(self)@.insert(value).frees);
                }
                index
            },
        }
    }

    /// Frees the slot at `index` and returns what it held; `None`, and no
    /// change, if the slot was free already or never existed.
    pub fn remove(&mut self, index: usize) -> (value: Option<T>)
        requires
            old(self).wf(),
        ensures
            final(self).wf(),
            value == old(self)@.get(index as int),
            final(self)@ == old(self)@.remove(index as int),
    {
        if index >= self.slots.len() {
            return None;
        }
        let value = self.slots[index].take();
        if value.is_some() {
            self.frees.push(index);
            proof {
                old(self)@.lemma_remove(index as int);
                assert(self@.slots =~= old(self)@.remove(index as int).slots);
                assert(self@.frees =~= old(self)@.remove(index as int).frees);
            }
        } else {
            assert(self@.slots =~= old(self)@.slots);
        }
        value
    }

    /// Puts the free list in decreasing order, so that the following inserts
    /// reuse the lowest free slots first. No slot changes.
    pub fn sort_frees(&mut self)
        requires
            old(self).wf(),
        ensures
            final(self).wf(),
            final(self)@.slots == old(self)@.slots,
            final(self)@.frees_descending(),
            final(self)@.frees.len() == old(self)@.frees.len(),
            forall|x: usize| final(self)@.frees.contains(x) <==> old(self)@.frees.contains(x),
    {
        sort_ascending(&mut self.frees);
        let ghost ascending = self.frees@;
        proof {
            let before = old(self)@.frees;
            before.to_multiset_ensures();
            ascending.to_multiset_ensures();
            before.lemma_multiset_has_no_duplicates();
            ascending.lemma_multiset_has_no_duplicates_conv();
        }
        reverse(&mut self.frees);
        proof {
            let before = old(self)@;
            let after = self@;
            let n = ascending.len() as int;
            assert(n == before.frees.len()) by {
                before.frees.to_multiset_ensures();
                ascending.to_multiset_ensures();
            }
            assert forall|x: usize| after.frees.contains(x) <==> before.frees.contains(x) by {
                before.frees.to_multiset_ensures();
                ascending.to_multiset_ensures();
                assert(before.frees.contains(x) <==> before.frees.to_multiset().count(x) > 0);
                assert(ascending.contains(x) <==> ascending.to_multiset().count(x) > 0);
                if after.frees.contains(x) {
                    let k = choose|k: int| 0 <= k < n && after.frees[k] == x;
                    assert(ascending[n - 1 - k] == x);
                }
                if ascending.contains(x) {
                    let k = choose|k: int| 0 <= k < n && ascending[k] == x;
                    assert(after.frees[n - 1 - k] == x);
                }
            }
            assert forall|k: int| 0 <= k < after.frees.len() implies (#[trigger] after.frees[k])
                < after.slots.len() && after.slots[after.frees[k] as int] is None by {
                assert(after.frees.contains(after.frees[k]));
                let j = choose|j: int| 0 <= j < n && before.frees[j] == after.frees[k];
                assert(before.frees[j] < before.slots.len());
            }
            assert forall|i: int|
                0 <= i < after.slots.len() && (#[trigger] after.slots[i]) is None implies after.listed_free(
                i,
            ) by {
                assert(before.listed_free(i));
                let j = choose|j: int| 0 <= j < n && (#[trigger] before.frees[j]) as int == i;
                assert(before.frees.contains(before.frees[j]));
                let k = choose|k: int| 0 <= k < n && after.frees[k] == before.frees[j];
                assert(after.frees[k] as int == i);
            }
        }
    }

    /// The value at `index`, or `None` if the slot is free or does not exist.
    pub fn get(&self, index: usize) -> (value: Option<&T>)
        ensures
            value is Some == self@.occupied(index as int),
            value matches Some(v) ==> self@.get(index as int) == Some(*v),
    {
        if index < self.slots.len() {
            self.slots[index].as_ref()
        } else {
            None
        }
    }

    /// The value at an occupied `index`.
    pub fn at(&self, index: usize) -> (value: &T)
        requires
            self@.occupied(index as int),
        ensures
            self@.get(index as int) == Some(*value),
    {
        self.slots[index].as_ref().unwrap()
    }

    /// Mutable access to the value at `index`, or `None` if the slot is free or
    /// does not exist. Whatever is written through the reference, the slot
    /// stays occupied and every other slot stays as it was.
    pub fn get_mut(&mut self, index: usize) -> (value: Option<&mut T>)
        requires
            old(self).wf(),
        ensures
            value is Some == old(self)@.occupied(index as int),
            match value {
                Some(v) => old(self)@.get(index as int) == Some(*v) && final(self)@ == old(self)@.replace(
                    index as int,
                    *final(v),
                ),
                None => final(self)@ == old(self)@,
            },
            final(self).wf(),
    {
        if index < self.slots.len() {
            proof {
                let before = self@;
                assert forall|x: T| before.occupied(index as int) implies #[trigger] before.replace(
                    index as int,
                    x,
                ).wf() by {
                    before.lemma_replace(index as int, x);
                }
                assert(!before.occupied(index as int) ==> before.slots.update(index as int, None)
                    =~= before.slots);
            }
            self.slots[index].as_mut()
        } else {
            None
        }
    }

    /// Whether `index` names an occupied slot.
    pub fn contains(&self, index: usize) -> (found: bool)
        ensures
            found == self@.occupied(index as int),
    {
        index < self.slots.len() && self.slots[index].is_some()
    }

    /// The occupied indices in increasing order.
    pub fn indices(&self) -> (out: Vec<usize>)
        ensures
            out@ == live_indices(self@.slots, self@.slots.len() as int),
    {
        let mut out: Vec<usize> = Vec::new();
        let mut i: usize = 0;
        while i < self.slots.len()
            invariant
                0 <= i <= self.slots.len(),
                out@ == live_indices(self@.slots, i as int),
            decreases self.slots.len() - i,
        {
            if self.slots[i].is_some() {
                out.push(i);
            }
            i += 1;
        }
        out
    }

    /// The stored values in slot order.
    pub fn iter(&self) -> (out: Vec<&T>)
        ensures
            out@.len() == live_indices(self@.slots, self@.slots.len() as int).len(),
            forall|k: int| 0 <= k < out@.len() ==> self@.get(
                live_indices(self@.slots, self@.slots.len() as int)[k] as int,
            ) == Some(*(#[trigger] out@[k])),
    {
        let mut out: Vec<&T> = Vec::new();
        let mut i: usize = 0;
        while i < self.slots.len()
            invariant
                0 <= i <= self.slots.len(),
                out@.len() == live_indices(self@.slots, i as int).len(),
                forall|k: int| 0 <= k < out@.len() ==> self@.get(
                    live_indices(self@.slots, i as int)[k] as int,
                ) == Some(*(#[trigger] out@[k])),
            decreases self.slots.len() - i,
        {
            proof {
                lemma_live_indices(self@.slots, i as int);
            }
            match self.slots[i].as_ref() {
                Some(value) => {
                    out.push(value);
                },
                None => {},
            }
            i += 1;
        }
        out
    }
}

} // verus!
