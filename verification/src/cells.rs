//! The grid's table from cell to bucket: a hash map keyed by cell
//! coordinates, hashed with FNV.
//!
//! Nothing in this file is proved. Each function makes one call into the map
//! and states what that call does to the map's contents.

use fnv::FnvHashMap;
use vstd::prelude::*;

verus! {

/// `fnv::FnvHasher`, the hasher of the map. Nothing is seen inside it.
#[verifier::external_type_specification]
#[verifier::external_body]
pub struct ExFnvHasher(fnv::FnvHasher);

/// `core::hash::BuildHasherDefault`, which makes the map's hashers. Nothing
/// is seen inside it.
#[verifier::external_type_specification]
#[verifier::external_body]
#[verifier::reject_recursive_types(H)]
pub struct ExBuildHasherDefault<H>(core::hash::BuildHasherDefault<H>);

/// A cell of the grid: the integer coordinates of a square of side `scale`.
pub type Cell = (i32, i32);

/// The table from each cell that has a bucket to the indices filed there.
pub type CellMap = FnvHashMap<(i32, i32), Vec<usize>>;

/// What a cell map holds: for each cell with a bucket, the bucket's indices in
/// their order.
pub uninterp spec fn buckets_of(map: FnvHashMap<(i32, i32), Vec<usize>>) -> Map<(i32, i32), Seq<usize>>;

/// The contents of a map without buckets.
pub open spec fn no_buckets() -> Map<(i32, i32), Seq<usize>> {
    Map::empty()
}

/// `FnvHashMap::default`: a map without buckets.
#[verifier::external_body]
pub(crate) fn new_map() -> (table: CellMap)
    ensures
        buckets_of(table) == no_buckets(),
{
    FnvHashMap::default()
}

/// `HashMap::get`: the bucket of `cell`, if the map has one.
#[verifier::external_body]
pub(crate) fn bucket_at(map: &CellMap, cell: Cell) -> (bucket: Option<&Vec<usize>>)
    ensures
        bucket is Some == buckets_of(*map).contains_key(cell),
        bucket matches Some(b) ==> b@ == buckets_of(*map)[cell],
{
    map.get(&cell)
}

/// `HashMap::remove`: takes the bucket of `cell` out of the map, if it has one.
#[verifier::external_body]
pub(crate) fn take_bucket(map: &mut CellMap, cell: Cell) -> (bucket: Option<Vec<usize>>)
    ensures
        bucket is Some == buckets_of(*old(map)).contains_key(cell),
        bucket matches Some(b) ==> b@ == buckets_of(*old(map))[cell],
        buckets_of(*final(map)) == buckets_of(*old(map)).remove(cell),
{
    map.remove(&cell)
}

/// `HashMap::insert`: makes `bucket` the bucket of `cell`, in place of any
/// earlier one.
#[verifier::external_body]
pub(crate) fn put_bucket(map: &mut CellMap, cell: Cell, bucket: Vec<usize>)
    ensures
        buckets_of(*final(map)) == buckets_of(*old(map)).insert(cell, bucket@),
{
    map.insert(cell, bucket);
}

/// `HashMap::keys`: the cells that have a bucket, each once, in the order in
/// which the map walks them.
#[verifier::external_body]
pub(crate) fn cells_of(map: &CellMap) -> (cells: Vec<Cell>)
    ensures
        cells@.no_duplicates(),
        forall|cell: Cell| cells@.contains(cell) <==> buckets_of(*map).contains_key(cell),
{
    map.keys().copied().collect()
}

/// `HashMap::len`: the number of buckets. Nothing is stated of it: callers
/// use it to choose between two ways to the same result.
#[verifier::external_body]
pub(crate) fn bucket_count(map: &CellMap) -> (count: usize) {
    map.len()
}

} // verus!
