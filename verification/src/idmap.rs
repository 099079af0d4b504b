//! The table between handles and the small integers that stand for them
//! outside the program, as the `bimap` crate provides it.
//!
//! Nothing in this file is proved. Each function makes one call into the
//! crate, and its contract says what the crate's source shows of that call,
//! over the pairs that a table holds.

use vstd::prelude::*;
use bimap::BiHashMap;
use std::collections::hash_map::RandomState;
use crate::graph::paired;
use crate::handle::Handle;

verus! {

/// `bimap::BiHashMap`, opaque to the verifier.
#[verifier::external_type_specification]
#[verifier::external_body]
#[verifier::reject_recursive_types(L)]
#[verifier::reject_recursive_types(R)]
#[verifier::reject_recursive_types(LS)]
#[verifier::reject_recursive_types(RS)]
pub struct ExBiHashMap<L, R, LS, RS>(BiHashMap<L, R, LS, RS>);

/// A table of handles, each by its slot and generation, and their ids.
pub type IdTable = BiHashMap<(usize, u64), i32, RandomState, RandomState>;

/// The pairs that a table holds: the id of each handle that has one.
pub uninterp spec fn id_pairs(table: IdTable) -> Map<Handle, i32>;

/// `BiHashMap::new`: a table without pairs.
#[verifier::external_body]
pub(crate) fn new_table() -> (table: IdTable)
    ensures
        id_pairs(table) == (Map::<Handle, i32>::empty()),
{
    BiHashMap::new()
}

/// `BiHashMap::clear`: the table loses every pair.
#[verifier::external_body]
pub(crate) fn clear(table: &mut IdTable)
    ensures
        id_pairs(*final(table)) == (Map::<Handle, i32>::empty()),
{
    table.clear()
}

/// `BiHashMap::insert`: pairs `handle` with `id`. A pair that held `handle`
/// or `id` before is taken out first, so no handle has two ids and no id two
/// handles.
#[verifier::external_body]
pub(crate) fn insert(table: &mut IdTable, handle: Handle, id: i32)
    ensures
        id_pairs(*final(table)) == paired(id_pairs(*old(table)), handle, id),
{
    table.insert((handle.slot, handle.generation), id);
}

/// `BiHashMap::get_by_left`: the id of `handle`, if it has one.
#[verifier::external_body]
pub(crate) fn get_by_left(table: &IdTable, handle: Handle) -> (id: Option<i32>)
    ensures
        id == id_pairs(*table).get(handle),
{
    table.get_by_left(&(handle.slot, handle.generation)).copied()
}

/// `BiHashMap::get_by_right`: a handle whose id is `id`, if there is one.
#[verifier::external_body]
pub(crate) fn get_by_right(table: &IdTable, id: i32) -> (handle: Option<Handle>)
    ensures
        (match handle {
            Some(h) => id_pairs(*table).contains_key(h) && id_pairs(*table)[h] == id,
            None => forall|h: Handle| id_pairs(*table).contains_key(h) ==> id_pairs(*table)[h] != id,
        }),
{
    table.get_by_right(&id).map(|l| Handle { slot: l.0, generation: l.1 })
}

} // verus!
