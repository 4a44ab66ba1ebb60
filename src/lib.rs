//! A first-fit allocator over a fixed arena, with a free list kept in address order and
//! coalesced on every release, and the containers that draw on it.

use vstd::prelude::*;

pub mod allocator;
pub mod vector;
pub mod accounting;
pub mod coalesce;
pub mod hashmap;
pub mod linked_list;

verus! {

} // verus!
