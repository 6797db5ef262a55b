//! Append-only operations on pools.
//!
//! A pool is a growable array whose items are never moved or removed, so the
//! index of an item, and the range of a run of items, stay valid for good.

use std::ops::Range;
use vstd::prelude::*;

verus! {

/// The half-open range `[start, end)` lies inside a pool of `len` items.
pub open spec fn range_within(r: Range<usize>, len: nat) -> bool {
    r.start <= r.end && r.end <= len
}

/// Whether a range lies inside a pool of `len` items.
pub fn range_ok(r: &Range<usize>, len: usize) -> (ok: bool)
    ensures
        ok == range_within(*r, len as nat),
{
    r.start <= r.end && r.end <= len
}

/// Add an item to a pool and get its index, which is its id.
pub fn pool_push<T>(vec: &mut Vec<T>, item: T) -> (id: usize)
    ensures
        final(vec)@ == old(vec)@.push(item),
        id == old(vec)@.len(),
{
    let len = vec.len();
    vec.push(item);
    len
}

/// Add a whole vector of items to a pool and get the range of their ids.
pub fn pool_append<T>(vec: &mut Vec<T>, items: Vec<T>) -> (range: Range<usize>)
    ensures
        final(vec)@ == old(vec)@ + items@,
        range.start == old(vec)@.len(),
        range.end == old(vec)@.len() + items@.len(),
{
    let count = items.len();
    pool_extend(vec, items, count)
}

/// Like `pool_append`, for a caller that states how many items it hands
/// over. The count must be the true one: the range returned is computed
/// from it.
pub fn pool_extend<T>(vec: &mut Vec<T>, items: Vec<T>, count: usize) -> (range: Range<usize>)
    requires
        count == items@.len(),
    ensures
        final(vec)@ == old(vec)@ + items@,
        range.start == old(vec)@.len(),
        range.end == old(vec)@.len() + count,
{
    let mut items = items;
    let old_len = vec.len();
    vec.append(&mut items);
    let new_len = vec.len();
    old_len..new_len
}

} // verus!
