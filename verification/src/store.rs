//! The inline vectors behind the arena.
//!
//! Each store is a `smallvec::SmallVec` with a fixed inline size. The functions
//! here are the only code that touches one; their contracts are taken on trust
//! from `smallvec` and say what each call does to the sequence of items held.
//! Every call that adds an item asks for room within the inline size, so a
//! store never grows onto the heap.

use crate::handle::{avoiding, avoids, Edge, NodeHandle};
use smallvec::SmallVec;
use vstd::prelude::*;

verus! {

/// The free list: handles of removed nodes, oldest first.
#[verifier::external_body]
pub struct FreeList {
    inner: SmallVec<[(usize, usize); 128]>,
}

/// The generation of each slot, by slot index.
#[verifier::external_body]
pub struct GenerationTable {
    inner: SmallVec<[usize; 128]>,
}

/// The edges, in the order they were added.
#[verifier::external_body]
pub struct EdgeList {
    inner: SmallVec<[((usize, usize), (usize, usize)); 256]>,
}

/// The handles a free list holds, front first.
pub uninterp spec fn free_items(v: FreeList) -> Seq<(usize, usize)>;

/// The generations a table holds, by slot index.
pub uninterp spec fn generation_items(v: GenerationTable) -> Seq<usize>;

/// The edges a list holds, oldest first.
pub uninterp spec fn edge_items(v: EdgeList) -> Seq<((usize, usize), (usize, usize))>;

/// `SmallVec::new`: the new vector holds nothing.
#[verifier::external_body]
pub(crate) fn free_new() -> (v: FreeList)
    ensures
        free_items(v) == Seq::<(usize, usize)>::empty(),
{
    FreeList { inner: SmallVec::new() }
}

/// `SmallVec::len`: the number of items held.
#[verifier::external_body]
pub(crate) fn free_len(v: &FreeList) -> (n: usize)
    ensures
        n == free_items(*v).len(),
{
    v.inner.len()
}

/// `SmallVec::push`: the item joins at the back. With fewer items than the
/// inline size the call neither allocates nor panics.
#[verifier::external_body]
pub(crate) fn free_push(v: &mut FreeList, h: NodeHandle)
    requires
        free_items(*old(v)).len() < 128,
    ensures
        free_items(*final(v)) == free_items(*old(v)).push(h),
{
    v.inner.push(h)
}

/// `SmallVec::remove`: the item at `index` leaves and is returned; the items
/// behind it move up one place. It panics on an index past the end.
#[verifier::external_body]
pub(crate) fn free_remove(v: &mut FreeList, index: usize) -> (h: NodeHandle)
    requires
        index < free_items(*old(v)).len(),
    ensures
        h == free_items(*old(v))[index as int],
        free_items(*final(v)) == free_items(*old(v)).remove(index as int),
{
    v.inner.remove(index)
}

/// `SmallVec::new`: the new vector holds nothing.
#[verifier::external_body]
pub(crate) fn generations_new() -> (v: GenerationTable)
    ensures
        generation_items(v) == Seq::<usize>::empty(),
{
    GenerationTable { inner: SmallVec::new() }
}

/// `SmallVec::push`: the item joins at the back. With fewer items than the
/// inline size the call neither allocates nor panics.
#[verifier::external_body]
pub(crate) fn generations_push(v: &mut GenerationTable, g: usize)
    requires
        generation_items(*old(v)).len() < 128,
    ensures
        generation_items(*final(v)) == generation_items(*old(v)).push(g),
{
    v.inner.push(g)
}

/// Indexing a `SmallVec`: the item at `index`. It panics on an index past the
/// end.
#[verifier::external_body]
pub(crate) fn generations_at(v: &GenerationTable, index: usize) -> (g: usize)
    requires
        index < generation_items(*v).len(),
    ensures
        g == generation_items(*v)[index as int],
{
    v.inner[index]
}

/// Assigning through an index of a `SmallVec`: the item at `index` is replaced
/// and nothing else changes. It panics on an index past the end.
#[verifier::external_body]
pub(crate) fn generations_set(v: &mut GenerationTable, index: usize, g: usize)
    requires
        index < generation_items(*old(v)).len(),
    ensures
        generation_items(*final(v)) == generation_items(*old(v)).update(index as int, g),
{
    v.inner[index] = g;
}

/// `SmallVec::new`: the new vector holds nothing.
#[verifier::external_body]
pub(crate) fn edges_new() -> (v: EdgeList)
    ensures
        edge_items(v) == Seq::<Edge>::empty(),
{
    EdgeList { inner: SmallVec::new() }
}

/// `SmallVec::len`: the number of items held.
#[verifier::external_body]
pub(crate) fn edges_len(v: &EdgeList) -> (n: usize)
    ensures
        n == edge_items(*v).len(),
{
    v.inner.len()
}

/// `SmallVec::push`: the item joins at the back. With fewer items than the
/// inline size the call neither allocates nor panics.
#[verifier::external_body]
pub(crate) fn edges_push(v: &mut EdgeList, e: Edge)
    requires
        edge_items(*old(v)).len() < 256,
    ensures
        edge_items(*final(v)) == edge_items(*old(v)).push(e),
{
    v.inner.push(e)
}

/// Indexing a `SmallVec`: the item at `index`. It panics on an index past the
/// end.
#[verifier::external_body]
pub(crate) fn edges_at(v: &EdgeList, index: usize) -> (e: Edge)
    requires
        index < edge_items(*v).len(),
    ensures
        e == edge_items(*v)[index as int],
{
    v.inner[index]
}

/// `SmallVec::retain`: the items for which the closure answers `true` stay, in
/// their order; the others leave. The closure asks `avoids` about each edge.
#[verifier::external_body]
pub(crate) fn edges_retain_avoiding(v: &mut EdgeList, slot: usize)
    ensures
        edge_items(*final(v)) == edge_items(*old(v)).filter(avoiding(slot)),
{
    v.inner.retain(|e| avoids(e, slot))
}

} // verus!
