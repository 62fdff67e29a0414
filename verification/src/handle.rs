//! Handles, edges, error kinds and the fixed capacities.

use vstd::prelude::*;

verus! {

/// A slot index paired with the generation the slot had when the handle was
/// issued: `(slot_index, generation)`.
pub type NodeHandle = (usize, usize);

/// A directed edge `(from, to)`.
pub type Edge = (NodeHandle, NodeHandle);

/// The number of slots the arena can hold.
pub const NODE_CAPACITY: usize = 128;

/// The number of edges the arena can hold.
pub const EDGE_CAPACITY: usize = 256;

/// Why an arena operation was turned down.
#[derive(Clone, Copy, Debug, PartialEq, Eq)]
pub enum GraphError {
    /// The handle names no node: its slot does not exist, has moved on to
    /// another generation, or is empty.
    GenerationMismatch,
    /// A slot that counts as occupied holds no payload. No operation of a
    /// well-formed arena gives this; the kind stands for a broken arena.
    Unexpected,
    /// Every slot is occupied and the slot table is at `NODE_CAPACITY`.
    CapacityExceeded,
}

/// The generation that follows `g`; the counter wraps.
pub open spec fn next_generation(g: usize) -> usize {
    if g == usize::MAX {
        0
    } else {
        (g + 1) as usize
    }
}

/// The generation that follows `g`; the counter wraps.
pub fn bump(g: usize) -> (r: usize)
    ensures
        r == next_generation(g),
{
    g.wrapping_add(1)
}

/// Whether neither endpoint of `e` sits in `slot`.
pub open spec fn avoids_slot(e: Edge, slot: usize) -> bool {
    e.0.0 != slot && e.1.0 != slot
}

/// The edges with no endpoint in `slot`, as a predicate.
pub open spec fn avoiding(slot: usize) -> spec_fn(Edge) -> bool {
    |e: Edge| avoids_slot(e, slot)
}

/// Whether neither endpoint of `e` sits in `slot`.
pub fn avoids(e: &Edge, slot: usize) -> (r: bool)
    ensures
        r == avoids_slot(*e, slot),
{
    e.0.0 != slot && e.1.0 != slot
}

/// Whether `e` runs between the two slots, in either direction.
pub open spec fn joins(e: Edge, a: usize, b: usize) -> bool {
    (e.0.0 == a && e.1.0 == b) || (e.1.0 == a && e.0.0 == b)
}

/// Whether `e` runs from slot `from` to slot `to`.
pub open spec fn runs(e: Edge, from: usize, to: usize) -> bool {
    e.0.0 == from && e.1.0 == to
}

} // verus!
