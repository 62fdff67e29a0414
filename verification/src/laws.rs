//! What holds of every arena and every tree, whatever was done to it.
//!
//! Each operation of `Graph` and `Tree` states the view it leaves as a
//! function of the view it found. The laws here are stated over those views,
//! so they hold of every state that a run of operations can reach.

use crate::forest::{
    descendants, freed_by, lemma_rooted_edges, lemma_subtree_closed, lemma_subtree_members,
    lemma_subtree_origin, rooted, subtree,
};
use crate::handle::{avoids_slot, next_generation, Edge, GraphError, NodeHandle};
use crate::model::{lemma_filter_holds, lemma_free_count, GraphView};
use crate::shape::{cut_off, sound_tree};
use vstd::prelude::*;

verus! {

/// The handle that an insertion returns is new: it was neither live nor stale
/// before, its slot was empty, and after it names the new payload. Every
/// handle that was live sits in another slot and still names the payload it
/// named.
pub proof fn law_inserted_handle_is_new<T>(s: GraphView<T>, value: T)
    requires
        s.inv(),
        s.has_room(),
    ensures
        !s.is_live(s.next_handle()),
        !s.is_stale(s.next_handle()),
        s.inserted(value).lookup(s.next_handle()) == Ok::<T, GraphError>(value),
        forall|h: NodeHandle| #[trigger]
            s.is_live(h) ==> h.0 != s.next_handle().0 && s.inserted(value).is_live(h)
                && s.inserted(value).lookup(h) == s.lookup(h),
        forall|i: usize|
            i != s.next_handle().0 ==> (#[trigger] s.inserted(value).occupied(i) <==> s.occupied(
                i,
            )),
        !s.occupied(s.next_handle().0),
        s.inserted(value).is_live(s.next_handle()),
        s.inserted(value).live_slots() == s.live_slots().insert(s.next_handle().0),
{
    if s.free.len() > 0 {
        assert(s.free[0].0 < s.slots.len());
    }
    assert(s.inserted(value).live_slots() =~= s.live_slots().insert(s.next_handle().0));
}

/// Two live handles in one slot are the same handle.
pub proof fn law_one_live_handle_per_slot<T>(s: GraphView<T>, a: NodeHandle, b: NodeHandle)
    requires
        s.is_live(a),
        s.is_live(b),
        a.0 == b.0,
    ensures
        a == b,
{
}

/// A lookup fails in one way only: a handle that is not live is rejected with
/// `GenerationMismatch`, whether its slot is missing, under another
/// generation, or empty; a live handle gives its payload.
pub proof fn law_lookup_rejects_what_is_not_live<T>(s: GraphView<T>, h: NodeHandle)
    ensures
        s.is_live(h) <==> s.lookup(h) is Ok,
        !s.is_live(h) <==> s.lookup(h) == Err::<T, GraphError>(GraphError::GenerationMismatch),
        s.lookup(h) != Err::<T, GraphError>(GraphError::Unexpected),
        s.lookup(h) != Err::<T, GraphError>(GraphError::CapacityExceeded),
{
}

/// A stale handle is rejected with `GenerationMismatch`.
pub proof fn law_stale_is_rejected<T>(s: GraphView<T>, h: NodeHandle)
    requires
        s.is_stale(h),
    ensures
        !s.is_live(h),
        s.lookup(h) == Err::<T, GraphError>(GraphError::GenerationMismatch),
{
}

/// Right after its removal a handle is rejected with `GenerationMismatch`,
/// and unless its generation was the last one before the counter wraps, it
/// is stale.
pub proof fn law_removed_is_rejected<T>(s: GraphView<T>, h: NodeHandle)
    requires
        s.is_live(h),
    ensures
        s.removed(h).lookup(h) == Err::<T, GraphError>(GraphError::GenerationMismatch),
        h.1 < usize::MAX ==> s.removed(h).is_stale(h),
{
}

/// A stale handle stays stale in every later arena.
pub proof fn law_stale_stays_stale<T>(s: GraphView<T>, later: GraphView<T>, h: NodeHandle)
    requires
        s.is_stale(h),
        s.precedes(later),
    ensures
        later.is_stale(h),
        later.lookup(h) == Err::<T, GraphError>(GraphError::GenerationMismatch),
{
    assert(s.slots[h.0 as int].0 <= later.slots[h.0 as int].0);
}

/// An arena precedes itself, and what it precedes precedes what that
/// precedes.
pub proof fn law_precedes_is_an_order<T>(a: GraphView<T>, b: GraphView<T>, c: GraphView<T>)
    ensures
        a.precedes(a),
        a.precedes(b) && b.precedes(c) ==> a.precedes(c),
{
    if a.precedes(b) && b.precedes(c) {
        assert forall|i: int| 0 <= i < a.slots.len() implies a.slots[i].0 <= (#[trigger] c.slots[i]).0 by {
            assert(a.slots[i].0 <= b.slots[i].0);
            assert(b.slots[i].0 <= c.slots[i].0);
        }
    }
}

/// Inserting, connecting, disconnecting and replacing a payload lead to a
/// later arena; so does removing a handle whose generation is not the last
/// one before the counter wraps.
pub proof fn law_operations_lead_later<T>(
    s: GraphView<T>,
    value: T,
    h: NodeHandle,
    other: NodeHandle,
)
    requires
        s.inv(),
    ensures
        s.has_room() ==> s.precedes(s.inserted(value)),
        s.precedes(s.connected(h, other)),
        s.precedes(s.disconnected(h.0)),
        s.is_live(h) ==> s.precedes(s.with_payload(h, value)),
        s.is_live(h) && h.1 < usize::MAX ==> s.precedes(s.removed(h)),
{
    if s.has_room() {
        let t = s.inserted(value);
        if s.free.len() > 0 {
            assert(s.free[0].0 < s.slots.len());
            assert(s.slots[s.free[0].0 as int].0 == next_generation(s.free[0].1));
        }
        assert forall|i: int| 0 <= i < s.slots.len() implies s.slots[i].0 <= (#[trigger] t.slots[i]).0 by {}
    }
}

/// A removal leaves no edge with an endpoint in the removed slot.
pub proof fn law_removed_leaves_no_edge<T>(s: GraphView<T>, h: NodeHandle)
    ensures
        forall|k: int|
            0 <= k < s.removed(h).edges.len() ==> avoids_slot(
                #[trigger] s.removed(h).edges[k],
                h.0,
            ),
{
    lemma_filter_holds(s.edges, crate::handle::avoiding(h.0));
}

/// In a rooted list the slots below `top` are `top` and the ends of the
/// edges that leave a slot below `top`: its children, their children, and so
/// on.
pub proof fn law_subtree_is_what_is_below(edges: Seq<Edge>, root: usize, top: usize, x: usize)
    requires
        rooted(edges, root),
    ensures
        subtree(edges, top).contains(x) <==> x == top || exists|k: int|
            0 <= k < edges.len() && (#[trigger] edges[k]).1.0 == x && subtree(edges, top).contains(
                edges[k].0.0,
            ),
{
    lemma_subtree_members(edges, top);
    if subtree(edges, top).contains(x) && x != top {
        lemma_subtree_origin(edges, top, x);
    }
    if exists|k: int|
        0 <= k < edges.len() && (#[trigger] edges[k]).1.0 == x && subtree(edges, top).contains(
            edges[k].0.0,
        ) {
        let k = choose|k: int|
            0 <= k < edges.len() && (#[trigger] edges[k]).1.0 == x && subtree(
                edges,
                top,
            ).contains(edges[k].0.0);
        lemma_subtree_closed(edges, root, top, k);
    }
}

/// In a tree every node but the root hangs from one parent: exactly one edge
/// ends in it, and the edge carries its handle and leaves a live node.
pub proof fn law_one_parent<T>(s: GraphView<T>, root: NodeHandle, node: NodeHandle)
    requires
        sound_tree(s, root),
        s.is_live(node),
        node != root,
    ensures
        exists|k: int|
            0 <= k < s.edges.len() && (#[trigger] s.edges[k]).1 == node && s.is_live(s.edges[k].0)
                && forall|j: int|
                0 <= j < s.edges.len() && (#[trigger] s.edges[j]).1.0 == node.0 ==> j == k,
{
    lemma_rooted_edges(s.edges, root.0);
    assert(s.occupied(node.0));
    let k = choose|k: int| 0 <= k < s.edges.len() && (#[trigger] s.edges[k]).1.0 == node.0;
    assert(s.is_live(s.edges[k].1) && s.is_live(s.edges[k].0));
    assert forall|j: int| 0 <= j < s.edges.len() && (#[trigger] s.edges[j]).1.0 == node.0 implies j
        == k by {
        if j < k {
            assert(s.edges[j].1.0 != s.edges[k].1.0);
        } else if k < j {
            assert(s.edges[k].1.0 != s.edges[j].1.0);
        }
    }
}

/// The root is below no other node: no removal takes it along.
pub proof fn law_root_is_below_no_node<T>(s: GraphView<T>, root: NodeHandle, node: NodeHandle)
    requires
        sound_tree(s, root),
        node.0 != root.0,
    ensures
        !subtree(s.edges, node.0).contains(root.0),
{
    lemma_subtree_members(s.edges, node.0);
    lemma_rooted_edges(s.edges, root.0);
    if subtree(s.edges, node.0).contains(root.0) {
        let k = choose|k: int| 0 <= k < s.edges.len() && (#[trigger] s.edges[k]).1.0 == root.0;
        assert(false);
    }
}

/// Everything below a live node of a sound tree is a node.
pub proof fn law_subtree_is_live<T>(s: GraphView<T>, root: NodeHandle, node: NodeHandle)
    requires
        sound_tree(s, root),
        s.is_live(node),
    ensures
        subtree(s.edges, node.0).subset_of(s.live_slots()),
{
    lemma_subtree_members(s.edges, node.0);
    assert forall|x: usize| subtree(s.edges, node.0).contains(x) implies s.live_slots().contains(
        x,
    ) by {
        if x != node.0 {
            let k = choose|k: int| 0 <= k < s.edges.len() && (#[trigger] s.edges[k]).1.0 == x;
            assert(s.is_live(s.edges[k].1));
        }
    }
}

/// Removing a node from a tree removes the node and everything below it, and
/// nothing else: a handle is live after if and only if it was live before and
/// its slot is not below the node; the number of nodes goes down by one and
/// the number of the node's descendants; and no edge that is left touches a
/// removed slot.
pub proof fn law_cascade_is_complete<T>(
    before: GraphView<T>,
    after: GraphView<T>,
    root: NodeHandle,
    node: NodeHandle,
)
    requires
        sound_tree(before, root),
        sound_tree(after, root),
        before.is_live(node),
        node != root,
        cut_off(before, after, root, node),
    ensures
        forall|h: NodeHandle| #[trigger]
            after.is_live(h) <==> before.is_live(h) && !subtree(before.edges, node.0).contains(h.0),
        forall|h: NodeHandle|
            before.is_live(h) && subtree(before.edges, node.0).contains(h.0) ==> #[trigger] after.lookup(
                h,
            ) == Err::<T, GraphError>(GraphError::GenerationMismatch),
        forall|h: NodeHandle| #[trigger] after.is_live(h) ==> after.lookup(h) == before.lookup(h),
        after.live_slots() == before.live_slots().difference(subtree(before.edges, node.0)),
        before.live_slots().finite(),
        after.live_slots().len() + 1 + descendants(before.edges, node.0).len()
            == before.live_slots().len(),
        forall|k: int|
            0 <= k < after.edges.len() ==> !subtree(before.edges, node.0).contains(
                (#[trigger] after.edges[k]).0.0,
            ) && !subtree(before.edges, node.0).contains(after.edges[k].1.0),
{
    let dead = subtree(before.edges, node.0);
    law_subtree_is_live(before, root, node);
    lemma_subtree_members(before.edges, node.0);
    lemma_free_count(before);
    lemma_free_count(after);
    assert(after.live_slots() =~= before.live_slots().difference(dead));
    vstd::set_lib::lemma_set_difference_len(before.live_slots(), dead);
    assert(before.live_slots().intersect(dead) =~= dead);
    assert forall|k: int| 0 <= k < after.edges.len() implies !dead.contains(
        (#[trigger] after.edges[k]).0.0,
    ) && !dead.contains(after.edges[k].1.0) by {
        assert(after.is_live(after.edges[k].0));
        assert(after.is_live(after.edges[k].1));
    }
}

/// The handles that a removal from a tree adds to the free list are the
/// handles of the removed nodes, each once, the removed node itself last.
pub proof fn law_freed_are_the_removed<T>(
    before: GraphView<T>,
    after: GraphView<T>,
    root: NodeHandle,
    node: NodeHandle,
)
    requires
        sound_tree(before, root),
        sound_tree(after, root),
        before.is_live(node),
        node != root,
        cut_off(before, after, root, node),
    ensures
        freed_by(before.edges, root.0, node).len() == subtree(before.edges, node.0).len(),
        freed_by(before.edges, root.0, node).last() == node,
        forall|j: int|
            0 <= j < freed_by(before.edges, root.0, node).len() ==> before.is_live(
                #[trigger] freed_by(before.edges, root.0, node)[j],
            ) && subtree(before.edges, node.0).contains(
                freed_by(before.edges, root.0, node)[j].0,
            ),
        forall|i: int, j: int|
            0 <= i < j < freed_by(before.edges, root.0, node).len() ==> (#[trigger] freed_by(
                before.edges,
                root.0,
                node,
            )[i]).0 != (#[trigger] freed_by(before.edges, root.0, node)[j]).0,
{
    let freed = freed_by(before.edges, root.0, node);
    let dead = subtree(before.edges, node.0);
    let base = before.free.len() as int;
    law_cascade_is_complete(before, after, root, node);
    lemma_subtree_members(before.edges, node.0);
    lemma_free_count(before);
    lemma_free_count(after);
    assert forall|j: int| 0 <= j < freed.len() implies before.is_live(#[trigger] freed[j])
        && dead.contains(freed[j].0) by {
        let h = freed[j];
        assert(after.free[base + j] == h);
        assert(h.0 < after.slots.len());
        assert(after.slots[h.0 as int] == (next_generation(h.1), None::<T>));
        if before.slots[h.0 as int].1 is None {
            let k = choose|k: int| 0 <= k < before.free.len() && (#[trigger] before.free[k]).0 == h.0;
            assert(after.free[k] == before.free[k]);
            assert(after.free[k].0 != after.free[base + j].0);
        }
    }
    assert forall|i: int, j: int| 0 <= i < j < freed.len() implies (#[trigger] freed[i]).0 != (
    #[trigger] freed[j]).0 by {
        assert(after.free[base + i] == freed[i]);
        assert(after.free[base + j] == freed[j]);
        assert(after.free[base + i].0 != after.free[base + j].0);
    }
}

/// A removal from a tree leads to a later arena, unless a removed node had
/// the last generation before the counter wraps.
pub proof fn law_cascade_leads_later<T>(
    before: GraphView<T>,
    after: GraphView<T>,
    root: NodeHandle,
    node: NodeHandle,
)
    requires
        cut_off(before, after, root, node),
        forall|i: int|
            0 <= i < before.slots.len() && subtree(before.edges, node.0).contains(i as usize)
                ==> (#[trigger] before.slots[i]).0 < usize::MAX,
    ensures
        before.precedes(after),
{
    assert forall|i: int| 0 <= i < before.slots.len() implies before.slots[i].0 <= (
    #[trigger] after.slots[i]).0 by {
        if subtree(before.edges, node.0).contains(i as usize) {
            assert(before.slots[i].0 < usize::MAX);
        }
    }
}

} // verus!
