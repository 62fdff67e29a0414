//! The shape of a tree's arena, and the steps that keep it.
//!
//! A tree is an arena whose edges hang from the root. Attaching a child and
//! removing a leaf keep that shape; the removal of a node with children is a
//! run of such steps, one child after the other, and the lemmas here carry
//! the bookkeeping from one step to the next.

use crate::forest::{
    apart, children_of, freed_by, freed_by_children, has_origin, has_target,
    lemma_child_below, lemma_child_has_edge, lemma_edge_has_child, lemma_filter_agree,
    lemma_filter_targets, lemma_freed_by_kept, lemma_outside_twice, lemma_rooted_edges,
    lemma_rooted_outside, lemma_subtree_closed, lemma_subtree_leaf, lemma_subtree_members,
    lemma_subtree_origin, lemma_subtree_pruned, lemma_subtrees_nest, outside, rooted, subtree,
};
use crate::handle::{avoiding, Edge, NodeHandle, EDGE_CAPACITY};
use crate::laws::law_inserted_handle_is_new;
use crate::model::{
    lemma_filter_holds, lemma_free_count, lemma_inserted_inv, lemma_removed_inv,
    lemma_same_occupancy_inv, GraphView,
};
use vstd::prelude::*;

verus! {


/// What holds of the arena of every tree with root `root`: the root is the
/// live handle of slot 0, the edges hang from the root's slot, both ends of
/// every edge are live, and every node but the root is the end of an edge.
pub open spec fn sound_tree<T>(s: GraphView<T>, root: NodeHandle) -> bool {
    &&& s.inv()
    &&& root == (0usize, 0usize)
    &&& s.is_live(root)
    &&& rooted(s.edges, root.0)
    &&& forall|k: int|
        0 <= k < s.edges.len() ==> s.is_live((#[trigger] s.edges[k]).0) && s.is_live(s.edges[k].1)
    &&& forall|i: usize| #[trigger] s.occupied(i) ==> i == root.0 || has_target(s.edges, i)
}

/// Adding a child under a live parent keeps the tree sound.
pub proof fn lemma_attached_sound<T>(
    s: GraphView<T>,
    root: NodeHandle,
    parent: NodeHandle,
    value: T,
)
    requires
        sound_tree(s, root),
        s.is_live(parent),
        s.has_room(),
        s.edges.len() < EDGE_CAPACITY,
    ensures
        sound_tree(s.inserted(value).connected(parent, s.next_handle()), root),
{
    let h = s.next_handle();
    let mid = s.inserted(value);
    let t = mid.connected(parent, h);
    lemma_inserted_inv(s, value);
    law_inserted_handle_is_new(s, value);
    lemma_same_occupancy_inv(mid, t);
    assert(t.edges.drop_last() =~= s.edges);
    assert(!has_target(s.edges, h.0)) by {
        if has_target(s.edges, h.0) {
            let k = choose|k: int| 0 <= k < s.edges.len() && (#[trigger] s.edges[k]).1.0 == h.0;
            assert(s.is_live(s.edges[k].1));
        }
    }
    assert(s.occupied(parent.0));
    assert forall|k: int| 0 <= k < t.edges.len() implies t.is_live((#[trigger] t.edges[k]).0)
        && t.is_live(t.edges[k].1) by {
        if k < s.edges.len() {
            assert(t.edges[k] == s.edges[k]);
            assert(s.is_live(s.edges[k].0));
            assert(s.is_live(s.edges[k].1));
        }
    }
    assert forall|i: usize| #[trigger] t.occupied(i) implies i == root.0 || has_target(
        t.edges,
        i,
    ) by {
        if i == h.0 {
            assert(t.edges[t.edges.len() - 1].1.0 == i);
        } else {
            assert(mid.occupied(i));
            assert(s.occupied(i));
            if i != root.0 {
                let k = choose|k: int| 0 <= k < s.edges.len() && (#[trigger] s.edges[k]).1.0 == i;
                assert(t.edges[k].1.0 == i);
            }
        }
    }
}

/// In a sound tree every node but the root is the end of exactly one edge:
/// there is one node more than there are edges.
pub proof fn lemma_tree_edge_count<T>(s: GraphView<T>, root: NodeHandle)
    requires
        sound_tree(s, root),
    ensures
        s.live_slots().finite(),
        s.edges.len() + 1 == s.live_slots().len(),
{
    let ends = s.edges.map_values(|e: (NodeHandle, NodeHandle)| e.1.0);
    lemma_rooted_edges(s.edges, root.0);
    lemma_free_count(s);
    assert(ends.no_duplicates()) by {
        assert forall|i: int, j: int|
            0 <= i < ends.len() && 0 <= j < ends.len() && i != j implies ends[i] != ends[j] by {
            if i < j {
                assert(s.edges[i].1.0 != s.edges[j].1.0);
            } else {
                assert(s.edges[j].1.0 != s.edges[i].1.0);
            }
        }
    }
    ends.unique_seq_to_set();
    let live = s.live_slots();
    assert(ends.to_set() =~= live.remove(root.0)) by {
        assert forall|i: usize| ends.to_set().contains(i) implies live.remove(root.0).contains(
            i,
        ) by {
            let k = choose|k: int| 0 <= k < ends.len() && ends[k] == i;
            assert(s.is_live(s.edges[k].1));
            assert(s.edges[k].1.0 != root.0);
        }
        assert forall|i: usize| live.remove(root.0).contains(i) implies ends.to_set().contains(
            i,
        ) by {
            assert(s.occupied(i));
            let k = choose|k: int| 0 <= k < s.edges.len() && (#[trigger] s.edges[k]).1.0 == i;
            assert(ends[k] == i);
            assert(ends.contains(i));
        }
    }
    assert(live.contains(root.0));
}

/// Removing a node that no edge leaves keeps the tree sound; the one edge
/// that goes is the edge that ends in the node.
pub proof fn lemma_leaf_removed_sound<T>(s: GraphView<T>, root: NodeHandle, node: NodeHandle)
    requires
        sound_tree(s, root),
        s.is_live(node),
        node != root,
        !has_origin(s.edges, node.0),
    ensures
        sound_tree(s.removed(node), root),
        s.removed(node).edges == s.edges.filter(outside(set![node.0])),
{
    let t = s.removed(node);
    let dead = set![node.0];
    lemma_removed_inv(s, node);
    assert forall|k: int| 0 <= k < s.edges.len() implies avoiding(node.0)(#[trigger] s.edges[k])
        == outside(dead)(s.edges[k]) by {
        assert(s.edges[k].0.0 != node.0);
    }
    lemma_filter_agree(s.edges, avoiding(node.0), outside(dead));
    lemma_rooted_outside(s.edges, root.0, dead);
    lemma_filter_holds(s.edges, avoiding(node.0));
    assert forall|k: int| 0 <= k < t.edges.len() implies t.is_live((#[trigger] t.edges[k]).0)
        && t.is_live(t.edges[k].1) by {
        assert(t.edges.contains(t.edges[k]));
        s.edges.lemma_filter_contains_rev(avoiding(node.0), t.edges[k]);
        let j = choose|j: int| 0 <= j < s.edges.len() && s.edges[j] == t.edges[k];
        assert(s.is_live(s.edges[j].0) && s.is_live(s.edges[j].1));
        assert(avoiding(node.0)(t.edges[k]));
    }
    assert forall|i: usize| #[trigger] t.occupied(i) implies i == root.0 || has_target(
        t.edges,
        i,
    ) by {
        assert(i != node.0);
        assert(s.occupied(i));
        if i != root.0 {
            let j = choose|j: int| 0 <= j < s.edges.len() && (#[trigger] s.edges[j]).1.0 == i;
            assert(avoiding(node.0)(s.edges[j]));
            lemma_filter_targets(s.edges, avoiding(node.0), i);
        }
    }
}

/// Replacing the payload of a live node keeps the tree sound.
pub proof fn lemma_with_payload_sound<T>(
    s: GraphView<T>,
    root: NodeHandle,
    node: NodeHandle,
    value: T,
)
    requires
        sound_tree(s, root),
        s.is_live(node),
    ensures
        sound_tree(s.with_payload(node, value), root),
{
    let t = s.with_payload(node, value);
    lemma_same_occupancy_inv(s, t);
    assert forall|k: int| 0 <= k < t.edges.len() implies t.is_live((#[trigger] t.edges[k]).0)
        && t.is_live(t.edges[k].1) by {
        assert(s.is_live(s.edges[k].0) && s.is_live(s.edges[k].1));
    }
    assert forall|i: usize| #[trigger] t.occupied(i) implies i == root.0 || has_target(
        t.edges,
        i,
    ) by {
        assert(s.occupied(i));
    }
}

/// In a rooted list the children of a slot sit in slots of their own, each
/// the end of an edge.
pub proof fn lemma_children_distinct(edges: Seq<Edge>, root: usize, slot: usize)
    requires
        rooted(edges, root),
    ensures
        forall|j: int|
            0 <= j < children_of(edges, slot).len() ==> has_target(
                edges,
                (#[trigger] children_of(edges, slot)[j]).0,
            ),
        forall|i: int, j: int|
            0 <= i < j < children_of(edges, slot).len() ==> (#[trigger] children_of(
                edges,
                slot,
            )[i]).0 != (#[trigger] children_of(edges, slot)[j]).0,
    decreases edges.len(),
{
    reveal(Seq::filter);
    if edges.len() > 0 {
        let older = edges.drop_last();
        let e = edges.last();
        let kids = children_of(edges, slot);
        let kids_older = children_of(older, slot);
        lemma_children_distinct(older, root, slot);
        if e.0.0 == slot {
            assert(kids =~= kids_older.push(e.1));
        } else {
            assert(kids == kids_older);
        }
        assert forall|j: int| 0 <= j < kids.len() implies has_target(
            edges,
            (#[trigger] kids[j]).0,
        ) by {
            if j < kids_older.len() {
                let k = choose|k: int|
                    0 <= k < older.len() && (#[trigger] older[k]).1.0 == kids_older[j].0;
                assert(edges[k].1.0 == kids[j].0);
            } else {
                assert(edges[edges.len() - 1].1.0 == kids[j].0);
            }
        }
    }
}

/// Whether `after` is `before` without `node` and everything below it: each
/// of those slots is emptied and moved to its next generation, each edge that
/// ends in one of them is gone, and their handles have joined the back of the
/// free list in the order in which they were freed.
pub open spec fn cut_off<T>(
    before: GraphView<T>,
    after: GraphView<T>,
    root: NodeHandle,
    node: NodeHandle,
) -> bool {
    let dead = subtree(before.edges, node.0);
    &&& after.slots == before.cleared(dead)
    &&& after.edges == before.edges.filter(outside(dead))
    &&& after.free == before.free + freed_by(before.edges, root.0, node)
}

/// Whether `now` is `before` with the first `count` children of `node` cut
/// away, `gone` being their slots and the slots below them: the state between
/// two steps of a removal.
pub open spec fn partly_cut<T>(
    before: GraphView<T>,
    now: GraphView<T>,
    root: NodeHandle,
    node: NodeHandle,
    gone: Set<usize>,
    count: nat,
) -> bool {
    let dead = subtree(before.edges, node.0);
    let kids = children_of(before.edges, node.0);
    &&& count <= kids.len()
    &&& gone.finite()
    &&& gone.subset_of(dead)
    &&& !gone.contains(node.0)
    &&& now.slots == before.cleared(gone)
    &&& now.edges == before.edges.filter(outside(gone))
    &&& subtree(now.edges, node.0) == dead.difference(gone)
    &&& now.free == before.free + freed_by_children(before.edges, root.0, node, count)
    &&& forall|j: int| 0 <= j < count ==> gone.contains((#[trigger] kids[j]).0)
    &&& forall|j: int|
        count <= j < kids.len() ==> !gone.contains((#[trigger] kids[j]).0) && subtree(
            now.edges,
            kids[j].0,
        ) == subtree(before.edges, kids[j].0)
}

/// Before a child is removed: the child is live and not the root, what is
/// below it is what was below it at the start and is not yet gone, `node` is
/// not below it, it has fewer slots below it than `node` had, and removing it
/// frees what removing it at the start would have freed.
pub proof fn lemma_child_step<T>(
    before: GraphView<T>,
    mid: GraphView<T>,
    root: NodeHandle,
    node: NodeHandle,
    gone: Set<usize>,
    i: int,
)
    requires
        sound_tree(before, root),
        sound_tree(mid, root),
        before.is_live(node),
        node != root,
        partly_cut(before, mid, root, node, gone, i as nat),
        0 <= i < children_of(before.edges, node.0).len(),
    ensures
        ({
            let kid = children_of(before.edges, node.0)[i];
            let part = subtree(mid.edges, kid.0);
            &&& kid != root
            &&& mid.is_live(kid)
            &&& before.is_live(kid)
            &&& part == subtree(before.edges, kid.0)
            &&& part.finite()
            &&& part.subset_of(subtree(before.edges, node.0).difference(gone))
            &&& !part.contains(node.0)
            &&& subtree(before.edges, node.0).finite()
            &&& part.len() < subtree(before.edges, node.0).len()
            &&& freed_by(mid.edges, root.0, kid) == freed_by(before.edges, root.0, kid)
            &&& exists|k: int|
                0 <= k < before.edges.len() && (#[trigger] before.edges[k]).0.0 == node.0
                    && before.edges[k].1 == kid
        }),
{
    let kids = children_of(before.edges, node.0);
    let kid = kids[i];
    let dead = subtree(before.edges, node.0);
    let part = subtree(mid.edges, kid.0);
    lemma_child_has_edge(before.edges, node.0, i);
    let k = choose|k: int|
        0 <= k < before.edges.len() && (#[trigger] before.edges[k]).0.0 == node.0
            && before.edges[k].1 == kid;
    lemma_rooted_edges(before.edges, root.0);
    assert(before.is_live(before.edges[k].1));
    assert(!gone.contains(kids[i].0));
    assert(mid.slots[kid.0 as int] == before.slots[kid.0 as int]);
    lemma_child_below(before.edges, root.0, k);
    lemma_subtree_members(before.edges, kid.0);
    assert(part.subset_of(dead.difference(gone))) by {
        assert(outside(gone)(before.edges[k]));
        before.edges.lemma_filter_contains(outside(gone), k);
        let m = choose|m: int| 0 <= m < mid.edges.len() && mid.edges[m] == before.edges[k];
        lemma_child_below(mid.edges, root.0, m);
    }
    assert(apart(before.edges, gone, kid.0)) by {
        assert forall|x: int|
            0 <= x < before.edges.len() && gone.contains(
                (#[trigger] before.edges[x]).1.0,
            ) implies !subtree(before.edges, kid.0).contains(before.edges[x].0.0) by {
            if subtree(before.edges, kid.0).contains(before.edges[x].0.0) {
                lemma_subtree_closed(before.edges, root.0, kid.0, x);
            }
        }
    }
    lemma_freed_by_kept(before.edges, root.0, gone, kid);
}

/// After a child is removed with everything below it, one child more is cut
/// away: the slots that are gone are those that were gone and those that were
/// below the child.
pub proof fn lemma_child_done<T>(
    before: GraphView<T>,
    mid: GraphView<T>,
    after: GraphView<T>,
    root: NodeHandle,
    node: NodeHandle,
    gone: Set<usize>,
    i: int,
)
    requires
        sound_tree(before, root),
        sound_tree(mid, root),
        before.is_live(node),
        node != root,
        partly_cut(before, mid, root, node, gone, i as nat),
        0 <= i < children_of(before.edges, node.0).len(),
        cut_off(mid, after, root, children_of(before.edges, node.0)[i]),
    ensures
        partly_cut(
            before,
            after,
            root,
            node,
            gone + subtree(mid.edges, children_of(before.edges, node.0)[i].0),
            (i + 1) as nat,
        ),
{
    let kids = children_of(before.edges, node.0);
    let kid = kids[i];
    let dead = subtree(before.edges, node.0);
    let part = subtree(mid.edges, kid.0);
    let all = gone + part;
    lemma_child_step(before, mid, root, node, gone, i);
    assert(gone.disjoint(part));
    assert(after.slots =~= before.cleared(all));
    lemma_outside_twice(before.edges, gone, part);
    lemma_subtree_pruned(mid.edges, root.0, kid.0, node.0);
    assert(dead.difference(gone).difference(part) =~= dead.difference(all));
    assert(after.free =~= before.free + freed_by_children(
        before.edges,
        root.0,
        node,
        (i + 1) as nat,
    ));
    lemma_subtree_members(mid.edges, kid.0);
    assert forall|j: int| 0 <= j < i + 1 implies all.contains((#[trigger] kids[j]).0) by {
        if j < i {
            assert(gone.contains(kids[j].0));
        }
    }
    lemma_children_distinct(before.edges, root.0, node.0);
    lemma_rooted_edges(before.edges, root.0);
    let k_kid = choose|k: int|
        0 <= k < before.edges.len() && (#[trigger] before.edges[k]).0.0 == node.0
            && before.edges[k].1 == kid;
    assert forall|j: int| i + 1 <= j < kids.len() implies !all.contains((#[trigger] kids[j]).0)
        && subtree(after.edges, kids[j].0) == subtree(before.edges, kids[j].0) by {
        let other = kids[j];
        assert(!gone.contains(other.0));
        assert(kids[i].0 != kids[j].0);
        lemma_child_has_edge(before.edges, node.0, j);
        let k = choose|k: int|
            0 <= k < before.edges.len() && (#[trigger] before.edges[k]).0.0 == node.0
                && before.edges[k].1 == other;
        lemma_child_below(before.edges, root.0, k);
        lemma_child_below(before.edges, root.0, k_kid);
        if part.contains(other.0) {
            lemma_only_edge_into(before.edges, root.0, kid.0, k);
        }
        lemma_subtree_pruned(mid.edges, root.0, kid.0, other.0);
        assert(subtree(mid.edges, other.0).disjoint(part)) by {
            if exists|x: usize| subtree(mid.edges, other.0).contains(x) && part.contains(x) {
                let x = choose|x: usize| subtree(mid.edges, other.0).contains(x) && part.contains(x);
                lemma_subtrees_nest(before.edges, root.0, other.0, kid.0, x);
                if subtree(before.edges, other.0).contains(kid.0) {
                    lemma_only_edge_into(before.edges, root.0, other.0, k_kid);
                }
            }
        }
        assert(subtree(mid.edges, other.0).difference(part) =~= subtree(mid.edges, other.0));
    }
}

/// In a rooted list one edge ends in each slot: a slot below `top`, other
/// than `top`, has the origin of the edge that ends in it below `top` too.
pub proof fn lemma_only_edge_into(edges: Seq<Edge>, root: usize, top: usize, k: int)
    requires
        rooted(edges, root),
        0 <= k < edges.len(),
        subtree(edges, top).contains(edges[k].1.0),
        edges[k].1.0 != top,
    ensures
        subtree(edges, top).contains(edges[k].0.0),
{
    lemma_rooted_edges(edges, root);
    lemma_subtree_origin(edges, top, edges[k].1.0);
    let m = choose|m: int|
        0 <= m < edges.len() && (#[trigger] edges[m]).1.0 == edges[k].1.0 && subtree(
            edges,
            top,
        ).contains(edges[m].0.0);
    if m < k {
        assert(edges[m].1.0 != edges[k].1.0);
    } else if k < m {
        assert(edges[k].1.0 != edges[m].1.0);
    }
}

/// Once every child is gone with everything below it, `node` is a live leaf,
/// and removing it completes the cut.
pub proof fn lemma_last_step<T>(
    before: GraphView<T>,
    now: GraphView<T>,
    root: NodeHandle,
    node: NodeHandle,
    gone: Set<usize>,
)
    requires
        sound_tree(before, root),
        sound_tree(now, root),
        before.is_live(node),
        node != root,
        partly_cut(before, now, root, node, gone, children_of(before.edges, node.0).len()),
    ensures
        now.is_live(node),
        now.lookup(node) == before.lookup(node),
        cut_off(before, now.removed(node), root, node),
        sound_tree(now.removed(node), root),
{
    let kids = children_of(before.edges, node.0);
    let dead = subtree(before.edges, node.0);
    let last = now.removed(node);
    assert(now.slots[node.0 as int] == before.slots[node.0 as int]);
    assert(!has_origin(now.edges, node.0)) by {
        if has_origin(now.edges, node.0) {
            let m = choose|m: int|
                0 <= m < now.edges.len() && (#[trigger] now.edges[m]).0.0 == node.0;
            before.edges.lemma_filter_pred(outside(gone), m);
            assert(now.edges.contains(now.edges[m]));
            before.edges.lemma_filter_contains_rev(outside(gone), now.edges[m]);
            let m0 = choose|m0: int|
                0 <= m0 < before.edges.len() && before.edges[m0] == now.edges[m];
            lemma_edge_has_child(before.edges, node.0, m0);
            let j = choose|j: int|
                0 <= j < kids.len() && #[trigger] kids[j] == before.edges[m0].1;
            assert(gone.contains(kids[j].0));
            assert(false);
        }
    }
    lemma_subtree_leaf(now.edges, node.0);
    lemma_subtree_members(before.edges, node.0);
    let one = set![node.0];
    assert(dead =~= gone + one) by {
        assert forall|x: usize| dead.contains(x) implies (gone + one).contains(x) by {
            if !gone.contains(x) {
                assert(dead.difference(gone).contains(x));
            }
        }
    }
    lemma_leaf_removed_sound(now, root, node);
    lemma_outside_twice(before.edges, gone, one);
    assert(last.slots =~= before.cleared(dead));
    assert(last.free =~= before.free + freed_by(before.edges, root.0, node));
}

} // verus!
