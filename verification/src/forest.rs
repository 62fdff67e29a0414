//! Edge lists that hang from a root, and the slots below a slot.
//!
//! A tree keeps its edges in the order they were made, and makes an edge only
//! from a slot that is already in the tree to a slot that is not. So every
//! edge comes after the edge that ends in its origin, and one pass over the
//! list, oldest edge first, finds everything below a slot.

use crate::handle::{Edge, NodeHandle};
use vstd::prelude::*;

verus! {

/// The edges that leave `slot`, as a predicate.
pub open spec fn leaving(slot: usize) -> spec_fn(Edge) -> bool {
    |e: Edge| e.0.0 == slot
}

/// The far end of an edge.
pub open spec fn target() -> spec_fn(Edge) -> NodeHandle {
    |e: Edge| e.1
}

/// The children of `slot`: the far ends of the edges that leave it, oldest
/// edge first.
pub open spec fn children_of(edges: Seq<Edge>, slot: usize) -> Seq<NodeHandle> {
    edges.filter(leaving(slot)).map_values(target())
}

/// Whether some edge ends in `slot`.
pub open spec fn has_target(edges: Seq<Edge>, slot: usize) -> bool {
    exists|k: int| 0 <= k < edges.len() && (#[trigger] edges[k]).1.0 == slot
}

/// Whether some edge leaves `slot`.
pub open spec fn has_origin(edges: Seq<Edge>, slot: usize) -> bool {
    exists|k: int| 0 <= k < edges.len() && (#[trigger] edges[k]).0.0 == slot
}

/// Whether the edges hang from `root`: no edge ends in `root`, no two edges
/// end in the same slot, and every edge leaves `root` or a slot in which an
/// older edge ends.
pub open spec fn rooted(edges: Seq<Edge>, root: usize) -> bool
    decreases edges.len(),
{
    edges.len() == 0 || {
        let e = edges.last();
        let older = edges.drop_last();
        &&& rooted(older, root)
        &&& e.1.0 != root
        &&& !has_target(older, e.1.0)
        &&& (e.0.0 == root || has_target(older, e.0.0))
    }
}

/// The slots below `top`, `top` among them: the edges are read oldest first,
/// and an edge that leaves a slot already found adds the slot it ends in.
pub open spec fn subtree(edges: Seq<Edge>, top: usize) -> Set<usize>
    decreases edges.len(),
{
    if edges.len() == 0 {
        set![top]
    } else {
        let found = subtree(edges.drop_last(), top);
        if found.contains(edges.last().0.0) {
            found.insert(edges.last().1.0)
        } else {
            found
        }
    }
}

/// The slots strictly below `top`.
pub open spec fn descendants(edges: Seq<Edge>, top: usize) -> Set<usize> {
    subtree(edges, top).remove(top)
}

/// The edges that end outside `dead`, as a predicate.
pub open spec fn outside(dead: Set<usize>) -> spec_fn(Edge) -> bool {
    |e: Edge| !dead.contains(e.1.0)
}

/// What `rooted` says, edge by edge.
pub proof fn lemma_rooted_edges(edges: Seq<Edge>, root: usize)
    requires
        rooted(edges, root),
    ensures
        forall|k: int| 0 <= k < edges.len() ==> (#[trigger] edges[k]).1.0 != root,
        forall|j: int, k: int|
            0 <= j < k < edges.len() ==> (#[trigger] edges[j]).1.0 != (#[trigger] edges[k]).1.0,
        forall|k: int|
            0 <= k < edges.len() ==> (#[trigger] edges[k]).0.0 == root || has_target(
                edges.take(k),
                edges[k].0.0,
            ),
        forall|k: int| 0 <= k < edges.len() ==> (#[trigger] edges[k]).0.0 != edges[k].1.0,
    decreases edges.len(),
{
    if edges.len() > 0 {
        let older = edges.drop_last();
        let last = edges.len() - 1;
        lemma_rooted_edges(older, root);
        assert forall|k: int| 0 <= k < edges.len() implies (#[trigger] edges[k]).1.0 != root by {
            if k < last {
                assert(older[k] == edges[k]);
            }
        }
        assert forall|j: int, k: int| 0 <= j < k < edges.len() implies (#[trigger] edges[j]).1.0
            != (#[trigger] edges[k]).1.0 by {
            assert(older[j] == edges[j]);
            if k < last {
                assert(older[k] == edges[k]);
            }
        }
        assert forall|k: int| 0 <= k < edges.len() implies (#[trigger] edges[k]).0.0 == root
            || has_target(edges.take(k), edges[k].0.0) by {
            if k < last {
                assert(older[k] == edges[k]);
                assert(older.take(k) =~= edges.take(k));
            } else {
                assert(edges.take(k) =~= older);
            }
        }
        assert forall|k: int| 0 <= k < edges.len() implies (#[trigger] edges[k]).0.0
            != edges[k].1.0 by {
            if k < last {
                assert(older[k] == edges[k]);
            }
        }
    }
}

/// In a rooted list an edge leaves only `root` or a slot in which an edge
/// ends.
pub proof fn lemma_origin_in_tree(edges: Seq<Edge>, root: usize, k: int)
    requires
        rooted(edges, root),
        0 <= k < edges.len(),
    ensures
        edges[k].0.0 == root || has_target(edges, edges[k].0.0),
{
    lemma_rooted_edges(edges, root);
    if edges[k].0.0 != root {
        let j = choose|j: int| 0 <= j < edges.take(k).len() && (#[trigger] edges.take(k)[j]).1.0
            == edges[k].0.0;
        assert(edges[j].1.0 == edges[k].0.0);
    }
}

/// Every slot below `top` is `top` or the end of an edge; `top` is there; the
/// set is finite, with at most one slot more than there are edges.
pub proof fn lemma_subtree_members(edges: Seq<Edge>, top: usize)
    ensures
        subtree(edges, top).contains(top),
        subtree(edges, top).finite(),
        subtree(edges, top).len() <= edges.len() + 1,
        forall|x: usize| #[trigger]
            subtree(edges, top).contains(x) ==> x == top || has_target(edges, x),
    decreases edges.len(),
{
    if edges.len() > 0 {
        let older = edges.drop_last();
        lemma_subtree_members(older, top);
        assert forall|x: usize| #[trigger] subtree(edges, top).contains(x) implies x == top
            || has_target(edges, x) by {
            if subtree(older, top).contains(x) {
                if x != top {
                    let k = choose|k: int| 0 <= k < older.len() && (#[trigger] older[k]).1.0 == x;
                    assert(edges[k].1.0 == x);
                }
            } else {
                assert(edges[edges.len() - 1].1.0 == x);
            }
        }
    }
}

/// A slot that no edge leaves has nothing below it.
pub proof fn lemma_subtree_leaf(edges: Seq<Edge>, top: usize)
    requires
        !has_origin(edges, top),
    ensures
        subtree(edges, top) == set![top],
    decreases edges.len(),
{
    if edges.len() > 0 {
        let older = edges.drop_last();
        assert(!has_origin(older, top)) by {
            if has_origin(older, top) {
                let k = choose|k: int| 0 <= k < older.len() && (#[trigger] older[k]).0.0 == top;
                assert(edges[k].0.0 == top);
            }
        }
        lemma_subtree_leaf(older, top);
        assert(edges[edges.len() - 1].0.0 != top);
    }
}

/// In a rooted list no edge leaves a slot before the edge that ends in it:
/// a slot in which no edge ends, other than `root`, has no edge leaving it.
pub proof fn lemma_fresh_has_no_origin(edges: Seq<Edge>, root: usize, slot: usize)
    requires
        rooted(edges, root),
        slot != root,
        !has_target(edges, slot),
    ensures
        !has_origin(edges, slot),
{
    if has_origin(edges, slot) {
        let k = choose|k: int| 0 <= k < edges.len() && (#[trigger] edges[k]).0.0 == slot;
        lemma_origin_in_tree(edges, root, k);
    }
}

/// Below a slot the edges lead on: in a rooted list an edge that leaves a
/// slot below `top` ends in a slot below `top`.
pub proof fn lemma_subtree_closed(edges: Seq<Edge>, root: usize, top: usize, k: int)
    requires
        rooted(edges, root),
        0 <= k < edges.len(),
        subtree(edges, top).contains(edges[k].0.0),
    ensures
        subtree(edges, top).contains(edges[k].1.0),
    decreases edges.len(),
{
    let older = edges.drop_last();
    let last = edges.len() - 1;
    let e = edges[last];
    if k == last {
        if !subtree(older, top).contains(e.0.0) {
            lemma_rooted_edges(edges, root);
        }
    } else {
        assert(older[k] == edges[k]);
        if subtree(older, top).contains(edges[k].0.0) {
            lemma_subtree_closed(older, root, top, k);
        } else {
            lemma_origin_in_tree(older, root, k);
        }
    }
}

/// Every slot below `top`, other than `top`, is the end of an edge that
/// leaves a slot below `top`.
pub proof fn lemma_subtree_origin(edges: Seq<Edge>, top: usize, x: usize)
    requires
        subtree(edges, top).contains(x),
        x != top,
    ensures
        exists|k: int|
            0 <= k < edges.len() && (#[trigger] edges[k]).1.0 == x && subtree(edges, top).contains(
                edges[k].0.0,
            ),
    decreases edges.len(),
{
    if edges.len() > 0 {
        let older = edges.drop_last();
        let last = edges.len() - 1;
        if subtree(older, top).contains(x) {
            lemma_subtree_origin(older, top, x);
            let k = choose|k: int|
                0 <= k < older.len() && (#[trigger] older[k]).1.0 == x && subtree(
                    older,
                    top,
                ).contains(older[k].0.0);
            assert(edges[k] == older[k]);
        } else {
            assert(edges[last].1.0 == x);
        }
    }
}

/// A rooted list has no cycle: the origin of an edge is not below its end.
pub proof fn lemma_no_cycle(edges: Seq<Edge>, root: usize, k: int)
    requires
        rooted(edges, root),
        0 <= k < edges.len(),
    ensures
        !subtree(edges, edges[k].1.0).contains(edges[k].0.0),
    decreases edges.len(),
{
    let older = edges.drop_last();
    let last = edges.len() - 1;
    let e = edges[last];
    let top = edges[k].1.0;
    lemma_rooted_edges(edges, root);
    if k == last {
        lemma_fresh_has_no_origin(older, root, top);
        lemma_subtree_leaf(older, top);
    } else {
        assert(older[k] == edges[k]);
        lemma_no_cycle(older, root, k);
        lemma_origin_in_tree(older, root, k);
    }
}

/// What is below a slot below `top` is below `top`.
pub proof fn lemma_subtree_transitive(edges: Seq<Edge>, root: usize, top: usize, mid: usize)
    requires
        rooted(edges, root),
        subtree(edges, top).contains(mid),
    ensures
        subtree(edges, mid).subset_of(subtree(edges, top)),
    decreases edges.len(),
{
    if edges.len() == 0 {
    } else {
        let older = edges.drop_last();
        let e = edges.last();
        if subtree(older, top).contains(mid) {
            lemma_subtree_transitive(older, root, top, mid);
        } else {
            assert(mid == e.1.0);
            lemma_fresh_has_no_origin(older, root, mid);
            lemma_subtree_leaf(older, mid);
            lemma_rooted_edges(edges, root);
            assert(edges[edges.len() - 1].0.0 != mid);
        }
    }
}

/// Two predicates that agree on every item filter alike.
pub proof fn lemma_filter_agree<A>(s: Seq<A>, p: spec_fn(A) -> bool, q: spec_fn(A) -> bool)
    requires
        forall|k: int| 0 <= k < s.len() ==> p(#[trigger] s[k]) == q(s[k]),
    ensures
        s.filter(p) == s.filter(q),
    decreases s.len(),
{
    reveal(Seq::filter);
    if s.len() > 0 {
        let older = s.drop_last();
        assert forall|k: int| 0 <= k < older.len() implies p(#[trigger] older[k]) == q(
            older[k],
        ) by {
            assert(older[k] == s[k]);
        }
        lemma_filter_agree(older, p, q);
        assert(p(s[s.len() - 1]) == q(s[s.len() - 1]));
    }
}

/// Filtering a list that ends in `e`: `e` joins what the older items gave,
/// or is left out.
pub proof fn lemma_filter_last<A>(s: Seq<A>, e: A, keep: spec_fn(A) -> bool)
    ensures
        s.push(e).filter(keep) == if keep(e) {
            s.filter(keep).push(e)
        } else {
            s.filter(keep)
        },
{
    reveal(Seq::filter);
    assert(s.push(e).drop_last() =~= s);
}

/// The slots below `top` in a list that ends in `e`.
pub proof fn lemma_subtree_last(edges: Seq<Edge>, e: Edge, top: usize)
    ensures
        subtree(edges.push(e), top) == if subtree(edges, top).contains(e.0.0) {
            subtree(edges, top).insert(e.1.0)
        } else {
            subtree(edges, top)
        },
{
    assert(edges.push(e).drop_last() =~= edges);
}

/// An edge that a filter lets through ends where an edge of the whole list
/// ends.
pub proof fn lemma_filter_targets(edges: Seq<Edge>, keep: spec_fn(Edge) -> bool, slot: usize)
    ensures
        has_target(edges.filter(keep), slot) ==> has_target(edges, slot),
        (exists|k: int|
            0 <= k < edges.len() && keep(#[trigger] edges[k]) && edges[k].1.0 == slot)
            ==> has_target(edges.filter(keep), slot),
{
    let kept = edges.filter(keep);
    if has_target(kept, slot) {
        let j = choose|j: int| 0 <= j < kept.len() && (#[trigger] kept[j]).1.0 == slot;
        assert(kept.contains(kept[j]));
        edges.lemma_filter_contains_rev(keep, kept[j]);
        let k = choose|k: int| 0 <= k < edges.len() && edges[k] == kept[j];
        assert(edges[k].1.0 == slot);
    }
    if exists|k: int| 0 <= k < edges.len() && keep(#[trigger] edges[k]) && edges[k].1.0 == slot {
        let k = choose|k: int|
            0 <= k < edges.len() && keep(#[trigger] edges[k]) && edges[k].1.0 == slot;
        edges.lemma_filter_contains(keep, k);
        let j = choose|j: int| 0 <= j < kept.len() && kept[j] == edges[k];
        assert(kept[j].1.0 == slot);
    }
}

/// Whether every edge that leaves a slot of `dead` ends in a slot of `dead`.
pub open spec fn closed_under(edges: Seq<Edge>, dead: Set<usize>) -> bool {
    forall|k: int|
        0 <= k < edges.len() && dead.contains((#[trigger] edges[k]).0.0) ==> dead.contains(
            edges[k].1.0,
        )
}

/// A rooted list stays rooted when the edges into a set of slots go, if the
/// edges that leave the set stay within it.
pub proof fn lemma_rooted_outside(edges: Seq<Edge>, root: usize, dead: Set<usize>)
    requires
        rooted(edges, root),
        closed_under(edges, dead),
    ensures
        rooted(edges.filter(outside(dead)), root),
    decreases edges.len(),
{
    reveal(Seq::filter);
    if edges.len() > 0 {
        let older = edges.drop_last();
        let e = edges.last();
        assert(closed_under(older, dead)) by {
            assert forall|k: int|
                0 <= k < older.len() && dead.contains((#[trigger] older[k]).0.0) implies dead.contains(
                older[k].1.0,
            ) by {
                assert(older[k] == edges[k]);
            }
        }
        lemma_rooted_outside(older, root, dead);
        if !dead.contains(e.1.0) {
            let kept = older.filter(outside(dead));
            assert(edges.filter(outside(dead)) == kept.push(e));
            assert(kept.push(e).drop_last() =~= kept);
            lemma_filter_targets(older, outside(dead), e.1.0);
            if e.0.0 != root {
                let j = choose|j: int| 0 <= j < older.len() && (#[trigger] older[j]).1.0 == e.0.0;
                assert(edges[edges.len() - 1] == e);
                assert(!dead.contains(e.0.0));
                assert(outside(dead)(older[j]));
                lemma_filter_targets(older, outside(dead), e.0.0);
            }
        }
    }
}

/// Dropping the edges into one set and then into another drops the edges
/// into their union.
pub proof fn lemma_outside_twice(edges: Seq<Edge>, a: Set<usize>, b: Set<usize>)
    ensures
        edges.filter(outside(a)).filter(outside(b)) == edges.filter(outside(a + b)),
    decreases edges.len(),
{
    reveal(Seq::filter);
    if edges.len() > 0 {
        let older = edges.drop_last();
        let e = edges.last();
        lemma_outside_twice(older, a, b);
        if !a.contains(e.1.0) {
            lemma_filter_last(older.filter(outside(a)), e, outside(b));
        }
    }
}

/// Dropping the edges into no slot drops nothing.
pub proof fn lemma_outside_nothing(edges: Seq<Edge>)
    ensures
        edges.filter(outside(Set::<usize>::empty())) == edges,
    decreases edges.len(),
{
    reveal(Seq::filter);
    if edges.len() > 0 {
        lemma_outside_nothing(edges.drop_last());
        assert(edges.drop_last().push(edges.last()) =~= edges);
    }
}

/// When everything below `cut` goes, what stays below a slot that is not
/// below `cut` is what was below it and not below `cut`.
pub proof fn lemma_subtree_pruned(edges: Seq<Edge>, root: usize, cut: usize, top: usize)
    requires
        rooted(edges, root),
        !subtree(edges, cut).contains(top),
    ensures
        subtree(edges.filter(outside(subtree(edges, cut))), top) == subtree(
            edges,
            top,
        ).difference(subtree(edges, cut)),
    decreases edges.len(),
{
    reveal(Seq::filter);
    let dead = subtree(edges, cut);
    if edges.len() == 0 {
        assert(subtree(edges, top).difference(dead) =~= subtree(edges, top));
    } else {
        let older = edges.drop_last();
        let e = edges.last();
        let dead_older = subtree(older, cut);
        lemma_subtree_pruned(older, root, cut, top);
        lemma_subtree_members(older, cut);
        lemma_subtree_members(older, top);
        assert(older.filter(outside(dead)) == older.filter(outside(dead_older))) by {
            assert forall|k: int| 0 <= k < older.len() implies outside(dead)(#[trigger] older[k])
                == outside(dead_older)(older[k]) by {
                assert(older[k].1.0 != e.1.0);
            }
            lemma_filter_agree(older, outside(dead), outside(dead_older));
        }
        let kept = older.filter(outside(dead_older));
        if dead.contains(e.1.0) {
            assert(edges.filter(outside(dead)) == kept);
            assert(!subtree(older, top).contains(e.1.0));
            assert(subtree(older, top).difference(dead_older) =~= subtree(edges, top).difference(
                dead,
            ));
        } else {
            assert(dead == dead_older);
            assert(edges.filter(outside(dead)) == kept.push(e));
            lemma_subtree_last(kept, e, top);
            assert(subtree(kept.push(e), top) =~= subtree(edges, top).difference(dead));
        }
    }
}

/// Each child of a slot is the far end of an edge that leaves the slot.
pub proof fn lemma_child_has_edge(edges: Seq<Edge>, slot: usize, j: int)
    requires
        0 <= j < children_of(edges, slot).len(),
    ensures
        exists|k: int|
            0 <= k < edges.len() && (#[trigger] edges[k]).0.0 == slot && edges[k].1 == children_of(
                edges,
                slot,
            )[j],
{
    let kept = edges.filter(leaving(slot));
    edges.lemma_filter_pred(leaving(slot), j);
    assert(kept.contains(kept[j]));
    edges.lemma_filter_contains_rev(leaving(slot), kept[j]);
    let k = choose|k: int| 0 <= k < edges.len() && edges[k] == kept[j];
    assert(edges[k].0.0 == slot && edges[k].1 == children_of(edges, slot)[j]);
}

/// The far end of each edge that leaves a slot is a child of the slot.
pub proof fn lemma_edge_has_child(edges: Seq<Edge>, slot: usize, k: int)
    requires
        0 <= k < edges.len(),
        edges[k].0.0 == slot,
    ensures
        exists|j: int|
            0 <= j < children_of(edges, slot).len() && #[trigger] children_of(edges, slot)[j]
                == edges[k].1,
{
    let kept = edges.filter(leaving(slot));
    edges.lemma_filter_contains(leaving(slot), k);
    let j = choose|j: int| 0 <= j < kept.len() && kept[j] == edges[k];
    assert(children_of(edges, slot)[j] == edges[k].1);
}

/// Two slots have a slot below both only if one of them is below the other.
pub proof fn lemma_subtrees_nest(edges: Seq<Edge>, root: usize, a: usize, b: usize, x: usize)
    requires
        rooted(edges, root),
        subtree(edges, a).contains(x),
        subtree(edges, b).contains(x),
    ensures
        subtree(edges, b).contains(a) || subtree(edges, a).contains(b),
    decreases edges.len(),
{
    lemma_subtree_members(edges, a);
    lemma_subtree_members(edges, b);
    if edges.len() > 0 {
        let older = edges.drop_last();
        let e = edges.last();
        lemma_subtree_members(older, a);
        lemma_subtree_members(older, b);
        let in_a = subtree(older, a).contains(x);
        let in_b = subtree(older, b).contains(x);
        if in_a && in_b {
            lemma_subtrees_nest(older, root, a, b, x);
        } else if !in_a && !in_b {
            lemma_subtrees_nest(older, root, a, b, e.0.0);
        } else if in_a {
            assert(x == e.1.0);
            assert(x == a);
        } else {
            assert(x == e.1.0);
            assert(x == b);
        }
    }
}

/// What is below the end of an edge is below its origin, and the origin is
/// not: the end has fewer slots below it than the origin.
pub proof fn lemma_child_below(edges: Seq<Edge>, root: usize, k: int)
    requires
        rooted(edges, root),
        0 <= k < edges.len(),
    ensures
        subtree(edges, edges[k].1.0).subset_of(subtree(edges, edges[k].0.0)),
        !subtree(edges, edges[k].1.0).contains(edges[k].0.0),
        subtree(edges, edges[k].0.0).finite(),
        subtree(edges, edges[k].1.0).len() < subtree(edges, edges[k].0.0).len(),
{
    let top = edges[k].0.0;
    let kid = edges[k].1.0;
    lemma_subtree_members(edges, top);
    lemma_subtree_members(edges, kid);
    lemma_subtree_closed(edges, root, top, k);
    lemma_subtree_transitive(edges, root, top, kid);
    lemma_no_cycle(edges, root, k);
    assert(subtree(edges, kid).subset_of(subtree(edges, top).remove(top)));
    vstd::set_lib::lemma_len_subset(subtree(edges, kid), subtree(edges, top).remove(top));
}

/// Whether no edge leads from a slot below `top` into `dead`.
pub open spec fn apart(edges: Seq<Edge>, dead: Set<usize>, top: usize) -> bool {
    forall|k: int|
        0 <= k < edges.len() && dead.contains((#[trigger] edges[k]).1.0) ==> !subtree(
            edges,
            top,
        ).contains(edges[k].0.0)
}

/// A filter that lets through whatever a second filter lets through changes
/// nothing of what the second one gives.
pub proof fn lemma_filter_subsumed<A>(s: Seq<A>, p: spec_fn(A) -> bool, q: spec_fn(A) -> bool)
    requires
        forall|k: int| 0 <= k < s.len() && q(#[trigger] s[k]) ==> p(s[k]),
    ensures
        s.filter(p).filter(q) == s.filter(q),
    decreases s.len(),
{
    reveal(Seq::filter);
    if s.len() > 0 {
        let older = s.drop_last();
        let e = s.last();
        assert forall|k: int| 0 <= k < older.len() && q(#[trigger] older[k]) implies p(
            older[k],
        ) by {
            assert(older[k] == s[k]);
        }
        lemma_filter_subsumed(older, p, q);
        assert(s[s.len() - 1] == e);
        if p(e) {
            lemma_filter_last(older.filter(p), e, q);
        }
    }
}

/// When no edge leads from below `top` into `dead`, dropping the edges into
/// `dead` leaves the children of `top` as they were.
pub proof fn lemma_children_kept(edges: Seq<Edge>, dead: Set<usize>, top: usize)
    requires
        apart(edges, dead, top),
    ensures
        children_of(edges.filter(outside(dead)), top) == children_of(edges, top),
{
    lemma_subtree_members(edges, top);
    lemma_filter_subsumed(edges, outside(dead), leaving(top));
}

/// The handles that removing `top` frees, in the order they are freed: for
/// each child of `top`, oldest first, the handles that removing the child
/// frees, and then `top`.
pub open spec fn freed_by(edges: Seq<Edge>, root: usize, top: NodeHandle) -> Seq<NodeHandle>
    decreases subtree(edges, top.0).len(), children_of(edges, top.0).len() + 1,
    when rooted(edges, root)
{
    freed_by_children(edges, root, top, children_of(edges, top.0).len()).push(top)
}

/// The handles that removing the first `count` children of `top` frees.
pub open spec fn freed_by_children(
    edges: Seq<Edge>,
    root: usize,
    top: NodeHandle,
    count: nat,
) -> Seq<NodeHandle>
    decreases subtree(edges, top.0).len(), count,
    when rooted(edges, root) && count <= children_of(edges, top.0).len()
{
    if count == 0 {
        Seq::empty()
    } else {
        proof {
            lemma_child_has_edge(edges, top.0, count - 1);
            let k = choose|k: int|
                0 <= k < edges.len() && (#[trigger] edges[k]).0.0 == top.0 && edges[k].1
                    == children_of(edges, top.0)[count - 1];
            lemma_child_below(edges, root, k);
        }
        freed_by_children(edges, root, top, (count - 1) as nat) + freed_by(
            edges,
            root,
            children_of(edges, top.0)[count - 1],
        )
    }
}

/// When no edge leads from below `top` into `dead`, removing `top` frees the
/// same handles in the same order whether or not the edges into `dead` have
/// been dropped.
pub proof fn lemma_freed_by_kept(edges: Seq<Edge>, root: usize, dead: Set<usize>, top: NodeHandle)
    requires
        rooted(edges, root),
        rooted(edges.filter(outside(dead)), root),
        apart(edges, dead, top.0),
    ensures
        freed_by(edges.filter(outside(dead)), root, top) == freed_by(edges, root, top),
    decreases subtree(edges, top.0).len(), children_of(edges, top.0).len() + 1,
{
    lemma_children_kept(edges, dead, top.0);
    lemma_freed_by_children_kept(edges, root, dead, top, children_of(edges, top.0).len());
}

/// The same, for the first `count` children of `top`.
pub proof fn lemma_freed_by_children_kept(
    edges: Seq<Edge>,
    root: usize,
    dead: Set<usize>,
    top: NodeHandle,
    count: nat,
)
    requires
        rooted(edges, root),
        rooted(edges.filter(outside(dead)), root),
        apart(edges, dead, top.0),
        count <= children_of(edges, top.0).len(),
    ensures
        freed_by_children(edges.filter(outside(dead)), root, top, count) == freed_by_children(
            edges,
            root,
            top,
            count,
        ),
    decreases subtree(edges, top.0).len(), count,
{
    lemma_children_kept(edges, dead, top.0);
    if count > 0 {
        let kid = children_of(edges, top.0)[count - 1];
        lemma_child_has_edge(edges, top.0, count - 1);
        let k = choose|k: int|
            0 <= k < edges.len() && (#[trigger] edges[k]).0.0 == top.0 && edges[k].1 == kid;
        lemma_child_below(edges, root, k);
        assert(apart(edges, dead, kid.0));
        lemma_freed_by_children_kept(edges, root, dead, top, (count - 1) as nat);
        lemma_freed_by_kept(edges, root, dead, kid);
    }
}

} // verus!
