//! The mathematical model of the arena: what a `Graph` is, as sequences.

use crate::forest::{children_of, leaving, target};
use crate::handle::{
    avoiding, next_generation, Edge, GraphError, NodeHandle, EDGE_CAPACITY, NODE_CAPACITY,
};
use vstd::prelude::*;

verus! {

/// The state of an arena.
#[verifier::ext_equal]
pub struct GraphView<T> {
    /// Each slot's generation and payload, by slot index. A slot without a
    /// payload is free.
    pub slots: Seq<(usize, Option<T>)>,
    /// The handles of removed nodes whose slots await reuse, oldest first.
    pub free: Seq<NodeHandle>,
    /// The edges, oldest first.
    pub edges: Seq<Edge>,
}

impl<T> GraphView<T> {
    /// The arena with no slots and no edges.
    pub open spec fn empty() -> Self {
        GraphView { slots: Seq::empty(), free: Seq::empty(), edges: Seq::empty() }
    }

    /// Whether slot `i` exists and holds a payload.
    pub open spec fn occupied(self, i: usize) -> bool {
        i < self.slots.len() && self.slots[i as int].1 is Some
    }

    /// Whether `h` names a node: its slot exists, carries the handle's
    /// generation, and holds a payload.
    pub open spec fn is_live(self, h: NodeHandle) -> bool {
        self.occupied(h.0) && self.slots[h.0 as int].0 == h.1
    }

    /// Whether `h` carries an older generation than its slot has now.
    pub open spec fn is_stale(self, h: NodeHandle) -> bool {
        h.0 < self.slots.len() && h.1 < self.slots[h.0 as int].0
    }

    /// What looking up `h` yields: the payload of a live handle, and
    /// `GenerationMismatch` for every other handle, be its slot missing, under
    /// another generation, or empty.
    pub open spec fn lookup(self, h: NodeHandle) -> Result<T, GraphError> {
        if self.is_live(h) {
            Ok(self.slots[h.0 as int].1->Some_0)
        } else {
            Err(GraphError::GenerationMismatch)
        }
    }

    /// The slots that hold a payload.
    pub open spec fn live_slots(self) -> Set<usize> {
        Set::new(|i: usize| self.occupied(i))
    }

    /// What holds of every arena: the stores are within their capacities, and
    /// the free list names each empty slot exactly once, under the generation
    /// the slot had before it was freed.
    pub open spec fn inv(self) -> bool {
        &&& self.slots.len() <= NODE_CAPACITY
        &&& self.edges.len() <= EDGE_CAPACITY
        &&& forall|k: int|
            0 <= k < self.free.len() ==> {
                &&& (#[trigger] self.free[k]).0 < self.slots.len()
                &&& self.slots[self.free[k].0 as int] == (
                    next_generation(self.free[k].1),
                    None::<T>,
                )
            }
        &&& forall|j: int, k: int|
            0 <= j < k < self.free.len() ==> (#[trigger] self.free[j]).0 != (
            #[trigger] self.free[k]).0
        &&& forall|i: int|
            0 <= i < self.slots.len() && (#[trigger] self.slots[i]).1 is None ==> exists|k: int|
                0 <= k < self.free.len() && (#[trigger] self.free[k]).0 == i
    }

    /// Whether an insertion finds a slot.
    pub open spec fn has_room(self) -> bool {
        self.free.len() > 0 || self.slots.len() < NODE_CAPACITY
    }

    /// The handle the next insertion returns: the slot at the front of the
    /// free list under its next generation, or a new slot at the end under
    /// generation 0.
    pub open spec fn next_handle(self) -> NodeHandle {
        if self.free.len() > 0 {
            (self.free[0].0, next_generation(self.free[0].1))
        } else {
            (self.slots.len() as usize, 0)
        }
    }

    /// The arena after `value` is inserted.
    pub open spec fn inserted(self, value: T) -> Self {
        let h = self.next_handle();
        if self.free.len() > 0 {
            GraphView {
                slots: self.slots.update(h.0 as int, (h.1, Some(value))),
                free: self.free.remove(0),
                edges: self.edges,
            }
        } else {
            GraphView {
                slots: self.slots.push((h.1, Some(value))),
                free: self.free,
                edges: self.edges,
            }
        }
    }

    /// The arena with `value` as the payload of the live handle `h`.
    pub open spec fn with_payload(self, h: NodeHandle, value: T) -> Self {
        GraphView {
            slots: self.slots.update(h.0 as int, (h.1, Some(value))),
            free: self.free,
            edges: self.edges,
        }
    }

    /// The arena after the live handle `h` is removed: its slot is emptied
    /// and moves to the next generation, `h` joins the back of the free list,
    /// and every edge with an endpoint in the slot is gone.
    pub open spec fn removed(self, h: NodeHandle) -> Self {
        GraphView {
            slots: self.slots.update(h.0 as int, (next_generation(h.1), None)),
            free: self.free.push(h),
            edges: self.edges.filter(avoiding(h.0)),
        }
    }

    /// The arena after every edge with an endpoint in `slot` is dropped.
    pub open spec fn disconnected(self, slot: usize) -> Self {
        GraphView { slots: self.slots, free: self.free, edges: self.edges.filter(avoiding(slot)) }
    }

    /// The arena after the edge `(from, to)` is added.
    pub open spec fn connected(self, from: NodeHandle, to: NodeHandle) -> Self {
        GraphView { slots: self.slots, free: self.free, edges: self.edges.push((from, to)) }
    }

    /// The far ends of the edges that leave `slot`, in edge order.
    pub open spec fn neighbors(self, slot: usize) -> Seq<NodeHandle> {
        children_of(self.edges, slot)
    }

    /// The slots after every occupied slot of `dead` is emptied and moved to
    /// its next generation.
    pub open spec fn cleared(self, dead: Set<usize>) -> Seq<(usize, Option<T>)> {
        Seq::new(
            self.slots.len(),
            |i: int|
                if dead.contains(i as usize) {
                    (next_generation(self.slots[i].0), None)
                } else {
                    self.slots[i]
                },
        )
    }

    /// Whether `later` has every slot of `self`, none under a smaller
    /// generation.
    pub open spec fn precedes(self, later: Self) -> bool {
        &&& self.slots.len() <= later.slots.len()
        &&& forall|i: int|
            0 <= i < self.slots.len() ==> self.slots[i].0 <= (#[trigger] later.slots[i]).0
    }
}

/// Whether two payload tables have the same length and the same empty slots.
pub open spec fn same_occupancy<T>(a: Seq<Option<T>>, b: Seq<Option<T>>) -> bool {
    &&& a.len() == b.len()
    &&& forall|i: int| 0 <= i < a.len() ==> (a[i] is None <==> (#[trigger] b[i]) is None)
}

/// Of the slots, the arena invariant speaks of generations and of which are
/// empty only: an arena within its edge capacity that agrees with a sound one
/// on both, and on the free list, is sound.
pub proof fn lemma_same_occupancy_inv<T>(s: GraphView<T>, t: GraphView<T>)
    requires
        s.inv(),
        t.free == s.free,
        t.edges.len() <= EDGE_CAPACITY,
        t.slots.len() == s.slots.len(),
        forall|i: int|
            0 <= i < s.slots.len() ==> {
                &&& (#[trigger] t.slots[i]).0 == s.slots[i].0
                &&& (t.slots[i].1 is None <==> s.slots[i].1 is None)
            },
    ensures
        t.inv(),
{
    assert forall|x: int|
        0 <= x < t.slots.len() && (#[trigger] t.slots[x]).1 is None implies exists|k: int|
        0 <= k < t.free.len() && (#[trigger] t.free[k]).0 == x by {
        assert(s.slots[x].1 is None);
        let k0 = choose|k: int| 0 <= k < s.free.len() && (#[trigger] s.free[k]).0 == x;
        assert(t.free[k0].0 == x);
    }
    assert forall|k: int| 0 <= k < t.free.len() implies {
        &&& (#[trigger] t.free[k]).0 < t.slots.len()
        &&& t.slots[t.free[k].0 as int] == (next_generation(t.free[k].1), None::<T>)
    } by {
        let i = s.free[k].0 as int;
        assert(s.slots[i] == (next_generation(s.free[k].1), None::<T>));
        assert(t.slots[i].0 == s.slots[i].0);
    }
}

/// Inserting into an arena that has room keeps the arena invariant.
pub proof fn lemma_inserted_inv<T>(s: GraphView<T>, value: T)
    requires
        s.inv(),
        s.has_room(),
    ensures
        s.inserted(value).inv(),
{
    let t = s.inserted(value);
    if s.free.len() > 0 {
        assert forall|k: int| 0 <= k < t.free.len() implies {
            &&& (#[trigger] t.free[k]).0 < t.slots.len()
            &&& t.slots[t.free[k].0 as int] == (next_generation(t.free[k].1), None::<T>)
        } by {
            assert(t.free[k] == s.free[k + 1]);
        }
        assert forall|j: int, k: int| 0 <= j < k < t.free.len() implies (#[trigger] t.free[j]).0
            != (#[trigger] t.free[k]).0 by {
            assert(t.free[j] == s.free[j + 1]);
            assert(t.free[k] == s.free[k + 1]);
        }
        assert forall|x: int|
            0 <= x < t.slots.len() && (#[trigger] t.slots[x]).1 is None implies exists|k: int|
            0 <= k < t.free.len() && (#[trigger] t.free[k]).0 == x by {
            assert(s.slots[x].1 is None);
            let k0 = choose|k: int| 0 <= k < s.free.len() && (#[trigger] s.free[k]).0 == x;
            assert(k0 != 0);
            assert(t.free[k0 - 1] == s.free[k0]);
        }
    } else {
        assert forall|x: int|
            0 <= x < t.slots.len() && (#[trigger] t.slots[x]).1 is None implies exists|k: int|
            0 <= k < t.free.len() && (#[trigger] t.free[k]).0 == x by {
            assert(s.slots[x].1 is None);
        }
    }
}

/// The slot indices below `n`.
pub open spec fn slots_below(n: nat) -> Set<usize> {
    Set::new(|i: usize| i < n)
}

/// There are `n` slot indices below `n`.
pub proof fn lemma_slots_below(n: nat)
    requires
        n <= usize::MAX,
    ensures
        slots_below(n).finite(),
        slots_below(n).len() == n,
    decreases n,
{
    if n == 0 {
        assert(slots_below(n) =~= Set::<usize>::empty());
    } else {
        lemma_slots_below((n - 1) as nat);
        assert(slots_below(n) =~= slots_below((n - 1) as nat).insert((n - 1) as usize));
    }
}

/// The slot index of a handle.
pub open spec fn slot_of() -> spec_fn(NodeHandle) -> usize {
    |h: NodeHandle| h.0
}

/// Every slot is either occupied or named once by the free list: the two
/// counts add up to the number of slots.
pub proof fn lemma_free_count<T>(s: GraphView<T>)
    requires
        s.inv(),
    ensures
        s.live_slots().finite(),
        s.free.len() + s.live_slots().len() == s.slots.len(),
{
    let n = s.slots.len();
    let indices = s.free.map_values(slot_of());
    assert(indices.no_duplicates()) by {
        assert forall|i: int, j: int|
            0 <= i < indices.len() && 0 <= j < indices.len() && i != j implies indices[i]
            != indices[j] by {
            assert(indices[i] == s.free[i].0);
            assert(indices[j] == s.free[j].0);
            if i < j {
                assert(s.free[i].0 != s.free[j].0);
            } else {
                assert(s.free[j].0 != s.free[i].0);
            }
        }
    }
    indices.unique_seq_to_set();
    let freed = indices.to_set();
    let live = s.live_slots();
    lemma_slots_below(n);
    assert(freed + live =~= slots_below(n)) by {
        assert forall|i: usize| slots_below(n).contains(i) implies (freed + live).contains(i) by {
            if s.slots[i as int].1 is None {
                let k = choose|k: int| 0 <= k < s.free.len() && (#[trigger] s.free[k]).0 == i;
                assert(indices[k] == i);
                assert(indices.contains(i));
            }
        }
        assert forall|i: usize| (freed + live).contains(i) implies slots_below(n).contains(i) by {
            if freed.contains(i) {
                let k = choose|k: int| 0 <= k < indices.len() && indices[k] == i;
                assert(s.free[k].0 == i);
            }
        }
    }
    assert(freed.disjoint(live)) by {
        assert forall|i: usize| freed.contains(i) implies !live.contains(i) by {
            let k = choose|k: int| 0 <= k < indices.len() && indices[k] == i;
            assert(s.free[k].0 == i);
        }
    }
    assert(live.subset_of(slots_below(n)));
    vstd::set_lib::lemma_len_subset(live, slots_below(n));
    vstd::set_lib::lemma_set_disjoint_lens(freed, live);
}

/// While a node is live the free list has fewer entries than there are slots.
pub proof fn lemma_free_room<T>(s: GraphView<T>, h: NodeHandle)
    requires
        s.inv(),
        s.is_live(h),
    ensures
        s.free.len() < s.slots.len(),
{
    lemma_free_count(s);
    assert(s.live_slots().contains(h.0));
    if s.live_slots().len() == 0 {
        s.live_slots().lemma_len0_is_empty();
    }
}

/// Removing a live handle keeps the arena invariant.
pub proof fn lemma_removed_inv<T>(s: GraphView<T>, h: NodeHandle)
    requires
        s.inv(),
        s.is_live(h),
    ensures
        s.removed(h).inv(),
{
    let t = s.removed(h);
    s.edges.lemma_filter_len(avoiding(h.0));
    assert forall|k: int| 0 <= k < t.free.len() implies {
        &&& (#[trigger] t.free[k]).0 < t.slots.len()
        &&& t.slots[t.free[k].0 as int] == (next_generation(t.free[k].1), None::<T>)
    } by {
        if k < s.free.len() {
            assert(t.free[k] == s.free[k]);
            assert(s.free[k].0 != h.0);
        }
    }
    assert forall|j: int, k: int| 0 <= j < k < t.free.len() implies (#[trigger] t.free[j]).0 != (
    #[trigger] t.free[k]).0 by {
        assert(t.free[j] == s.free[j]);
        if k < s.free.len() {
            assert(t.free[k] == s.free[k]);
        } else {
            assert(s.free[j].0 != h.0);
        }
    }
    assert forall|x: int|
        0 <= x < t.slots.len() && (#[trigger] t.slots[x]).1 is None implies exists|k: int|
        0 <= k < t.free.len() && (#[trigger] t.free[k]).0 == x by {
        if x == h.0 {
            assert(t.free[s.free.len() as int].0 == x);
        } else {
            assert(s.slots[x].1 is None);
            let k0 = choose|k: int| 0 <= k < s.free.len() && (#[trigger] s.free[k]).0 == x;
            assert(t.free[k0].0 == x);
        }
    }
}

/// Filtering one more item: the item joins the back of what the items before
/// it gave, or is left out.
pub proof fn lemma_filter_step<A>(s: Seq<A>, keep: spec_fn(A) -> bool, i: int)
    requires
        0 <= i < s.len(),
    ensures
        s.take(i + 1).filter(keep) == if keep(s[i]) {
            s.take(i).filter(keep).push(s[i])
        } else {
            s.take(i).filter(keep)
        },
{
    reveal(Seq::filter);
    assert(s.take(i + 1).drop_last() =~= s.take(i));
}

/// Every item that a filter lets through meets the filter.
pub proof fn lemma_filter_holds<A>(s: Seq<A>, keep: spec_fn(A) -> bool)
    ensures
        forall|k: int| 0 <= k < s.filter(keep).len() ==> keep(#[trigger] s.filter(keep)[k]),
    decreases s.len(),
{
    reveal(Seq::filter);
    if s.len() > 0 {
        lemma_filter_holds(s.drop_last(), keep);
    }
}

/// The neighbors of a slot once the edge `(from, to)` is added.
pub proof fn lemma_neighbors_last<T>(s: GraphView<T>, from: NodeHandle, to: NodeHandle, slot: usize)
    ensures
        s.connected(from, to).neighbors(slot) == if from.0 == slot {
            s.neighbors(slot).push(to)
        } else {
            s.neighbors(slot)
        },
{
    reveal(Seq::filter);
    assert(s.edges.push((from, to)).drop_last() =~= s.edges);
    if from.0 == slot {
        assert(s.edges.filter(leaving(slot)).push((from, to)).map_values(target())
            =~= s.edges.filter(leaving(slot)).map_values(target()).push(to));
    }
}

} // verus!
