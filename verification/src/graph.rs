//! The arena: slots addressed by generational handles, a free list that hands
//! freed slots out again oldest first, and a flat list of directed edges.

use crate::handle::{
    avoiding, avoids_slot, bump, joins, runs, GraphError, NodeHandle, EDGE_CAPACITY,
    NODE_CAPACITY,
};
use crate::forest::{leaving, target};
use crate::model::{
    lemma_filter_holds, lemma_filter_step, lemma_free_count, lemma_free_room,
    lemma_inserted_inv, lemma_neighbors_last, lemma_removed_inv, lemma_same_occupancy_inv,
    same_occupancy, GraphView,
};
use crate::store::{
    edge_items, edges_at, edges_len, edges_new, edges_push, edges_retain_avoiding, free_items,
    free_len, free_new, free_push, free_remove, generation_items, generations_at,
    generations_new, generations_push, generations_set, EdgeList, FreeList, GenerationTable,
};
use vstd::prelude::*;

verus! {

/// A graph of at most `NODE_CAPACITY` nodes that carry a `T` each.
pub struct Graph<T> {
    free: FreeList,
    generations: GenerationTable,
    payloads: Vec<Option<T>>,
    connections: EdgeList,
}

/// The slots made of a generation and a payload each.
pub open spec fn slot_table<T>(generations: Seq<usize>, payloads: Seq<Option<T>>) -> Seq<
    (usize, Option<T>),
> {
    Seq::new(payloads.len(), |i: int| (generations[i], payloads[i]))
}

impl<T> View for Graph<T> {
    type V = GraphView<T>;

    closed spec fn view(&self) -> GraphView<T> {
        GraphView {
            slots: slot_table(generation_items(self.generations), self.payloads@),
            free: free_items(self.free),
            edges: edge_items(self.connections),
        }
    }
}

impl<T> Graph<T> {
    /// Whether the graph's stores agree with each other. Every graph that
    /// this module hands out is well formed.
    pub closed spec fn wf(&self) -> bool {
        &&& generation_items(self.generations).len() == self.payloads@.len()
        &&& self@.inv()
    }

    /// A well-formed graph's view meets the arena invariant.
    pub proof fn lemma_wf_inv(&self)
        requires
            self.wf(),
        ensures
            self@.inv(),
    {
    }

    /// The graph with no nodes and no edges.
    pub fn new() -> (g: Self)
        ensures
            g.wf(),
            g@ == GraphView::<T>::empty(),
    {
        let g = Graph {
            free: free_new(),
            generations: generations_new(),
            payloads: Vec::with_capacity(NODE_CAPACITY),
            connections: edges_new(),
        };
        assert(g@.slots =~= Seq::empty());
        g
    }

    /// Stores `value` in a slot and returns the handle that names it.
    ///
    /// The oldest entry of the free list is reused, under its next
    /// generation; with an empty free list a new slot is added under
    /// generation 0. With an empty free list and `NODE_CAPACITY` slots in use
    /// the graph is left as it was and `CapacityExceeded` is returned.
    pub fn insert(&mut self, value: T) -> (r: Result<NodeHandle, GraphError>)
        requires
            old(self).wf(),
        ensures
            final(self).wf(),
            match r {
                Ok(h) => {
                    &&& old(self)@.has_room()
                    &&& h == old(self)@.next_handle()
                    &&& final(self)@ == old(self)@.inserted(value)
                },
                Err(e) => {
                    &&& e == GraphError::CapacityExceeded
                    &&& !old(self)@.has_room()
                    &&& final(self)@ == old(self)@
                },
            },
    {
        if free_len(&self.free) == 0 {
            let index: usize = self.payloads.len();
            if index >= NODE_CAPACITY {
                return Err(GraphError::CapacityExceeded);
            }
            generations_push(&mut self.generations, 0);
            self.payloads.push(Some(value));
            proof {
                assert(self@.slots =~= old(self)@.slots.push((0usize, Some(value))));
                assert(self@ == old(self)@.inserted(value));
                lemma_inserted_inv(old(self)@, value);
            }
            Ok((index, 0))
        } else {
            let n = free_remove(&mut self.free, 0);
            let g: usize = bump(n.1);
            proof {
                assert(old(self)@.free[0] == n);
            }
            generations_set(&mut self.generations, n.0, g);
            self.payloads[n.0] = Some(value);
            proof {
                assert(self@.slots =~= old(self)@.slots.update(n.0 as int, (g, Some(value))));
                assert(self@ == old(self)@.inserted(value));
                lemma_inserted_inv(old(self)@, value);
            }
            Ok((n.0, g))
        }
    }

    /// The payload that `n` names.
    ///
    /// A handle that is not live gives `GenerationMismatch`: one whose slot
    /// does not exist, carries another generation, or is empty.
    pub fn get(&self, n: NodeHandle) -> (r: Result<&T, GraphError>)
        requires
            self.wf(),
        ensures
            match r {
                Ok(value) => self@.lookup(n) == Ok::<T, GraphError>(*value),
                Err(e) => self@.lookup(n) == Err::<T, GraphError>(e),
            },
    {
        let index: usize = n.0;
        if index < self.payloads.len() && generations_at(&self.generations, index) == n.1 {
            match &self.payloads[index] {
                Some(value) => Ok(value),
                None => Err(GraphError::GenerationMismatch),
            }
        } else {
            Err(GraphError::GenerationMismatch)
        }
    }

    /// The payload that `n` names, to be changed in place.
    ///
    /// The errors are those of `get`. Whatever is written through the
    /// reference becomes the node's payload; nothing else changes.
    pub fn get_mut(&mut self, n: NodeHandle) -> (r: Result<&mut T, GraphError>)
        requires
            old(self).wf(),
        ensures
            final(self).wf(),
            match r {
                Ok(value) => {
                    &&& old(self)@.lookup(n) == Ok::<T, GraphError>(*value)
                    &&& final(self)@ == old(self)@.with_payload(n, *final(value))
                },
                Err(e) => {
                    &&& old(self)@.lookup(n) == Err::<T, GraphError>(e)
                    &&& final(self)@ == old(self)@
                },
            },
    {
        let index: usize = n.0;
        proof {
            let generations = generation_items(self.generations);
            let before = self@;
            assert forall|payloads: Seq<Option<T>>|
                same_occupancy(self.payloads@, payloads) implies (GraphView {
                    slots: #[trigger] slot_table(generations, payloads),
                    free: before.free,
                    edges: before.edges,
                }).inv() by {
                let after = GraphView {
                    slots: slot_table(generations, payloads),
                    free: before.free,
                    edges: before.edges,
                };
                lemma_same_occupancy_inv(before, after);
            }
        }
        if index < self.payloads.len() && generations_at(&self.generations, index) == n.1 {
            match &mut self.payloads[index] {
                Some(value) => Ok(value),
                None => Err(GraphError::GenerationMismatch),
            }
        } else {
            Err(GraphError::GenerationMismatch)
        }
    }

    /// Adds the directed edge `parent -> child` behind the edges that are
    /// there, so `child` becomes the last neighbor of the slot of `parent`.
    /// Neither handle is looked at: the edge is stored as given.
    pub fn directed_connect(&mut self, parent: NodeHandle, child: NodeHandle)
        requires
            old(self).wf(),
            old(self)@.edges.len() < EDGE_CAPACITY,
        ensures
            final(self).wf(),
            final(self)@ == old(self)@.connected(parent, child),
            final(self)@.neighbors(parent.0) == old(self)@.neighbors(parent.0).push(child),
            forall|slot: usize|
                slot != parent.0 ==> #[trigger] final(self)@.neighbors(slot) == old(
                    self,
                )@.neighbors(slot),
    {
        edges_push(&mut self.connections, (parent, child));
        proof {
            lemma_same_occupancy_inv(old(self)@, self@);
            let before = old(self)@;
            assert forall|slot: usize|
                before.connected(parent, child).neighbors(slot) == if parent.0 == slot {
                    before.neighbors(slot).push(child)
                } else {
                    before.neighbors(slot)
                } by {
                lemma_neighbors_last(before, parent, child, slot);
            }
        }
    }

    /// Adds the two directed edges `a -> b` and `b -> a`, in that order.
    /// Neither handle is looked at.
    pub fn connect(&mut self, a: NodeHandle, b: NodeHandle)
        requires
            old(self).wf(),
            old(self)@.edges.len() + 2 <= EDGE_CAPACITY,
        ensures
            final(self).wf(),
            final(self)@ == old(self)@.connected(a, b).connected(b, a),
    {
        edges_push(&mut self.connections, (a, b));
        edges_push(&mut self.connections, (b, a));
        proof {
            lemma_same_occupancy_inv(old(self)@, self@);
        }
    }

    /// Drops every edge that has an endpoint in the slot of `n`, whatever the
    /// generations. The order of the edges that stay is kept.
    pub fn disconnect(&mut self, n: NodeHandle)
        requires
            old(self).wf(),
        ensures
            final(self).wf(),
            final(self)@ == old(self)@.disconnected(n.0),
            forall|k: int|
                0 <= k < final(self)@.edges.len() ==> avoids_slot(
                    #[trigger] final(self)@.edges[k],
                    n.0,
                ),
    {
        proof {
            self@.edges.lemma_filter_len(avoiding(n.0));
            lemma_filter_holds(self@.edges, avoiding(n.0));
        }
        edges_retain_avoiding(&mut self.connections, n.0);
        proof {
            lemma_same_occupancy_inv(old(self)@, self@);
        }
    }

    /// Whether an edge runs between the slots of `a` and `b`, in either
    /// direction. Generations are not compared, and neither handle needs to be
    /// live.
    pub fn is_connected(&mut self, a: NodeHandle, b: NodeHandle) -> (r: bool)
        requires
            old(self).wf(),
        ensures
            final(self).wf(),
            final(self)@ == old(self)@,
            r <==> exists|k: int|
                0 <= k < old(self)@.edges.len() && joins(#[trigger] old(self)@.edges[k], a.0, b.0),
    {
        let len: usize = edges_len(&self.connections);
        let mut i: usize = 0;
        while i < len
            invariant
                *self == *old(self),
                self.wf(),
                i <= len,
                len == self@.edges.len(),
                forall|k: int| 0 <= k < i ==> !joins(#[trigger] self@.edges[k], a.0, b.0),
            decreases len - i,
        {
            let e = edges_at(&self.connections, i);
            if (e.0.0 == a.0 && e.1.0 == b.0) || (e.1.0 == a.0 && e.0.0 == b.0) {
                assert(joins(self@.edges[i as int], a.0, b.0));
                return true;
            }
            i += 1;
        }
        false
    }

    /// Whether an edge runs from the slot of `parent` to the slot of `child`.
    /// Generations are not compared, and neither handle needs to be live.
    pub fn is_directed_connected(&mut self, parent: NodeHandle, child: NodeHandle) -> (r: bool)
        requires
            old(self).wf(),
        ensures
            final(self).wf(),
            final(self)@ == old(self)@,
            r <==> exists|k: int|
                0 <= k < old(self)@.edges.len() && runs(
                    #[trigger] old(self)@.edges[k],
                    parent.0,
                    child.0,
                ),
    {
        let len: usize = edges_len(&self.connections);
        let mut i: usize = 0;
        while i < len
            invariant
                *self == *old(self),
                self.wf(),
                i <= len,
                len == self@.edges.len(),
                forall|k: int| 0 <= k < i ==> !runs(#[trigger] self@.edges[k], parent.0, child.0),
            decreases len - i,
        {
            let e = edges_at(&self.connections, i);
            if e.0.0 == parent.0 && e.1.0 == child.0 {
                assert(runs(self@.edges[i as int], parent.0, child.0));
                return true;
            }
            i += 1;
        }
        false
    }

    /// The far ends of the edges that leave the slot of `n`, in the order the
    /// edges were added. Generations are not compared.
    pub fn neighbors(&self, n: NodeHandle) -> (r: Vec<NodeHandle>)
        requires
            self.wf(),
        ensures
            r@ == self@.neighbors(n.0),
    {
        let mut out: Vec<NodeHandle> = Vec::new();
        let len: usize = edges_len(&self.connections);
        let mut i: usize = 0;
        proof {
            reveal(Seq::filter);
            assert(edge_items(self.connections).take(0).filter(leaving(n.0)) =~= Seq::empty());
        }
        while i < len
            invariant
                i <= len,
                len == edge_items(self.connections).len(),
                out@ == edge_items(self.connections).take(i as int).filter(
                    leaving(n.0),
                ).map_values(target()),
            decreases len - i,
        {
            let e = edges_at(&self.connections, i);
            proof {
                lemma_filter_step(edge_items(self.connections), leaving(n.0), i as int);
            }
            if e.0.0 == n.0 {
                out.push(e.1);
            }
            i += 1;
        }
        proof {
            assert(edge_items(self.connections).take(len as int) =~= edge_items(
                self.connections,
            ));
        }
        out
    }

    /// Removes the node that `n` names and returns its payload.
    ///
    /// The slot is emptied and moves to its next generation, `n` joins the
    /// back of the free list, and every edge with an endpoint in the slot is
    /// dropped. A handle that is not live leaves the graph as it was and gives
    /// `GenerationMismatch`.
    pub fn remove(&mut self, n: NodeHandle) -> (r: Result<T, GraphError>)
        requires
            old(self).wf(),
        ensures
            final(self).wf(),
            r == old(self)@.lookup(n),
            match r {
                Ok(value) => {
                    &&& old(self)@.is_live(n)
                    &&& final(self)@ == old(self)@.removed(n)
                    &&& final(self)@.lookup(n) == Err::<T, GraphError>(
                        GraphError::GenerationMismatch,
                    )
                    &&& forall|k: int|
                        0 <= k < final(self)@.edges.len() ==> avoids_slot(
                            #[trigger] final(self)@.edges[k],
                            n.0,
                        )
                },
                Err(e) => {
                    &&& e == GraphError::GenerationMismatch
                    &&& !old(self)@.is_live(n)
                    &&& final(self)@ == old(self)@
                },
            },
    {
        let index: usize = n.0;
        if index >= self.payloads.len() || generations_at(&self.generations, index) != n.1
            || self.payloads[index].is_none() {
            return Err(GraphError::GenerationMismatch);
        }
        proof {
            lemma_free_room(old(self)@, n);
            lemma_removed_inv(old(self)@, n);
        }
        let taken = self.payloads[index].take();
        generations_set(&mut self.generations, index, bump(n.1));
        free_push(&mut self.free, n);
        proof {
            assert(self@.slots =~= old(self)@.removed(n).slots);
            lemma_same_occupancy_inv(old(self)@.removed(n), self@);
        }
        self.disconnect(n);
        Ok(taken.unwrap())
    }

    /// The number of nodes.
    pub fn node_count(&self) -> (n: usize)
        requires
            self.wf(),
        ensures
            n == self@.live_slots().len(),
    {
        proof {
            lemma_free_count(self@);
        }
        self.payloads.len() - free_len(&self.free)
    }

    /// The number of edges.
    pub fn edge_count(&self) -> (n: usize)
        requires
            self.wf(),
        ensures
            n == self@.edges.len(),
    {
        edges_len(&self.connections)
    }
}

} // verus!
