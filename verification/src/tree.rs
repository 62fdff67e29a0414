//! A rooted tree whose nodes live in an arena: a child hangs from its parent
//! by one directed edge, the root is never removed, and removing a node
//! removes everything below it.

use crate::forest::{
    children_of, descendants, freed_by_children, lemma_outside_nothing, lemma_subtree_members,
    rooted, subtree,
};
use crate::graph::Graph;
use crate::handle::{avoids_slot, GraphError, NodeHandle};
use crate::laws::{law_cascade_is_complete, law_root_is_below_no_node};
use crate::model::{lemma_free_count, lemma_neighbors_last, GraphView};
use crate::shape::{
    cut_off, lemma_attached_sound, lemma_child_done, lemma_child_step, lemma_last_step,
    lemma_tree_edge_count, lemma_with_payload_sound, partly_cut, sound_tree,
};
use vstd::prelude::*;

verus! {

/// A tree of at most `NODE_CAPACITY` nodes that carry a `T` each.
pub struct Tree<T> {
    graph: Graph<T>,
    root: NodeHandle,
}

impl<T> View for Tree<T> {
    type V = GraphView<T>;

    closed spec fn view(&self) -> GraphView<T> {
        self.graph@
    }
}

impl<T> Tree<T> {
    /// The handle of the root.
    pub closed spec fn root_handle(&self) -> NodeHandle {
        self.root
    }

    /// Whether the tree's arena is well formed and holds a sound tree. Every
    /// tree that this module hands out is well formed.
    pub closed spec fn wf(&self) -> bool {
        &&& self.graph.wf()
        &&& sound_tree(self.graph@, self.root)
    }

    /// A well-formed tree's view is a sound tree under its root.
    pub proof fn lemma_wf_sound(&self)
        requires
            self.wf(),
        ensures
            sound_tree(self@, self.root_handle()),
    {
    }

    /// The tree whose only node is a root that carries `root_value`. The
    /// root takes slot 0 under generation 0.
    pub fn new(root_value: T) -> (t: Self)
        ensures
            t.wf(),
            t.root_handle() == (0usize, 0usize),
            t@ == GraphView::<T>::empty().inserted(root_value),
    {
        let mut graph: Graph<T> = Graph::new();
        let inserted = graph.insert(root_value);
        let root = inserted.unwrap();
        proof {
            assert(rooted(graph@.edges, root.0));
        }
        Tree { graph, root }
    }

    /// The handle of the root.
    pub fn root(&self) -> (h: NodeHandle)
        ensures
            h == self.root_handle(),
    {
        self.root
    }

    /// The number of nodes, the root among them.
    pub fn node_count(&self) -> (n: usize)
        requires
            self.wf(),
        ensures
            n == self@.live_slots().len(),
            n == self@.edges.len() + 1,
    {
        proof {
            lemma_tree_edge_count(self.graph@, self.root);
        }
        self.graph.node_count()
    }

    /// The number of edges.
    pub fn edge_count(&self) -> (n: usize)
        requires
            self.wf(),
        ensures
            n == self@.edges.len(),
    {
        self.graph.edge_count()
    }

    /// The payload that `node` names; the errors are those of `Graph::get`.
    pub fn get(&self, node: NodeHandle) -> (r: Result<&T, GraphError>)
        requires
            self.wf(),
        ensures
            match r {
                Ok(value) => self@.lookup(node) == Ok::<T, GraphError>(*value),
                Err(e) => self@.lookup(node) == Err::<T, GraphError>(e),
            },
    {
        self.graph.get(node)
    }

    /// The children of `parent`, in the order they were attached: the far
    /// ends of the edges that leave the slot of `parent`.
    pub fn children(&self, parent: NodeHandle) -> (r: Vec<NodeHandle>)
        requires
            self.wf(),
        ensures
            r@ == self@.neighbors(parent.0),
    {
        self.graph.neighbors(parent)
    }

    /// Inserts `value` as a new node and hangs it from `parent` as its last
    /// child.
    ///
    /// `parent` is looked up first: a handle that is not live leaves the tree
    /// as it was and gives `GenerationMismatch`. With a live parent and no
    /// room for a node the tree is left as it was and `CapacityExceeded` is
    /// returned.
    pub fn attach(&mut self, parent: NodeHandle, value: T) -> (r: Result<NodeHandle, GraphError>)
        requires
            old(self).wf(),
        ensures
            final(self).wf(),
            final(self).root_handle() == old(self).root_handle(),
            match r {
                Ok(h) => {
                    &&& old(self)@.is_live(parent)
                    &&& old(self)@.has_room()
                    &&& h == old(self)@.next_handle()
                    &&& final(self)@ == old(self)@.inserted(value).connected(parent, h)
                    &&& final(self)@.neighbors(parent.0) == old(self)@.neighbors(parent.0).push(h)
                    &&& forall|slot: usize|
                        slot != parent.0 ==> #[trigger] final(self)@.neighbors(slot) == old(
                            self,
                        )@.neighbors(slot)
                },
                Err(e) => {
                    &&& final(self)@ == old(self)@
                    &&& if old(self)@.is_live(parent) {
                        e == GraphError::CapacityExceeded && !old(self)@.has_room()
                    } else {
                        e == GraphError::GenerationMismatch
                    }
                },
            },
    {
        match self.graph.get(parent) {
            Err(e) => {
                return Err(e);
            },
            Ok(_) => {},
        }
        proof {
            lemma_tree_edge_count(self.graph@, self.root);
            lemma_free_count(self.graph@);
            if self.graph@.has_room() {
                lemma_attached_sound(self.graph@, self.root, parent, value);
                let mid = self.graph@.inserted(value);
                let h = self.graph@.next_handle();
                assert forall|slot: usize|
                    mid.connected(parent, h).neighbors(slot) == if parent.0 == slot {
                        mid.neighbors(slot).push(h)
                    } else {
                        mid.neighbors(slot)
                    } by {
                    lemma_neighbors_last(mid, parent, h, slot);
                }
            }
        }
        match self.graph.insert(value) {
            Err(e) => Err(e),
            Ok(h) => {
                self.graph.directed_connect(parent, h);
                Ok(h)
            },
        }
    }

    /// The payload that `node` names, to be changed in place; the errors are
    /// those of `get`.
    pub fn get_mut(&mut self, node: NodeHandle) -> (r: Result<&mut T, GraphError>)
        requires
            old(self).wf(),
        ensures
            final(self).wf(),
            final(self).root_handle() == old(self).root_handle(),
            match r {
                Ok(value) => {
                    &&& old(self)@.lookup(node) == Ok::<T, GraphError>(*value)
                    &&& final(self)@ == old(self)@.with_payload(node, *final(value))
                },
                Err(e) => {
                    &&& old(self)@.lookup(node) == Err::<T, GraphError>(e)
                    &&& final(self)@ == old(self)@
                },
            },
    {
        proof {
            let before = self.graph@;
            let root = self.root;
            assert forall|v: T| before.is_live(node) implies sound_tree(
                #[trigger] before.with_payload(node, v),
                root,
            ) by {
                lemma_with_payload_sound(before, root, node, v);
            }
        }
        self.graph.get_mut(node)
    }

    /// Removes `node` and everything below it, and returns the payload of
    /// `node`.
    ///
    /// `node` is looked up first: a handle that is not live leaves the tree
    /// as it was and gives `GenerationMismatch`. Otherwise the children are
    /// removed one after the other, oldest first, each with everything below
    /// it, and `node` last. The root cannot be removed: `try_remove` turns it
    /// down at run time.
    pub fn remove(&mut self, node: NodeHandle) -> (r: Result<T, GraphError>)
        requires
            old(self).wf(),
            node != old(self).root_handle(),
        ensures
            final(self).wf(),
            final(self).root_handle() == old(self).root_handle(),
            r == old(self)@.lookup(node),
            match r {
                Ok(_) => {
                    &&& cut_off(old(self)@, final(self)@, old(self).root_handle(), node)
                    &&& final(self)@.lookup(node) == Err::<T, GraphError>(
                        GraphError::GenerationMismatch,
                    )
                    &&& final(self)@.live_slots().len() + 1 + descendants(
                        old(self)@.edges,
                        node.0,
                    ).len() == old(self)@.live_slots().len()
                    &&& forall|k: int|
                        0 <= k < final(self)@.edges.len() ==> avoids_slot(
                            #[trigger] final(self)@.edges[k],
                            node.0,
                        )
                },
                Err(e) => e == GraphError::GenerationMismatch && final(self)@ == old(self)@,
            },
        decreases subtree(old(self)@.edges, node.0).len(),
    {
        match self.graph.get(node) {
            Err(e) => {
                return Err(e);
            },
            Ok(_) => {},
        }
        let kids = self.graph.neighbors(node);
        let ghost before = self.graph@;
        let ghost root = self.root;
        let ghost mut gone: Set<usize> = Set::empty();
        proof {
            lemma_outside_nothing(before.edges);
            assert(before.cleared(gone) =~= before.slots);
            assert(subtree(before.edges, node.0).difference(gone) =~= subtree(
                before.edges,
                node.0,
            ));
            assert(before.free + freed_by_children(before.edges, root.0, node, 0) =~= before.free);
        }
        let mut i: usize = 0;
        while i < kids.len()
            invariant
                self.wf(),
                self.root == root,
                root == old(self).root,
                node != root,
                before == old(self).graph@,
                sound_tree(before, root),
                before.is_live(node),
                kids@ == children_of(before.edges, node.0),
                i <= kids.len(),
                partly_cut(before, self.graph@, root, node, gone, i as nat),
            decreases kids.len() - i,
        {
            let kid = kids[i];
            let ghost mid = self.graph@;
            proof {
                lemma_child_step(before, mid, root, node, gone, i as int);
            }
            let _ = self.remove(kid);
            proof {
                lemma_child_done(before, mid, self.graph@, root, node, gone, i as int);
                gone = gone + subtree(mid.edges, kid.0);
            }
            i += 1;
        }
        proof {
            lemma_last_step(before, self.graph@, root, node, gone);
            law_cascade_is_complete(
                before,
                self.graph@.removed(node),
                root,
                node,
            );
            lemma_subtree_members(before.edges, node.0);
        }
        self.graph.remove(node)
    }

    /// Removes `node` and everything below it, unless `node` is the root.
    ///
    /// The root is turned down before anything is looked at or changed: the
    /// answer is `None` and the tree is as it was. For every other handle the
    /// answer is `Some` of what `remove` gives.
    pub fn try_remove(&mut self, node: NodeHandle) -> (r: Option<Result<T, GraphError>>)
        requires
            old(self).wf(),
        ensures
            final(self).wf(),
            final(self).root_handle() == old(self).root_handle(),
            final(self)@.is_live(final(self).root_handle()),
            final(self)@.lookup(final(self).root_handle()) == old(self)@.lookup(
                old(self).root_handle(),
            ),
            match r {
                None => node == old(self).root_handle() && final(self)@ == old(self)@,
                Some(removed) => {
                    &&& node != old(self).root_handle()
                    &&& removed == old(self)@.lookup(node)
                    &&& match removed {
                        Ok(_) => cut_off(
                            old(self)@,
                            final(self)@,
                            old(self).root_handle(),
                            node,
                        ),
                        Err(_) => final(self)@ == old(self)@,
                    }
                },
            },
    {
        if node.0 == self.root.0 && node.1 == self.root.1 {
            return None;
        }
        proof {
            if self.graph@.is_live(node) {
                law_root_is_below_no_node(self.graph@, self.root, node);
            }
        }
        Some(self.remove(node))
    }
}

} // verus!
