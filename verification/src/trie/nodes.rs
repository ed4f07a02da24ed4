//! An arena of nodes addressed by ids that are never mistaken for a later node in the same place.

use vstd::prelude::*;

use crate::collections::linked_slab::LinkedSlab;

verus! {

/// The address of a node: its place in the arena and the counter it was pushed with.
#[derive(Debug, Clone, Copy, PartialEq, Eq, PartialOrd, Ord, Structural)]
pub struct NodeId {
    location: usize,
    ctr: usize,
}

impl NodeId {
    /// The place of the node in the arena.
    pub closed spec fn location(self) -> usize {
        self.location
    }

    /// The counter value the node was pushed with.
    pub closed spec fn ctr(self) -> usize {
        self.ctr
    }
}

/// Nodes stored together with the counter they were pushed with, and a count of nodes that have
/// no parent yet.
pub struct Nodes<Node> {
    slab: LinkedSlab<(usize, Node), 0>,
    roots: usize,
    ctr: usize,
}

impl<Node> Nodes<Node> {
    /// The nodes that are alive, by id.
    pub closed spec fn nodes(&self) -> Map<NodeId, Node> {
        Map::new(
            |id: NodeId|
                self.slab.values().contains_key(id.location) && self.slab.values()[id.location].0
                    == id.ctr,
            |id: NodeId| self.slab.values()[id.location].1,
        )
    }

    /// How many nodes currently have no parent.
    pub closed spec fn root_count(&self) -> usize {
        self.roots
    }

    /// The counter the next pushed node gets.
    pub closed spec fn next_counter(&self) -> usize {
        self.ctr
    }

    /// How many nodes are alive.
    pub closed spec fn size(&self) -> nat {
        self.slab.values().len()
    }

    /// The invariant of the arena.
    pub closed spec fn wf(&self) -> bool {
        self.slab.wf()
    }

    /// An empty arena.
    pub fn new() -> (r: Self)
        ensures
            r.wf(),
            r.nodes() == Map::<NodeId, Node>::empty(),
            r.size() == 0,
            r.root_count() == 0,
            r.next_counter() == 0,
    {
        let r = Nodes { slab: LinkedSlab::new(), roots: 0, ctr: 0 };
        assert(r.nodes() =~= Map::<NodeId, Node>::empty());
        r
    }

    /// The node under `id`, if it is alive.
    pub fn get(&self, id: NodeId) -> (r: Option<&Node>)
        requires
            self.wf(),
        ensures
            r is Some <==> self.nodes().contains_key(id),
            r is Some ==> *r->Some_0 == self.nodes()[id],
    {
        match self.slab.get(id.location) {
            Some(entry) => {
                if entry.0 == id.ctr {
                    Some(&entry.1)
                } else {
                    None
                }
            },
            None => None,
        }
    }

    /// The node under `id`, to change in place, if it is alive.
    pub fn get_mut(&mut self, id: NodeId) -> (r: Option<&mut Node>)
        requires
            old(self).wf(),
        ensures
            final(self).wf(),
            final(self).root_count() == old(self).root_count(),
            final(self).next_counter() == old(self).next_counter(),
            r is None ==> !old(self).nodes().contains_key(id) && final(self).nodes() == old(
                self,
            ).nodes(),
            r matches Some(x) ==> {
                &&& old(self).nodes().contains_key(id)
                &&& *x == old(self).nodes()[id]
                &&& final(self).nodes() == old(self).nodes().insert(id, *final(x))
            },
    {
        match self.slab.get(id.location) {
            Some(entry) => {
                if entry.0 != id.ctr {
                    return None;
                }
            },
            None => return None,
        }
        match self.slab.get_mut(id.location) {
            Some(entry) => Some(&mut entry.1),
            None => None,
        }
    }

    /// Whether the node under `id` is alive.
    pub fn contains(&self, id: NodeId) -> (r: bool)
        requires
            self.wf(),
        ensures
            r == self.nodes().contains_key(id),
    {
        self.get(id).is_some()
    }

    /// Hands out the current counter and advances it, wrapping around.
    fn next_ctr(&mut self) -> (r: usize)
        ensures
            r == old(self).ctr,
            final(self).ctr == (if old(self).ctr == usize::MAX {
                0
            } else {
                old(self).ctr + 1
            }),
            final(self).slab == old(self).slab,
            final(self).roots == old(self).roots,
    {
        let ctr = self.ctr;
        self.ctr = if ctr == usize::MAX {
            0
        } else {
            ctr + 1
        };
        ctr
    }

    /// Counts one more node without a parent.
    pub fn increment_roots(&mut self)
        requires
            old(self).root_count() < usize::MAX,
        ensures
            final(self).root_count() == old(self).root_count() + 1,
            final(self).nodes() == old(self).nodes(),
            final(self).size() == old(self).size(),
            final(self).wf() == old(self).wf(),
            final(self).next_counter() == old(self).next_counter(),
    {
        self.roots = self.roots + 1;
    }

    /// Counts one node without a parent less.
    pub fn decrement_roots(&mut self)
        requires
            old(self).root_count() > 0,
        ensures
            final(self).root_count() == old(self).root_count() - 1,
            final(self).nodes() == old(self).nodes(),
            final(self).size() == old(self).size(),
            final(self).wf() == old(self).wf(),
            final(self).next_counter() == old(self).next_counter(),
    {
        self.roots = self.roots - 1;
    }

    /// How many nodes currently have no parent.
    pub fn roots(&self) -> (r: usize)
        ensures
            r == self.root_count(),
    {
        self.roots
    }

    /// Stores `node` as a new node without a parent, and returns its id.
    pub fn push(&mut self, node: Node) -> (id: NodeId)
        requires
            old(self).wf(),
            old(self).root_count() < usize::MAX,
            old(self).size() + 1 < usize::MAX,
        ensures
            final(self).wf(),
            !old(self).nodes().contains_key(id),
            final(self).nodes() == old(self).nodes().insert(id, node),
            final(self).size() == old(self).size() + 1,
            final(self).root_count() == old(self).root_count() + 1,
            id.ctr() == old(self).next_counter(),
            final(self).next_counter() == (if old(self).next_counter() == usize::MAX {
                0
            } else {
                old(self).next_counter() + 1
            }),
    {
        self.increment_roots();
        let ctr = self.next_ctr();
        let ghost pre = self.slab.values();
        let location = self.slab.insert((ctr, node));
        let id = NodeId { location, ctr };
        proof {
            assert(self.nodes() =~= old(self).nodes().insert(id, node));
        }
        id
    }

    /// Takes the node under `id` out of the arena, counting one node without a parent less.
    pub fn pop_at(&mut self, id: NodeId) -> (node: Node)
        requires
            old(self).wf(),
            old(self).nodes().contains_key(id),
            old(self).root_count() > 0,
        ensures
            final(self).wf(),
            node == old(self).nodes()[id],
            final(self).nodes() == old(self).nodes().remove(id),
            final(self).size() + 1 == old(self).size(),
            final(self).root_count() == old(self).root_count() - 1,
            final(self).next_counter() == old(self).next_counter(),
    {
        let ghost pre = self.slab.values();
        let entry = self.slab.remove(id.location);
        self.decrement_roots();
        proof {
            assert(self.nodes() =~= old(self).nodes().remove(id));
        }
        entry.unwrap().1
    }
}

} // verus!
