use vstd::prelude::*;

use crate::node::{PrivateNode, PrivateRef, refs_below, same_revision};

verus! {

/// The revision a node was made from, if that one was stored.
pub open spec fn previous_of_node(n: PrivateNode) -> Option<PrivateRef> {
    match n {
        PrivateNode::File(f) => f.previous_view(),
        PrivateNode::Dir(d) => d.previous_view(),
    }
}

/// Where a node copy says it was loaded from.
pub open spec fn loaded_from(n: PrivateNode) -> Option<PrivateRef> {
    match n {
        PrivateNode::File(f) => f.persisted_as_view(),
        PrivateNode::Dir(d) => d.persisted_as_view(),
    }
}

/// A grow-only store of node revisions. A reference is the place of a
/// revision in the store, and every revision refers only to revisions stored
/// before it, so no later write orphans or changes an earlier one.
#[derive(Debug)]
pub struct NodeStore {
    nodes: Vec<PrivateNode>,
}

impl NodeStore {
    /// The stored revisions, oldest first.
    pub closed spec fn view(&self) -> Seq<PrivateNode> {
        self.nodes@
    }

    pub open spec fn wf(&self) -> bool {
        forall|i: int| 0 <= i < self@.len() ==> refs_below(#[trigger] self@[i], i as nat)
    }

    /// An empty store.
    pub fn new() -> (r: NodeStore)
        ensures
            r.wf(),
            r@ == Seq::<PrivateNode>::empty(),
    {
        NodeStore { nodes: Vec::new() }
    }

    /// The number of stored revisions.
    pub fn len(&self) -> (r: usize)
        ensures
            r == self@.len(),
    {
        self.nodes.len()
    }

    /// Stores a revision and returns its reference.
    pub fn put(&mut self, node: PrivateNode) -> (r: PrivateRef)
        requires
            old(self).wf(),
            refs_below(node, old(self)@.len()),
        ensures
            final(self).wf(),
            final(self)@ == old(self)@.push(node),
            r.index == old(self)@.len(),
    {
        let r = PrivateRef { index: self.nodes.len() };
        self.nodes.push(node);
        proof {
            assert forall|i: int| 0 <= i < self@.len() implies refs_below(#[trigger] self@[i], i as nat) by {
                if i < old(self)@.len() {
                    assert(self@[i] == old(self)@[i]);
                }
            }
        }
        r
    }

    /// The revision the stored revision `i` was made from.
    pub fn previous_at(&self, i: usize) -> (r: Option<PrivateRef>)
        requires
            i < self@.len(),
        ensures
            r == previous_of_node(self@[i as int]),
    {
        match &self.nodes[i] {
            PrivateNode::File(f) => f.get_previous(),
            PrivateNode::Dir(d) => d.get_previous(),
        }
    }

    /// A copy of the stored revision, which remembers where it was loaded from.
    pub fn load(&self, r: PrivateRef) -> (n: Option<PrivateNode>)
        requires
            self.wf(),
        ensures
            match n {
                Some(node) => r.index < self@.len() && same_revision(node, self@[r.index as int])
                    && loaded_from(node) == Some(r) && refs_below(node, r.index as nat),
                None => r.index >= self@.len(),
            },
    {
        if r.index >= self.nodes.len() {
            return None;
        }
        assert(refs_below(self@[r.index as int], r.index as nat));
        match &self.nodes[r.index] {
            PrivateNode::File(f) => Some(PrivateNode::File(f.duplicate(Some(r)))),
            PrivateNode::Dir(d) => Some(PrivateNode::Dir(d.duplicate(Some(r)))),
        }
    }
}

} // verus!
