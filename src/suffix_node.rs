use vstd::prelude::*;
use crate::symbol::Symbol;

verus! {

/// Index of a node in the tree's arena; the root is `0`.
pub type NodeID = usize;

/// Index of an indexed sequence in the tree's registry.
pub type StringID = usize;

/// One node of the tree. Its incoming edge is labelled by
/// `edge_length` symbols of sequence `string_id`, starting at `start`.
/// The root has neither parent nor owning sequence.
#[derive(Debug)]
pub struct Node<T> {
    pub children: Vec<(T, NodeID)>,
    pub string_id: Option<StringID>,
    pub parent: Option<NodeID>,
    pub edge_length: usize,
    pub start: usize,
}

impl<T> Node<T> {
    pub fn new(
        children: Vec<(T, NodeID)>,
        string_id: Option<StringID>,
        parent: Option<NodeID>,
        edge_length: usize,
        start: usize,
    ) -> (r: Node<T>)
        ensures
            r.children@ == children@,
            r.string_id == string_id,
            r.parent == parent,
            r.edge_length == edge_length,
            r.start == start,
    {
        Node { children, string_id, parent, edge_length, start }
    }

    /// Whether some child edge starts with `c`.
    pub open spec fn has_key(&self, c: T) -> bool {
        exists|k: int| 0 <= k < self.children@.len() && (#[trigger] self.children@[k]).0 == c
    }

    pub fn set_parent(&mut self, parent: NodeID)
        ensures
            final(self).parent == Some(parent),
            final(self).children@ == old(self).children@,
            final(self).string_id == old(self).string_id,
            final(self).edge_length == old(self).edge_length,
            final(self).start == old(self).start,
    {
        self.parent = Some(parent);
    }

    pub fn get_parent(&self) -> (r: Option<NodeID>)
        ensures
            r == self.parent,
    {
        self.parent
    }

    pub fn get_edge_length(&self) -> (r: usize)
        ensures
            r == self.edge_length,
    {
        self.edge_length
    }

    pub fn get_string_id(&self) -> (r: Option<StringID>)
        ensures
            r == self.string_id,
    {
        self.string_id
    }

    pub fn get_start(&self) -> (r: usize)
        ensures
            r == self.start,
    {
        self.start
    }

    pub fn get_children(&self) -> (r: &Vec<(T, NodeID)>)
        ensures
            r@ == self.children@,
    {
        &self.children
    }

    pub fn has_children(&self) -> (r: bool)
        ensures
            r == (self.children@.len() > 0),
    {
        self.children.len() > 0
    }

    pub fn is_leaf(&self) -> (r: bool)
        ensures
            r == (self.children@.len() == 0),
    {
        self.children.len() == 0
    }
}

impl<T: Symbol> Node<T> {
    /// The position in `children` of the edge that starts with `c`.
    pub fn child_slot(&self, c: &T) -> (r: Option<usize>)
        ensures
            match r {
                Some(k) => k < self.children@.len() && self.children@[k as int].0 == *c,
                None => !self.has_key(*c),
            },
    {
        let mut k: usize = 0;
        while k < self.children.len()
            invariant
                k <= self.children@.len(),
                forall|j: int| 0 <= j < k ==> (#[trigger] self.children@[j]).0 != *c,
            decreases self.children@.len() - k,
        {
            if self.children[k].0.same(c) {
                return Some(k);
            }
            k = k + 1;
        }
        None
    }

    /// The child reached by the edge that starts with `c`.
    pub fn get_child(&self, c: &T) -> (r: Option<NodeID>)
        ensures
            match r {
                Some(m) => exists|k: int|
                    0 <= k < self.children@.len() && #[trigger] self.children@[k] == (*c, m),
                None => !self.has_key(*c),
            },
    {
        match self.child_slot(c) {
            Some(k) => {
                let m = self.children[k].1;
                assert(self.children@[k as int] == (*c, m));
                Some(m)
            },
            None => None,
        }
    }
}

} // verus!
