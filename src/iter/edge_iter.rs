use vstd::prelude::*;
use crate::suffix_node::{Node, NodeID};
use crate::iter::node_iter::{PostOrdNodes, child_entries, closed_ids, post_yields, in_stack_order};
use crate::symbol::Symbol;

verus! {

/// The number of entries of `s` that are not the root.
pub open spec fn nonroot_count(s: Seq<NodeID>) -> nat
    decreases s.len(),
{
    if s.len() == 0 {
        0
    } else {
        nonroot_count(s.drop_last()) + if s.last() != 0 { 1nat } else { 0nat }
    }
}

/// A post-order walk over edges below a start node (the root): for each node under it,
/// the tree edge from its parent, then one edge from each node whose suffix link points
/// at it. The start node has no parent and yields no tree edge.
pub struct PostOrdEdges<T> {
    node_iter: PostOrdNodes<T>,
    sources: Vec<Vec<NodeID>>,
    parents: Vec<NodeID>,
    n_links: usize,
    stack: Vec<(NodeID, NodeID)>,
}

impl<T: Symbol> PostOrdEdges<T> {
    pub closed spec fn wf(&self) -> bool {
        &&& self.node_iter.wf()
        &&& self.sources@.len() == self.node_iter.kids().len()
        &&& self.parents@.len() == self.node_iter.kids().len()
        &&& self.parents@.len() >= 1
    }

    /// The post-order walk over the nodes.
    pub closed spec fn walk(&self) -> PostOrdNodes<T> {
        self.node_iter
    }

    /// The edges waiting to be yielded before the walk moves on.
    pub closed spec fn pending(&self) -> Seq<(NodeID, NodeID)> {
        self.stack@
    }

    /// The recorded parent of node `n`.
    pub closed spec fn parent(&self, n: int) -> NodeID {
        self.parents@[n]
    }

    /// The nodes whose suffix link points at `n` (never the root).
    pub closed spec fn link_sources(&self, n: int) -> Seq<NodeID> {
        self.sources@[n]@
    }

    /// The number of nodes the walk covers.
    pub closed spec fn node_total(&self) -> nat {
        self.parents@.len()
    }

    /// The number of suffix links that point at a node other than the root.
    pub closed spec fn link_count(&self) -> nat {
        self.n_links as nat
    }

    /// Walks the subtrees below `start_node_id`; `s_links[n]` is the suffix link of node
    /// `n` and `parents[n]` its parent (the entry of the start node is not read).
    pub fn new(start_node_id: &NodeID, nodes: &Vec<Node<T>>, s_links: Vec<NodeID>, parents: Vec<NodeID>) -> (r: PostOrdEdges<T>)
        requires
            *start_node_id < nodes@.len(),
            closed_ids(child_entries(nodes@)),
            s_links@.len() == nodes@.len(),
            parents@.len() == nodes@.len(),
            forall|n: int| 0 <= n < s_links@.len() ==> #[trigger] s_links@[n] < nodes@.len(),
        ensures
            r.wf(),
            r.pending().len() == 0,
            r.node_total() == nodes@.len(),
            forall|n: int| 0 <= n < nodes@.len() ==> #[trigger] r.parent(n) == parents@[n],
            r.link_sources(0).len() == 0,
            forall|t2: int, k: int| 0 <= t2 < nodes@.len() && 0 <= k < r.link_sources(t2).len()
                ==> s_links@[(#[trigger] r.link_sources(t2)[k]) as int] == t2,
            forall|m: int| 0 <= m < nodes@.len() && #[trigger] s_links@[m] != 0
                ==> r.link_sources(s_links@[m] as int).contains(m as usize),
            r.link_count() == nonroot_count(s_links@),
            r.walk().wf(),
            in_stack_order(child_entries(nodes@)[*start_node_id as int], r.walk().stack()),
            r.walk().kids() == child_entries(nodes@),
            forall|n: int| 0 <= n < nodes@.len() ==> !#[trigger] r.walk().is_expanded(n),
    {
        let node_iter = PostOrdNodes::new_below(start_node_id, nodes);
        let mut sources: Vec<Vec<NodeID>> = Vec::new();
        let mut c: usize = 0;
        while c < nodes.len()
            invariant
                c <= nodes@.len(),
                sources@.len() == c,
                forall|m: int| 0 <= m < c ==> (#[trigger] sources@[m])@.len() == 0,
            decreases nodes@.len() - c,
        {
            sources.push(Vec::new());
            c = c + 1;
        }
        let mut n: usize = 0;
        let mut n_links: usize = 0;
        while n < s_links.len()
            invariant
                n <= s_links@.len(),
                s_links@.len() == nodes@.len(),
                sources@.len() == nodes@.len(),
                forall|m: int| 0 <= m < s_links@.len() ==> #[trigger] s_links@[m] < nodes@.len(),
                forall|t2: int, k: int| 0 <= t2 < nodes@.len() && 0 <= k < sources@[t2]@.len()
                    ==> (#[trigger] sources@[t2]@[k]) < n && t2 != 0 && s_links@[sources@[t2]@[k] as int] == t2,
                n_links == nonroot_count(s_links@.subrange(0, n as int)),
                forall|m: int| 0 <= m < n && #[trigger] s_links@[m] != 0 ==> sources@[s_links@[m] as int]@.contains(m as usize),
                n_links <= n,
            decreases s_links@.len() - n,
        {
            let target = s_links[n];
            proof {
                assert(s_links@.subrange(0, n + 1).drop_last() =~= s_links@.subrange(0, n as int));
            }
            if target != 0 {
                let ghost before = sources@;
                sources[target].push(n);
                n_links = n_links + 1;
                proof {
                    assert forall|m: int| 0 <= m < n + 1 && #[trigger] s_links@[m] != 0 implies sources@[s_links@[m] as int]@.contains(m as usize) by {
                        if m < n {
                            let t2 = s_links@[m] as int;
                            let e = choose|e: int| 0 <= e < before[t2]@.len() && before[t2]@[e] == m as usize;
                            assert(sources@[t2]@[e] == m as usize);
                        } else {
                            assert(sources@[target as int]@[before[target as int]@.len() as int] == n);
                        }
                    }
                    assert(sources@[target as int]@ == before[target as int]@.push(n));
                    assert(s_links@[n as int] == target);
                    assert forall|t2: int, k: int| 0 <= t2 < nodes@.len() && 0 <= k < sources@[t2]@.len()
                        implies (#[trigger] sources@[t2]@[k]) < n + 1 && t2 != 0 && s_links@[sources@[t2]@[k] as int] == t2 by {
                        if t2 != target || k < before[t2]@.len() {
                            assert(sources@[t2]@[k] == before[t2]@[k]);
                        } else {
                            assert(sources@[t2]@[k] == n);
                        }
                    }
                }
            }
            n = n + 1;
        }
        proof {
            assert(s_links@.subrange(0, n as int) =~= s_links@);
        }
        let r = PostOrdEdges { node_iter, sources, parents, n_links, stack: Vec::new() };
        assert forall|t2: int, k: int| 0 <= t2 < nodes@.len() && 0 <= k < r.link_sources(t2).len()
            implies s_links@[(#[trigger] r.link_sources(t2)[k]) as int] == t2 by {
            assert(r.link_sources(t2)[k] == r.sources@[t2]@[k]);
            assert(r.sources@[t2]@[k] < n && t2 != 0 && s_links@[r.sources@[t2]@[k] as int] == t2);
        }
        proof {
            if r.sources@[0]@.len() > 0 {
                assert(r.sources@[0]@[0] < n);
            }
            assert forall|m: int| 0 <= m < nodes@.len() && #[trigger] s_links@[m] != 0
                implies r.link_sources(s_links@[m] as int).contains(m as usize) by {}
        }
        r
    }

    /// The number of edges the walk yields over a whole tree: one tree edge per node but
    /// the root, and one edge per suffix link that does not point at the root.
    pub fn len(&self) -> (r: usize)
        requires
            self.wf(),
            self.node_total() + self.link_count() <= usize::MAX,
        ensures
            r == self.node_total() - 1 + self.link_count(),
    {
        self.parents.len() - 1 + self.n_links
    }

    pub fn is_empty(&self) -> (r: bool)
        requires
            self.wf(),
            self.node_total() + self.link_count() <= usize::MAX,
        ensures
            r == (self.node_total() - 1 + self.link_count() == 0),
    {
        self.len() == 0
    }

    /// Yields a waiting suffix-link edge if there is one; otherwise takes the next node
    /// of the post-order walk, yields the edge from its parent, and queues the edges from
    /// the nodes whose suffix link points at it.
    pub fn next(&mut self) -> (r: Option<(NodeID, NodeID)>)
        requires
            old(self).wf(),
        ensures
            final(self).wf(),
            final(self).node_total() == old(self).node_total(),
            final(self).link_count() == old(self).link_count(),
            forall|n: int| #[trigger] final(self).parent(n) == old(self).parent(n),
            forall|n: int| #[trigger] final(self).link_sources(n) == old(self).link_sources(n),
            old(self).pending().len() > 0 ==> r == Some(old(self).pending().last())
                && final(self).pending() == old(self).pending().drop_last()
                && final(self).walk() == old(self).walk(),
            old(self).pending().len() == 0 ==> match r {
                None => final(self).pending().len() == 0 && post_yields(old(self).walk(), final(self).walk(), None),
                Some(e) => {
                    &&& post_yields(old(self).walk(), final(self).walk(), Some(e.1))
                    &&& e.1 < old(self).node_total()
                    &&& e.0 == old(self).parent(e.1 as int)
                    &&& final(self).pending() == old(self).link_sources(e.1 as int).map_values(|s: NodeID| (s, e.1))
                },
            },
    {
        if self.stack.len() > 0 {
            return self.stack.pop();
        }
        match self.node_iter.next() {
            None => None,
            Some(x) => {
                let ghost w = self.node_iter;
                let mut k: usize = 0;
                while k < self.sources[x].len()
                    invariant
                        self.wf(),
                        self.node_iter == w,
                        x < self.parents@.len(),
                        self.parents@ == old(self).parents@,
                        self.sources@ == old(self).sources@,
                        self.n_links == old(self).n_links,
                        k <= self.sources@[x as int]@.len(),
                        self.stack@ == self.sources@[x as int]@.subrange(0, k as int).map_values(|s: NodeID| (s, x)),
                    decreases self.sources@[x as int]@.len() - k,
                {
                    let src = self.sources[x][k];
                    self.stack.push((src, x));
                    k = k + 1;
                    assert(self.stack@ =~= self.sources@[x as int]@.subrange(0, k as int).map_values(|s: NodeID| (s, x)));
                }
                assert(self.sources@[x as int]@.subrange(0, k as int) =~= self.sources@[x as int]@);
                Some((self.parents[x], x))
            },
        }
    }
}

} // verus!
