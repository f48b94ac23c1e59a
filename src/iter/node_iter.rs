use vstd::prelude::*;
use itertools::Itertools;
use crate::suffix_node::{Node, NodeID};
use crate::symbol::{Symbol, label_order};

verus! {

/// No entry of `s` has a label that precedes the label of an earlier entry.
pub open spec fn label_sorted<T: Symbol>(s: Seq<(T, NodeID)>) -> bool {
    forall|a: int, b: int| 0 <= a < b < s.len() ==> !s[b].0.precedes(&s[a].0)
}

/// The child ids of `q`, in its order.
pub open spec fn ids_of<T>(q: Seq<(T, NodeID)>) -> Seq<NodeID> {
    q.map_values(|e: (T, NodeID)| e.1)
}

/// `ids` lists the child ids of `kids` in the order of their edge labels.
pub open spec fn in_label_order<T: Symbol>(kids: Seq<(T, NodeID)>, ids: Seq<NodeID>) -> bool {
    exists|q: Seq<(T, NodeID)>|
        q.to_multiset() == kids.to_multiset() && label_sorted(q) && #[trigger] ids_of(q) == ids
}

/// `ids` lists the child ids of `kids` in reverse label order, so that popping them off a
/// stack visits them in label order.
pub open spec fn in_stack_order<T: Symbol>(kids: Seq<(T, NodeID)>, ids: Seq<NodeID>) -> bool {
    in_label_order(kids, ids.reverse())
}

/// The child edges of each node, as the traversals read them.
pub open spec fn child_entries<T>(nodes: Seq<Node<T>>) -> Seq<Seq<(T, NodeID)>> {
    Seq::new(nodes.len(), |n: int| nodes[n].children@)
}

/// Every child id names a node.
pub open spec fn closed_ids<T>(kids: Seq<Seq<(T, NodeID)>>) -> bool {
    forall|n: int, k: int| 0 <= n < kids.len() && 0 <= k < kids[n].len() ==> (#[trigger] kids[n][k]).1 < kids.len()
}

/// Relies on itertools::Itertools::sorted_by (a stable sort): the same entries, ordered
/// by edge label through `label_order`.
#[verifier::external_body]
fn sort_by_label<T: Symbol>(kids: &Vec<(T, NodeID)>) -> (r: Vec<(T, NodeID)>)
    ensures
        r@.to_multiset() == kids@.to_multiset(),
        label_sorted(r@),
{
    kids.iter().copied().sorted_by(|a, b| label_order(&a.0, &b.0)).collect()
}

/// The child edges of every node, copied out of the arena.
fn copy_children<T: Copy>(nodes: &Vec<Node<T>>) -> (r: Vec<Vec<(T, NodeID)>>)
    ensures
        r@.len() == nodes@.len(),
        forall|n: int| 0 <= n < r@.len() ==> #[trigger] r@[n]@ == child_entries(nodes@)[n],
{
    let mut r: Vec<Vec<(T, NodeID)>> = Vec::new();
    let mut n: usize = 0;
    while n < nodes.len()
        invariant
            n <= nodes@.len(),
            r@.len() == n,
            forall|m: int| 0 <= m < n ==> #[trigger] r@[m]@ == child_entries(nodes@)[m],
        decreases nodes@.len() - n,
    {
        let mut kids: Vec<(T, NodeID)> = Vec::new();
        let mut k: usize = 0;
        while k < nodes[n].children.len()
            invariant
                n < nodes@.len(),
                k <= nodes@[n as int].children@.len(),
                kids@ == nodes@[n as int].children@.subrange(0, k as int),
            decreases nodes@[n as int].children@.len() - k,
        {
            kids.push(nodes[n].children[k]);
            k = k + 1;
            assert(kids@ =~= nodes@[n as int].children@.subrange(0, k as int));
        }
        assert(kids@ =~= nodes@[n as int].children@);
        r.push(kids);
        n = n + 1;
    }
    r
}

/// The child ids of `kids` in label order, each below `bound`.
fn ids_in_label_order<T: Symbol>(kids: &Vec<(T, NodeID)>, bound: usize) -> (r: Vec<NodeID>)
    requires
        forall|k: int| 0 <= k < kids@.len() ==> (#[trigger] kids@[k]).1 < bound,
    ensures
        in_label_order(kids@, r@),
        r@.len() == kids@.len(),
        forall|k: int| 0 <= k < r@.len() ==> #[trigger] r@[k] < bound,
{
    let sorted = sort_by_label(kids);
    proof {
        sorted@.to_multiset_ensures();
        kids@.to_multiset_ensures();
    }
    let mut r: Vec<NodeID> = Vec::new();
    let mut j: usize = 0;
    while j < sorted.len()
        invariant
            j <= sorted@.len(),
            r@ == ids_of(sorted@.subrange(0, j as int)),
            sorted@.to_multiset() == kids@.to_multiset(),
            forall|k: int| 0 <= k < kids@.len() ==> (#[trigger] kids@[k]).1 < bound,
            forall|k: int| 0 <= k < r@.len() ==> #[trigger] r@[k] < bound,
        decreases sorted@.len() - j,
    {
        proof {
            sorted@.to_multiset_ensures();
            kids@.to_multiset_ensures();
            assert(sorted@.contains(sorted@[j as int]));
            assert(sorted@.to_multiset().count(sorted@[j as int]) > 0);
            assert(kids@.to_multiset().count(sorted@[j as int]) > 0);
            assert(kids@.contains(sorted@[j as int]));
            let k2 = choose|k2: int| 0 <= k2 < kids@.len() && kids@[k2] == sorted@[j as int];
            assert(kids@[k2].1 < bound);
        }
        r.push(sorted[j].1);
        j = j + 1;
        assert(r@ =~= ids_of(sorted@.subrange(0, j as int)));
    }
    assert(sorted@.subrange(0, j as int) =~= sorted@);
    assert(ids_of(sorted@) == r@);
    r
}

/// The child ids of `kids` in reverse label order, each below `bound`.
fn ids_in_stack_order<T: Symbol>(kids: &Vec<(T, NodeID)>, bound: usize) -> (r: Vec<NodeID>)
    requires
        forall|k: int| 0 <= k < kids@.len() ==> (#[trigger] kids@[k]).1 < bound,
    ensures
        in_stack_order(kids@, r@),
        r@.len() == kids@.len(),
        forall|k: int| 0 <= k < r@.len() ==> #[trigger] r@[k] < bound,
{
    let up = ids_in_label_order(kids, bound);
    let mut r: Vec<NodeID> = Vec::new();
    let mut j: usize = up.len();
    while j > 0
        invariant
            j <= up@.len(),
            r@ == up@.subrange(j as int, up@.len() as int).reverse(),
            forall|k: int| 0 <= k < up@.len() ==> #[trigger] up@[k] < bound,
        decreases j,
    {
        j = j - 1;
        r.push(up[j]);
        assert(r@ =~= up@.subrange(j as int, up@.len() as int).reverse());
    }
    assert(up@.subrange(0, up@.len() as int) =~= up@);
    assert(r@.reverse() =~= up@);
    r
}

/// Pushes the child ids of `kids` onto `stack` so that they come off in label order.
fn push_in_stack_order<T: Symbol>(stack: &mut Vec<NodeID>, kids: &Vec<(T, NodeID)>, bound: usize)
    requires
        forall|k: int| 0 <= k < kids@.len() ==> (#[trigger] kids@[k]).1 < bound,
    ensures
        final(stack)@.subrange(0, old(stack)@.len() as int) == old(stack)@,
        in_stack_order(kids@, final(stack)@.subrange(old(stack)@.len() as int, final(stack)@.len() as int)),
        final(stack)@.len() == old(stack)@.len() + kids@.len(),
        forall|k: int| old(stack)@.len() <= k < final(stack)@.len() ==> #[trigger] final(stack)@[k] < bound,
{
    let ids = ids_in_stack_order(kids, bound);
    let ghost base = stack@;
    let mut j: usize = 0;
    while j < ids.len()
        invariant
            j <= ids@.len(),
            stack@ == base + ids@.subrange(0, j as int),
        decreases ids@.len() - j,
    {
        stack.push(ids[j]);
        j = j + 1;
        assert(stack@ =~= base + ids@.subrange(0, j as int));
    }
    assert(stack@.subrange(0, base.len() as int) =~= base);
    assert(stack@.subrange(base.len() as int, stack@.len() as int) =~= ids@);
}

/// A depth-first walk that yields a node on arrival and again after each of its
/// children's subtrees.
pub struct EulerWalk<T> {
    stack: Vec<(NodeID, bool)>,
    nodes: Vec<Vec<(T, NodeID)>>,
}

/// A pre-order walk: a node, then the subtrees of its children.
pub struct PreOrdNodes<T> {
    stack: Vec<NodeID>,
    nodes: Vec<Vec<(T, NodeID)>>,
}

/// A post-order walk: the subtrees of a node's children, then the node.
pub struct PostOrdNodes<T> {
    stack: Vec<NodeID>,
    nodes: Vec<Vec<(T, NodeID)>>,
    expanded: Vec<bool>,
}

/// The number of nodes not yet expanded.
pub open spec fn unexpanded(s: Seq<bool>) -> nat
    decreases s.len(),
{
    if s.len() == 0 {
        0
    } else {
        unexpanded(s.drop_last()) + if s.last() { 0nat } else { 1nat }
    }
}

proof fn lemma_mark(s: Seq<bool>, k: int)
    requires
        0 <= k < s.len(),
        !s[k],
    ensures
        unexpanded(s.update(k, true)) + 1 == unexpanded(s),
    decreases s.len(),
{
    if k == s.len() - 1 {
        assert(s.update(k, true).drop_last() =~= s.drop_last());
    } else {
        assert(s.update(k, true).drop_last() =~= s.drop_last().update(k, true));
        lemma_mark(s.drop_last(), k);
    }
}

impl<T: Symbol> EulerWalk<T> {
    /// The stacked visits: a node, and whether its children were already stacked.
    pub closed spec fn stack(&self) -> Seq<(NodeID, bool)> {
        self.stack@
    }

    pub closed spec fn kids(&self) -> Seq<Seq<(T, NodeID)>> {
        Seq::new(self.nodes@.len(), |n: int| self.nodes@[n]@)
    }

    pub closed spec fn wf(&self) -> bool {
        &&& closed_ids(self.kids())
        &&& forall|k: int| 0 <= k < self.stack@.len() ==> (#[trigger] self.stack@[k]).0 < self.nodes@.len()
    }

    pub fn new(start_node_id: &NodeID, nodes: &Vec<Node<T>>) -> (r: EulerWalk<T>)
        requires
            *start_node_id < nodes@.len(),
            closed_ids(child_entries(nodes@)),
        ensures
            r.wf(),
            r.stack() == seq![(*start_node_id, false)],
            r.kids() == child_entries(nodes@),
    {
        let r = EulerWalk { stack: vec![(*start_node_id, false)], nodes: copy_children(nodes) };
        assert(r.kids() =~= child_entries(nodes@));
        r
    }

    /// Yields the node on top. On its first visit it stacks, for each child in label
    /// order, a return to the node and then the child.
    pub fn next(&mut self) -> (r: Option<NodeID>)
        requires
            old(self).wf(),
        ensures
            final(self).wf(),
            final(self).kids() == old(self).kids(),
            match r {
                None => old(self).stack().len() == 0 && final(self).stack() == old(self).stack(),
                Some(x) => {
                    let base = old(self).stack().drop_last();
                    let ks = old(self).kids()[x as int];
                    let kids_order = Seq::new(ks.len(), |j: int| final(self).stack()[base.len() + 2 * j + 1].0);
                    &&& old(self).stack().len() > 0
                    &&& x == old(self).stack().last().0
                    &&& old(self).stack().last().1 ==> final(self).stack() == base
                    &&& !old(self).stack().last().1 ==> {
                        &&& final(self).stack().len() == base.len() + 2 * ks.len()
                        &&& final(self).stack().subrange(0, base.len() as int) == base
                        &&& forall|j: int| 0 <= j < ks.len() ==> #[trigger] final(self).stack()[base.len() + 2 * j] == (x, true)
                        &&& forall|j: int| 0 <= j < ks.len() ==> !(#[trigger] final(self).stack()[base.len() + 2 * j + 1]).1
                        &&& in_stack_order(ks, kids_order)
                    }
                },
            },
    {
        if self.stack.len() == 0 {
            return None;
        }
        match self.stack.pop() {
            None => None,
            Some((x, revisit)) => {
                if revisit {
                    return Some(x);
                }
                let ghost base = self.stack@;
                let ghost ks = self.nodes@[x as int]@;
                proof {
                    assert(self.kids()[x as int] == ks);
                    assert forall|k: int| 0 <= k < ks.len() implies (#[trigger] ks[k]).1 < self.nodes@.len() by {
                        assert(self.kids()[x as int][k].1 < self.kids().len());
                    }
                }
                let total = self.nodes.len();
                let sorted = ids_in_stack_order(&self.nodes[x], total);
                let mut j: usize = 0;
                while j < sorted.len()
                    invariant
                        self.wf(),
                        self.kids() == old(self).kids(),
                        x < self.nodes@.len(),
                        j <= sorted@.len(),
                        forall|k: int| 0 <= k < sorted@.len() ==> #[trigger] sorted@[k] < self.nodes@.len(),
                        self.stack@.len() == base.len() + 2 * j,
                        self.stack@.subrange(0, base.len() as int) == base,
                        forall|k: int| 0 <= k < j ==> #[trigger] self.stack@[base.len() + 2 * k + 1] == (sorted@[k], false),
                        forall|k: int| 0 <= k < j ==> #[trigger] self.stack@[base.len() + 2 * k] == (x, true),
                    decreases sorted@.len() - j,
                {
                    let ghost before = self.stack@;
                    self.stack.push((x, true));
                    self.stack.push((sorted[j], false));
                    proof {
                        assert(self.stack@.subrange(0, base.len() as int) =~= before.subrange(0, base.len() as int));
                        assert forall|k: int| 0 <= k < j + 1 implies #[trigger] self.stack@[base.len() + 2 * k + 1] == (sorted@[k], false) by {
                            if k < j {
                                assert(before[base.len() + 2 * k + 1] == (sorted@[k], false));
                            } else {
                                assert(base.len() + 2 * k == before.len());
                                assert(self.stack@[before.len() as int + 1] == (sorted@[k], false));
                            }
                        }
                        assert forall|k: int| 0 <= k < j + 1 implies #[trigger] self.stack@[base.len() + 2 * k] == (x, true) by {
                            if k < j {
                                assert(before[base.len() + 2 * k] == (x, true));
                            } else {
                                assert(base.len() + 2 * k == before.len());
                                assert(self.stack@[before.len() as int] == (x, true));
                            }
                        }
                        assert forall|k: int| 0 <= k < self.stack@.len() implies (#[trigger] self.stack@[k]).0 < self.nodes@.len() by {
                            if k < before.len() {
                                assert(self.stack@[k] == before[k]);
                            }
                        }
                    }
                    j = j + 1;
                }
                proof {
                    let odds = Seq::new(ks.len(), |j2: int| self.stack@[base.len() + 2 * j2 + 1].0);
                    assert(odds =~= sorted@);
                    assert(base == old(self).stack().drop_last());
                    assert(ks == old(self).kids()[x as int]);
                    assert forall|j2: int| 0 <= j2 < ks.len() implies !(#[trigger] self.stack@[base.len() + 2 * j2 + 1]).1 by {
                        assert(self.stack@[base.len() + 2 * j2 + 1] == (sorted@[j2], false));
                    }
                }
                Some(x)
            },
        }
    }
}

impl<T: Symbol> PreOrdNodes<T> {
    pub closed spec fn stack(&self) -> Seq<NodeID> {
        self.stack@
    }

    pub closed spec fn kids(&self) -> Seq<Seq<(T, NodeID)>> {
        Seq::new(self.nodes@.len(), |n: int| self.nodes@[n]@)
    }

    pub closed spec fn wf(&self) -> bool {
        &&& closed_ids(self.kids())
        &&& forall|k: int| 0 <= k < self.stack@.len() ==> #[trigger] self.stack@[k] < self.nodes@.len()
    }

    pub fn new(start_node_id: &NodeID, nodes: &Vec<Node<T>>) -> (r: PreOrdNodes<T>)
        requires
            *start_node_id < nodes@.len(),
            closed_ids(child_entries(nodes@)),
        ensures
            r.wf(),
            r.stack() == seq![*start_node_id],
            r.kids() == child_entries(nodes@),
    {
        let r = PreOrdNodes { stack: vec![*start_node_id], nodes: copy_children(nodes) };
        assert(r.kids() =~= child_entries(nodes@));
        r
    }

    /// Yields the node on top, and stacks its children so that they come off in label order.
    pub fn next(&mut self) -> (r: Option<NodeID>)
        requires
            old(self).wf(),
        ensures
            final(self).wf(),
            final(self).kids() == old(self).kids(),
            match r {
                None => old(self).stack().len() == 0 && final(self).stack() == old(self).stack(),
                Some(x) => {
                    let base = old(self).stack().drop_last();
                    let top = final(self).stack().subrange(base.len() as int, final(self).stack().len() as int);
                    &&& old(self).stack().len() > 0
                    &&& x == old(self).stack().last()
                    &&& final(self).stack().subrange(0, base.len() as int) == base
                    &&& in_stack_order(old(self).kids()[x as int], top)
                },
            },
    {
        if self.stack.len() == 0 {
            return None;
        }
        match self.stack.pop() {
            None => None,
            Some(x) => {
                proof {
                    assert(self.kids()[x as int] == self.nodes@[x as int]@);
                    assert forall|k: int| 0 <= k < self.nodes@[x as int]@.len() implies (#[trigger] self.nodes@[x as int]@[k]).1 < self.nodes@.len() by {
                        assert(self.kids()[x as int][k].1 < self.kids().len());
                    }
                }
                let ghost base = self.stack@;
                let n = self.nodes.len();
                push_in_stack_order(&mut self.stack, &self.nodes[x], n);
                proof {
                    assert forall|k: int| 0 <= k < base.len() implies #[trigger] self.stack@[k] < self.nodes@.len() by {
                        assert(self.stack@.subrange(0, base.len() as int)[k] == base[k]);
                    }
                }
                Some(x)
            },
        }
    }
}

/// One expansion of the post-order walk: the node on top of `s1`, not yet expanded, stays
/// on the stack, is marked expanded, and its children go above it so that they come off
/// in label order.
pub open spec fn expand_step<T: Symbol>(
    kids: Seq<Seq<(T, NodeID)>>,
    s1: Seq<NodeID>,
    e1: Seq<bool>,
    s2: Seq<NodeID>,
    e2: Seq<bool>,
) -> bool {
    &&& s1.len() > 0
    &&& 0 <= s1.last() < e1.len()
    &&& !e1[s1.last() as int]
    &&& e2 == e1.update(s1.last() as int, true)
    &&& s2.len() >= s1.len()
    &&& s2.subrange(0, s1.len() as int) == s1
    &&& in_stack_order(kids[s1.last() as int], s2.subrange(s1.len() as int, s2.len() as int))
}

/// Each state of `trace` (a stack and the expansion marks) follows from the one before by
/// one expansion.
pub open spec fn is_trace<T: Symbol>(kids: Seq<Seq<(T, NodeID)>>, trace: Seq<(Seq<NodeID>, Seq<bool>)>) -> bool {
    &&& trace.len() >= 1
    &&& forall|k: int| 0 <= k < trace.len() - 1
        ==> #[trigger] expand_step(kids, trace[k].0, trace[k].1, trace[k + 1].0, trace[k + 1].1)
}

/// Some number of expansions lead from stack `s1` and marks `e1` to stack `s2` and marks `e2`.
pub open spec fn expands_to<T: Symbol>(
    kids: Seq<Seq<(T, NodeID)>>,
    s1: Seq<NodeID>,
    e1: Seq<bool>,
    s2: Seq<NodeID>,
    e2: Seq<bool>,
) -> bool {
    exists|trace: Seq<(Seq<NodeID>, Seq<bool>)>|
        #[trigger] is_trace(kids, trace) && trace[0] == (s1, e1) && trace.last() == (s2, e2)
}

/// What one call of `PostOrdNodes::next` does: nothing, and no node, on an empty stack;
/// otherwise it expands unexpanded nodes on top until an expanded node comes up, and
/// pops and yields that node.
pub open spec fn post_yields<T: Symbol>(w1: PostOrdNodes<T>, w2: PostOrdNodes<T>, r: Option<NodeID>) -> bool {
    &&& w2.kids() == w1.kids()
    &&& match r {
        None => w1.stack().len() == 0 && w2.stack() == w1.stack() && w2.marks() == w1.marks(),
        Some(x) => {
            &&& w1.stack().len() > 0
            &&& x < w2.marks().len()
            &&& w2.marks()[x as int]
            &&& expands_to(w1.kids(), w1.stack(), w1.marks(), w2.stack().push(x), w2.marks())
        },
    }
}

impl<T: Symbol> PostOrdNodes<T> {
    pub closed spec fn stack(&self) -> Seq<NodeID> {
        self.stack@
    }

    pub closed spec fn kids(&self) -> Seq<Seq<(T, NodeID)>> {
        Seq::new(self.nodes@.len(), |n: int| self.nodes@[n]@)
    }

    /// Whether node `n` has had its children stacked.
    pub closed spec fn is_expanded(&self, n: int) -> bool {
        self.expanded@[n]
    }

    /// The expansion mark of every node.
    pub closed spec fn marks(&self) -> Seq<bool> {
        self.expanded@
    }

    pub closed spec fn wf(&self) -> bool {
        &&& closed_ids(self.kids())
        &&& self.expanded@.len() == self.nodes@.len()
        &&& forall|k: int| 0 <= k < self.stack@.len() ==> #[trigger] self.stack@[k] < self.nodes@.len()
    }

    pub fn new(start_node_id: &NodeID, nodes: &Vec<Node<T>>) -> (r: PostOrdNodes<T>)
        requires
            *start_node_id < nodes@.len(),
            closed_ids(child_entries(nodes@)),
        ensures
            r.wf(),
            r.stack() == seq![*start_node_id],
            r.kids() == child_entries(nodes@),
            forall|n: int| 0 <= n < nodes@.len() ==> !#[trigger] r.is_expanded(n),
    {
        let kids = copy_children(nodes);
        let mut expanded: Vec<bool> = Vec::new();
        let mut n: usize = 0;
        while n < kids.len()
            invariant
                n <= kids@.len(),
                expanded@.len() == n,
                forall|m: int| 0 <= m < n ==> !#[trigger] expanded@[m],
            decreases kids@.len() - n,
        {
            expanded.push(false);
            n = n + 1;
        }
        let r = PostOrdNodes { stack: vec![*start_node_id], nodes: kids, expanded };
        assert(r.kids() =~= child_entries(nodes@));
        r
    }

    /// A post-order walk over the subtrees below `start_node_id`: its children come off the
    /// stack in label order, and the start node itself is never stacked.
    pub fn new_below(start_node_id: &NodeID, nodes: &Vec<Node<T>>) -> (r: PostOrdNodes<T>)
        requires
            *start_node_id < nodes@.len(),
            closed_ids(child_entries(nodes@)),
        ensures
            r.wf(),
            in_stack_order(child_entries(nodes@)[*start_node_id as int], r.stack()),
            r.kids() == child_entries(nodes@),
            forall|n: int| 0 <= n < nodes@.len() ==> !#[trigger] r.is_expanded(n),
    {
        let mut r = PostOrdNodes::new(start_node_id, nodes);
        let ghost marks0 = r.expanded@;
        let ghost r0 = r;
        let top = r.stack.pop();
        proof {
            assert(r.stack@.len() == 0);
            assert(r.kids()[*start_node_id as int] == r.nodes@[*start_node_id as int]@);
            assert forall|k: int| 0 <= k < r.nodes@[*start_node_id as int]@.len()
                implies (#[trigger] r.nodes@[*start_node_id as int]@[k]).1 < r.nodes@.len() by {
                assert(r.kids()[*start_node_id as int][k].1 < r.kids().len());
            }
        }
        let n = r.nodes.len();
        push_in_stack_order(&mut r.stack, &r.nodes[*start_node_id], n);
        proof {
            assert(r.stack@.subrange(0, 0) =~= Seq::<NodeID>::empty());
            assert(r.stack@.subrange(0, r.stack@.len() as int) =~= r.stack@);
            assert(r.expanded@ == marks0);
            assert forall|m: int| 0 <= m < nodes@.len() implies !#[trigger] r.is_expanded(m) by {
                assert(!r0.is_expanded(m));
                assert(!marks0[m]);
            }
        }
        r
    }

    /// Pops the stack until a node whose children were already stacked comes up, and
    /// yields it. A node that comes up for the first time goes back, with its children
    /// above it so that they come off in label order; each node is expanded at most once.
    pub fn next(&mut self) -> (r: Option<NodeID>)
        requires
            old(self).wf(),
        ensures
            final(self).wf(),
            final(self).kids() == old(self).kids(),
            match r {
                None => final(self).stack().len() == 0,
                Some(x) => x < final(self).kids().len() && final(self).is_expanded(x as int),
            },
            post_yields(*old(self), *final(self), r),
            forall|n: int| 0 <= n < old(self).kids().len() && old(self).is_expanded(n) ==> #[trigger] final(self).is_expanded(n),
    {
        let ghost entry = *self;
        let ghost mut trace: Seq<(Seq<NodeID>, Seq<bool>)> = seq![(entry.stack(), entry.marks())];
        loop
            invariant
                self.wf(),
                entry == *old(self),
                is_trace(entry.kids(), trace),
                trace[0] == (entry.stack(), entry.marks()),
                trace.last() == (self.stack(), self.marks()),
                trace.len() > 1 ==> self.stack@.len() > 0,
                entry.stack().len() == 0 ==> trace.len() == 1,
                self.kids() == entry.kids(),
                forall|n: int| 0 <= n < entry.kids().len() && entry.is_expanded(n) ==> #[trigger] self.is_expanded(n),
            decreases unexpanded(self.expanded@),
        {
            let ghost head = *self;
            match self.stack.pop() {
                None => {
                    proof {
                        assert forall|m: int| 0 <= m < entry.kids().len() && entry.is_expanded(m) implies #[trigger] self.is_expanded(m) by {
                            assert(head.is_expanded(m));
                        }
                    }
                    return None;
                },
                Some(x) => {
                    if self.expanded[x] {
                        proof {
                            assert forall|m: int| 0 <= m < entry.kids().len() && entry.is_expanded(m) implies #[trigger] self.is_expanded(m) by {
                                assert(head.is_expanded(m));
                            }
                        }
                        proof {
                            assert(head.stack() == self.stack().push(x)) by {
                                assert(head.stack() =~= self.stack().push(x));
                            }
                            assert(trace.len() == 1 ==> entry.stack().len() > 0);
                            assert(is_trace(entry.kids(), trace) && trace[0] == (entry.stack(), entry.marks())
                                && trace.last() == (self.stack().push(x), self.marks()));
                        }
                        return Some(x);
                    }
                    proof {
                        lemma_mark(self.expanded@, x as int);
                        assert(self.kids()[x as int] == self.nodes@[x as int]@);
                        assert forall|k: int| 0 <= k < self.nodes@[x as int]@.len() implies (#[trigger] self.nodes@[x as int]@[k]).1 < self.nodes@.len() by {
                            assert(self.kids()[x as int][k].1 < self.kids().len());
                        }
                    }
                    let ghost before = self.expanded@;
                    self.expanded.set(x, true);
                    self.stack.push(x);
                    let ghost base = self.stack@;
                    let n = self.nodes.len();
                    push_in_stack_order(&mut self.stack, &self.nodes[x], n);
                    proof {
                        assert forall|k: int| 0 <= k < base.len() implies #[trigger] self.stack@[k] < self.nodes@.len() by {
                            assert(self.stack@.subrange(0, base.len() as int)[k] == base[k]);
                        }
                        assert forall|m: int| 0 <= m < entry.kids().len() && entry.is_expanded(m) implies #[trigger] self.is_expanded(m) by {
                            assert(head.is_expanded(m));
                            assert(before[m]);
                        }
                        assert(base =~= head.stack());
                        assert(self.kids()[x as int] == self.nodes@[x as int]@);
                        assert(expand_step(entry.kids(), head.stack(), head.marks(), self.stack(), self.marks()));
                        let t2 = trace.push((self.stack(), self.marks()));
                        assert forall|k: int| 0 <= k < t2.len() - 1
                            implies #[trigger] expand_step(entry.kids(), t2[k].0, t2[k].1, t2[k + 1].0, t2[k + 1].1) by {
                            if k < trace.len() - 1 {
                                assert(t2[k] == trace[k] && t2[k + 1] == trace[k + 1]);
                            }
                        }
                        trace = t2;
                    }
                },
            }
        }
    }
}

} // verus!
