use vstd::prelude::*;
use crate::symbol::{Symbol, Label};
use crate::suffix_node::{Node, NodeID, StringID};
use crate::tree_item::TreeItem;
use crate::matches::Matches;
use crate::iter::node_iter::{PreOrdNodes, PostOrdNodes, child_entries, closed_ids, in_stack_order};
use crate::iter::edge_iter::PostOrdEdges;

verus! {

/// Pattern `p` (not empty, and no longer than `bound`) stands in `text` at offset `i`.
pub open spec fn occurs_at<T>(text: Seq<T>, bound: nat, p: Seq<T>, i: int) -> bool {
    &&& 1 <= p.len() <= bound
    &&& 0 <= i && i + p.len() <= text.len()
    &&& text.subrange(i, i + p.len()) == p
}

/// `a` is a prefix of `b`.
spec fn is_prefix<T>(a: Seq<T>, b: Seq<T>) -> bool {
    a.len() <= b.len() && forall|j: int| 0 <= j < a.len() ==> #[trigger] a[j] == b[j]
}

/// Offset `i` of sequence `s` is indexed once the sequences before `ns`, and the
/// offsets of `ns` before `ni`, are.
spec fn done(ns: int, ni: int, s: int, i: int) -> bool {
    s < ns || (s == ns && i < ni)
}

/// A generalized suffix tree whose paths are truncated, per sequence, at a depth bound.
///
/// Each edge is a stretch of one indexed sequence (an owning sequence, a start and a
/// length); each node lists the (sequence, offset) pairs whose truncated suffix runs into
/// the edge that leads to it. A sequence is indexed by walking each of its truncated
/// suffixes down from the root and splitting an edge where the suffix leaves it. This is a
/// deliberate simplification of linear-time online construction: it needs no active
/// point, and each step keeps the tree's invariant in a form that can be checked locally.
/// It compares up to `O(L * min(L, d))` symbols for a sequence of length `L` and bound
/// `d`, and adds at most two nodes per suffix.
///
/// Suffix links are recorded as the walks go: once the walk of suffix `i + 1` stops at a
/// node of depth `e`, the node at which the walk of suffix `i` stopped at depth `e + 1`,
/// if there is one, is linked to it.
pub struct KGST<T, U> {
    root: NodeID,
    nodes: Vec<Node<T>>,
    terminal_character: T,
    strings: Vec<(TreeItem<T, U>, usize)>,
    suffix_links: Vec<NodeID>,
    node_data: Vec<Vec<(StringID, usize)>>,
    paths: Ghost<Seq<Seq<T>>>,
}

impl<T: Symbol, U: Label> KGST<T, U> {
    /// The indexed sequences, each with the terminator appended, in order of insertion.
    pub closed spec fn texts(&self) -> Seq<Seq<T>> {
        Seq::new(self.strings@.len(), |s: int| self.strings@[s].0.string@)
    }

    /// The labels of the indexed sequences.
    pub closed spec fn labels(&self) -> Seq<U::V> {
        Seq::new(self.strings@.len(), |s: int| self.strings@[s].0.id@)
    }

    /// The depth bound in force for each indexed sequence.
    pub closed spec fn bounds(&self) -> Seq<nat> {
        Seq::new(self.strings@.len(), |s: int| self.strings@[s].1 as nat)
    }

    /// The symbol appended to every indexed sequence.
    pub closed spec fn terminal(&self) -> T {
        self.terminal_character
    }

    /// The number of nodes, the root included.
    pub closed spec fn node_count(&self) -> nat {
        self.nodes@.len()
    }

    /// The symbols on the way from the root down to node `n`.
    pub closed spec fn node_path(&self, n: int) -> Seq<T> {
        self.paths@[n]
    }

    /// The node record of node `n`.
    pub closed spec fn node(&self, n: int) -> Node<T> {
        self.nodes@[n]
    }

    /// Offset `i` of a sequence labelled `lv` starts an occurrence of `p` within that
    /// sequence's depth bound.
    pub open spec fn match_has(&self, p: Seq<T>, lv: U::V, i: int) -> bool {
        exists|s: int|
            0 <= s < self.texts().len() && self.labels()[s] == lv
                && #[trigger] occurs_at(self.texts()[s], self.bounds()[s], p, i)
    }

    /// Some indexed sequence ends with `p`, within its depth bound (the terminator counted).
    pub open spec fn ends_with(&self, p: Seq<T>) -> bool {
        exists|s: int, i: int|
            0 <= s < self.texts().len()
                && #[trigger] occurs_at(self.texts()[s], self.bounds()[s], p.push(self.terminal()), i)
    }

    spec fn text(&self, s: int) -> Seq<T> {
        self.strings@[s].0.string@
    }

    spec fn bound(&self, s: int) -> int {
        self.strings@[s].1 as int
    }

    /// The length of the part of suffix `i` of sequence `s` that the tree holds.
    spec fn trunc_len(&self, s: int, i: int) -> int {
        if self.text(s).len() - i < self.bound(s) {
            self.text(s).len() - i
        } else {
            self.bound(s)
        }
    }

    spec fn valid_pair(&self, s: int, i: int) -> bool {
        0 <= s < self.strings@.len() && 0 <= i < self.text(s).len()
    }

    /// `q` agrees with the held part of suffix `i` of sequence `s` wherever both have a symbol.
    spec fn agrees(&self, s: int, i: int, q: Seq<T>) -> bool {
        forall|j: int| 0 <= j < q.len() && j < self.trunc_len(s, i) ==> #[trigger] q[j] == self.text(s)[i + j]
    }

    /// The path to node `n` is a prefix of the held part of suffix `i` of sequence `s`.
    spec fn reaches(&self, s: int, i: int, n: int) -> bool {
        &&& self.paths@[n].len() <= self.trunc_len(s, i)
        &&& self.agrees(s, i, self.paths@[n])
    }

    /// The held part of suffix `i` of sequence `s` runs into the edge that leads to `n`.
    spec fn enters(&self, s: int, i: int, n: int) -> bool {
        &&& n != 0
        &&& self.agrees(s, i, self.paths@[n])
        &&& self.trunc_len(s, i) > self.paths@[self.parent_of(n)].len()
    }

    spec fn data_has(&self, n: int, s: int, i: int) -> bool {
        exists|e: int|
            0 <= e < self.node_data@[n].len() && #[trigger] self.node_data@[n][e] == (s as usize, i as usize)
    }

    spec fn has_key(&self, n: int, c: T) -> bool {
        self.nodes@[n].has_key(c)
    }

    spec fn parent_of(&self, n: int) -> int {
        self.nodes@[n].parent.unwrap() as int
    }

    spec fn edge_of(&self, n: int) -> Seq<T> {
        let node = self.nodes@[n];
        self.text(node.string_id.unwrap() as int).subrange(node.start as int, node.start + node.edge_length)
    }

    spec fn node_ok(&self, n: int) -> bool {
        let node = self.nodes@[n];
        let p = node.parent.unwrap() as int;
        let s = node.string_id.unwrap() as int;
        &&& node.parent.is_some() && p < self.nodes@.len()
        &&& node.string_id.is_some() && s < self.strings@.len()
        &&& node.edge_length >= 1
        &&& node.start + node.edge_length <= self.text(s).len()
        &&& self.paths@[n] == self.paths@[p] + self.edge_of(n)
        &&& self.node_data@[n].len() > 0
        &&& exists|e: int| 0 <= e < self.node_data@[n].len() && #[trigger] self.full_entry(n, e)
        &&& exists|k: int| 0 <= k < self.nodes@[p].children@.len() && (#[trigger] self.nodes@[p].children@[k]).1 == n
    }

    /// Entry `e` of node `n` holds the whole path to `n`.
    spec fn full_entry(&self, n: int, e: int) -> bool {
        self.reaches(self.node_data@[n][e].0 as int, self.node_data@[n][e].1 as int, n)
    }

    spec fn child_ok(&self, n: int, k: int) -> bool {
        let c = self.nodes@[n].children@[k].0;
        let m = self.nodes@[n].children@[k].1 as int;
        &&& 0 < m < self.nodes@.len()
        &&& self.nodes@[m].parent == Some(n as usize)
        &&& self.paths@[m].len() > self.paths@[n].len()
        &&& self.paths@[m][self.paths@[n].len() as int] == c
    }

    /// No node ends inside the edge that leads to another.
    spec fn compact_pair(&self, y: int, z: int) -> bool {
        (y != z && is_prefix(self.paths@[y], self.paths@[z]))
            ==> self.paths@[y].len() <= self.paths@[self.parent_of(z)].len()
    }

    /// The suffix link of `n` names a node; unless it is the root, that node's path is
    /// the path of `n` without its first symbol.
    spec fn link_ok(&self, n: int) -> bool {
        let l = self.suffix_links@[n] as int;
        &&& l < self.nodes@.len()
        &&& l != 0 ==> self.paths@[l] == self.paths@[n].subrange(1, self.paths@[n].len() as int)
    }

    spec fn string_ok(&self, s: int) -> bool {
        &&& 1 <= self.bound(s) <= self.text(s).len()
        &&& self.text(s).last() == self.terminal_character
    }

    spec fn struct_wf(&self) -> bool {
        &&& self.root == 0
        &&& self.nodes@.len() >= 1
        &&& self.paths@.len() == self.nodes@.len()
        &&& self.node_data@.len() == self.nodes@.len()
        &&& self.suffix_links@.len() == self.nodes@.len()
        &&& self.nodes@[0].parent.is_none()
        &&& self.nodes@[0].string_id.is_none()
        &&& self.nodes@[0].edge_length == 0
        &&& self.paths@[0].len() == 0
        &&& self.node_data@[0].len() == 0
        &&& forall|n: int| 0 < n < self.nodes@.len() ==> #[trigger] self.node_ok(n)
        &&& forall|n: int, k: int|
            0 <= n < self.nodes@.len() && 0 <= k < self.nodes@[n].children@.len() ==> #[trigger] self.child_ok(n, k)
        &&& forall|n: int, k1: int, k2: int|
            0 <= n < self.nodes@.len() && 0 <= k1 < self.nodes@[n].children@.len()
                && 0 <= k2 < self.nodes@[n].children@.len() && k1 != k2
                ==> (#[trigger] self.nodes@[n].children@[k1]).0 != (#[trigger] self.nodes@[n].children@[k2]).0
        &&& forall|y: int, z: int| 0 <= y < self.nodes@.len() && 0 < z < self.nodes@.len() ==> #[trigger] self.compact_pair(y, z)
        &&& forall|n: int| 0 <= n < self.nodes@.len() ==> #[trigger] self.link_ok(n)
        &&& self.suffix_links@[0] == 0
        &&& forall|s: int| 0 <= s < self.strings@.len() ==> #[trigger] self.string_ok(s)
    }

    spec fn entry_ok(&self, n: int, e: int, ns: int, ni: int) -> bool {
        let s = self.node_data@[n][e].0 as int;
        let i = self.node_data@[n][e].1 as int;
        &&& done(ns, ni, s, i)
        &&& self.valid_pair(s, i)
        &&& self.enters(s, i, n)
    }

    /// Every listed pair is indexed and its held suffix runs into the node's edge.
    spec fn occ_sound(&self, ns: int, ni: int) -> bool {
        forall|n: int, e: int|
            0 <= n < self.nodes@.len() && 0 <= e < self.node_data@[n].len() ==> #[trigger] self.entry_ok(n, e, ns, ni)
    }

    /// Every indexed pair is listed at each node whose edge its held suffix runs into.
    spec fn occ_complete(&self, ns: int, ni: int) -> bool {
        forall|n: int, s: int, i: int|
            0 < n < self.nodes@.len() && done(ns, ni, s, i) && self.valid_pair(s, i) && #[trigger] self.enters(s, i, n)
                ==> self.data_has(n, s, i)
    }

    /// At `n`, the held suffix `i` of `s` goes on through an edge, and every edge that starts
    /// with its next symbol agrees with it.
    spec fn cont_at(&self, s: int, i: int, n: int) -> bool {
        let c = self.text(s)[i + self.paths@[n].len()];
        &&& self.has_key(n, c)
        &&& forall|k: int| 0 <= k < self.nodes@[n].children@.len() && (#[trigger] self.nodes@[n].children@[k]).0 == c
            ==> self.enters(s, i, self.nodes@[n].children@[k].1 as int)
    }

    /// Every indexed held suffix that goes beyond a node goes on through one of its edges.
    spec fn continuation(&self, ns: int, ni: int) -> bool {
        forall|n: int, s: int, i: int|
            0 <= n < self.nodes@.len() && done(ns, ni, s, i) && self.valid_pair(s, i) && #[trigger] self.reaches(s, i, n)
                && self.paths@[n].len() < self.trunc_len(s, i)
                ==> self.cont_at(s, i, n)
    }

    spec fn inv(&self, ns: int, ni: int) -> bool {
        &&& self.struct_wf()
        &&& self.occ_sound(ns, ni)
        &&& self.occ_complete(ns, ni)
        &&& self.continuation(ns, ni)
    }

    /// The tree holds exactly the truncated suffixes of the indexed sequences.
    pub closed spec fn wf(&self) -> bool {
        &&& self.inv(self.strings@.len() as int, 0)
        &&& self.lean_all()
    }

    /// Entry `e` of node `n` is a suffix whose held part ends exactly at `n`.
    spec fn end_entry(&self, n: int, e: int) -> bool {
        self.trunc_len(self.node_data@[n][e].0 as int, self.node_data@[n][e].1 as int) == self.paths@[n].len()
    }

    /// A node with fewer than two children is where some held suffix ends.
    spec fn lean(&self, n: int) -> bool {
        self.nodes@[n].children@.len() < 2
            ==> exists|e: int| 0 <= e < self.node_data@[n].len() && #[trigger] self.end_entry(n, e)
    }

    spec fn lean_all(&self) -> bool {
        forall|n: int| 0 < n < self.nodes@.len() ==> #[trigger] self.lean(n)
    }

    /// Creates an empty tree whose sequences will be terminated by `terminal_character`.
    pub fn new(terminal_character: T) -> (r: KGST<T, U>)
        ensures
            r.wf(),
            r.texts().len() == 0,
            r.labels().len() == 0,
            r.bounds().len() == 0,
            r.node_count() == 1,
            r.node(0).children@.len() == 0,
            r.node(0).parent.is_none(),
            r.node(0).string_id.is_none(),
            r.node(0).start == 0,
            r.node(0).edge_length == 0,
            r.links()[0] == 0,
            r.terminal() == terminal_character,
    {
        let mut nodes: Vec<Node<T>> = Vec::new();
        nodes.push(Node::new(Vec::new(), None, None, 0, 0));
        let mut node_data: Vec<Vec<(StringID, usize)>> = Vec::new();
        node_data.push(Vec::new());
        let mut suffix_links: Vec<NodeID> = Vec::new();
        suffix_links.push(0);
        let ghost p0: Seq<Seq<T>> = seq![Seq::empty()];
        let r = KGST {
            root: 0,
            nodes,
            terminal_character,
            strings: Vec::new(),
            suffix_links,
            node_data,
            paths: Ghost(p0),
        };
        assert(r.occ_sound(0, 0));
        r
    }


    spec fn walk_inv(&self, sid: int, i: int, n: int, d: int) -> bool {
        &&& self.struct_wf()
        &&& self.occ_sound(sid, i + 1)
        &&& self.occ_complete(sid, i)
        &&& self.continuation(sid, i)
        &&& 0 <= sid && sid + 1 == self.strings@.len()
        &&& 0 <= i < self.text(sid).len()
        &&& 0 <= n < self.nodes@.len()
        &&& d <= self.trunc_len(sid, i)
        &&& (d == self.paths@[n].len() || (d == self.trunc_len(sid, i) && n != 0
            && self.paths@[self.parent_of(n)].len() < d && d < self.paths@[n].len()))
        &&& self.agrees(sid, i, self.paths@[n])
        &&& forall|y: int|
            0 < y < self.nodes@.len() && #[trigger] self.enters(sid, i, y) && self.paths@[self.parent_of(y)].len() < d
                ==> self.data_has(y, sid, i)
        &&& forall|y: int|
            0 <= y < self.nodes@.len() && #[trigger] self.reaches(sid, i, y) && self.paths@[y].len() < d
                ==> self.cont_at(sid, i, y)
    }

    proof fn lemma_parent_prefix(&self, y: int)
        requires
            self.struct_wf(),
            0 < y < self.nodes@.len(),
        ensures
            is_prefix(self.paths@[self.parent_of(y)], self.paths@[y]),
            self.paths@[self.parent_of(y)].len() < self.paths@[y].len(),
            0 <= self.parent_of(y) < self.nodes@.len(),
    {
        assert(self.node_ok(y));
    }

    /// Distinct nodes have distinct paths.
    proof fn lemma_injective(&self, a: int, b: int)
        requires
            self.struct_wf(),
            0 <= a < self.nodes@.len(),
            0 <= b < self.nodes@.len(),
            self.paths@[a] == self.paths@[b],
        ensures
            a == b,
    {
        if a != b {
            let (y, z) = if b != 0 { (a, b) } else { (b, a) };
            assert(self.compact_pair(y, z));
            self.lemma_parent_prefix(z);
        }
    }

    /// At node `n` of depth `d`, any node whose path agrees with the held suffix beyond
    /// depth `d` is the child `m` that starts with the suffix's next symbol, or lies below it.
    proof fn lemma_descent(&self, sid: int, i: int, n: int, d: int, y: int)
        requires
            self.walk_inv(sid, i, n, d),
            d == self.paths@[n].len(),
            d < self.trunc_len(sid, i),
            0 <= y < self.nodes@.len(),
            self.agrees(sid, i, self.paths@[y]),
            self.paths@[y].len() > d,
        ensures
            self.has_key(n, self.text(sid)[i + d]),
            forall|k: int| 0 <= k < self.nodes@[n].children@.len()
                && (#[trigger] self.nodes@[n].children@[k]).0 == self.text(sid)[i + d]
                ==> ({
                    let m = self.nodes@[n].children@[k].1 as int;
                    y == m || (is_prefix(self.paths@[m], self.paths@[y])
                        && self.paths@[m].len() <= self.paths@[self.parent_of(y)].len())
                }),
        decreases self.paths@[y].len(),
    {
        let c = self.text(sid)[i + d];
        self.lemma_parent_prefix(y);
        let w = self.parent_of(y);
        assert(self.agrees(sid, i, self.paths@[w])) by {
            assert forall|j: int| 0 <= j < self.paths@[w].len() && j < self.trunc_len(sid, i)
                implies #[trigger] self.paths@[w][j] == self.text(sid)[i + j] by {
                assert(self.paths@[y][j] == self.text(sid)[i + j]);
            }
        }
        if self.paths@[w].len() > d {
            self.lemma_descent(sid, i, n, d, w);
            assert forall|k: int| 0 <= k < self.nodes@[n].children@.len()
                && (#[trigger] self.nodes@[n].children@[k]).0 == c
                implies ({
                    let m = self.nodes@[n].children@[k].1 as int;
                    y == m || (is_prefix(self.paths@[m], self.paths@[y])
                        && self.paths@[m].len() <= self.paths@[self.parent_of(y)].len())
                }) by {
                let m = self.nodes@[n].children@[k].1 as int;
                if w != m {
                    assert(is_prefix(self.paths@[m], self.paths@[w]));
                    self.lemma_parent_prefix(w);
                }
                assert forall|j: int| 0 <= j < self.paths@[m].len() implies #[trigger] self.paths@[m][j] == self.paths@[y][j] by {
                    assert(self.paths@[w][j] == self.paths@[y][j]);
                }
            }
        } else if self.paths@[w].len() == d {
            assert(self.paths@[w] =~= self.paths@[n]) by {
                assert forall|j: int| 0 <= j < d implies self.paths@[w][j] == self.paths@[n][j] by {
                    assert(self.paths@[w][j] == self.text(sid)[i + j]);
                    assert(self.paths@[n][j] == self.text(sid)[i + j]);
                }
            }
            self.lemma_injective(w, n);
            assert(self.node_ok(y));
            let k2 = choose|k2: int| 0 <= k2 < self.nodes@[n].children@.len() && (#[trigger] self.nodes@[n].children@[k2]).1 == y;
            assert(self.child_ok(n, k2));
            assert(self.paths@[y][d] == self.text(sid)[i + d]);
            assert(self.nodes@[n].children@[k2].0 == c);
            assert(self.has_key(n, c));
            assert forall|k: int| 0 <= k < self.nodes@[n].children@.len()
                && (#[trigger] self.nodes@[n].children@[k]).0 == c
                implies self.nodes@[n].children@[k].1 as int == y by {
                if k != k2 {
                    assert(self.nodes@[n].children@[k].0 != self.nodes@[n].children@[k2].0);
                }
            }
        } else {
            assert(self.compact_pair(n, y));
            assert(is_prefix(self.paths@[n], self.paths@[y])) by {
                assert forall|j: int| 0 <= j < self.paths@[n].len() implies #[trigger] self.paths@[n][j] == self.paths@[y][j] by {
                    assert(self.paths@[n][j] == self.text(sid)[i + j]);
                    assert(self.paths@[y][j] == self.text(sid)[i + j]);
                }
            }
        }
    }

    /// Facts that carry over to a state whose nodes, paths and registry are unchanged and
    /// whose lists only grew.
    proof fn lemma_same_shape(&self, prev: Self)
        requires
            prev.struct_wf(),
            self.nodes@ == prev.nodes@,
            self.paths@ == prev.paths@,
            self.strings@ == prev.strings@,
            self.suffix_links@ == prev.suffix_links@,
            self.terminal_character == prev.terminal_character,
            self.root == prev.root,
            self.node_data@.len() == prev.node_data@.len(),
            self.node_data@[0]@ == prev.node_data@[0]@,
            forall|y: int| 0 <= y < prev.node_data@.len() ==> prev.node_data@[y]@.len() <= (#[trigger] self.node_data@[y])@.len()
                && prev.node_data@[y]@ == self.node_data@[y]@.subrange(0, prev.node_data@[y]@.len() as int),
        ensures
            self.struct_wf(),
            forall|y: int, s: int, i: int| 0 <= y < self.nodes@.len() && #[trigger] prev.data_has(y, s, i) ==> self.data_has(y, s, i),
            forall|s: int, i: int, y: int| #[trigger] self.enters(s, i, y) == prev.enters(s, i, y),
            forall|s: int, i: int, y: int| #[trigger] self.reaches(s, i, y) == prev.reaches(s, i, y),
            forall|s: int, i: int, y: int| #[trigger] self.cont_at(s, i, y) == prev.cont_at(s, i, y),
    {
        assert forall|y: int, s: int, i: int| 0 <= y < self.nodes@.len() && #[trigger] prev.data_has(y, s, i) implies self.data_has(y, s, i) by {
            let e = choose|e: int| 0 <= e < prev.node_data@[y].len() && #[trigger] prev.node_data@[y][e] == (s as usize, i as usize);
            assert(self.node_data@[y]@.subrange(0, prev.node_data@[y]@.len() as int)[e] == self.node_data@[y][e]);
        }
        assert forall|y: int| 0 < y < self.nodes@.len() implies #[trigger] self.node_ok(y) by {
            assert(prev.node_ok(y));
            let e = choose|e: int| 0 <= e < prev.node_data@[y].len() && #[trigger] prev.full_entry(y, e);
            assert(self.node_data@[y]@.subrange(0, prev.node_data@[y]@.len() as int)[e] == self.node_data@[y][e]);
            assert(self.full_entry(y, e));
        }
        assert forall|y: int, k2: int| 0 <= y < self.nodes@.len() && 0 <= k2 < self.nodes@[y].children@.len() implies #[trigger] self.child_ok(y, k2) by {
            assert(prev.child_ok(y, k2));
        }
        assert forall|y: int, z: int| 0 <= y < self.nodes@.len() && 0 < z < self.nodes@.len() implies #[trigger] self.compact_pair(y, z) by {
            assert(prev.compact_pair(y, z));
        }
        assert forall|y: int| 0 <= y < self.nodes@.len() implies #[trigger] self.link_ok(y) by {
            assert(prev.link_ok(y));
        }
        assert forall|t: int| 0 <= t < self.strings@.len() implies #[trigger] self.string_ok(t) by {
            assert(prev.string_ok(t));
        }
        assert(self.node_data@[0]@.len() == 0);
    }

    /// Listing the current pair at child `m` of `n` and moving there (or stopping inside
    /// its edge, where the held suffix ends).
    proof fn lemma_step_push(&self, prev: Self, n: int, k: int, sid: int, i: int, d: int, nd: int)
        requires
            n <= usize::MAX,
            sid <= usize::MAX,
            i <= usize::MAX,
            prev.walk_inv(sid, i, n, d),
            d == prev.paths@[n].len(),
            d < prev.trunc_len(sid, i),
            0 <= k < prev.nodes@[n].children@.len(),
            prev.nodes@[n].children@[k].0 == prev.text(sid)[i + d],
            prev.agrees(sid, i, prev.paths@[prev.nodes@[n].children@[k].1 as int]),
            nd == if prev.paths@[prev.nodes@[n].children@[k].1 as int].len() <= prev.trunc_len(sid, i) {
                prev.paths@[prev.nodes@[n].children@[k].1 as int].len() as int
            } else {
                prev.trunc_len(sid, i)
            },
            self.nodes@ == prev.nodes@,
            self.paths@ == prev.paths@,
            self.strings@ == prev.strings@,
            self.terminal_character == prev.terminal_character,
            self.suffix_links@ == prev.suffix_links@,
            self.root == prev.root,
            self.node_data@.len() == prev.node_data@.len(),
            self.node_data@[prev.nodes@[n].children@[k].1 as int]@
                == prev.node_data@[prev.nodes@[n].children@[k].1 as int]@.push((sid as usize, i as usize)),
            forall|y: int| 0 <= y < prev.node_data@.len() && y != prev.nodes@[n].children@[k].1 ==> #[trigger] self.node_data@[y] == prev.node_data@[y],
        ensures
            self.walk_inv(sid, i, prev.nodes@[n].children@[k].1 as int, nd),
    {
        let m = prev.nodes@[n].children@[k].1 as int;
        let c = prev.text(sid)[i + d];
        let tl = prev.trunc_len(sid, i);
        assert(prev.child_ok(n, k));
        assert forall|y: int| 0 <= y < prev.node_data@.len() implies prev.node_data@[y]@.len() <= (#[trigger] self.node_data@[y])@.len()
            && prev.node_data@[y]@ == self.node_data@[y]@.subrange(0, prev.node_data@[y]@.len() as int) by {
            if y == m {
                assert(prev.node_data@[y]@ =~= self.node_data@[y]@.subrange(0, prev.node_data@[y]@.len() as int));
            }
        }
        self.lemma_same_shape(prev);
        assert(prev.parent_of(m) == n);
        assert(prev.enters(sid, i, m));
        assert(self.enters(sid, i, m));
        let last = prev.node_data@[m].len() as int;
        assert(self.node_data@[m][last] == (sid as usize, i as usize));
        assert forall|y: int, e: int|
            0 <= y < self.nodes@.len() && 0 <= e < self.node_data@[y].len() implies #[trigger] self.entry_ok(y, e, sid, i + 1) by {
            if y != m || e < last {
                assert(prev.entry_ok(y, e, sid, i + 1));
                assert(self.node_data@[y][e] == prev.node_data@[y][e]);
            }
        }
        assert forall|y: int, s2: int, i2: int|
            0 < y < self.nodes@.len() && done(sid, i, s2, i2) && self.valid_pair(s2, i2) && #[trigger] self.enters(s2, i2, y)
                implies self.data_has(y, s2, i2) by {
            assert(prev.enters(s2, i2, y));
        }
        assert forall|y: int, s2: int, i2: int|
            0 <= y < self.nodes@.len() && done(sid, i, s2, i2) && self.valid_pair(s2, i2) && #[trigger] self.reaches(s2, i2, y)
                && self.paths@[y].len() < self.trunc_len(s2, i2)
                implies self.cont_at(s2, i2, y) by {
            assert(prev.reaches(s2, i2, y));
        }
        assert forall|y: int|
            0 < y < self.nodes@.len() && #[trigger] self.enters(sid, i, y) && self.paths@[self.parent_of(y)].len() < nd
                implies self.data_has(y, sid, i) by {
            assert(prev.enters(sid, i, y));
            if prev.paths@[prev.parent_of(y)].len() < d {
                assert(prev.data_has(y, sid, i));
            } else {
                prev.lemma_parent_prefix(y);
                prev.lemma_descent(sid, i, n, d, y);
                if y != m {
                    assert(is_prefix(prev.paths@[m], prev.paths@[y]));
                }
                assert(self.node_data@[m][last] == (sid as usize, i as usize));
            }
        }
        assert forall|y: int|
            0 <= y < self.nodes@.len() && #[trigger] self.reaches(sid, i, y) && self.paths@[y].len() < nd
                implies self.cont_at(sid, i, y) by {
            assert(prev.reaches(sid, i, y));
            if prev.paths@[y].len() < d {
                assert(prev.cont_at(sid, i, y));
            } else if prev.paths@[y].len() == d {
                assert(prev.paths@[y] =~= prev.paths@[n]) by {
                    assert forall|j: int| 0 <= j < d implies prev.paths@[y][j] == prev.paths@[n][j] by {
                        assert(prev.paths@[y][j] == prev.text(sid)[i + j]);
                        assert(prev.paths@[n][j] == prev.text(sid)[i + j]);
                    }
                }
                prev.lemma_injective(y, n);
                assert(prev.has_key(n, c));
                assert forall|k2: int| 0 <= k2 < prev.nodes@[n].children@.len() && (#[trigger] prev.nodes@[n].children@[k2]).0 == c
                    implies prev.enters(sid, i, prev.nodes@[n].children@[k2].1 as int) by {
                    if k2 != k {
                        assert(prev.nodes@[n].children@[k2].0 != prev.nodes@[n].children@[k].0);
                    }
                }
                assert(prev.cont_at(sid, i, n));
            } else {
                prev.lemma_descent(sid, i, n, d, y);
                if y != m {
                    assert(is_prefix(prev.paths@[m], prev.paths@[y]));
                    prev.lemma_parent_prefix(y);
                }
            }
        }
    }

    /// Hanging a new leaf for the rest of the held suffix below `n`, which has no edge
    /// for the suffix's next symbol.
    proof fn lemma_step_leaf(&self, prev: Self, n: int, sid: int, i: int, d: int)
        requires
            n <= usize::MAX,
            sid <= usize::MAX,
            i <= usize::MAX,
            prev.walk_inv(sid, i, n, d),
            d == prev.paths@[n].len(),
            d < prev.trunc_len(sid, i),
            !prev.nodes@[n].has_key(prev.text(sid)[i + d]),
            prev.nodes@.len() < usize::MAX,
            self.nodes@.len() == prev.nodes@.len() + 1,
            self.nodes@[prev.nodes@.len() as int].children@.len() == 0,
            self.nodes@[prev.nodes@.len() as int].string_id == Some(sid as usize),
            self.nodes@[prev.nodes@.len() as int].parent == Some(n as usize),
            self.nodes@[prev.nodes@.len() as int].edge_length == prev.trunc_len(sid, i) - d,
            self.nodes@[prev.nodes@.len() as int].start == i + d,
            self.nodes@[n].children@ == prev.nodes@[n].children@.push((prev.text(sid)[i + d], prev.nodes@.len() as usize)),
            self.nodes@[n].parent == prev.nodes@[n].parent,
            self.nodes@[n].string_id == prev.nodes@[n].string_id,
            self.nodes@[n].edge_length == prev.nodes@[n].edge_length,
            self.nodes@[n].start == prev.nodes@[n].start,
            forall|y: int| 0 <= y < prev.nodes@.len() && y != n ==> #[trigger] self.nodes@[y] == prev.nodes@[y],
            self.node_data@.len() == prev.node_data@.len() + 1,
            self.node_data@[prev.nodes@.len() as int]@ == seq![(sid as usize, i as usize)],
            forall|y: int| 0 <= y < prev.nodes@.len() ==> #[trigger] self.node_data@[y] == prev.node_data@[y],
            self.suffix_links@ == prev.suffix_links@.push(0),
            self.paths@ == prev.paths@.push(prev.text(sid).subrange(i, i + prev.trunc_len(sid, i))),
            self.strings@ == prev.strings@,
            self.terminal_character == prev.terminal_character,
            self.root == prev.root,
        ensures
            self.walk_inv(sid, i, prev.nodes@.len() as int, prev.trunc_len(sid, i)),
    {
        let l = prev.nodes@.len() as int;
        let tl = prev.trunc_len(sid, i);
        let c = prev.text(sid)[i + d];
        let t = prev.text(sid).subrange(i, i + tl);
        assert(prev.string_ok(sid));
        // no old node agrees with the held suffix beyond depth d
        assert forall|y: int| 0 <= y < l && #[trigger] prev.agrees(sid, i, prev.paths@[y]) implies prev.paths@[y].len() <= d by {
            if prev.paths@[y].len() > d {
                prev.lemma_descent(sid, i, n, d, y);
            }
        }
        assert(self.paths@[l] == prev.paths@[n] + self.edge_of(l)) by {
            assert(self.paths@[l] =~= prev.paths@[n] + self.edge_of(l)) by {
                assert forall|j: int| 0 <= j < d implies self.paths@[l][j] == prev.paths@[n][j] by {
                    assert(prev.paths@[n][j] == prev.text(sid)[i + j]);
                }
            }
        }
        assert(self.agrees(sid, i, self.paths@[l]));
        assert(self.paths@[l].len() == tl);
        assert(self.reaches(sid, i, l));
        assert forall|y: int, x: T| 0 <= y < l && #[trigger] prev.has_key(y, x) implies self.has_key(y, x) by {
            let k = choose|k: int| 0 <= k < prev.nodes@[y].children@.len() && (#[trigger] prev.nodes@[y].children@[k]).0 == x;
            assert(self.nodes@[y].children@[k] == prev.nodes@[y].children@[k]);
        }
        assert forall|y: int| 0 <= y < l implies #[trigger] self.parent_of(y) == prev.parent_of(y) by {}
        assert(self.parent_of(l) == n);
        assert forall|y: int| 0 <= y < l implies #[trigger] self.paths@[y] == prev.paths@[y] by {}
        assert forall|s2: int, i2: int, y: int| 0 <= y < l implies
            #[trigger] self.enters(s2, i2, y) == prev.enters(s2, i2, y) by {
            if y != 0 {
                prev.lemma_parent_prefix(y);
            }
        }
        assert(self.enters(sid, i, l));
        assert forall|y: int| 0 < y < self.nodes@.len() implies #[trigger] self.node_ok(y) by {
            if y < l {
                assert(prev.node_ok(y));
                let p = prev.parent_of(y);
                let k = choose|k: int| 0 <= k < prev.nodes@[p].children@.len() && (#[trigger] prev.nodes@[p].children@[k]).1 == y;
                assert(self.nodes@[p].children@[k] == prev.nodes@[p].children@[k]);
                let e = choose|e: int| 0 <= e < prev.node_data@[y].len() && #[trigger] prev.full_entry(y, e);
                assert(self.full_entry(y, e));
                assert(self.edge_of(y) == prev.edge_of(y));
            } else {
                let k = prev.nodes@[n].children@.len() as int;
                assert(self.nodes@[n].children@[k].1 == y);
                assert(self.full_entry(y, 0));
            }
        }
        assert forall|y: int, k2: int| 0 <= y < self.nodes@.len() && 0 <= k2 < self.nodes@[y].children@.len() implies #[trigger] self.child_ok(y, k2) by {
            if y < l && k2 < prev.nodes@[y].children@.len() {
                assert(prev.child_ok(y, k2));
                assert(self.nodes@[y].children@[k2] == prev.nodes@[y].children@[k2]);
            }
        }
        assert forall|y: int, k1: int, k2: int|
            0 <= y < self.nodes@.len() && 0 <= k1 < self.nodes@[y].children@.len()
                && 0 <= k2 < self.nodes@[y].children@.len() && k1 != k2
                implies (#[trigger] self.nodes@[y].children@[k1]).0 != (#[trigger] self.nodes@[y].children@[k2]).0 by {
            if y == n {
                let last = prev.nodes@[n].children@.len() as int;
                if k1 < last {
                    assert(prev.nodes@[y].children@[k1] == self.nodes@[y].children@[k1]);
                }
                if k2 < last {
                    assert(prev.nodes@[y].children@[k2] == self.nodes@[y].children@[k2]);
                }
            } else if y < l {
                assert(prev.nodes@[y].children@[k1] == self.nodes@[y].children@[k1]);
                assert(prev.nodes@[y].children@[k2] == self.nodes@[y].children@[k2]);
            }
        }
        assert(self.paths@[self.parent_of(l)].len() == d);
        assert forall|y: int, z: int| 0 <= y < self.nodes@.len() && 0 < z < self.nodes@.len() implies #[trigger] self.compact_pair(y, z) by {
            if y != z && is_prefix(self.paths@[y], self.paths@[z]) {
                if y < l && z < l {
                    assert(prev.compact_pair(y, z));
                    prev.lemma_parent_prefix(z);
                    assert(self.paths@[self.parent_of(z)] == prev.paths@[prev.parent_of(z)]);
                } else if z == l {
                    assert(prev.agrees(sid, i, prev.paths@[y])) by {
                        assert forall|j: int| 0 <= j < prev.paths@[y].len() && j < tl implies #[trigger] prev.paths@[y][j] == prev.text(sid)[i + j] by {
                            assert(self.paths@[y][j] == self.paths@[l][j]);
                            assert(self.paths@[l][j] == prev.text(sid)[i + j]);
                        }
                    }
                    assert(prev.paths@[y].len() <= d);
                } else {
                    assert(prev.agrees(sid, i, prev.paths@[z])) by {
                        assert forall|j: int| 0 <= j < prev.paths@[z].len() && j < tl implies #[trigger] prev.paths@[z][j] == prev.text(sid)[i + j] by {
                            if j < tl {
                                assert(self.paths@[l][j] == self.paths@[z][j]);
                                assert(self.paths@[l][j] == prev.text(sid)[i + j]);
                            }
                        }
                    }
                    assert(prev.paths@[z].len() <= d);
                }
            }
        }
        assert forall|y: int| 0 <= y < self.nodes@.len() implies #[trigger] self.link_ok(y) by {
            if y < l {
                assert(prev.link_ok(y));
                assert(self.suffix_links@[y] == prev.suffix_links@[y]);
            }
        }
        assert forall|t2: int| 0 <= t2 < self.strings@.len() implies #[trigger] self.string_ok(t2) by {
            assert(prev.string_ok(t2));
        }
        assert(self.struct_wf());
        // a done pair cannot run into the new leaf: it would have found an edge for c at n
        assert forall|s2: int, i2: int|
            done(sid, i, s2, i2) && self.valid_pair(s2, i2) && self.agrees(s2, i2, self.paths@[l]) && self.trunc_len(s2, i2) > d
                implies false by {
            assert(prev.reaches(s2, i2, n)) by {
                assert forall|j: int| 0 <= j < prev.paths@[n].len() && j < prev.trunc_len(s2, i2) implies #[trigger] prev.paths@[n][j] == prev.text(s2)[i2 + j] by {
                    assert(self.paths@[l][j] == self.text(s2)[i2 + j]);
                }
            }
            assert(prev.cont_at(s2, i2, n));
            assert(self.paths@[l][d] == self.text(s2)[i2 + d]);
        }
        assert forall|y: int, e: int|
            0 <= y < self.nodes@.len() && 0 <= e < self.node_data@[y].len() implies #[trigger] self.entry_ok(y, e, sid, i + 1) by {
            if y < l {
                assert(prev.entry_ok(y, e, sid, i + 1));
            }
        }
        assert forall|y: int, s2: int, i2: int|
            0 < y < self.nodes@.len() && done(sid, i, s2, i2) && self.valid_pair(s2, i2) && #[trigger] self.enters(s2, i2, y)
                implies self.data_has(y, s2, i2) by {
            if y < l {
                assert(prev.enters(s2, i2, y));
                let e = choose|e: int| 0 <= e < prev.node_data@[y].len() && #[trigger] prev.node_data@[y][e] == (s2 as usize, i2 as usize);
                assert(self.node_data@[y][e] == (s2 as usize, i2 as usize));
            }
        }
        assert forall|y: int, s2: int, i2: int|
            0 <= y < self.nodes@.len() && done(sid, i, s2, i2) && self.valid_pair(s2, i2) && #[trigger] self.reaches(s2, i2, y)
                && self.paths@[y].len() < self.trunc_len(s2, i2)
                implies self.cont_at(s2, i2, y) by {
            if y < l {
                assert(prev.reaches(s2, i2, y));
                assert(prev.cont_at(s2, i2, y));
                let c2 = self.text(s2)[i2 + self.paths@[y].len()];
                assert forall|k2: int| 0 <= k2 < self.nodes@[y].children@.len() && (#[trigger] self.nodes@[y].children@[k2]).0 == c2
                    implies self.enters(s2, i2, self.nodes@[y].children@[k2].1 as int) by {
                    if y == n && k2 == prev.nodes@[n].children@.len() {
                        assert(c2 == c);
                        assert(prev.has_key(n, c));
                    } else {
                        assert(self.nodes@[y].children@[k2] == prev.nodes@[y].children@[k2]);
                        assert(prev.enters(s2, i2, prev.nodes@[y].children@[k2].1 as int));
                        assert(prev.child_ok(y, k2));
                    }
                }
            }
        }
        assert forall|y: int|
            0 < y < self.nodes@.len() && #[trigger] self.enters(sid, i, y) && self.paths@[self.parent_of(y)].len() < tl
                implies self.data_has(y, sid, i) by {
            if y < l {
                assert(prev.enters(sid, i, y));
                prev.lemma_parent_prefix(y);
                if prev.paths@[prev.parent_of(y)].len() >= d {
                    assert(prev.agrees(sid, i, prev.paths@[y]));
                }
                let e = choose|e: int| 0 <= e < prev.node_data@[y].len() && #[trigger] prev.node_data@[y][e] == (sid as usize, i as usize);
                assert(self.node_data@[y][e] == (sid as usize, i as usize));
            } else {
                assert(self.node_data@[l][0] == (sid as usize, i as usize));
            }
        }
        assert forall|y: int|
            0 <= y < self.nodes@.len() && #[trigger] self.reaches(sid, i, y) && self.paths@[y].len() < tl
                implies self.cont_at(sid, i, y) by {
            if y < l {
                assert(prev.reaches(sid, i, y));
                if prev.paths@[y].len() < d {
                    assert(prev.cont_at(sid, i, y));
                    let c2 = self.text(sid)[i + self.paths@[y].len()];
                    assert forall|k2: int| 0 <= k2 < self.nodes@[y].children@.len() && (#[trigger] self.nodes@[y].children@[k2]).0 == c2
                        implies self.enters(sid, i, self.nodes@[y].children@[k2].1 as int) by {
                        assert(y != n) by {
                            assert(prev.paths@[y].len() != prev.paths@[n].len());
                        }
                        assert(self.nodes@[y].children@[k2] == prev.nodes@[y].children@[k2]);
                        assert(prev.enters(sid, i, prev.nodes@[y].children@[k2].1 as int));
                        assert(prev.child_ok(y, k2));
                    }
                } else {
                    assert(prev.paths@[y] =~= prev.paths@[n]) by {
                        assert forall|j: int| 0 <= j < d implies prev.paths@[y][j] == prev.paths@[n][j] by {
                            assert(prev.paths@[y][j] == prev.text(sid)[i + j]);
                            assert(prev.paths@[n][j] == prev.text(sid)[i + j]);
                        }
                    }
                    prev.lemma_injective(y, n);
                    let kl = prev.nodes@[n].children@.len() as int;
                    assert(self.nodes@[n].children@[kl].0 == c);
                    assert forall|k2: int| 0 <= k2 < self.nodes@[n].children@.len() && (#[trigger] self.nodes@[n].children@[k2]).0 == c
                        implies self.enters(sid, i, self.nodes@[n].children@[k2].1 as int) by {
                        if k2 < kl {
                            assert(self.nodes@[n].children@[k2] == prev.nodes@[n].children@[k2]);
                        }
                    }
                }
            }
        }
    }

    /// Splitting the edge into child `m` of `n` at depth `j`, where the held suffix leaves
    /// it: a new node `sn` takes over the upper part of the edge, and the walk moves there.
    proof fn lemma_step_split(&self, prev: Self, n: int, k: int, sid: int, i: int, d: int, j: int)
        requires
            n <= usize::MAX,
            sid <= usize::MAX,
            i <= usize::MAX,
            prev.walk_inv(sid, i, n, d),
            d == prev.paths@[n].len(),
            d < j < prev.trunc_len(sid, i),
            0 <= k < prev.nodes@[n].children@.len(),
            prev.nodes@[n].children@[k].0 == prev.text(sid)[i + d],
            j < prev.paths@[prev.nodes@[n].children@[k].1 as int].len(),
            forall|x: int| 0 <= x < j ==> #[trigger] prev.paths@[prev.nodes@[n].children@[k].1 as int][x] == prev.text(sid)[i + x],
            prev.paths@[prev.nodes@[n].children@[k].1 as int][j] != prev.text(sid)[i + j],
            prev.nodes@.len() < usize::MAX,
            ({
                let m = prev.nodes@[n].children@[k].1 as int;
                let sn = prev.nodes@.len() as int;
                &&& self.nodes@.len() == sn + 1
                &&& self.nodes@[sn].children@ == seq![(prev.paths@[m][j], m as usize)]
                &&& self.nodes@[sn].string_id == prev.nodes@[m].string_id
                &&& self.nodes@[sn].parent == Some(n as usize)
                &&& self.nodes@[sn].edge_length == j - d
                &&& self.nodes@[sn].start == prev.nodes@[m].start
                &&& self.nodes@[n].children@ == prev.nodes@[n].children@.update(k, (prev.text(sid)[i + d], sn as usize))
                &&& self.nodes@[n].parent == prev.nodes@[n].parent
                &&& self.nodes@[n].string_id == prev.nodes@[n].string_id
                &&& self.nodes@[n].edge_length == prev.nodes@[n].edge_length
                &&& self.nodes@[n].start == prev.nodes@[n].start
                &&& self.nodes@[m].children@ == prev.nodes@[m].children@
                &&& self.nodes@[m].string_id == prev.nodes@[m].string_id
                &&& self.nodes@[m].parent == Some(sn as usize)
                &&& self.nodes@[m].start == prev.nodes@[m].start + (j - d)
                &&& self.nodes@[m].edge_length == prev.nodes@[m].edge_length - (j - d)
                &&& forall|y: int| 0 <= y < sn && y != n && y != m ==> #[trigger] self.nodes@[y] == prev.nodes@[y]
                &&& self.node_data@.len() == sn + 1
                &&& self.node_data@[sn]@ == prev.node_data@[m]@.push((sid as usize, i as usize))
                &&& forall|x: (StringID, usize)| #[trigger] self.node_data@[m]@.contains(x)
                    ==> prev.node_data@[m]@.contains(x) && prev.trunc_len(x.0 as int, x.1 as int) > j
                &&& forall|x: (StringID, usize)| #[trigger] prev.node_data@[m]@.contains(x) && prev.trunc_len(x.0 as int, x.1 as int) > j
                    ==> self.node_data@[m]@.contains(x)
                &&& forall|y: int| 0 <= y < sn && y != m ==> #[trigger] self.node_data@[y] == prev.node_data@[y]
                &&& self.suffix_links@ == prev.suffix_links@.push(0)
                &&& self.paths@ == prev.paths@.push(prev.paths@[m].subrange(0, j))
            }),
            self.strings@ == prev.strings@,
            self.terminal_character == prev.terminal_character,
            self.root == prev.root,
        ensures
            self.walk_inv(sid, i, prev.nodes@.len() as int, j),
    {
        let m = prev.nodes@[n].children@[k].1 as int;
        let sn = prev.nodes@.len() as int;
        let c = prev.text(sid)[i + d];
        let tl = prev.trunc_len(sid, i);
        let pm = prev.paths@[m];
        let big = pm.subrange(0, j);
        assert(prev.child_ok(n, k));
        assert(prev.node_ok(m));
        assert(m != n);
        assert(pm[d] == c);
        let ms = prev.nodes@[m].string_id.unwrap() as int;
        let mst = prev.nodes@[m].start as int;
        assert forall|x: int| 0 <= x < prev.nodes@[m].edge_length implies #[trigger] pm[d + x] == prev.text(ms)[mst + x] by {
            assert(pm[d + x] == prev.edge_of(m)[x]);
        }
        assert forall|x: int| 0 <= x < d implies #[trigger] pm[x] == prev.paths@[n][x] by {}
        // shape of the new state
        assert(self.parent_of(m) == sn);
        assert(self.parent_of(sn) == n);
        assert forall|y: int| 0 <= y < sn && y != m implies #[trigger] self.parent_of(y) == prev.parent_of(y) by {}
        assert(self.paths@[sn] == self.paths@[n] + self.edge_of(sn)) by {
            assert(self.paths@[sn] =~= self.paths@[n] + self.edge_of(sn));
        }
        assert(self.paths@[m] == self.paths@[sn] + self.edge_of(m)) by {
            assert(self.paths@[m] =~= self.paths@[sn] + self.edge_of(m)) by {
                assert forall|x: int| j <= x < pm.len() implies #[trigger] pm[x] == self.edge_of(m)[x - j] by {
                    assert(pm[d + (x - d)] == prev.text(ms)[mst + (x - d)]);
                }
            }
        }
        assert(prev.agrees(sid, i, big)) by {
            assert forall|x: int| 0 <= x < big.len() && x < tl implies #[trigger] big[x] == prev.text(sid)[i + x] by {
                assert(pm[x] == prev.text(sid)[i + x]);
            }
        }
        // the old full entry of m
        let fe = choose|e: int| 0 <= e < prev.node_data@[m].len() && #[trigger] prev.full_entry(m, e);
        let fpair = prev.node_data@[m][fe];
        assert(prev.trunc_len(fpair.0 as int, fpair.1 as int) >= pm.len());
        assert(prev.node_data@[m]@.contains(fpair));
        assert(self.node_data@[m]@.contains(fpair));
        let fe2 = choose|e: int| 0 <= e < self.node_data@[m]@.len() && self.node_data@[m]@[e] == fpair;
        assert forall|y: int| 0 < y < self.nodes@.len() implies #[trigger] self.node_ok(y) by {
            if y == sn {
                assert(self.node_data@[sn][fe] == fpair);
                assert(self.full_entry(sn, fe)) by {
                    assert forall|x: int| 0 <= x < big.len() && x < self.trunc_len(fpair.0 as int, fpair.1 as int)
                        implies #[trigger] big[x] == self.text(fpair.0 as int)[fpair.1 as int + x] by {
                        assert(pm[x] == prev.text(fpair.0 as int)[fpair.1 as int + x]);
                    }
                }
                assert(self.nodes@[n].children@[k].1 == sn);
            } else if y == m {
                assert(self.full_entry(m, fe2));
                assert(self.nodes@[sn].children@[0].1 == m);
            } else {
                assert(prev.node_ok(y));
                let p = prev.parent_of(y);
                let k2 = choose|k2: int| 0 <= k2 < prev.nodes@[p].children@.len() && (#[trigger] prev.nodes@[p].children@[k2]).1 == y;
                if p == n {
                    assert(k2 != k);
                    assert(self.nodes@[n].children@[k2] == prev.nodes@[n].children@[k2]);
                } else {
                    assert(self.nodes@[p].children@ == prev.nodes@[p].children@);
                    assert(self.nodes@[p].children@[k2] == prev.nodes@[p].children@[k2]);
                }
                let e = choose|e: int| 0 <= e < prev.node_data@[y].len() && #[trigger] prev.full_entry(y, e);
                assert(self.full_entry(y, e));
                assert(self.edge_of(y) == prev.edge_of(y));
            }
        }
        assert forall|y: int, k2: int| 0 <= y < self.nodes@.len() && 0 <= k2 < self.nodes@[y].children@.len() implies #[trigger] self.child_ok(y, k2) by {
            if y == n && k2 == k {
            } else if y == sn {
            } else {
                assert(prev.child_ok(y, k2));
                assert(self.nodes@[y].children@[k2] == prev.nodes@[y].children@[k2]);
            }
        }
        assert forall|y: int, k1: int, k2: int|
            0 <= y < self.nodes@.len() && 0 <= k1 < self.nodes@[y].children@.len()
                && 0 <= k2 < self.nodes@[y].children@.len() && k1 != k2
                implies (#[trigger] self.nodes@[y].children@[k1]).0 != (#[trigger] self.nodes@[y].children@[k2]).0 by {
            if y != sn {
                assert(self.nodes@[y].children@[k1].0 == prev.nodes@[y].children@[k1].0);
                assert(self.nodes@[y].children@[k2].0 == prev.nodes@[y].children@[k2].0);
            }
        }
        assert forall|y: int, z: int| 0 <= y < self.nodes@.len() && 0 < z < self.nodes@.len() implies #[trigger] self.compact_pair(y, z) by {
            if y != z && is_prefix(self.paths@[y], self.paths@[z]) {
                if z == sn {
                    if y != m && self.paths@[y].len() > d {
                        assert(is_prefix(prev.paths@[y], pm));
                        assert(prev.compact_pair(y, m));
                    }
                    if y == m {
                        assert(false);
                    }
                } else if z == m {
                    if y != sn {
                        assert(prev.compact_pair(y, m));
                    }
                } else {
                    prev.lemma_parent_prefix(z);
                    let w = prev.parent_of(z);
                    if y == sn {
                        if prev.paths@[w].len() < j {
                            assert(is_prefix(prev.paths@[w], pm)) by {
                                assert forall|x: int| 0 <= x < prev.paths@[w].len() implies #[trigger] prev.paths@[w][x] == pm[x] by {
                                    assert(prev.paths@[z][x] == big[x]);
                                }
                            }
                            if prev.paths@[w].len() > d {
                                assert(prev.compact_pair(w, m));
                            } else if prev.paths@[w].len() == d {
                                assert(prev.paths@[w] =~= prev.paths@[n]);
                                prev.lemma_injective(w, n);
                                assert(prev.node_ok(z));
                                let k2 = choose|k2: int| 0 <= k2 < prev.nodes@[n].children@.len() && (#[trigger] prev.nodes@[n].children@[k2]).1 == z;
                                assert(prev.child_ok(n, k2));
                                assert(prev.paths@[z][d] == big[d]);
                                if k2 != k {
                                    assert(prev.nodes@[n].children@[k2].0 != prev.nodes@[n].children@[k].0);
                                }
                            } else {
                                assert(prev.compact_pair(n, z));
                                assert(is_prefix(prev.paths@[n], prev.paths@[z])) by {
                                    assert forall|x: int| 0 <= x < d implies #[trigger] prev.paths@[n][x] == prev.paths@[z][x] by {
                                        assert(prev.paths@[z][x] == big[x]);
                                    }
                                }
                            }
                        }
                    } else {
                        assert(prev.compact_pair(y, z));
                    }
                }
            }
        }
        assert forall|y: int| 0 <= y < self.nodes@.len() implies #[trigger] self.link_ok(y) by {
            if y < sn {
                assert(prev.link_ok(y));
                assert(self.suffix_links@[y] == prev.suffix_links@[y]);
            }
        }
        assert forall|t2: int| 0 <= t2 < self.strings@.len() implies #[trigger] self.string_ok(t2) by {
            assert(prev.string_ok(t2));
        }
        assert(self.struct_wf());
        // into, for the nodes whose edge or parent did not change
        assert forall|s2: int, i2: int, y: int| 0 <= y < sn && y != m implies
            #[trigger] self.enters(s2, i2, y) == prev.enters(s2, i2, y) by {
            if y != 0 {
                prev.lemma_parent_prefix(y);
            }
        }
        assert forall|s2: int, i2: int, y: int| 0 <= y < sn implies
            #[trigger] self.reaches(s2, i2, y) == prev.reaches(s2, i2, y) by {}
        // a done pair that runs into sn runs into m in the old tree
        assert forall|s2: int, i2: int|
            done(sid, i, s2, i2) && self.valid_pair(s2, i2) && #[trigger] self.enters(s2, i2, sn)
                implies prev.enters(s2, i2, m) by {
            assert(prev.reaches(s2, i2, n)) by {
                assert forall|x: int| 0 <= x < d && x < prev.trunc_len(s2, i2) implies #[trigger] prev.paths@[n][x] == prev.text(s2)[i2 + x] by {
                    assert(big[x] == prev.text(s2)[i2 + x]);
                }
            }
            assert(prev.cont_at(s2, i2, n));
            assert(big[d] == prev.text(s2)[i2 + d]);
        }
        assert forall|y: int, e: int|
            0 <= y < self.nodes@.len() && 0 <= e < self.node_data@[y].len() implies #[trigger] self.entry_ok(y, e, sid, i + 1) by {
            if y == sn {
                if e < prev.node_data@[m].len() {
                    assert(prev.entry_ok(m, e, sid, i + 1));
                    let pr = prev.node_data@[m][e];
                    assert(self.agrees(pr.0 as int, pr.1 as int, big)) by {
                        assert forall|x: int| 0 <= x < big.len() && x < self.trunc_len(pr.0 as int, pr.1 as int)
                            implies #[trigger] big[x] == self.text(pr.0 as int)[pr.1 as int + x] by {
                            assert(pm[x] == prev.text(pr.0 as int)[pr.1 as int + x]);
                        }
                    }
                }
            } else if y == m {
                let x = self.node_data@[m]@[e];
                assert(self.node_data@[m]@.contains(x));
                let e2 = choose|e2: int| 0 <= e2 < prev.node_data@[m]@.len() && prev.node_data@[m]@[e2] == x;
                assert(prev.entry_ok(m, e2, sid, i + 1));
            } else {
                assert(prev.entry_ok(y, e, sid, i + 1));
            }
        }
        assert forall|y: int, s2: int, i2: int|
            0 < y < self.nodes@.len() && done(sid, i, s2, i2) && self.valid_pair(s2, i2) && #[trigger] self.enters(s2, i2, y)
                implies self.data_has(y, s2, i2) by {
            if y == sn {
                assert(prev.enters(s2, i2, m));
                let e = choose|e: int| 0 <= e < prev.node_data@[m].len() && #[trigger] prev.node_data@[m][e] == (s2 as usize, i2 as usize);
                assert(self.node_data@[sn][e] == (s2 as usize, i2 as usize));
            } else if y == m {
                assert(prev.enters(s2, i2, m));
                let e2 = choose|e: int| 0 <= e < prev.node_data@[m].len() && #[trigger] prev.node_data@[m][e] == (s2 as usize, i2 as usize);
                let x = (s2 as usize, i2 as usize);
                assert(prev.node_data@[m]@[e2] == x);
                assert(prev.node_data@[m]@.contains(x));
                assert(self.node_data@[m]@.contains(x));
                let e = choose|e: int| 0 <= e < self.node_data@[m]@.len() && self.node_data@[m]@[e] == x;
                assert(self.node_data@[m][e] == (s2 as usize, i2 as usize));
            } else {
                assert(prev.enters(s2, i2, y));
                let e = choose|e: int| 0 <= e < prev.node_data@[y].len() && #[trigger] prev.node_data@[y][e] == (s2 as usize, i2 as usize);
                assert(self.node_data@[y][e] == (s2 as usize, i2 as usize));
            }
        }
        assert forall|y: int, s2: int, i2: int|
            0 <= y < self.nodes@.len() && done(sid, i, s2, i2) && self.valid_pair(s2, i2) && #[trigger] self.reaches(s2, i2, y)
                && self.paths@[y].len() < self.trunc_len(s2, i2)
                implies self.cont_at(s2, i2, y) by {
            let c2 = self.text(s2)[i2 + self.paths@[y].len()];
            if y == sn {
                assert(self.enters(s2, i2, sn));
                assert(prev.enters(s2, i2, m));
                assert(pm[j] == self.text(s2)[i2 + j]);
                assert(self.nodes@[sn].children@[0].0 == c2);
                assert(self.enters(s2, i2, m));
            } else {
                assert(prev.reaches(s2, i2, y));
                assert(prev.cont_at(s2, i2, y));
                assert(self.has_key(y, c2)) by {
                    let k2 = choose|k2: int| 0 <= k2 < prev.nodes@[y].children@.len() && (#[trigger] prev.nodes@[y].children@[k2]).0 == c2;
                    assert(self.nodes@[y].children@[k2].0 == c2);
                }
                assert forall|k2: int| 0 <= k2 < self.nodes@[y].children@.len() && (#[trigger] self.nodes@[y].children@[k2]).0 == c2
                    implies self.enters(s2, i2, self.nodes@[y].children@[k2].1 as int) by {
                    if y == n && k2 == k {
                        assert(prev.enters(s2, i2, m));
                        assert(self.agrees(s2, i2, big)) by {
                            assert forall|x: int| 0 <= x < big.len() && x < self.trunc_len(s2, i2)
                                implies #[trigger] big[x] == self.text(s2)[i2 + x] by {
                                assert(pm[x] == prev.text(s2)[i2 + x]);
                            }
                        }
                    } else {
                        assert(self.nodes@[y].children@[k2] == prev.nodes@[y].children@[k2]);
                        assert(prev.enters(s2, i2, prev.nodes@[y].children@[k2].1 as int));
                        assert(prev.child_ok(y, k2));
                    }
                }
            }
        }
        // the walk, now at sn
        assert forall|y: int|
            0 < y < self.nodes@.len() && #[trigger] self.enters(sid, i, y) && self.paths@[self.parent_of(y)].len() < j
                implies self.data_has(y, sid, i) by {
            if y == sn {
                let last = prev.node_data@[m].len() as int;
                assert(self.node_data@[sn][last] == (sid as usize, i as usize));
            } else if y == m {
            } else {
                assert(prev.enters(sid, i, y));
                prev.lemma_parent_prefix(y);
                if prev.paths@[prev.parent_of(y)].len() >= d {
                    prev.lemma_descent(sid, i, n, d, y);
                    assert(is_prefix(pm, prev.paths@[y]));
                }
                let e = choose|e: int| 0 <= e < prev.node_data@[y].len() && #[trigger] prev.node_data@[y][e] == (sid as usize, i as usize);
                assert(self.node_data@[y][e] == (sid as usize, i as usize));
            }
        }
        assert forall|y: int|
            0 <= y < self.nodes@.len() && #[trigger] self.reaches(sid, i, y) && self.paths@[y].len() < j
                implies self.cont_at(sid, i, y) by {
            if y != sn {
                assert(prev.reaches(sid, i, y));
                if prev.paths@[y].len() < d {
                    assert(prev.cont_at(sid, i, y));
                    let c2 = self.text(sid)[i + self.paths@[y].len()];
                    assert(y != n);
                    assert(self.has_key(y, c2)) by {
                        let k2 = choose|k2: int| 0 <= k2 < prev.nodes@[y].children@.len() && (#[trigger] prev.nodes@[y].children@[k2]).0 == c2;
                        assert(self.nodes@[y].children@[k2].0 == c2);
                    }
                    assert forall|k2: int| 0 <= k2 < self.nodes@[y].children@.len() && (#[trigger] self.nodes@[y].children@[k2]).0 == c2
                        implies self.enters(sid, i, self.nodes@[y].children@[k2].1 as int) by {
                        assert(self.nodes@[y].children@[k2] == prev.nodes@[y].children@[k2]);
                        assert(prev.enters(sid, i, prev.nodes@[y].children@[k2].1 as int));
                        assert(prev.child_ok(y, k2));
                    }
                } else if prev.paths@[y].len() == d {
                    assert(prev.paths@[y] =~= prev.paths@[n]) by {
                        assert forall|x: int| 0 <= x < d implies prev.paths@[y][x] == prev.paths@[n][x] by {
                            assert(prev.paths@[y][x] == prev.text(sid)[i + x]);
                            assert(prev.paths@[n][x] == prev.text(sid)[i + x]);
                        }
                    }
                    prev.lemma_injective(y, n);
                    assert(self.nodes@[n].children@[k].0 == c);
                    assert forall|k2: int| 0 <= k2 < self.nodes@[n].children@.len() && (#[trigger] self.nodes@[n].children@[k2]).0 == c
                        implies self.enters(sid, i, self.nodes@[n].children@[k2].1 as int) by {
                        if k2 != k {
                            assert(self.nodes@[n].children@[k2] == prev.nodes@[n].children@[k2]);
                            assert(prev.nodes@[n].children@[k2].0 != prev.nodes@[n].children@[k].0);
                        }
                    }
                } else {
                    prev.lemma_descent(sid, i, n, d, y);
                    if y != m {
                        assert(is_prefix(pm, prev.paths@[y]));
                        prev.lemma_parent_prefix(y);
                    }
                }
            }
        }
    }

    proof fn lemma_after_register(&self, prev: Self)
        requires
            prev.wf(),
            self.strings@.len() == prev.strings@.len() + 1,
            forall|s: int| 0 <= s < prev.strings@.len() ==> #[trigger] self.strings@[s] == prev.strings@[s],
            self.string_ok(prev.strings@.len() as int),
            self.nodes@ == prev.nodes@,
            self.paths@ == prev.paths@,
            self.node_data@ == prev.node_data@,
            self.suffix_links@ == prev.suffix_links@,
            self.terminal_character == prev.terminal_character,
            self.root == prev.root,
        ensures
            self.inv(prev.strings@.len() as int, 0),
    {
        let ns = prev.strings@.len() as int;
        assert forall|s: int| 0 <= s < ns implies #[trigger] self.text(s) == prev.text(s) && self.bound(s) == prev.bound(s) by {
            assert(self.strings@[s] == prev.strings@[s]);
        }
        assert forall|s: int, i: int, q: Seq<T>| 0 <= s < ns implies #[trigger] self.agrees(s, i, q) == prev.agrees(s, i, q) by {}
        assert forall|y: int, e: int| 0 <= y < self.nodes@.len() && 0 <= e < self.node_data@[y].len() implies #[trigger] self.entry_ok(y, e, ns, 0) by {
            assert(prev.entry_ok(y, e, ns, 0));
            let s = self.node_data@[y][e].0 as int;
            assert(s < ns);
        }
        assert forall|y: int| 0 < y < self.nodes@.len() implies #[trigger] self.node_ok(y) by {
            assert(prev.node_ok(y));
            assert(self.text(self.nodes@[y].string_id.unwrap() as int) == prev.text(self.nodes@[y].string_id.unwrap() as int));
            assert(self.edge_of(y) == prev.edge_of(y));
            let e = choose|e: int| 0 <= e < prev.node_data@[y].len() && #[trigger] prev.full_entry(y, e);
            assert(prev.entry_ok(y, e, ns, 0));
            assert(self.full_entry(y, e));
        }
        assert forall|y: int, k2: int| 0 <= y < self.nodes@.len() && 0 <= k2 < self.nodes@[y].children@.len() implies #[trigger] self.child_ok(y, k2) by {
            assert(prev.child_ok(y, k2));
        }
        assert forall|y: int, z: int| 0 <= y < self.nodes@.len() && 0 < z < self.nodes@.len() implies #[trigger] self.compact_pair(y, z) by {
            assert(prev.compact_pair(y, z));
        }
        assert forall|s: int| 0 <= s < self.strings@.len() implies #[trigger] self.string_ok(s) by {
            if s < ns {
                assert(prev.string_ok(s));
            }
        }
        assert forall|y: int| 0 <= y < self.nodes@.len() implies #[trigger] self.link_ok(y) by {
            assert(prev.link_ok(y));
        }
        assert(self.struct_wf());
        assert forall|y: int, s: int, i2: int|
            0 < y < self.nodes@.len() && done(ns, 0, s, i2) && self.valid_pair(s, i2) && #[trigger] self.enters(s, i2, y)
                implies self.data_has(y, s, i2) by {
            assert(prev.enters(s, i2, y));
        }
        assert forall|y: int, s: int, i2: int|
            0 <= y < self.nodes@.len() && done(ns, 0, s, i2) && self.valid_pair(s, i2) && #[trigger] self.reaches(s, i2, y)
                && self.paths@[y].len() < self.trunc_len(s, i2)
                implies self.cont_at(s, i2, y) by {
            assert(prev.reaches(s, i2, y));
            assert(prev.cont_at(s, i2, y));
            let c2 = self.text(s)[i2 + self.paths@[y].len()];
            assert forall|k2: int| 0 <= k2 < self.nodes@[y].children@.len() && (#[trigger] self.nodes@[y].children@[k2]).0 == c2
                implies self.enters(s, i2, self.nodes@[y].children@[k2].1 as int) by {
                assert(prev.enters(s, i2, prev.nodes@[y].children@[k2].1 as int));
            }
        }
    }

    proof fn lemma_finish(&self, sid: int)
        requires
            0 <= sid,
            sid + 1 == self.strings@.len(),
            self.inv(sid, self.text(sid).len() as int),
            self.lean_all(),
        ensures
            self.wf(),
    {
        let l = self.text(sid).len() as int;
        assert forall|y: int, e: int|
            0 <= y < self.nodes@.len() && 0 <= e < self.node_data@[y].len() implies #[trigger] self.entry_ok(y, e, sid + 1, 0) by {
            assert(self.entry_ok(y, e, sid, l));
        }
        assert forall|y: int, s: int, i2: int|
            0 < y < self.nodes@.len() && done(sid + 1, 0, s, i2) && self.valid_pair(s, i2) && #[trigger] self.enters(s, i2, y)
                implies self.data_has(y, s, i2) by {
            assert(done(sid, l, s, i2));
        }
        assert forall|y: int, s: int, i2: int|
            0 <= y < self.nodes@.len() && done(sid + 1, 0, s, i2) && self.valid_pair(s, i2) && #[trigger] self.reaches(s, i2, y)
                && self.paths@[y].len() < self.trunc_len(s, i2)
                implies self.cont_at(s, i2, y) by {
            assert(done(sid, l, s, i2));
        }
    }

    /// Suffix `i` of sequence `s` holds `q` at its start, within the sequence's bound.
    spec fn held(&self, s: int, i: int, q: Seq<T>) -> bool {
        &&& self.valid_pair(s, i)
        &&& q.len() <= self.trunc_len(s, i)
        &&& forall|j: int| 0 <= j < q.len() ==> #[trigger] q[j] == self.text(s)[i + j]
    }

    proof fn lemma_held_iff_occurs(&self, s: int, i: int, q: Seq<T>)
        requires
            0 <= s < self.strings@.len(),
            q.len() >= 1,
        ensures
            self.held(s, i, q) <==> occurs_at(self.texts()[s], self.bounds()[s], q, i),
    {
        assert(self.texts()[s] == self.text(s));
        if self.held(s, i, q) {
            assert(self.text(s).subrange(i, i + q.len()) =~= q);
        }
        if occurs_at(self.texts()[s], self.bounds()[s], q, i) {
            assert forall|j: int| 0 <= j < q.len() implies #[trigger] q[j] == self.text(s)[i + j] by {
                assert(self.text(s).subrange(i, i + q.len())[j] == self.text(s)[i + j]);
            }
        }
    }

    /// Registers sequence `v` under label `k` and indexes its suffixes. The terminator is
    /// appended to `v`; a `max_depth` of `0` sets no bound, any other value bounds the
    /// depth at which the sequence is held (at most its length with the terminator).
    pub fn insert(&mut self, k: U, v: Vec<T>, max_depth: &usize)
        requires
            old(self).wf(),
            v@.len() + 1 <= usize::MAX,
        ensures
            final(self).wf(),
            final(self).texts() == old(self).texts().push(v@.push(old(self).terminal())),
            final(self).labels() == old(self).labels().push(k@),
            final(self).bounds() == old(self).bounds().push(
                if *max_depth == 0 || *max_depth > v@.len() + 1 { (v@.len() + 1) as nat } else { *max_depth as nat },
            ),
            final(self).terminal() == old(self).terminal(),
            old(self).node_count() <= final(self).node_count() <= old(self).node_count() + 2 * (v@.len() + 1),
            forall|n: int| 0 <= n < old(self).node_count() ==> #[trigger] final(self).node_path(n) == old(self).node_path(n),
            forall|n: int| old(self).node_count() <= n < final(self).node_count()
                ==> #[trigger] final(self).node_path(n).len() <= final(self).bounds()[old(self).texts().len() as int],
    {
        let ghost prev = *self;
        let mut seq = v;
        seq.push(self.terminal_character);
        let len = seq.len();
        let bound: usize = if *max_depth == 0 || *max_depth > len { len } else { *max_depth };
        let sid = self.strings.len();
        self.strings.push((TreeItem::new(k, seq), bound));
        let ghost strs = self.strings@;
        proof {
            self.lemma_after_register(prev);
            let ns = prev.strings@.len() as int;
            assert forall|y: int| 0 < y < self.nodes@.len() implies #[trigger] self.lean(y) by {
                assert(prev.lean(y));
                if self.nodes@[y].children@.len() < 2 {
                    let e = choose|e: int| 0 <= e < prev.node_data@[y].len() && #[trigger] prev.end_entry(y, e);
                    assert(prev.entry_ok(y, e, ns, 0));
                    let t = prev.node_data@[y][e].0 as int;
                    assert(self.strings@[t] == prev.strings@[t]);
                    assert(self.end_entry(y, e));
                }
            }
        }
        let mut i: usize = 0;
        let mut prev_walk: Vec<(NodeID, usize)> = Vec::new();
        while i < len
            invariant
                self.inv(sid as int, i as int),
                self.lean_all(),
                prev.nodes@.len() <= self.nodes@.len() <= prev.nodes@.len() + 2 * i,
                forall|y: int| 0 <= y < prev.nodes@.len() ==> #[trigger] self.paths@[y] == prev.paths@[y],
                forall|y: int| prev.nodes@.len() <= y < self.nodes@.len() ==> #[trigger] self.paths@[y].len() <= self.bound(sid as int),
                i > 0 ==> forall|e: int| 0 <= e < prev_walk@.len()
                    ==> #[trigger] self.walk_at(sid as int, i - 1, prev_walk@[e].0 as int, prev_walk@[e].1 as int),
                sid + 1 == self.strings@.len(),
                self.strings@ == strs,
                len == self.text(sid as int).len(),
                i <= len,
                self.terminal_character == prev.terminal_character,
            decreases len - i,
        {
            let ghost before = *self;
            prev_walk = self.insert_suffix(sid, i, &prev_walk);
            proof {
                assert forall|y: int| 0 <= y < prev.nodes@.len() implies #[trigger] self.paths@[y] == prev.paths@[y] by {
                    assert(before.paths@[y] == prev.paths@[y]);
                }
                assert forall|y: int| prev.nodes@.len() <= y < self.nodes@.len() implies #[trigger] self.paths@[y].len() <= self.bound(sid as int) by {
                    if y < before.nodes@.len() {
                        assert(before.paths@[y].len() <= before.bound(sid as int));
                    }
                }
            }
            i = i + 1;
        }
        proof {
            self.lemma_finish(sid as int);
            assert(self.texts() =~= prev.texts().push(v@.push(prev.terminal())));
            assert(self.labels() =~= prev.labels().push(k@));
            assert(self.bounds()[sid as int] == self.bound(sid as int));
            assert(self.bounds() =~= prev.bounds().push(
                if *max_depth == 0 || *max_depth > v@.len() + 1 { (v@.len() + 1) as nat } else { *max_depth as nat }));
        }
    }


    /// Finds the node whose edge `q` ends on: the highest node whose path has `q` as a
    /// prefix. There is none exactly when no indexed sequence holds `q` within its bound.
    fn get_pattern_node(&self, q: &[T]) -> (r: Option<NodeID>)
        requires
            self.wf(),
            q@.len() >= 1,
        ensures
            match r {
                Some(m) => {
                    &&& 0 < m < self.nodes@.len()
                    &&& is_prefix(q@, self.paths@[m as int])
                    &&& self.paths@[self.parent_of(m as int)].len() < q@.len()
                    &&& forall|s: int, i: int| #[trigger] self.held(s, i, q@) ==> self.enters(s, i, m as int)
                },
                None => forall|s: int, i: int| !#[trigger] self.held(s, i, q@),
            },
    {
        let ghost ns = self.strings@.len() as int;
        let mut n: usize = 0;
        let mut d: usize = 0;
        loop
            invariant
                self.wf(),
                ns == self.strings@.len(),
                n < self.nodes@.len(),
                d == self.paths@[n as int].len(),
                d < q@.len(),
                is_prefix(self.paths@[n as int], q@),
            decreases q@.len() - d,
        {
            proof {
                assert forall|s: int, i: int| #[trigger] self.held(s, i, q@) implies self.reaches(s, i, n as int)
                    && self.cont_at(s, i, n as int) by {
                    assert forall|x: int| 0 <= x < self.paths@[n as int].len() && x < self.trunc_len(s, i)
                        implies #[trigger] self.paths@[n as int][x] == self.text(s)[i + x] by {
                        assert(self.paths@[n as int][x] == q@[x]);
                        assert(q@[x] == self.text(s)[i + x]);
                    }
                    assert(self.reaches(s, i, n as int));
                    assert(done(ns, 0, s, i));
                    assert(self.valid_pair(s, i));
                }
            }
            match self.nodes[n].child_slot(&q[d]) {
                None => {
                    proof {
                        assert forall|s: int, i: int| !#[trigger] self.held(s, i, q@) by {
                            if self.held(s, i, q@) {
                                assert(q@[d as int] == self.text(s)[i + d]);
                            }
                        }
                    }
                    return None;
                },
                Some(k) => {
                    let m = self.nodes[n].children[k].1;
                    proof {
                        assert(self.child_ok(n as int, k as int));
                        assert(self.node_ok(m as int));
                        self.lemma_parent_prefix(m as int);
                        let fe = choose|e: int| 0 <= e < self.node_data@[m as int].len() && #[trigger] self.full_entry(m as int, e);
                        assert(self.entry_ok(m as int, fe, ns, 0));
                        let fs = self.node_data@[m as int][fe].0 as int;
                        assert(self.strings@[fs].0.string.len() == self.text(fs).len());
                        assert(self.parent_of(m as int) == n);
                    }
                    let ms = self.nodes[m].string_id.unwrap();
                    proof {
                        assert(self.strings@[ms as int].0.string.len() == self.text(ms as int).len());
                    }
                    let mst = self.nodes[m].start;
                    let mlen = self.nodes[m].edge_length;
                    let dm = d + mlen;
                    let lim: usize = if dm < q.len() { dm } else { q.len() };
                    let mut j: usize = d + 1;
                    proof {
                        assert forall|x: int| 0 <= x < d + 1 implies #[trigger] self.paths@[m as int][x] == q@[x] by {
                            if x < d {
                                assert(self.paths@[n as int][x] == q@[x]);
                            }
                        }
                    }
                    while j < lim && self.strings[ms].0.string[mst + (j - d)].same(&q[j])
                        invariant
                            self.wf(),
                            n < self.nodes@.len(),
                            d == self.paths@[n as int].len(),
                            0 < m < self.nodes@.len(),
                            self.node_ok(m as int),
                            ms == self.nodes@[m as int].string_id.unwrap(),
                            self.text(ms as int).len() <= usize::MAX,
                            mst == self.nodes@[m as int].start,
                            mlen == self.nodes@[m as int].edge_length,
                            dm == self.paths@[m as int].len(),
                            self.paths@[self.parent_of(m as int)].len() == d,
                            lim <= dm,
                            lim <= q@.len(),
                            d < j <= lim,
                            forall|x: int| 0 <= x < j ==> #[trigger] self.paths@[m as int][x] == q@[x],
                        decreases lim - j,
                    {
                        proof {
                            assert(self.paths@[m as int][j as int] == self.edge_of(m as int)[j - d]);
                        }
                        j = j + 1;
                    }
                    if j < lim {
                        proof {
                            assert(self.paths@[m as int][j as int] == self.edge_of(m as int)[j - d]);
                            assert forall|s: int, i: int| !#[trigger] self.held(s, i, q@) by {
                                if self.held(s, i, q@) {
                                    assert(self.cont_at(s, i, n as int));
                                    assert(q@[d as int] == self.text(s)[i + d]);
                                    assert(self.enters(s, i, m as int));
                                    assert(q@[j as int] == self.text(s)[i + j]);
                                }
                            }
                        }
                        return None;
                    }
                    if dm >= q.len() {
                        proof {
                            assert forall|s: int, i: int| #[trigger] self.held(s, i, q@) implies self.enters(s, i, m as int) by {
                                assert(self.cont_at(s, i, n as int));
                                assert(q@[d as int] == self.text(s)[i + d]);
                            }
                        }
                        return Some(m);
                    }
                    n = m;
                    d = dm;
                },
            }
        }
    }

    /// Lists, for each label, every offset at which `p` occurs in a sequence carrying that
    /// label, within that sequence's depth bound. An empty pattern matches nothing.
    pub fn substring_match(&self, p: &[T]) -> (r: Matches<U>)
        requires
            self.wf(),
        ensures
            r.wf(),
            forall|lv: U::V, i: int| r.has(lv, i) <==> self.match_has(p@, lv, i),
    {
        let mut res: Matches<U> = Matches::new();
        if p.len() == 0 {
            return res;
        }
        match self.get_pattern_node(p) {
            None => {
                proof {
                    assert forall|lv: U::V, i: int| !self.match_has(p@, lv, i) by {
                        if self.match_has(p@, lv, i) {
                            let s = choose|s: int|
                                0 <= s < self.texts().len() && self.labels()[s] == lv
                                    && #[trigger] occurs_at(self.texts()[s], self.bounds()[s], p@, i);
                            self.lemma_held_iff_occurs(s, i, p@);
                        }
                    }
                }
                res
            },
            Some(n) => {
                let ghost ns = self.strings@.len() as int;
                let mut e: usize = 0;
                while e < self.node_data[n].len()
                    invariant
                        self.wf(),
                        ns == self.strings@.len(),
                        0 < n < self.nodes@.len(),
                        is_prefix(p@, self.paths@[n as int]),
                        forall|s: int, i: int| #[trigger] self.held(s, i, p@) ==> self.enters(s, i, n as int),
                        p@.len() >= 1,
                        e <= self.node_data@[n as int].len(),
                        res.wf(),
                        forall|lv: U::V, i: int| res.has(lv, i) <==> exists|e2: int| 0 <= e2 < e && #[trigger] self.picked(n as int, e2, p@, lv, i),
                    decreases self.node_data@[n as int].len() - e,
                {
                    let (sid, i) = self.node_data[n][e];
                    proof {
                        assert(self.entry_ok(n as int, e as int, ns, 0));
                    }
                    let tlen = self.strings[sid].0.string.len();
                    let ghost before = res;
                    if i <= tlen && p.len() <= tlen - i && p.len() <= self.strings[sid].1 {
                        res.add(&self.strings[sid].0.id, i);
                        proof {
                            assert forall|lv: U::V, j: int| res.has(lv, j) <==> exists|e2: int| 0 <= e2 < e + 1 && #[trigger] self.picked(n as int, e2, p@, lv, j) by {
                                if lv == self.strings@[sid as int].0.id@ && j == i {
                                    assert(self.picked(n as int, e as int, p@, lv, j));
                                }
                                if exists|e2: int| 0 <= e2 < e + 1 && #[trigger] self.picked(n as int, e2, p@, lv, j) {
                                    let e2 = choose|e2: int| 0 <= e2 < e + 1 && #[trigger] self.picked(n as int, e2, p@, lv, j);
                                    if e2 < e {
                                        assert(before.has(lv, j));
                                    }
                                }
                            }
                        }
                    } else {
                        proof {
                            assert forall|lv: U::V, j: int| res.has(lv, j) <==> exists|e2: int| 0 <= e2 < e + 1 && #[trigger] self.picked(n as int, e2, p@, lv, j) by {
                                if exists|e2: int| 0 <= e2 < e + 1 && #[trigger] self.picked(n as int, e2, p@, lv, j) {
                                    let e2 = choose|e2: int| 0 <= e2 < e + 1 && #[trigger] self.picked(n as int, e2, p@, lv, j);
                                    if e2 < e {
                                        assert(before.has(lv, j));
                                    }
                                }
                            }
                        }
                    }
                    e = e + 1;
                }
                proof {
                    assert forall|lv: U::V, i: int| res.has(lv, i) <==> self.match_has(p@, lv, i) by {
                        if res.has(lv, i) {
                            let e2 = choose|e2: int| 0 <= e2 < self.node_data@[n as int].len() && #[trigger] self.picked(n as int, e2, p@, lv, i);
                            assert(self.entry_ok(n as int, e2, ns, 0));
                            let s = self.node_data@[n as int][e2].0 as int;
                            assert forall|x: int| 0 <= x < p@.len() implies #[trigger] p@[x] == self.text(s)[i + x] by {
                                assert(self.paths@[n as int][x] == self.text(s)[i + x]);
                            }
                            assert(self.held(s, i, p@));
                            self.lemma_held_iff_occurs(s, i, p@);
                            assert(self.labels()[s] == lv);
                        }
                        if self.match_has(p@, lv, i) {
                            let s = choose|s: int|
                                0 <= s < self.texts().len() && self.labels()[s] == lv
                                    && #[trigger] occurs_at(self.texts()[s], self.bounds()[s], p@, i);
                            self.lemma_held_iff_occurs(s, i, p@);
                            assert(self.enters(s, i, n as int));
                            assert(done(ns, 0, s, i));
                            assert(self.strings@[s].0.string.len() == self.text(s).len());
                            assert(self.strings.len() == self.strings@.len());
                            let e2 = choose|e2: int| 0 <= e2 < self.node_data@[n as int].len() && #[trigger] self.node_data@[n as int][e2] == (s as usize, i as usize);
                            assert(self.picked(n as int, e2, p@, lv, i));
                        }
                    }
                }
                res
            },
        }
    }

    /// Entry `e` of node `n` passes the filter for pattern `p` and lists offset `i` under `lv`.
    spec fn picked(&self, n: int, e: int, p: Seq<T>, lv: U::V, i: int) -> bool {
        let s = self.node_data@[n][e].0 as int;
        let o = self.node_data@[n][e].1 as int;
        &&& o + p.len() <= self.text(s).len()
        &&& p.len() <= self.bound(s)
        &&& self.strings@[s].0.id@ == lv
        &&& o == i
    }

    /// `p` followed by the terminator.
    fn with_terminal(&self, p: &[T]) -> (r: Vec<T>)
        requires
            p@.len() + 1 <= usize::MAX,
        ensures
            r@ == p@.push(self.terminal_character),
    {
        let mut q: Vec<T> = Vec::new();
        let mut j: usize = 0;
        while j < p.len()
            invariant
                j <= p@.len(),
                q@ == p@.subrange(0, j as int),
            decreases p@.len() - j,
        {
            q.push(p[j]);
            j = j + 1;
            assert(q@ =~= p@.subrange(0, j as int));
        }
        assert(q@ =~= p@);
        q.push(self.terminal_character);
        q
    }

    /// Lists, for each label, every offset at which a sequence carrying that label ends
    /// with `p` (its terminator following `p`), within its depth bound.
    pub fn suffix_match(&self, p: &[T]) -> (r: Matches<U>)
        requires
            self.wf(),
            p@.len() + 1 <= usize::MAX,
        ensures
            r.wf(),
            forall|lv: U::V, i: int| r.has(lv, i) <==> self.match_has(p@.push(self.terminal()), lv, i),
    {
        let q = self.with_terminal(p);
        self.substring_match(q.as_slice())
    }

    /// Whether some indexed sequence ends with `p`, within its depth bound.
    pub fn is_suffix(&self, p: &[T]) -> (r: bool)
        requires
            self.wf(),
            p@.len() + 1 <= usize::MAX,
        ensures
            r == self.ends_with(p@),
    {
        let q = self.with_terminal(p);
        let found = self.get_pattern_node(q.as_slice());
        proof {
            let ns = self.strings@.len() as int;
            match found {
                Some(n) => {
                    assert(self.node_ok(n as int));
                    let fe = choose|e: int| 0 <= e < self.node_data@[n as int].len() && #[trigger] self.full_entry(n as int, e);
                    assert(self.entry_ok(n as int, fe, ns, 0));
                    let s = self.node_data@[n as int][fe].0 as int;
                    let i = self.node_data@[n as int][fe].1 as int;
                    assert forall|x: int| 0 <= x < q@.len() implies #[trigger] q@[x] == self.text(s)[i + x] by {
                        assert(self.paths@[n as int][x] == self.text(s)[i + x]);
                    }
                    assert(self.held(s, i, q@));
                    self.lemma_held_iff_occurs(s, i, q@);
                    assert(q@ == p@.push(self.terminal()));
                    assert(occurs_at(self.texts()[s], self.bounds()[s], p@.push(self.terminal()), i));
                },
                None => {
                    if self.ends_with(p@) {
                        let (s, i) = choose|s: int, i: int|
                            0 <= s < self.texts().len()
                                && #[trigger] occurs_at(self.texts()[s], self.bounds()[s], p@.push(self.terminal()), i);
                        self.lemma_held_iff_occurs(s, i, q@);
                    }
                },
            }
        }
        found.is_some()
    }

    /// Whether some indexed sequence carries label `label`.
    pub fn contains(&self, label: &U) -> (r: bool)
        requires
            self.wf(),
        ensures
            r == exists|s: int| 0 <= s < self.labels().len() && #[trigger] self.labels()[s] == label@,
    {
        let mut s: usize = 0;
        while s < self.strings.len()
            invariant
                s <= self.strings@.len(),
                forall|s2: int| 0 <= s2 < s ==> #[trigger] self.labels()[s2] != label@,
            decreases self.strings@.len() - s,
        {
            if self.strings[s].0.id.same_label(label) {
                assert(self.labels()[s as int] == label@);
                return true;
            }
            s = s + 1;
        }
        false
    }

    /// Empties the tree: only the root is left and no sequence is registered.
    pub fn clear(&mut self)
        ensures
            final(self).wf(),
            final(self).texts().len() == 0,
            final(self).labels().len() == 0,
            final(self).bounds().len() == 0,
            final(self).node_count() == 1,
            final(self).node(0).children@.len() == 0,
            final(self).node(0).parent.is_none(),
            final(self).node(0).string_id.is_none(),
            final(self).node(0).start == 0,
            final(self).node(0).edge_length == 0,
            final(self).links()[0] == 0,
            final(self).terminal() == old(self).terminal(),
    {
        *self = KGST::new(self.terminal_character);
    }


    /// Pair `(s, i)` is listed at node `n`: offset `i` of sequence `s` is indexed and the
    /// held part of its suffix runs into the edge that leads to `n`.
    pub open spec fn runs_through(&self, s: int, i: int, n: int) -> bool {
        &&& 0 <= s < self.texts().len()
        &&& 0 <= i < self.texts()[s].len()
        &&& 0 < n < self.node_count()
        &&& forall|j: int| 0 <= j < self.node_path(n).len() && j < self.held_len(s, i)
            ==> #[trigger] self.node_path(n)[j] == self.texts()[s][i + j]
        &&& self.held_len(s, i) > self.node_path(self.node(n).parent.unwrap() as int).len()
    }

    /// The number of symbols of suffix `i` of sequence `s` that the tree holds: the rest of
    /// the sequence, cut at its depth bound.
    pub open spec fn held_len(&self, s: int, i: int) -> int {
        if self.texts()[s].len() - i < self.bounds()[s] {
            self.texts()[s].len() - i
        } else {
            self.bounds()[s] as int
        }
    }

    /// The root: no parent, no owning sequence, an empty path, and a suffix link to itself.
    pub open spec fn root_shape(&self) -> bool {
        &&& self.node_count() >= 1
        &&& self.node(0).parent.is_none()
        &&& self.node(0).string_id.is_none()
        &&& self.node(0).edge_length == 0
        &&& self.node_path(0).len() == 0
        &&& self.links()[0] == 0
    }

    /// Node `n` (not the root) hangs below its parent by an edge of at least one symbol,
    /// taken from its owning sequence, is listed among its parent's children, and lies no
    /// deeper than the bound of some registered sequence. With fewer than two children it
    /// is not redundant: the held part of some indexed suffix ends there.
    pub open spec fn node_shape(&self, n: int) -> bool {
        let nd = self.node(n);
        let p = nd.parent.unwrap() as int;
        let s = nd.string_id.unwrap() as int;
        &&& nd.parent.is_some() && p < self.node_count()
        &&& nd.string_id.is_some() && s < self.texts().len()
        &&& nd.edge_length >= 1
        &&& nd.start + nd.edge_length <= self.texts()[s].len()
        &&& self.node_path(n) == self.node_path(p) + self.texts()[s].subrange(nd.start as int, nd.start + nd.edge_length)
        &&& exists|k: int| 0 <= k < self.node(p).children@.len() && (#[trigger] self.node(p).children@[k]).1 == n
        &&& exists|s2: int| 0 <= s2 < self.texts().len() && self.node_path(n).len() <= #[trigger] self.bounds()[s2]
        &&& nd.children@.len() < 2 ==> exists|s2: int, i2: int|
            #[trigger] self.runs_through(s2, i2, n) && self.held_len(s2, i2) == self.node_path(n).len()
    }

    /// Child slot `k` of node `n` leads to a node whose parent is `n` and whose edge starts
    /// with the slot's key.
    pub open spec fn child_shape(&self, n: int, k: int) -> bool {
        let c = self.node(n).children@[k].0;
        let m = self.node(n).children@[k].1 as int;
        &&& 0 < m < self.node_count()
        &&& self.node(m).parent == Some(n as usize)
        &&& self.node_path(m).len() > self.node_path(n).len()
        &&& self.node_path(m)[self.node_path(n).len() as int] == c
    }

    /// The shape every tree has: registry sequences of one length, the root, every other
    /// node below its parent, children with distinct keys, and suffix links that drop the
    /// first symbol of the path.
    pub open spec fn shape(&self) -> bool {
        &&& self.texts().len() == self.labels().len()
        &&& self.texts().len() == self.bounds().len()
        &&& self.root_shape()
        &&& forall|n: int| 0 < n < self.node_count() ==> #[trigger] self.node_shape(n)
        &&& forall|n: int, k: int| 0 <= n < self.node_count() && 0 <= k < self.node(n).children@.len()
            ==> #[trigger] self.child_shape(n, k)
        &&& forall|n: int, k1: int, k2: int|
            0 <= n < self.node_count() && 0 <= k1 < self.node(n).children@.len()
                && 0 <= k2 < self.node(n).children@.len() && k1 != k2
                ==> (#[trigger] self.node(n).children@[k1]).0 != (#[trigger] self.node(n).children@[k2]).0
        &&& forall|n: int| 0 <= n < self.node_count() ==> #[trigger] self.links()[n] < self.node_count()
        &&& forall|n: int| 0 <= n < self.node_count() && #[trigger] self.links()[n] != 0
            ==> self.node_path(self.links()[n] as int) == self.node_path(n).subrange(1, self.node_path(n).len() as int)
    }

    /// A well-formed tree has the shape above.
    pub proof fn lemma_shape(&self)
        requires
            self.wf(),
        ensures
            self.shape(),
    {
        let ns = self.strings@.len() as int;
        assert forall|n: int| 0 < n < self.node_count() implies #[trigger] self.node_shape(n) by {
            assert(self.node_ok(n));
            let s = self.nodes@[n].string_id.unwrap() as int;
            assert(self.texts()[s] == self.text(s));
            let p = self.parent_of(n);
            let k = choose|k: int| 0 <= k < self.nodes@[p].children@.len() && (#[trigger] self.nodes@[p].children@[k]).1 == n;
            assert(self.node(p).children@[k].1 == n);
            let fe = choose|e: int| 0 <= e < self.node_data@[n].len() && #[trigger] self.full_entry(n, e);
            assert(self.entry_ok(n, fe, ns, 0));
            let s2 = self.node_data@[n][fe].0 as int;
            assert(self.bounds()[s2] == self.bound(s2));
            if self.nodes@[n].children@.len() < 2 {
                assert(self.lean(n));
                let e = choose|e: int| 0 <= e < self.node_data@[n].len() && #[trigger] self.end_entry(n, e);
                assert(self.entry_ok(n, e, ns, 0));
                let s3 = self.node_data@[n][e].0 as int;
                let i3 = self.node_data@[n][e].1 as int;
                self.lemma_runs_through(s3, i3, n);
                assert(self.texts()[s3] == self.text(s3));
                assert(self.held_len(s3, i3) == self.trunc_len(s3, i3));
                assert(self.runs_through(s3, i3, n));
            }
        }
        assert forall|n: int, k: int| 0 <= n < self.node_count() && 0 <= k < self.node(n).children@.len()
            implies #[trigger] self.child_shape(n, k) by {
            assert(self.child_ok(n, k));
        }
        assert forall|n: int| 0 <= n < self.node_count() implies #[trigger] self.links()[n] < self.node_count() by {
            assert(self.link_ok(n));
        }
        assert forall|n: int| 0 <= n < self.node_count() && #[trigger] self.links()[n] != 0
            implies self.node_path(self.links()[n] as int) == self.node_path(n).subrange(1, self.node_path(n).len() as int) by {
            assert(self.link_ok(n));
        }
    }

    pub fn num_nodes(&self) -> (r: usize)
        ensures
            r == self.node_count(),
    {
        self.nodes.len()
    }

    /// The symbol appended to every indexed sequence.
    pub fn terminal_character(&self) -> (r: T)
        ensures
            r == self.terminal(),
    {
        self.terminal_character
    }

    pub fn root(&self) -> (r: NodeID)
        requires
            self.wf(),
        ensures
            r == 0,
    {
        self.root
    }

    /// The registry: each sequence record with its depth bound, in order of insertion.
    pub fn get_strings(&self) -> (r: &Vec<(TreeItem<T, U>, usize)>)
        ensures
            r@.len() == self.texts().len(),
            forall|s: int| 0 <= s < r@.len() ==> {
                &&& (#[trigger] r@[s]).0.string@ == self.texts()[s]
                &&& r@[s].0.id@ == self.labels()[s]
                &&& r@[s].1 == self.bounds()[s]
            },
    {
        &self.strings
    }

    pub fn get_nodes(&self) -> (r: &Vec<Node<T>>)
        ensures
            r@.len() == self.node_count(),
            forall|n: int| 0 <= n < r@.len() ==> #[trigger] r@[n] == self.node(n),
    {
        &self.nodes
    }

    pub fn get_node(&self, node_id: &NodeID) -> (r: &Node<T>)
        requires
            *node_id < self.node_count(),
        ensures
            *r == self.node(*node_id as int),
    {
        &self.nodes[*node_id]
    }

    /// The symbols on the edge that leads into `node_id` (none for the root).
    pub fn get_node_label(&self, node_id: &NodeID) -> (r: Vec<T>)
        requires
            self.wf(),
            *node_id < self.node_count(),
        ensures
            *node_id == 0 ==> r@.len() == 0,
            *node_id != 0 ==> self.node_path(*node_id as int)
                == self.node_path(self.node(*node_id as int).parent.unwrap() as int) + r@,
            *node_id != 0 ==> r@ == self.texts()[self.node(*node_id as int).string_id.unwrap() as int].subrange(
                self.node(*node_id as int).start as int,
                self.node(*node_id as int).start + self.node(*node_id as int).edge_length,
            ),
    {
        let mut r: Vec<T> = Vec::new();
        let n = *node_id;
        if n == 0 {
            return r;
        }
        proof {
            assert(self.node_ok(n as int));
        }
        let sid = self.nodes[n].string_id.unwrap();
        proof {
            assert(self.strings@[sid as int].0.string.len() == self.text(sid as int).len());
        }
        let start = self.nodes[n].start;
        let len = self.nodes[n].edge_length;
        let mut x: usize = 0;
        while x < len
            invariant
                self.wf(),
                0 < n < self.nodes@.len(),
                self.node_ok(n as int),
                sid == self.nodes@[n as int].string_id.unwrap(),
                self.text(sid as int).len() <= usize::MAX,
                start == self.nodes@[n as int].start,
                len == self.nodes@[n as int].edge_length,
                x <= len,
                r@ == self.edge_of(n as int).subrange(0, x as int),
            decreases len - x,
        {
            r.push(self.strings[sid].0.string[start + x]);
            x = x + 1;
            assert(r@ =~= self.edge_of(n as int).subrange(0, x as int));
        }
        assert(r@ =~= self.edge_of(n as int));
        assert(self.texts()[sid as int] == self.text(sid as int));
        r
    }

    /// The pairs (sequence, offset) listed at `node_id`: exactly those whose held suffix
    /// runs into the edge that leads to it.
    pub fn get_node_data(&self, node_id: &NodeID) -> (r: &Vec<(StringID, usize)>)
        requires
            self.wf(),
            *node_id < self.node_count(),
        ensures
            forall|e: int| 0 <= e < r@.len() ==> #[trigger] self.runs_through(r@[e].0 as int, r@[e].1 as int, *node_id as int),
            *node_id != 0 ==> forall|s: int, i: int| #[trigger] self.runs_through(s, i, *node_id as int)
                ==> r@.contains((s as usize, i as usize)),
            *node_id == 0 ==> r@.len() == 0,
    {
        let n = *node_id;
        proof {
            let ns = self.strings@.len() as int;
            assert forall|s: int, i: int| 0 <= s < ns implies (#[trigger] self.runs_through(s, i, n as int)
                <==> (self.valid_pair(s, i) && self.enters(s, i, n as int) && 0 < n)) by {
                assert(self.texts()[s] == self.text(s));
                assert(self.held_len(s, i) == self.trunc_len(s, i));
                assert(self.node_path(n as int) == self.paths@[n as int]);
                if self.runs_through(s, i, n as int) {
                    assert forall|j: int| 0 <= j < self.paths@[n as int].len() && j < self.trunc_len(s, i)
                        implies #[trigger] self.paths@[n as int][j] == self.text(s)[i + j] by {
                        assert(self.node_path(n as int)[j] == self.texts()[s][i + j]);
                    }
                    assert(self.agrees(s, i, self.paths@[n as int]));
                }
                if self.valid_pair(s, i) && self.enters(s, i, n as int) && 0 < n {
                    assert forall|j: int| 0 <= j < self.node_path(n as int).len() && j < self.held_len(s, i)
                        implies #[trigger] self.node_path(n as int)[j] == self.texts()[s][i + j] by {
                        assert(self.paths@[n as int][j] == self.text(s)[i + j]);
                    }
                }
            }
            assert forall|e: int| 0 <= e < self.node_data@[n as int]@.len() implies #[trigger] self.runs_through(
                self.node_data@[n as int]@[e].0 as int, self.node_data@[n as int]@[e].1 as int, n as int) by {
                assert(self.entry_ok(n as int, e, ns, 0));
                assert(n != 0);
            }
            if n != 0 {
                assert forall|s: int, i: int| #[trigger] self.runs_through(s, i, n as int)
                    implies self.node_data@[n as int]@.contains((s as usize, i as usize)) by {
                    assert(self.valid_pair(s, i) && self.enters(s, i, n as int));
                    assert(done(ns, 0, s, i));
                    let e = choose|e: int| 0 <= e < self.node_data@[n as int].len() && #[trigger] self.node_data@[n as int][e] == (s as usize, i as usize);
                    assert(self.node_data@[n as int]@[e] == (s as usize, i as usize));
                }
            } else if self.node_data@[0]@.len() > 0 {
                assert(self.entry_ok(0, 0, ns, 0));
            }
        }
        &self.node_data[n]
    }

    proof fn lemma_runs_through(&self, s: int, i: int, n: int)
        requires
            self.wf(),
            0 <= s < self.strings@.len(),
            0 < n < self.nodes@.len(),
        ensures
            self.runs_through(s, i, n) <==> (self.valid_pair(s, i) && self.enters(s, i, n)),
    {
        assert(self.texts()[s] == self.text(s));
        assert(self.held_len(s, i) == self.trunc_len(s, i));
        assert(self.node_path(n) == self.paths@[n]);
        if self.runs_through(s, i, n) {
            assert forall|j: int| 0 <= j < self.paths@[n].len() && j < self.trunc_len(s, i)
                implies #[trigger] self.paths@[n][j] == self.text(s)[i + j] by {
                assert(self.node_path(n)[j] == self.texts()[s][i + j]);
            }
        }
        if self.valid_pair(s, i) && self.enters(s, i, n) {
            assert forall|j: int| 0 <= j < self.node_path(n).len() && j < self.held_len(s, i)
                implies #[trigger] self.node_path(n)[j] == self.texts()[s][i + j] by {
                assert(self.paths@[n][j] == self.text(s)[i + j]);
            }
        }
    }

    /// Whether node `n` lists an offset of sequence `sid`.
    fn lists_string(&self, n: usize, sid: usize) -> (r: bool)
        requires
            self.wf(),
            0 < n < self.nodes@.len(),
            sid < self.strings@.len(),
        ensures
            r == exists|i: int| self.runs_through(sid as int, i, n as int),
    {
        let ghost ns = self.strings@.len() as int;
        let mut e: usize = 0;
        while e < self.node_data[n].len()
            invariant
                self.wf(),
                ns == self.strings@.len(),
                0 < n < self.nodes@.len(),
                e <= self.node_data@[n as int].len(),
                forall|e2: int| 0 <= e2 < e ==> (#[trigger] self.node_data@[n as int][e2]).0 != sid,
            decreases self.node_data@[n as int].len() - e,
        {
            if self.node_data[n][e].0 == sid {
                proof {
                    assert(self.entry_ok(n as int, e as int, ns, 0));
                    let i = self.node_data@[n as int][e as int].1 as int;
                    self.lemma_runs_through(sid as int, i, n as int);
                }
                return true;
            }
            e = e + 1;
        }
        proof {
            assert forall|i: int| !self.runs_through(sid as int, i, n as int) by {
                self.lemma_runs_through(sid as int, i, n as int);
                if self.runs_through(sid as int, i, n as int) {
                    assert(done(ns, 0, sid as int, i));
                    let e2 = choose|e2: int| 0 <= e2 < self.node_data@[n as int].len()
                        && #[trigger] self.node_data@[n as int][e2] == (sid, i as usize);
                    assert(self.node_data@[n as int][e2].0 == sid);
                }
            }
        }
        false
    }

    /// The nodes that the paths of sequence `sid` run through, in ascending order: the root,
    /// and every node whose edge some held suffix of the sequence runs into.
    pub fn get_string_nodes(&self, sid: &StringID) -> (r: Vec<NodeID>)
        requires
            self.wf(),
            *sid < self.texts().len(),
        ensures
            forall|a: int, b: int| 0 <= a < b < r@.len() ==> r@[a] < r@[b],
            forall|n: NodeID| #[trigger] r@.contains(n) <==> (n < self.node_count()
                && (n == 0 || exists|i: int| self.runs_through(*sid as int, i, n as int))),
    {
        let mut r: Vec<NodeID> = Vec::new();
        r.push(0);
        let mut n: usize = 1;
        proof {
            assert(r@[0] == 0usize);
        }
        while n < self.nodes.len()
            invariant
                self.wf(),
                *sid < self.strings@.len(),
                1 <= n <= self.nodes@.len(),
                r@.len() >= 1,
                r@[0] == 0,
                forall|a: int, b: int| 0 <= a < b < r@.len() ==> r@[a] < r@[b],
                forall|k: int| 0 <= k < r@.len() ==> #[trigger] r@[k] < n,
                forall|m: NodeID| m < n ==> (#[trigger] r@.contains(m) <==> (m == 0
                    || exists|i: int| self.runs_through(*sid as int, i, m as int))),
            decreases self.nodes@.len() - n,
        {
            let ghost before = r@;
            if self.lists_string(n, *sid) {
                r.push(n);
            }
            proof {
                assert forall|m: NodeID| m < n + 1 implies (#[trigger] r@.contains(m) <==> (m == 0
                    || exists|i: int| self.runs_through(*sid as int, i, m as int))) by {
                    if m < n {
                        if r@.contains(m) {
                            let k = choose|k: int| 0 <= k < r@.len() && r@[k] == m;
                            if k < before.len() {
                                assert(before[k] == m);
                                assert(before.contains(m));
                            }
                        }
                        if before.contains(m) {
                            let k = choose|k: int| 0 <= k < before.len() && before[k] == m;
                            assert(r@[k] == m);
                        }
                    } else {
                        if r@.contains(m) {
                            let k = choose|k: int| 0 <= k < r@.len() && r@[k] == m;
                            assert(k == before.len());
                        } else if m == 0 {
                            assert(r@[0] == m);
                        }
                        if r@.len() > before.len() {
                            assert(r@[before.len() as int] == m);
                        }
                    }
                }
            }
            n = n + 1;
        }
        proof {
            assert forall|m: NodeID| #[trigger] r@.contains(m) implies m < self.node_count() by {
                let k = choose|k: int| 0 <= k < r@.len() && r@[k] == m;
            }
        }
        r
    }

    /// The depth of `node_id`: the number of symbols from the root down to it, summed
    /// edge by edge up the parent chain.
    pub fn get_node_depth(&self, node_id: &NodeID) -> (r: usize)
        requires
            self.wf(),
            *node_id < self.node_count(),
        ensures
            r == self.node_path(*node_id as int).len(),
    {
        let mut cur: usize = *node_id;
        let mut depth: usize = 0;
        proof {
            if cur != 0 {
                let ns = self.strings@.len() as int;
                assert(self.node_ok(cur as int));
                let fe = choose|e: int| 0 <= e < self.node_data@[cur as int].len() && #[trigger] self.full_entry(cur as int, e);
                assert(self.entry_ok(cur as int, fe, ns, 0));
                let s = self.node_data@[cur as int][fe].0 as int;
                assert(self.strings@[s].0.string.len() == self.text(s).len());
            }
        }
        while cur != 0
            invariant
                self.wf(),
                cur < self.nodes@.len(),
                depth + self.paths@[cur as int].len() == self.paths@[*node_id as int].len(),
                self.paths@[*node_id as int].len() <= usize::MAX,
            decreases self.paths@[cur as int].len(),
        {
            proof {
                assert(self.node_ok(cur as int));
            }
            depth = depth + self.nodes[cur].edge_length;
            cur = self.nodes[cur].parent.unwrap();
        }
        depth
    }

    pub fn is_leaf(&self, node_id: &NodeID) -> (r: bool)
        requires
            *node_id < self.node_count(),
        ensures
            r == (self.node(*node_id as int).children@.len() == 0),
    {
        self.nodes[*node_id].is_leaf()
    }

    pub fn get_node_parent(&self, node_id: &NodeID) -> (r: Option<NodeID>)
        requires
            *node_id < self.node_count(),
        ensures
            r == self.node(*node_id as int).parent,
    {
        self.nodes[*node_id].parent
    }

    /// The child of `node_id` whose edge starts with `edge_label`, if any.
    pub fn get_node_child(&self, node_id: &NodeID, edge_label: &T) -> (r: Option<NodeID>)
        requires
            self.wf(),
            *node_id < self.node_count(),
        ensures
            match r {
                Some(m) => {
                    let d = self.node_path(*node_id as int).len();
                    &&& 0 < m < self.node_count()
                    &&& self.node(m as int).parent == Some(*node_id)
                    &&& self.node_path(m as int).len() > d
                    &&& self.node_path(m as int)[d as int] == *edge_label
                    &&& self.node_path(m as int).subrange(0, d as int) == self.node_path(*node_id as int)
                },
                None => !self.node(*node_id as int).has_key(*edge_label),
            },
    {
        match self.nodes[*node_id].child_slot(edge_label) {
            Some(k) => {
                proof {
                    let m = self.nodes@[*node_id as int].children@[k as int].1 as int;
                    assert(self.child_ok(*node_id as int, k as int));
                    self.lemma_parent_prefix(m);
                    assert(self.paths@[m].subrange(0, self.paths@[*node_id as int].len() as int) =~= self.paths@[*node_id as int]);
                }
                Some(self.nodes[*node_id].children[k].1)
            },
            None => None,
        }
    }

    /// The suffix link of `node_id`; the root stands for a node without one.
    pub fn get_suffix_link(&self, node_id: &NodeID) -> (r: NodeID)
        requires
            self.wf(),
            *node_id < self.node_count(),
        ensures
            r == self.links()[*node_id as int],
            *node_id == 0 ==> r == 0,
            r < self.node_count(),
            r != 0 ==> self.node_path(r as int)
                == self.node_path(*node_id as int).subrange(1, self.node_path(*node_id as int).len() as int),
    {
        proof {
            assert(self.link_ok(*node_id as int));
        }
        self.suffix_links[*node_id]
    }

    /// Every registered sequence, unbounded, ends with each of its own suffixes.
    pub proof fn lemma_suffix_completeness(&self, sid: int, i: int)
        requires
            self.wf(),
            0 <= sid < self.texts().len(),
            self.bounds()[sid] == self.texts()[sid].len(),
            0 <= i < self.texts()[sid].len(),
        ensures
            self.ends_with(self.texts()[sid].subrange(i, self.texts()[sid].len() - 1)),
    {
        let t = self.texts()[sid];
        assert(self.string_ok(sid));
        let p = t.subrange(i, t.len() - 1);
        assert(t.subrange(i, t.len() as int) =~= p.push(self.terminal()));
        assert(occurs_at(t, self.bounds()[sid], p.push(self.terminal()), i));
    }

    /// Each non-empty stretch of a registered sequence that fits its depth bound is
    /// reported under that sequence's label at its own start offset.
    pub proof fn lemma_substring_soundness(&self, sid: int, i: int, j: int)
        requires
            0 <= sid < self.texts().len(),
            0 <= i < j <= self.texts()[sid].len(),
            j - i <= self.bounds()[sid],
        ensures
            self.match_has(self.texts()[sid].subrange(i, j), self.labels()[sid], i),
    {
        assert(occurs_at(self.texts()[sid], self.bounds()[sid], self.texts()[sid].subrange(i, j), i));
    }

    /// A pattern longer than the depth bound of every sequence carrying a label is never
    /// reported under that label, even where it stands in such a sequence.
    pub proof fn lemma_truncation_bound(&self, p: Seq<T>, lv: U::V)
        requires
            forall|s: int| 0 <= s < self.texts().len() && self.labels()[s] == lv ==> p.len() > #[trigger] self.bounds()[s],
        ensures
            forall|i: int| !self.match_has(p, lv, i),
    {
    }

    /// A pattern shared by two registered sequences, within both depth bounds, is reported
    /// under both labels at both offsets.
    pub proof fn lemma_generalized_sharing(&self, p: Seq<T>, s1: int, i1: int, s2: int, i2: int)
        requires
            0 <= s1 < self.texts().len(),
            0 <= s2 < self.texts().len(),
            1 <= p.len(),
            p.len() <= self.bounds()[s1],
            p.len() <= self.bounds()[s2],
            0 <= i1 && i1 + p.len() <= self.texts()[s1].len(),
            0 <= i2 && i2 + p.len() <= self.texts()[s2].len(),
            self.texts()[s1].subrange(i1, i1 + p.len()) == p,
            self.texts()[s2].subrange(i2, i2 + p.len()) == p,
        ensures
            self.match_has(p, self.labels()[s1], i1),
            self.match_has(p, self.labels()[s2], i2),
    {
        assert(occurs_at(self.texts()[s1], self.bounds()[s1], p, i1));
        assert(occurs_at(self.texts()[s2], self.bounds()[s2], p, i2));
    }

    /// A tree with no registered sequence reports nothing for any pattern.
    pub proof fn lemma_empty_reports_nothing(&self, p: Seq<T>)
        requires
            self.texts().len() == 0,
        ensures
            forall|lv: U::V, i: int| !self.match_has(p, lv, i),
    {
    }


    /// The node arena.
    pub closed spec fn arena(&self) -> Seq<Node<T>> {
        self.nodes@
    }

    /// The suffix link of each node (the root for a node without one).
    pub closed spec fn links(&self) -> Seq<NodeID> {
        self.suffix_links@
    }

    proof fn lemma_closed_ids(&self)
        requires
            self.wf(),
        ensures
            closed_ids(child_entries(self.nodes@)),
    {
        assert forall|n: int, k: int|
            0 <= n < child_entries(self.nodes@).len() && 0 <= k < child_entries(self.nodes@)[n].len()
                implies (#[trigger] child_entries(self.nodes@)[n][k]).1 < child_entries(self.nodes@).len() by {
            assert(self.child_ok(n, k));
        }
    }

    /// A pre-order walk over the whole tree, from the root.
    pub fn iter_nodes_pre(&self) -> (r: PreOrdNodes<T>)
        requires
            self.wf(),
        ensures
            r.wf(),
            r.stack() == seq![0usize],
            r.kids() == child_entries(self.arena()),
    {
        proof {
            self.lemma_closed_ids();
        }
        PreOrdNodes::new(&self.root, &self.nodes)
    }

    /// A post-order walk over the whole tree, from the root.
    pub fn iter_nodes_post(&self) -> (r: PostOrdNodes<T>)
        requires
            self.wf(),
        ensures
            r.wf(),
            r.stack() == seq![0usize],
            r.kids() == child_entries(self.arena()),
            forall|n: int| 0 <= n < self.node_count() ==> !#[trigger] r.is_expanded(n),
    {
        proof {
            self.lemma_closed_ids();
        }
        PostOrdNodes::new(&self.root, &self.nodes)
    }

    /// A post-order walk over the tree edges and the suffix links of the whole tree. The
    /// root has no parent and yields no tree edge; no edge is yielded for a suffix link
    /// that points at the root.
    pub fn iter_edges_post(&self) -> (r: PostOrdEdges<T>)
        requires
            self.wf(),
        ensures
            r.wf(),
            r.pending().len() == 0,
            r.node_total() == self.node_count(),
            forall|n: int| 0 < n < self.node_count() ==> self.node(n).parent == Some(#[trigger] r.parent(n)),
            r.link_sources(0).len() == 0,
            forall|t: int, k: int| 0 <= t < self.node_count() && 0 <= k < r.link_sources(t).len()
                ==> self.links()[(#[trigger] r.link_sources(t)[k]) as int] == t,
            forall|m: int| 0 <= m < self.node_count() && #[trigger] self.links()[m] != 0
                ==> r.link_sources(self.links()[m] as int).contains(m as usize),
            r.walk().wf(),
            in_stack_order(child_entries(self.arena())[0], r.walk().stack()),
            r.walk().kids() == child_entries(self.arena()),
            forall|n: int| 0 <= n < self.node_count() ==> !#[trigger] r.walk().is_expanded(n),
    {
        proof {
            self.lemma_closed_ids();
            assert forall|m: int| 0 <= m < self.nodes@.len() implies #[trigger] self.suffix_links@[m] < self.nodes@.len() by {
                assert(self.link_ok(m));
            }
        }
        let mut links: Vec<NodeID> = Vec::new();
        let mut parents: Vec<NodeID> = Vec::new();
        let mut n: usize = 0;
        while n < self.nodes.len()
            invariant
                self.wf(),
                n <= self.nodes@.len(),
                links@ == self.suffix_links@.subrange(0, n as int),
                parents@.len() == n,
                forall|m: int| 0 <= m < n ==> #[trigger] parents@[m] == match self.nodes@[m].parent {
                    Some(p) => p,
                    None => 0usize,
                },
            decreases self.nodes@.len() - n,
        {
            links.push(self.suffix_links[n]);
            // the edge walk never reads the root's entry
            let p = match self.nodes[n].parent {
                Some(p) => p,
                None => 0,
            };
            parents.push(p);
            n = n + 1;
            assert(links@ =~= self.suffix_links@.subrange(0, n as int));
        }
        assert(links@ =~= self.suffix_links@);
        let ghost pv = parents@;
        let r = PostOrdEdges::new(&self.root, &self.nodes, links, parents);
        proof {
            assert forall|n: int| 0 < n < self.node_count() implies self.node(n).parent == Some(#[trigger] r.parent(n)) by {
                assert(self.node_ok(n));
                assert(r.parent(n) == pv[n]);
            }
        }
        r
    }
    /// A copy of `list`.
    fn copy_list(list: &Vec<(StringID, usize)>) -> (r: Vec<(StringID, usize)>)
        ensures
            r@ == list@,
    {
        let mut r: Vec<(StringID, usize)> = Vec::new();
        let mut e: usize = 0;
        while e < list.len()
            invariant
                e <= list@.len(),
                r@ == list@.subrange(0, e as int),
            decreases list@.len() - e,
        {
            r.push(list[e]);
            e = e + 1;
            assert(r@ =~= list@.subrange(0, e as int));
        }
        assert(r@ =~= list@);
        r
    }

    /// The entries of `list` whose held suffix is longer than `j`.
    fn entries_longer_than(&self, list: &Vec<(StringID, usize)>, j: usize) -> (r: Vec<(StringID, usize)>)
        requires
            forall|e: int| 0 <= e < list@.len() ==> #[trigger] self.valid_pair(list@[e].0 as int, list@[e].1 as int),
        ensures
            forall|x: (StringID, usize)| #[trigger] r@.contains(x)
                ==> list@.contains(x) && self.trunc_len(x.0 as int, x.1 as int) > j,
            forall|x: (StringID, usize)| #[trigger] list@.contains(x) && self.trunc_len(x.0 as int, x.1 as int) > j
                ==> r@.contains(x),
    {
        let mut r: Vec<(StringID, usize)> = Vec::new();
        let mut e2: usize = 0;
        while e2 < list.len()
            invariant
                e2 <= list@.len(),
                forall|e: int| 0 <= e < list@.len() ==> #[trigger] self.valid_pair(list@[e].0 as int, list@[e].1 as int),
                forall|x: (StringID, usize)| #[trigger] r@.contains(x)
                    ==> list@.contains(x) && self.trunc_len(x.0 as int, x.1 as int) > j,
                forall|x: (StringID, usize)| #[trigger] list@.subrange(0, e2 as int).contains(x)
                    && self.trunc_len(x.0 as int, x.1 as int) > j ==> r@.contains(x),
            decreases list@.len() - e2,
        {
            let (s, i) = list[e2];
            proof {
                assert(self.valid_pair(s as int, i as int));
            }
            let tlen = self.strings[s].0.string.len();
            let b = self.strings[s].1;
            let tl: usize = if tlen - i < b { tlen - i } else { b };
            let ghost before = r@;
            if tl > j {
                r.push((s, i));
            }
            proof {
                assert forall|x: (StringID, usize)| #[trigger] r@.contains(x)
                    implies list@.contains(x) && self.trunc_len(x.0 as int, x.1 as int) > j by {
                    let e = choose|e: int| 0 <= e < r@.len() && r@[e] == x;
                    if e < before.len() {
                        assert(before[e] == x);
                        assert(before.contains(x));
                    } else {
                        assert(list@[e2 as int] == x);
                    }
                }
                assert forall|x: (StringID, usize)| #[trigger] list@.subrange(0, e2 + 1).contains(x)
                    && self.trunc_len(x.0 as int, x.1 as int) > j implies r@.contains(x) by {
                    let e = choose|e: int| 0 <= e < e2 + 1 && #[trigger] list@.subrange(0, e2 + 1)[e] == x;
                    if e < e2 {
                        assert(list@.subrange(0, e2 as int)[e] == x);
                        assert(list@.subrange(0, e2 as int).contains(x));
                        assert(before.contains(x));
                        let e3 = choose|e3: int| 0 <= e3 < before.len() && before[e3] == x;
                        assert(r@[e3] == x);
                    } else {
                        assert(r@[before.len() as int] == x);
                    }
                }
            }
            e2 = e2 + 1;
        }
        assert(list@.subrange(0, e2 as int) =~= list@);
        r
    }

    /// Node `n` lies at depth `e` on the path of suffix `i` of sequence `s`.
    spec fn walk_at(&self, s: int, i: int, n: int, e: int) -> bool {
        &&& 0 <= n < self.nodes@.len()
        &&& 0 <= i
        &&& 0 <= e
        &&& i + e <= self.text(s).len()
        &&& self.paths@[n] == self.text(s).subrange(i, i + e)
    }

    proof fn lemma_after_link(&self, prev: Self, sid: int, i: int, n: int, d: int, a: int, b: int)
        requires
            prev.walk_inv(sid, i, n, d),
            0 < a < prev.nodes@.len(),
            0 <= b < prev.nodes@.len(),
            b <= usize::MAX,
            prev.paths@[b] == prev.paths@[a].subrange(1, prev.paths@[a].len() as int),
            self.suffix_links@ == prev.suffix_links@.update(a, b as usize),
            self.nodes@ == prev.nodes@,
            self.paths@ == prev.paths@,
            self.strings@ == prev.strings@,
            self.node_data@ == prev.node_data@,
            self.terminal_character == prev.terminal_character,
            self.root == prev.root,
        ensures
            self.walk_inv(sid, i, n, d),
    {
        assert forall|y: int| 0 < y < self.nodes@.len() implies #[trigger] self.node_ok(y) by {
            assert(prev.node_ok(y));
            let e = choose|e: int| 0 <= e < prev.node_data@[y].len() && #[trigger] prev.full_entry(y, e);
            assert(self.full_entry(y, e));
        }
        assert forall|y: int, k2: int| 0 <= y < self.nodes@.len() && 0 <= k2 < self.nodes@[y].children@.len() implies #[trigger] self.child_ok(y, k2) by {
            assert(prev.child_ok(y, k2));
        }
        assert forall|y: int, z: int| 0 <= y < self.nodes@.len() && 0 < z < self.nodes@.len() implies #[trigger] self.compact_pair(y, z) by {
            assert(prev.compact_pair(y, z));
        }
        assert forall|t: int| 0 <= t < self.strings@.len() implies #[trigger] self.string_ok(t) by {
            assert(prev.string_ok(t));
        }
        assert forall|y: int| 0 <= y < self.nodes@.len() implies #[trigger] self.link_ok(y) by {
            if y != a {
                assert(prev.link_ok(y));
            } else {
                assert(self.suffix_links@[a] as int == b);
            }
        }
        assert(self.struct_wf());
        assert forall|y: int, e: int|
            0 <= y < self.nodes@.len() && 0 <= e < self.node_data@[y].len() implies #[trigger] self.entry_ok(y, e, sid, i + 1) by {
            assert(prev.entry_ok(y, e, sid, i + 1));
        }
        assert forall|y: int, s2: int, i2: int|
            0 < y < self.nodes@.len() && done(sid, i, s2, i2) && self.valid_pair(s2, i2) && #[trigger] self.enters(s2, i2, y)
                implies self.data_has(y, s2, i2) by {
            assert(prev.enters(s2, i2, y));
        }
        assert forall|y: int, s2: int, i2: int|
            0 <= y < self.nodes@.len() && done(sid, i, s2, i2) && self.valid_pair(s2, i2) && #[trigger] self.reaches(s2, i2, y)
                && self.paths@[y].len() < self.trunc_len(s2, i2)
                implies self.cont_at(s2, i2, y) by {
            assert(prev.reaches(s2, i2, y));
            assert(prev.cont_at(s2, i2, y));
        }
        assert forall|y: int|
            0 < y < self.nodes@.len() && #[trigger] self.enters(sid, i, y) && self.paths@[self.parent_of(y)].len() < d
                implies self.data_has(y, sid, i) by {
            assert(prev.enters(sid, i, y));
        }
        assert forall|y: int|
            0 <= y < self.nodes@.len() && #[trigger] self.reaches(sid, i, y) && self.paths@[y].len() < d
                implies self.cont_at(sid, i, y) by {
            assert(prev.reaches(sid, i, y));
            assert(prev.cont_at(sid, i, y));
        }
    }

    /// Links the node at depth `d + 1` of the previous suffix's walk, if it has one, to `n`,
    /// the node at depth `d` of this suffix's walk.
    fn link_previous(&mut self, sid: usize, i: usize, n: usize, d: usize, prev_walk: &Vec<(NodeID, usize)>)
        requires
            old(self).walk_inv(sid as int, i as int, n as int, d as int),
            old(self).walk_at(sid as int, i as int, n as int, d as int),
            i > 0 ==> forall|e: int| 0 <= e < prev_walk@.len()
                ==> #[trigger] old(self).walk_at(sid as int, i - 1, prev_walk@[e].0 as int, prev_walk@[e].1 as int),
        ensures
            final(self).walk_inv(sid as int, i as int, n as int, d as int),
            final(self).nodes@ == old(self).nodes@,
            final(self).paths@ == old(self).paths@,
            final(self).node_data@ == old(self).node_data@,
            final(self).strings@ == old(self).strings@,
            final(self).terminal_character == old(self).terminal_character,
    {
        if i == 0 {
            return;
        }
        let mut e: usize = 0;
        while e < prev_walk.len()
            invariant
                e <= prev_walk@.len(),
                *self == *old(self),
                i > 0,
                self.walk_inv(sid as int, i as int, n as int, d as int),
                self.walk_at(sid as int, i as int, n as int, d as int),
                forall|e2: int| 0 <= e2 < prev_walk@.len()
                    ==> #[trigger] self.walk_at(sid as int, i - 1, prev_walk@[e2].0 as int, prev_walk@[e2].1 as int),
            decreases prev_walk@.len() - e,
        {
            if d < prev_walk[e].1 && prev_walk[e].1 - d == 1 {
                let a = prev_walk[e].0;
                let ghost prev = *self;
                proof {
                    assert(prev.walk_at(sid as int, i - 1, a as int, d + 1));
                    assert(a != 0) by {
                        assert(prev.paths@[0].len() == 0);
                    }
                    assert(prev.paths@[n as int] =~= prev.paths@[a as int].subrange(1, prev.paths@[a as int].len() as int)) by {
                        assert forall|x: int| 0 <= x < d implies prev.paths@[n as int][x] == prev.paths@[a as int][x + 1] by {
                            assert(prev.paths@[n as int][x] == prev.text(sid as int).subrange(i as int, i + d)[x]);
                            assert(prev.paths@[a as int][x + 1] == prev.text(sid as int).subrange(i - 1, i + d)[x + 1]);
                        }
                    }
                }
                self.suffix_links.set(a, n);
                proof {
                    self.lemma_after_link(prev, sid as int, i as int, n as int, d as int, a as int, n as int);
                }
                return;
            }
            e = e + 1;
        }
    }

    /// Adds suffix `i` of the last registered sequence, truncated at its bound. Returns
    /// the nodes its path ends on, with their depths, and links the nodes of the previous
    /// suffix's path (`prev_walk`) to them.
    #[verifier::spinoff_prover]
    #[verifier::rlimit(100)]
    fn insert_suffix(&mut self, sid: usize, i: usize, prev_walk: &Vec<(NodeID, usize)>) -> (walk: Vec<(NodeID, usize)>)
        requires
            old(self).inv(sid as int, i as int),
            old(self).lean_all(),
            sid + 1 == old(self).strings@.len(),
            i < old(self).text(sid as int).len(),
            i > 0 ==> forall|e: int| 0 <= e < prev_walk@.len()
                ==> #[trigger] old(self).walk_at(sid as int, i - 1, prev_walk@[e].0 as int, prev_walk@[e].1 as int),
        ensures
            final(self).inv(sid as int, i + 1),
            final(self).lean_all(),
            final(self).strings@ == old(self).strings@,
            final(self).terminal_character == old(self).terminal_character,
            forall|e: int| 0 <= e < walk@.len()
                ==> #[trigger] final(self).walk_at(sid as int, i as int, walk@[e].0 as int, walk@[e].1 as int),
            old(self).nodes@.len() <= final(self).nodes@.len() <= old(self).nodes@.len() + 2,
            forall|y: int| 0 <= y < old(self).nodes@.len() ==> #[trigger] final(self).paths@[y] == old(self).paths@[y],
            forall|y: int| old(self).nodes@.len() <= y < final(self).nodes@.len()
                ==> #[trigger] final(self).paths@[y].len() <= final(self).bound(sid as int),
    {
        let tlen = self.strings[sid].0.string.len();
        let b = self.strings[sid].1;
        let tl: usize = if tlen - i < b { tlen - i } else { b };
        let mut n: usize = 0;
        let mut d: usize = 0;
        let mut exact: bool = true;
        let mut walk: Vec<(NodeID, usize)> = Vec::new();
        let ghost mut added: int = 0;
        proof {
            assert(self.string_ok(sid as int));
            assert(self.agrees(sid as int, i as int, self.paths@[0]));
            assert(self.occ_sound(sid as int, i + 1)) by {
                assert forall|n2: int, e: int|
                    0 <= n2 < self.nodes@.len() && 0 <= e < self.node_data@[n2].len() implies #[trigger] self.entry_ok(n2, e, sid as int, i + 1) by {
                    assert(self.entry_ok(n2, e, sid as int, i as int));
                }
            }
            assert forall|y: int|
                0 <= y < self.nodes@.len() && #[trigger] self.reaches(sid as int, i as int, y) && self.paths@[y].len() < 0
                    implies self.cont_at(sid as int, i as int, y) by {}
            assert(self.walk_inv(sid as int, i as int, 0, 0));
        }
        while d < tl
            invariant
                self.walk_inv(sid as int, i as int, n as int, d as int),
                self.strings@ == old(self).strings@,
                self.terminal_character == old(self).terminal_character,
                tlen == self.text(sid as int).len(),
                tl == self.trunc_len(sid as int, i as int),
                exact ==> d == self.paths@[n as int].len(),
                i > 0 ==> forall|e: int| 0 <= e < prev_walk@.len()
                    ==> #[trigger] self.walk_at(sid as int, i - 1, prev_walk@[e].0 as int, prev_walk@[e].1 as int),
                forall|e: int| 0 <= e < walk@.len()
                    ==> #[trigger] self.walk_at(sid as int, i as int, walk@[e].0 as int, walk@[e].1 as int),
                0 <= added <= 2,
                self.nodes@.len() == old(self).nodes@.len() + added,
                added == 2 ==> d == tl,
                added == 1 && d < tl ==> !self.nodes@[n as int].has_key(self.text(sid as int)[i + d]),
                forall|y: int| 0 <= y < old(self).nodes@.len() ==> #[trigger] self.paths@[y] == old(self).paths@[y],
                forall|y: int| old(self).nodes@.len() <= y < self.nodes@.len() ==> #[trigger] self.paths@[y].len() <= tl,
                tl <= self.bound(sid as int),
                added == 1 && d < tl ==> self.nodes@[n as int].children@.len() >= 1,
                forall|y: int| 0 < y < self.nodes@.len() && !(y == n && added == 1 && d < tl) ==> #[trigger] self.lean(y),
            decreases tl - d,
        {
            let ghost top = *self;
            proof {
                assert(self.paths@[n as int] =~= self.text(sid as int).subrange(i as int, i + d)) by {
                    assert forall|x: int| 0 <= x < d implies self.paths@[n as int][x] == self.text(sid as int)[i + x] by {}
                }
                assert(self.walk_at(sid as int, i as int, n as int, d as int));
            }
            self.link_previous(sid, i, n, d, prev_walk);
            walk.push((n, d));
            proof {
                assert forall|e: int| 0 <= e < walk@.len()
                    implies #[trigger] self.walk_at(sid as int, i as int, walk@[e].0 as int, walk@[e].1 as int) by {
                    if e < walk@.len() - 1 {
                        assert(top.walk_at(sid as int, i as int, walk@[e].0 as int, walk@[e].1 as int));
                    }
                }
                if i > 0 {
                    assert forall|e: int| 0 <= e < prev_walk@.len()
                        implies #[trigger] self.walk_at(sid as int, i - 1, prev_walk@[e].0 as int, prev_walk@[e].1 as int) by {
                        assert(top.walk_at(sid as int, i - 1, prev_walk@[e].0 as int, prev_walk@[e].1 as int));
                    }
                }
            }
            let c = self.strings[sid].0.string[i + d];
            let ghost prev = *self;
            match self.nodes[n].child_slot(&c) {
                None => {
                    let l = self.nodes.len();
                    self.nodes.push(Node::new(Vec::new(), Some(sid), Some(n), tl - d, i + d));
                    self.nodes[n].children.push((c, l));
                    let mut fresh: Vec<(StringID, usize)> = Vec::new();
                    fresh.push((sid, i));
                    self.node_data.push(fresh);
                    self.suffix_links.push(0);
                    let ghost grown = self.paths@.push(self.text(sid as int).subrange(i as int, i + tl));
                    self.paths = Ghost(grown);
                    proof {
                        assert(self.nodes.len() == self.nodes@.len());
                        self.lemma_step_leaf(prev, n as int, sid as int, i as int, d as int);
                    }
                    let ghost pn = n;
                    n = l;
                    d = tl;
                    exact = true;
                    proof {
                        added = added + 1;
                        assert forall|y: int| 0 < y < self.nodes@.len() implies #[trigger] self.lean(y) by {
                            if y == l {
                                assert(self.node_data@[y][0] == (sid, i));
                                assert(self.end_entry(y, 0));
                            } else if self.nodes@[y].children@.len() < 2 {
                                if y == pn {
                                    assert(top.lean(y));
                                } else {
                                    assert(top.lean(y));
                                }
                                let e = choose|e: int| 0 <= e < top.node_data@[y].len() && #[trigger] top.end_entry(y, e);
                                assert(self.node_data@[y] == top.node_data@[y]);
                                assert(self.end_entry(y, e));
                            }
                        }
                    }
                },
                Some(k) => {
                    let m = self.nodes[n].children[k].1;
                    proof {
                        assert(self.child_ok(n as int, k as int));
                        assert(self.node_ok(m as int));
                        let fe = choose|e: int| 0 <= e < self.node_data@[m as int].len() && #[trigger] self.full_entry(m as int, e);
                        assert(self.entry_ok(m as int, fe, sid as int, i + 1));
                        let fs = self.node_data@[m as int][fe].0 as int;
                        assert(self.strings@[fs].0.string.len() == self.text(fs).len());
                        self.lemma_parent_prefix(m as int);
                    }
                    let ms = self.nodes[m].string_id.unwrap();
                    proof {
                        assert(self.strings@[ms as int].0.string.len() == self.text(ms as int).len());
                    }
                    let mst = self.nodes[m].start;
                    let mlen = self.nodes[m].edge_length;
                    let dm = d + mlen;
                    let lim: usize = if dm < tl { dm } else { tl };
                    let mut j: usize = d + 1;
                    proof {
                        assert forall|x: int| 0 <= x < d + 1 implies #[trigger] self.paths@[m as int][x] == self.text(sid as int)[i + x] by {
                            if x < d {
                                assert(self.paths@[n as int][x] == self.text(sid as int)[i + x]);
                            }
                        }
                    }
                    while j < lim && self.strings[ms].0.string[mst + (j - d)].same(&self.strings[sid].0.string[i + j])
                        invariant
                            self.walk_inv(sid as int, i as int, n as int, d as int),
                            *self == prev,
                            tl == self.trunc_len(sid as int, i as int),
                            tlen == self.text(sid as int).len(),
                            d == self.paths@[n as int].len(),
                            d < tl,
                            0 <= k < self.nodes@[n as int].children@.len(),
                            m == self.nodes@[n as int].children@[k as int].1,
                            0 < m < self.nodes@.len(),
                            self.node_ok(m as int),
                            self.nodes@[m as int].parent == Some(n),
                            ms == self.nodes@[m as int].string_id.unwrap(),
                            self.text(ms as int).len() <= usize::MAX,
                            mst == self.nodes@[m as int].start,
                            mlen == self.nodes@[m as int].edge_length,
                            dm == self.paths@[m as int].len(),
                            lim <= dm,
                            lim <= tl,
                            d < j <= lim,
                            forall|x: int| 0 <= x < j ==> #[trigger] self.paths@[m as int][x] == self.text(sid as int)[i + x],
                        decreases lim - j,
                    {
                        proof {
                            assert(self.paths@[m as int][j as int] == self.edge_of(m as int)[j - d]);
                        }
                        j = j + 1;
                    }
                    proof {
                        if j < lim {
                            assert(self.paths@[m as int][j as int] == self.edge_of(m as int)[j - d]);
                        }
                    }
                    if j == lim {
                        self.node_data[m].push((sid, i));
                        proof {
                            self.lemma_step_push(prev, n as int, k as int, sid as int, i as int, d as int, lim as int);
                        }
                        proof {
                            assert(added == 0) by {
                                if added == 1 {
                                    assert(prev.nodes@[n as int].children@[k as int].0 == c);
                                }
                            }
                            assert forall|y: int| 0 < y < self.nodes@.len() implies #[trigger] self.lean(y) by {
                                assert(top.lean(y));
                                if self.nodes@[y].children@.len() < 2 {
                                    let e = choose|e: int| 0 <= e < top.node_data@[y].len() && #[trigger] top.end_entry(y, e);
                                    assert(self.node_data@[y][e] == top.node_data@[y][e]);
                                    assert(self.end_entry(y, e));
                                }
                            }
                        }
                        n = m;
                        d = lim;
                        exact = lim == dm;
                    } else {
                        let key_m = self.strings[ms].0.string[mst + (j - d)];
                        proof {
                            assert(self.paths@[m as int][j as int] == self.edge_of(m as int)[j - d]);
                            assert forall|e: int| 0 <= e < self.node_data@[m as int]@.len() implies #[trigger] self.valid_pair(
                                self.node_data@[m as int]@[e].0 as int, self.node_data@[m as int]@[e].1 as int) by {
                                assert(self.entry_ok(m as int, e, sid as int, i + 1));
                            }
                        }
                        let lower = self.entries_longer_than(&self.node_data[m], j);
                        let mut upper = Self::copy_list(&self.node_data[m]);
                        upper.push((sid, i));
                        let sn = self.nodes.len();
                        let mut sn_children: Vec<(T, NodeID)> = Vec::new();
                        sn_children.push((key_m, m));
                        self.nodes.push(Node::new(sn_children, Some(ms), Some(n), j - d, mst));
                        self.nodes[n].children.set(k, (c, sn));
                        self.nodes[m].parent = Some(sn);
                        self.nodes[m].start = mst + (j - d);
                        self.nodes[m].edge_length = mlen - (j - d);
                        self.node_data.set(m, lower);
                        self.node_data.push(upper);
                        self.suffix_links.push(0);
                        let ghost grown = self.paths@.push(self.paths@[m as int].subrange(0, j as int));
                        self.paths = Ghost(grown);
                        proof {
                            assert(self.nodes.len() == self.nodes@.len());
                            self.lemma_step_split(prev, n as int, k as int, sid as int, i as int, d as int, j as int);
                        }
                        proof {
                            assert(self.nodes@[sn as int].children@ =~= seq![(key_m, m)]);
                            assert(!self.nodes@[sn as int].has_key(self.text(sid as int)[i + j]));
                            assert(added == 0) by {
                                if added == 1 {
                                    assert(prev.nodes@[n as int].children@[k as int].0 == c);
                                }
                            }
                            assert forall|y: int| 0 < y < self.nodes@.len() && y != sn implies #[trigger] self.lean(y) by {
                                assert(top.lean(y));
                                if self.nodes@[y].children@.len() < 2 {
                                    let e = choose|e: int| 0 <= e < top.node_data@[y].len() && #[trigger] top.end_entry(y, e);
                                    if y == m {
                                        let x = top.node_data@[y][e];
                                        assert(prev.node_data@[m as int]@[e] == x);
                                        assert(prev.node_data@[m as int]@.contains(x));
                                        assert(prev.trunc_len(x.0 as int, x.1 as int) > j);
                                        assert(self.node_data@[m as int]@.contains(x));
                                        let e2 = choose|e2: int| 0 <= e2 < self.node_data@[m as int]@.len() && self.node_data@[m as int]@[e2] == x;
                                        assert(self.end_entry(y, e2));
                                    } else {
                                        assert(self.node_data@[y] == top.node_data@[y]);
                                        assert(self.end_entry(y, e));
                                    }
                                }
                            }
                            added = added + 1;
                        }
                        n = sn;
                        d = j;
                        exact = true;
                    }
                },
            }
            proof {
                assert forall|x: int| 0 <= x < prev.nodes@.len() implies #[trigger] self.paths@[x] == prev.paths@[x] by {}
                assert forall|y: int| 0 <= y < old(self).nodes@.len() implies #[trigger] self.paths@[y] == old(self).paths@[y] by {
                    assert(prev.paths@[y] == old(self).paths@[y]);
                }
                assert forall|y: int| old(self).nodes@.len() <= y < self.nodes@.len() implies #[trigger] self.paths@[y].len() <= tl by {
                    if y < prev.nodes@.len() {
                        assert(prev.paths@[y].len() <= tl);
                    }
                }
                assert forall|e: int| 0 <= e < walk@.len()
                    implies #[trigger] self.walk_at(sid as int, i as int, walk@[e].0 as int, walk@[e].1 as int) by {
                    assert(prev.walk_at(sid as int, i as int, walk@[e].0 as int, walk@[e].1 as int));
                }
                if i > 0 {
                    assert forall|e: int| 0 <= e < prev_walk@.len()
                        implies #[trigger] self.walk_at(sid as int, i - 1, prev_walk@[e].0 as int, prev_walk@[e].1 as int) by {
                        assert(prev.walk_at(sid as int, i - 1, prev_walk@[e].0 as int, prev_walk@[e].1 as int));
                    }
                }
            }
        }
        proof {
            assert forall|y: int| 0 < y < self.nodes@.len() implies #[trigger] self.lean(y) by {}
        }
        if exact {
            let ghost top = *self;
            proof {
                assert(self.paths@[n as int] =~= self.text(sid as int).subrange(i as int, i + d)) by {
                    assert forall|x: int| 0 <= x < d implies self.paths@[n as int][x] == self.text(sid as int)[i + x] by {}
                }
            }
            self.link_previous(sid, i, n, d, prev_walk);
            walk.push((n, d));
            proof {
                assert forall|e: int| 0 <= e < walk@.len()
                    implies #[trigger] self.walk_at(sid as int, i as int, walk@[e].0 as int, walk@[e].1 as int) by {
                    if e < walk@.len() - 1 {
                        assert(top.walk_at(sid as int, i as int, walk@[e].0 as int, walk@[e].1 as int));
                    }
                }
                assert forall|y: int| 0 < y < self.nodes@.len() implies #[trigger] self.lean(y) by {
                    assert(top.lean(y));
                    if self.nodes@[y].children@.len() < 2 {
                        let e = choose|e: int| 0 <= e < top.node_data@[y].len() && #[trigger] top.end_entry(y, e);
                        assert(self.end_entry(y, e));
                    }
                }
            }
        }
        walk
    }
}


} // verus!
