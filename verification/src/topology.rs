//! Topology View: the graph of node identifiers, node kinds and adjacency
//! discovered by flooding. Mutated by the discovery protocol and by the
//! recovery handlers; read by the path resolver.

use vstd::prelude::*;
use crate::NodeId;

verus! {

broadcast use vstd::seq_lib::group_seq_properties;

/// Whether `x` occurs in `v`.
fn vec_has(v: &Vec<NodeId>, x: NodeId) -> (r: bool)
    ensures
        r == v@.contains(x),
{
    let mut i: usize = 0;
    while i < v.len()
        invariant
            i <= v@.len(),
            forall|j: int| 0 <= j < i ==> v@[j] != x,
        decreases v@.len() - i,
    {
        if v[i] == x {
            return true;
        }
        i += 1;
    }
    false
}

/// What role a discovered node plays in the mesh. Relays forward traffic and
/// may fail or drop packets; they are never message endpoints.
#[derive(Clone, Copy, PartialEq, Eq, Structural, Debug)]
pub enum NodeKind {
    Relay,
    Client,
    Server,
}

struct TopoNode {
    id: NodeId,
    kind: NodeKind,
    adj: Vec<NodeId>,
}

/// An in-memory graph of discovered nodes: each with its kind and the set of
/// adjacent node identifiers observed during discovery. Edges are undirected
/// (kept symmetric), and a removed node leaves no edge behind.
pub struct TopologyView {
    nodes: Vec<TopoNode>,
}

impl TopologyView {
    spec fn entry_for(self, i: int, id: NodeId) -> bool {
        0 <= i < self.nodes@.len() && self.nodes@[i].id == id
    }

    /// Whether `id` has been discovered.
    pub closed spec fn contains(self, id: NodeId) -> bool {
        exists|i: int| self.entry_for(i, id)
    }

    /// The recorded kind of a discovered node (meaningful when `contains`).
    pub closed spec fn kind_of(self, id: NodeId) -> NodeKind {
        let i = choose|i: int| self.entry_for(i, id);
        self.nodes@[i].kind
    }

    /// Whether an edge between `a` and `b` has been observed.
    pub closed spec fn edge(self, a: NodeId, b: NodeId) -> bool {
        exists|i: int| #[trigger] self.entry_for(i, a) && self.nodes@[i].adj@.contains(b)
    }

    spec fn ids_unique(self) -> bool {
        forall|i: int, j: int| 0 <= i < j < self.nodes@.len() ==>
            (#[trigger] self.nodes@[i]).id != (#[trigger] self.nodes@[j]).id
    }

    /// One entry per node; edges symmetric and only between discovered nodes.
    pub closed spec fn wf(self) -> bool {
        &&& self.ids_unique()
        &&& forall|a: NodeId, b: NodeId| #[trigger] self.edge(a, b) ==> self.edge(b, a)
        &&& forall|a: NodeId, b: NodeId| #[trigger] self.edge(a, b) ==>
            self.contains(a) && self.contains(b)
    }

    /// In a well-formed view an edge is symmetric and joins discovered
    /// nodes.
    pub proof fn lemma_edge_endpoints(self, a: NodeId, b: NodeId)
        requires
            self.wf(),
            self.edge(a, b),
        ensures
            self.contains(a),
            self.contains(b),
            self.edge(b, a),
    {
    }

    proof fn lemma_entry_unique(self, i: int, j: int, id: NodeId)
        requires
            self.ids_unique(),
            self.entry_for(i, id),
            self.entry_for(j, id),
        ensures
            i == j,
    {
    }

    /// The edges leaving the node of entry `i` are exactly its adjacency.
    proof fn lemma_edge_iff_mem(self, i: int, b: NodeId)
        requires
            self.ids_unique(),
            0 <= i < self.nodes@.len(),
        ensures
            self.edge(self.nodes@[i].id, b) <==> self.nodes@[i].adj@.contains(b),
    {
        let a = self.nodes@[i].id;
        if self.edge(a, b) {
            let w = choose|j: int| #[trigger] self.entry_for(j, a)
                && self.nodes@[j].adj@.contains(b);
            self.lemma_entry_unique(w, i, a);
        }
        if self.nodes@[i].adj@.contains(b) {
            assert(self.entry_for(i, a) && self.nodes@[i].adj@.contains(b));
        }
    }

    /// An empty view: no nodes discovered, no edges.
    pub fn new() -> (r: Self)
        ensures
            r.wf(),
            forall|id: NodeId| !(#[trigger] r.contains(id)),
            forall|a: NodeId, b: NodeId| !(#[trigger] r.edge(a, b)),
    {
        TopologyView { nodes: Vec::new() }
    }

    fn find_node(&self, id: NodeId) -> (r: Option<usize>)
        ensures
            match r {
                Some(i) => self.entry_for(i as int, id),
                None => !self.contains(id),
            },
    {
        let mut i: usize = 0;
        while i < self.nodes.len()
            invariant
                i <= self.nodes@.len(),
                forall|j: int| 0 <= j < i ==> !self.entry_for(j, id),
            decreases self.nodes@.len() - i,
        {
            if self.nodes[i].id == id {
                return Some(i);
            }
            i += 1;
        }
        None
    }

    /// Whether `id` has been discovered.
    pub fn has_node(&self, id: NodeId) -> (r: bool)
        ensures
            r == self.contains(id),
    {
        self.find_node(id).is_some()
    }

    /// The recorded kind of `id`, if discovered.
    pub fn get_kind(&self, id: NodeId) -> (r: Option<NodeKind>)
        requires
            self.wf(),
        ensures
            match r {
                Some(k) => self.contains(id) && k == self.kind_of(id),
                None => !self.contains(id),
            },
    {
        match self.find_node(id) {
            Some(i) => {
                proof {
                    let c = choose|j: int| self.entry_for(j, id);
                    self.lemma_entry_unique(i as int, c, id);
                }
                Some(self.nodes[i].kind)
            }
            None => None,
        }
    }

    /// The neighbors of `id` observed so far (possibly with repeats).
    pub fn neighbors(&self, id: NodeId) -> (r: Vec<NodeId>)
        requires
            self.wf(),
        ensures
            forall|k: int| 0 <= k < r@.len() ==> self.edge(id, #[trigger] r@[k]),
            forall|b: NodeId| #[trigger] self.edge(id, b) ==> r@.contains(b),
    {
        match self.find_node(id) {
            Some(i) => {
                proof {
                    let c = choose|j: int| self.entry_for(j, id);
                    self.lemma_entry_unique(i as int, c, id);
                }
                let mut r: Vec<NodeId> = Vec::new();
                let mut k: usize = 0;
                let n = self.nodes[i].adj.len();
                while k < n
                    invariant
                        self.wf(),
                        self.entry_for(i as int, id),
                        i < self.nodes@.len(),
                        n == self.nodes@[i as int].adj@.len(),
                        k <= n,
                        r@ == self.nodes@[i as int].adj@.subrange(0, k as int),
                    decreases n - k,
                {
                    r.push(self.nodes[i].adj[k]);
                    assert(r@ =~= self.nodes@[i as int].adj@.subrange(0, k + 1 as int));
                    k += 1;
                }
                proof {
                    assert(r@ =~= self.nodes@[i as int].adj@);
                    assert forall|idx: int| 0 <= idx < r@.len() implies
                        self.edge(id, r@[idx]) by {
                        assert(self.nodes@[i as int].adj@.contains(r@[idx]));
                    }
                    assert forall|b: NodeId| #[trigger] self.edge(id, b) implies
                        r@.contains(b) by {
                        let w = choose|j: int| #[trigger] self.entry_for(j, id)
                            && self.nodes@[j].adj@.contains(b);
                        self.lemma_entry_unique(i as int, w, id);
                    }
                }
                r
            }
            None => {
                let r: Vec<NodeId> = Vec::new();
                proof {
                    assert forall|b: NodeId| #[trigger] self.edge(id, b) implies
                        r@.contains(b) by {
                        let w = choose|j: int| #[trigger] self.entry_for(j, id)
                            && self.nodes@[j].adj@.contains(b);
                        assert(self.contains(id));
                    }
                }
                r
            }
        }
    }

    /// Records `id` with `kind`, overwriting the kind if `id` was already
    /// discovered. Edges and every other node are untouched.
    pub fn insert_node(&mut self, id: NodeId, kind: NodeKind)
        requires
            old(self).wf(),
        ensures
            final(self).wf(),
            final(self).contains(id),
            final(self).kind_of(id) == kind,
            forall|x: NodeId| x != id ==>
                #[trigger] final(self).contains(x) == old(self).contains(x),
            forall|x: NodeId| x != id && old(self).contains(x) ==>
                #[trigger] final(self).kind_of(x) == old(self).kind_of(x),
            forall|a: NodeId, b: NodeId|
                #![trigger final(self).edge(a, b)]
                #![trigger old(self).edge(a, b)]
                final(self).edge(a, b) == old(self).edge(a, b),
    {
        match self.find_node(id) {
            Some(i) => {
                proof {
                    let c = choose|j: int| old(self).entry_for(j, id);
                    old(self).lemma_entry_unique(i as int, c, id);
                }
                let entry = self.nodes.remove(i);
                let updated = TopoNode { id, kind, adj: entry.adj };
                self.nodes.insert(i, updated);
                proof {
                    assert(self.nodes@ =~= old(self).nodes@.update(i as int, self.nodes@[i as int]));
                    self.lemma_same_adj_frame(*old(self));
                    let c2 = choose|j: int| self.entry_for(j, id);
                    self.lemma_entry_unique(i as int, c2, id);
                    assert forall|x: NodeId| x != id && old(self).contains(x) implies
                        #[trigger] self.kind_of(x) == old(self).kind_of(x) by {
                        assert(self.contains(x));
                        let w = choose|j: int| self.entry_for(j, x);
                        let w0 = choose|j: int| old(self).entry_for(j, x);
                        old(self).lemma_entry_unique(w, w0, x);
                        assert(w != i);
                    }
                }
            }
            None => {
                let fresh = TopoNode { id, kind, adj: Vec::new() };
                self.nodes.push(fresh);
                proof {
                    let n = old(self).nodes@.len() as int;
                    assert(self.entry_for(n, id));
                    assert forall|a: NodeId, b: NodeId|
                        #![trigger self.edge(a, b)]
                        #![trigger old(self).edge(a, b)]
                        self.edge(a, b) == old(self).edge(a, b) by {
                        if self.edge(a, b) {
                            let w = choose|j: int| #[trigger] self.entry_for(j, a)
                                && self.nodes@[j].adj@.contains(b);
                            assert(w != n);
                            assert(old(self).entry_for(w, a));
                        }
                        if old(self).edge(a, b) {
                            let w = choose|j: int| #[trigger] old(self).entry_for(j, a)
                                && old(self).nodes@[j].adj@.contains(b);
                            assert(self.entry_for(w, a));
                        }
                    }
                    assert forall|x: NodeId| x != id implies
                        #[trigger] self.contains(x) == old(self).contains(x) by {
                        if old(self).contains(x) {
                            let w = choose|j: int| old(self).entry_for(j, x);
                            assert(self.entry_for(w, x));
                        }
                        if self.contains(x) {
                            let w = choose|j: int| self.entry_for(j, x);
                            assert(w != n);
                            assert(old(self).entry_for(w, x));
                        }
                    }
                    assert forall|x: NodeId| x != id && old(self).contains(x) implies
                        #[trigger] self.kind_of(x) == old(self).kind_of(x) by {
                        let w = choose|j: int| old(self).entry_for(j, x);
                        assert(self.entry_for(w, x));
                        let c3 = choose|j: int| self.entry_for(j, x);
                        if c3 != w {
                            if c3 == n {
                                assert(false);
                            } else {
                                old(self).lemma_entry_unique(c3, w, x);
                            }
                        }
                    }
                    let c2 = choose|j: int| self.entry_for(j, id);
                    if c2 != n {
                        assert(old(self).entry_for(c2, id));
                        assert(false);
                    }
                    assert(self.wf()) by {
                        assert forall|k: int, l: int| 0 <= k < l < self.nodes@.len() implies
                            (#[trigger] self.nodes@[k]).id != (#[trigger] self.nodes@[l]).id by {
                            if l == n && self.nodes@[k].id == id {
                                assert(old(self).entry_for(k, id));
                            }
                        }
                    }
                }
            }
        }
    }

    /// Removing the sole entry of `x` keeps every other node, its kind, and
    /// every edge not leaving `x`.
    proof fn lemma_remove_entry(s0: Self, s1: Self, ix: int, x: NodeId)
        requires
            s0.ids_unique(),
            s0.entry_for(ix, x),
            s1.nodes@ == s0.nodes@.remove(ix),
        ensures
            s1.ids_unique(),
            !s1.contains(x),
            forall|y: NodeId| y != x ==> #[trigger] s1.contains(y) == s0.contains(y),
            forall|y: NodeId| y != x && s0.contains(y) ==>
                #[trigger] s1.kind_of(y) == s0.kind_of(y),
            forall|p: NodeId, q: NodeId|
                #![trigger s1.edge(p, q)]
                #![trigger s0.edge(p, q)]
                s1.edge(p, q) == (s0.edge(p, q) && p != x),
    {
        assert forall|k: int| 0 <= k < s1.nodes@.len() implies
            #[trigger] s1.nodes@[k] == (if k < ix {
                s0.nodes@[k]
            } else {
                s0.nodes@[k + 1]
            }) by {}
        assert forall|y: NodeId| y != x && s0.contains(y) implies
            s1.contains(y) && s1.kind_of(y) == s0.kind_of(y) by {
            let w0 = choose|j: int| s0.entry_for(j, y);
            let w1 = if w0 < ix { w0 } else { w0 - 1 };
            assert(s1.entry_for(w1, y));
            let c1 = choose|j: int| s1.entry_for(j, y);
            let c0 = if c1 < ix { c1 } else { c1 + 1 };
            assert(s0.entry_for(c0, y));
            s0.lemma_entry_unique(c0, w0, y);
        }
        assert forall|y: NodeId| #[trigger] s1.contains(y) implies
            s0.contains(y) && y != x by {
            let w1 = choose|j: int| s1.entry_for(j, y);
            let w0 = if w1 < ix { w1 } else { w1 + 1 };
            assert(s0.entry_for(w0, y));
            if y == x {
                s0.lemma_entry_unique(w0, ix, x);
            }
        }
        assert forall|p: NodeId, q: NodeId|
            #![trigger s1.edge(p, q)]
            #![trigger s0.edge(p, q)]
            s1.edge(p, q) == (s0.edge(p, q) && p != x) by {
            if s1.edge(p, q) {
                let w1 = choose|j: int| #[trigger] s1.entry_for(j, p)
                    && s1.nodes@[j].adj@.contains(q);
                let w0 = if w1 < ix { w1 } else { w1 + 1 };
                assert(s0.entry_for(w0, p) && s0.nodes@[w0].adj@.contains(q));
                if p == x {
                    s0.lemma_entry_unique(w0, ix, x);
                }
            }
            if s0.edge(p, q) && p != x {
                let w0 = choose|j: int| #[trigger] s0.entry_for(j, p)
                    && s0.nodes@[j].adj@.contains(q);
                assert(w0 != ix) by {
                    if w0 == ix {
                        assert(s0.nodes@[ix].id == x);
                    }
                }
                let w1 = if w0 < ix { w0 } else { w0 - 1 };
                assert(s1.entry_for(w1, p) && s1.nodes@[w1].adj@.contains(q));
            }
        }
    }

    /// Filtering one node out of every adjacency keeps node membership and
    /// kinds, and keeps exactly the edges that do not lead to that node.
    proof fn lemma_filter_adj(s1: Self, s2: Self, x: NodeId)
        requires
            s1.ids_unique(),
            s2.nodes@.len() == s1.nodes@.len(),
            forall|j: int| 0 <= j < s2.nodes@.len() ==>
                (#[trigger] s2.nodes@[j]).id == s1.nodes@[j].id,
            forall|j: int| 0 <= j < s2.nodes@.len() ==>
                (#[trigger] s2.nodes@[j]).kind == s1.nodes@[j].kind,
            forall|j: int, y: NodeId| 0 <= j < s2.nodes@.len() ==>
                ((#[trigger] s2.nodes@[j].adj@.contains(y))
                 <==> (s1.nodes@[j].adj@.contains(y) && y != x)),
        ensures
            s2.ids_unique(),
            forall|y: NodeId| #[trigger] s2.contains(y) == s1.contains(y),
            forall|y: NodeId| s1.contains(y) ==> #[trigger] s2.kind_of(y) == s1.kind_of(y),
            forall|p: NodeId, q: NodeId|
                #![trigger s2.edge(p, q)]
                #![trigger s1.edge(p, q)]
                s2.edge(p, q) == (s1.edge(p, q) && q != x),
    {
        assert forall|y: NodeId| #[trigger] s2.contains(y) == s1.contains(y) by {
            if s2.contains(y) {
                let w = choose|j: int| s2.entry_for(j, y);
                assert(s1.entry_for(w, y));
            }
            if s1.contains(y) {
                let w = choose|j: int| s1.entry_for(j, y);
                assert(s2.entry_for(w, y));
            }
        }
        assert forall|y: NodeId| s1.contains(y) implies
            #[trigger] s2.kind_of(y) == s1.kind_of(y) by {
            let w1 = choose|j: int| s1.entry_for(j, y);
            assert(s2.entry_for(w1, y));
            let w2 = choose|j: int| s2.entry_for(j, y);
            assert(s1.entry_for(w2, y));
            s1.lemma_entry_unique(w1, w2, y);
        }
        assert forall|p: NodeId, q: NodeId|
            #![trigger s2.edge(p, q)]
            #![trigger s1.edge(p, q)]
            s2.edge(p, q) == (s1.edge(p, q) && q != x) by {
            if s2.edge(p, q) {
                let w = choose|j: int| #[trigger] s2.entry_for(j, p)
                    && s2.nodes@[j].adj@.contains(q);
                assert(s1.entry_for(w, p) && s1.nodes@[w].adj@.contains(q) && q != x);
            }
            if s1.edge(p, q) && q != x {
                let w = choose|j: int| #[trigger] s1.entry_for(j, p)
                    && s1.nodes@[j].adj@.contains(q);
                assert(s2.entry_for(w, p) && s2.nodes@[w].adj@.contains(q));
            }
        }
    }

    /// Both views agree everywhere except possibly in entry `i`'s adjacency:
    /// node membership, kinds, and the edges of every other node carry over.
    proof fn lemma_adj_change_frame(s1: Self, s0: Self, i: int)
        requires
            s0.ids_unique(),
            s1.nodes@.len() == s0.nodes@.len(),
            0 <= i < s1.nodes@.len(),
            forall|j: int| 0 <= j < s1.nodes@.len() ==>
                (#[trigger] s1.nodes@[j]).id == s0.nodes@[j].id,
            forall|j: int| 0 <= j < s1.nodes@.len() ==>
                (#[trigger] s1.nodes@[j]).kind == s0.nodes@[j].kind,
            forall|j: int| 0 <= j < s1.nodes@.len() && j != i ==>
                (#[trigger] s1.nodes@[j]).adj == s0.nodes@[j].adj,
        ensures
            s1.ids_unique(),
            forall|y: NodeId| #[trigger] s1.contains(y) == s0.contains(y),
            forall|y: NodeId| s0.contains(y) ==> #[trigger] s1.kind_of(y) == s0.kind_of(y),
            forall|p: NodeId, q: NodeId|
                #![trigger s1.edge(p, q)]
                #![trigger s0.edge(p, q)]
                p != s1.nodes@[i].id ==> s1.edge(p, q) == s0.edge(p, q),
    {
        assert forall|y: NodeId| #[trigger] s1.contains(y) == s0.contains(y) by {
            if s1.contains(y) {
                let w = choose|j: int| s1.entry_for(j, y);
                assert(s0.entry_for(w, y));
            }
            if s0.contains(y) {
                let w = choose|j: int| s0.entry_for(j, y);
                assert(s1.entry_for(w, y));
            }
        }
        assert forall|y: NodeId| s0.contains(y) implies
            #[trigger] s1.kind_of(y) == s0.kind_of(y) by {
            let w0 = choose|j: int| s0.entry_for(j, y);
            assert(s1.entry_for(w0, y));
            let w1 = choose|j: int| s1.entry_for(j, y);
            assert(s0.entry_for(w1, y));
            s0.lemma_entry_unique(w0, w1, y);
        }
        assert forall|p: NodeId, q: NodeId|
            #![trigger s1.edge(p, q)]
            #![trigger s0.edge(p, q)]
            p != s1.nodes@[i].id implies s1.edge(p, q) == s0.edge(p, q) by {
            if s1.edge(p, q) {
                let w = choose|j: int| #[trigger] s1.entry_for(j, p)
                    && s1.nodes@[j].adj@.contains(q);
                assert(w != i);
                assert(s0.entry_for(w, p) && s0.nodes@[w].adj@.contains(q));
            }
            if s0.edge(p, q) {
                let w = choose|j: int| #[trigger] s0.entry_for(j, p)
                    && s0.nodes@[j].adj@.contains(q);
                assert(w != i);
                assert(s1.entry_for(w, p) && s1.nodes@[w].adj@.contains(q));
            }
        }
    }

    /// Rewrites entry `i`'s adjacency so that `v` is present, leaving all
    /// else as it was.
    fn extend_adj(&mut self, i: usize, v: NodeId)
        requires
            i < old(self).nodes@.len(),
        ensures
            final(self).nodes@.len() == old(self).nodes@.len(),
            forall|j: int| 0 <= j < final(self).nodes@.len() ==>
                (#[trigger] final(self).nodes@[j]).id == old(self).nodes@[j].id,
            forall|j: int| 0 <= j < final(self).nodes@.len() ==>
                (#[trigger] final(self).nodes@[j]).kind == old(self).nodes@[j].kind,
            forall|j: int| 0 <= j < final(self).nodes@.len() && j != i ==>
                (#[trigger] final(self).nodes@[j]).adj == old(self).nodes@[j].adj,
            forall|y: NodeId| (#[trigger] final(self).nodes@[i as int].adj@.contains(y))
                <==> (old(self).nodes@[i as int].adj@.contains(y) || y == v),
    {
        let entry = self.nodes.remove(i);
        let mut adj = entry.adj;
        let ghost pre = adj@;
        if !vec_has(&adj, v) {
            adj.push(v);
        }
        proof {
            assert forall|y: NodeId| (#[trigger] adj@.contains(y))
                <==> (pre.contains(y) || y == v) by {
                if adj@.contains(y) && adj@.len() > pre.len() {
                    let w = choose|t: int| 0 <= t < adj@.len() && adj@[t] == y;
                    if w < pre.len() {
                        assert(pre[w] == y);
                    }
                }
                if pre.contains(y) {
                    let w = choose|t: int| 0 <= t < pre.len() && pre[t] == y;
                    assert(adj@[w] == y);
                }
                if y == v && adj@.len() > pre.len() {
                    assert(adj@[pre.len() as int] == v);
                }
            }
        }
        self.nodes.insert(i, TopoNode { id: entry.id, kind: entry.kind, adj });
        proof {
            assert(self.nodes@ =~= old(self).nodes@.update(i as int, self.nodes@[i as int]));
        }
    }

    /// Rewrites entry `i`'s adjacency so that `x` is absent, leaving all
    /// else as it was.
    fn purge_from_adj(&mut self, i: usize, x: NodeId)
        requires
            i < old(self).nodes@.len(),
        ensures
            final(self).nodes@.len() == old(self).nodes@.len(),
            forall|j: int| 0 <= j < final(self).nodes@.len() ==>
                (#[trigger] final(self).nodes@[j]).id == old(self).nodes@[j].id,
            forall|j: int| 0 <= j < final(self).nodes@.len() ==>
                (#[trigger] final(self).nodes@[j]).kind == old(self).nodes@[j].kind,
            forall|j: int| 0 <= j < final(self).nodes@.len() && j != i ==>
                (#[trigger] final(self).nodes@[j]).adj == old(self).nodes@[j].adj,
            forall|y: NodeId| (#[trigger] final(self).nodes@[i as int].adj@.contains(y))
                <==> (old(self).nodes@[i as int].adj@.contains(y) && y != x),
    {
        let entry = self.nodes.remove(i);
        let mut adj: Vec<NodeId> = Vec::new();
        let mut k: usize = 0;
        while k < entry.adj.len()
            invariant
                k <= entry.adj@.len(),
                forall|t: int| 0 <= t < adj@.len() ==> (#[trigger] adj@[t]) != x
                    && entry.adj@.contains(adj@[t]),
                forall|t: int| 0 <= t < k && entry.adj@[t] != x ==>
                    adj@.contains(#[trigger] entry.adj@[t]),
            decreases entry.adj@.len() - k,
        {
            let v = entry.adj[k];
            let ghost pre = adj@;
            if v != x {
                adj.push(v);
            }
            proof {
                assert forall|t: int| 0 <= t < k + 1 && entry.adj@[t] != x implies
                    adj@.contains(#[trigger] entry.adj@[t]) by {
                    if t < k {
                        let w = choose|u: int| 0 <= u < pre.len() && pre[u] == entry.adj@[t];
                        assert(adj@[w] == entry.adj@[t]);
                    } else {
                        assert(adj@[pre.len() as int] == v);
                    }
                }
                assert forall|t: int| 0 <= t < adj@.len() implies (#[trigger] adj@[t]) != x
                    && entry.adj@.contains(adj@[t]) by {
                    if t < pre.len() {
                        assert(adj@[t] == pre[t]);
                    } else {
                        assert(adj@[t] == v && entry.adj@[k as int] == v);
                    }
                }
            }
            k += 1;
        }
        proof {
            assert forall|y: NodeId| (#[trigger] adj@.contains(y))
                <==> (entry.adj@.contains(y) && y != x) by {
                if adj@.contains(y) {
                    let w = choose|t: int| 0 <= t < adj@.len() && adj@[t] == y;
                    assert(adj@[w] != x && entry.adj@.contains(adj@[w]));
                }
                if entry.adj@.contains(y) && y != x {
                    let w = choose|t: int| 0 <= t < entry.adj@.len() && entry.adj@[t] == y;
                    assert(adj@.contains(entry.adj@[w]));
                }
            }
        }
        self.nodes.insert(i, TopoNode { id: entry.id, kind: entry.kind, adj });
        proof {
            assert(self.nodes@ =~= old(self).nodes@.update(i as int, self.nodes@[i as int]));
        }
    }

    /// Both views have entries at the same positions with the same ids and
    /// the same adjacency: node membership, kinds by position, edges and
    /// well-formedness carry over.
    proof fn lemma_same_adj_frame(self, other: Self)
        requires
            other.wf(),
            self.nodes@.len() == other.nodes@.len(),
            forall|i: int| 0 <= i < self.nodes@.len() ==>
                (#[trigger] self.nodes@[i]).id == other.nodes@[i].id,
            forall|i: int| 0 <= i < self.nodes@.len() ==>
                (#[trigger] self.nodes@[i]).adj == other.nodes@[i].adj,
        ensures
            self.wf(),
            forall|x: NodeId| #[trigger] self.contains(x) == other.contains(x),
            forall|x: NodeId, i: int| #[trigger] self.entry_for(i, x) ==> other.entry_for(i, x),
            forall|x: NodeId, i: int| #[trigger] other.entry_for(i, x) ==> self.entry_for(i, x),
            forall|a: NodeId, b: NodeId|
                #![trigger self.edge(a, b)]
                #![trigger other.edge(a, b)]
                self.edge(a, b) == other.edge(a, b),
    {
        assert forall|x: NodeId| #[trigger] self.contains(x) == other.contains(x) by {
            if self.contains(x) {
                let w = choose|j: int| self.entry_for(j, x);
                assert(other.entry_for(w, x));
            }
            if other.contains(x) {
                let w = choose|j: int| other.entry_for(j, x);
                assert(self.entry_for(w, x));
            }
        }
        assert forall|a: NodeId, b: NodeId|
            #![trigger self.edge(a, b)]
            #![trigger other.edge(a, b)]
            self.edge(a, b) == other.edge(a, b) by {
            if self.edge(a, b) {
                let w = choose|j: int| #[trigger] self.entry_for(j, a)
                    && self.nodes@[j].adj@.contains(b);
                assert(other.entry_for(w, a) && other.nodes@[w].adj@.contains(b));
            }
            if other.edge(a, b) {
                let w = choose|j: int| #[trigger] other.entry_for(j, a)
                    && other.nodes@[j].adj@.contains(b);
                assert(self.entry_for(w, a) && self.nodes@[w].adj@.contains(b));
            }
        }
    }

    /// Records the undirected edge between the discovered nodes `a` and `b`.
    /// Nodes and kinds are untouched; exactly that edge (both directions) is
    /// added to the observed edges.
    pub fn add_edge(&mut self, a: NodeId, b: NodeId)
        requires
            old(self).wf(),
            old(self).contains(a),
            old(self).contains(b),
            a != b,
        ensures
            final(self).wf(),
            forall|y: NodeId| #[trigger] final(self).contains(y) == old(self).contains(y),
            forall|y: NodeId| old(self).contains(y) ==>
                #[trigger] final(self).kind_of(y) == old(self).kind_of(y),
            forall|p: NodeId, q: NodeId|
                #![trigger final(self).edge(p, q)]
                #![trigger old(self).edge(p, q)]
                final(self).edge(p, q) ==
                    (old(self).edge(p, q) || (p == a && q == b) || (p == b && q == a)),
    {
        let ia = match self.find_node(a) {
            Some(i) => i,
            None => {
                proof {
                    assert(false);
                }
                return;
            }
        };
        proof {
            let c = choose|j: int| old(self).entry_for(j, a);
            old(self).lemma_entry_unique(ia as int, c, a);
        }
        self.extend_adj(ia, b);
        let ghost s0 = *old(self);
        let ghost s1 = *self;
        proof {
            Self::lemma_adj_change_frame(s1, s0, ia as int);
            s0.lemma_edge_iff_mem(ia as int, b);
            assert forall|q: NodeId|
                #![trigger s1.edge(a, q)]
                #![trigger s0.edge(a, q)]
                s1.edge(a, q) == (s0.edge(a, q) || q == b) by {
                s1.lemma_edge_iff_mem(ia as int, q);
                s0.lemma_edge_iff_mem(ia as int, q);
            }
        }
        let ib = match self.find_node(b) {
            Some(i) => i,
            None => {
                proof {
                    assert(s1.contains(b));
                    assert(false);
                }
                return;
            }
        };
        proof {
            let c = choose|j: int| s1.entry_for(j, b);
            s1.lemma_entry_unique(ib as int, c, b);
        }
        self.extend_adj(ib, a);
        let ghost s2 = *self;
        proof {
            Self::lemma_adj_change_frame(s2, s1, ib as int);
            assert forall|q: NodeId|
                #![trigger s2.edge(b, q)]
                #![trigger s1.edge(b, q)]
                s2.edge(b, q) == (s1.edge(b, q) || q == a) by {
                s2.lemma_edge_iff_mem(ib as int, q);
                s1.lemma_edge_iff_mem(ib as int, q);
            }
            assert forall|p: NodeId, q: NodeId|
                #![trigger s2.edge(p, q)]
                #![trigger s0.edge(p, q)]
                s2.edge(p, q) ==
                    (s0.edge(p, q) || (p == a && q == b) || (p == b && q == a)) by {
                if p == a {
                    assert(s2.edge(a, q) == s1.edge(a, q));
                } else if p == b {
                    assert(s1.edge(b, q) == s0.edge(b, q));
                } else {
                    assert(s2.edge(p, q) == s1.edge(p, q));
                    assert(s1.edge(p, q) == s0.edge(p, q));
                }
            }
            assert(s2.wf()) by {
                assert forall|p: NodeId, q: NodeId| #[trigger] s2.edge(p, q) implies
                    s2.edge(q, p) && s2.contains(p) && s2.contains(q) by {
                    if s0.edge(p, q) {
                        assert(s0.edge(q, p));
                    }
                }
            }
        }
    }

    /// Forgets the undirected edge between `a` and `b`, if observed. Nodes
    /// and kinds are untouched; no other edge changes.
    pub fn remove_edge(&mut self, a: NodeId, b: NodeId)
        requires
            old(self).wf(),
        ensures
            final(self).wf(),
            forall|y: NodeId| #[trigger] final(self).contains(y) == old(self).contains(y),
            forall|y: NodeId| old(self).contains(y) ==>
                #[trigger] final(self).kind_of(y) == old(self).kind_of(y),
            forall|p: NodeId, q: NodeId|
                #![trigger final(self).edge(p, q)]
                #![trigger old(self).edge(p, q)]
                final(self).edge(p, q) ==
                    (old(self).edge(p, q) && !(p == a && q == b) && !(p == b && q == a)),
    {
        let ia = match self.find_node(a) {
            Some(i) => i,
            None => {
                proof {
                    assert forall|p: NodeId, q: NodeId|
                        #![trigger self.edge(p, q)]
                        #![trigger old(self).edge(p, q)]
                        self.edge(p, q) ==
                            (old(self).edge(p, q) && !(p == a && q == b)
                             && !(p == b && q == a)) by {
                        if old(self).edge(p, q) && (p == a || q == a) {
                            assert(old(self).edge(q, p));
                            assert(old(self).contains(a));
                        }
                    }
                }
                return;
            }
        };
        proof {
            let c = choose|j: int| old(self).entry_for(j, a);
            old(self).lemma_entry_unique(ia as int, c, a);
        }
        self.purge_from_adj(ia, b);
        let ghost s0 = *old(self);
        let ghost s1 = *self;
        proof {
            Self::lemma_adj_change_frame(s1, s0, ia as int);
            assert forall|q: NodeId|
                #![trigger s1.edge(a, q)]
                #![trigger s0.edge(a, q)]
                s1.edge(a, q) == (s0.edge(a, q) && q != b) by {
                s1.lemma_edge_iff_mem(ia as int, q);
                s0.lemma_edge_iff_mem(ia as int, q);
            }
        }
        let ib = match self.find_node(b) {
            Some(i) => i,
            None => {
                proof {
                    assert(!s1.contains(b));
                    assert forall|p: NodeId, q: NodeId|
                        #![trigger s1.edge(p, q)]
                        #![trigger s0.edge(p, q)]
                        s1.edge(p, q) ==
                            (s0.edge(p, q) && !(p == a && q == b)
                             && !(p == b && q == a)) by {
                        if s0.edge(p, q) && p == b {
                            assert(s0.contains(b));
                        }
                        if p != a {
                            assert(s1.edge(p, q) == s0.edge(p, q));
                        }
                    }
                }
                return;
            }
        };
        proof {
            let c = choose|j: int| s1.entry_for(j, b);
            s1.lemma_entry_unique(ib as int, c, b);
        }
        self.purge_from_adj(ib, a);
        let ghost s2 = *self;
        proof {
            Self::lemma_adj_change_frame(s2, s1, ib as int);
            assert forall|q: NodeId|
                #![trigger s2.edge(b, q)]
                #![trigger s1.edge(b, q)]
                s2.edge(b, q) == (s1.edge(b, q) && q != a) by {
                s2.lemma_edge_iff_mem(ib as int, q);
                s1.lemma_edge_iff_mem(ib as int, q);
            }
            assert forall|p: NodeId, q: NodeId|
                #![trigger s2.edge(p, q)]
                #![trigger s0.edge(p, q)]
                s2.edge(p, q) ==
                    (s0.edge(p, q) && !(p == a && q == b) && !(p == b && q == a)) by {
                if p == a && p == b {
                } else if p == a {
                    assert(s2.edge(a, q) == s1.edge(a, q));
                } else if p == b {
                    assert(s1.edge(b, q) == s0.edge(b, q));
                } else {
                    assert(s2.edge(p, q) == s1.edge(p, q));
                    assert(s1.edge(p, q) == s0.edge(p, q));
                }
            }
            assert(s2.wf()) by {
                assert forall|p: NodeId, q: NodeId| #[trigger] s2.edge(p, q) implies
                    s2.edge(q, p) && s2.contains(p) && s2.contains(q) by {
                    assert(s0.edge(p, q));
                    assert(s0.edge(q, p));
                }
            }
        }
    }

    /// Forgets `x` entirely: the node, its kind, and every edge touching it,
    /// so that no subsequently computed path can pass through `x`. All other
    /// nodes, kinds and edges stay.
    pub fn remove_node(&mut self, x: NodeId)
        requires
            old(self).wf(),
        ensures
            final(self).wf(),
            !final(self).contains(x),
            forall|y: NodeId| y != x ==> #[trigger] final(self).contains(y) == old(self).contains(y),
            forall|y: NodeId| y != x && old(self).contains(y) ==>
                #[trigger] final(self).kind_of(y) == old(self).kind_of(y),
            forall|p: NodeId, q: NodeId|
                #![trigger final(self).edge(p, q)]
                #![trigger old(self).edge(p, q)]
                final(self).edge(p, q) == (old(self).edge(p, q) && p != x && q != x),
    {
        let ix = match self.find_node(x) {
            Some(i) => i,
            None => {
                proof {
                    assert forall|p: NodeId, q: NodeId|
                        #![trigger self.edge(p, q)]
                        #![trigger old(self).edge(p, q)]
                        self.edge(p, q) ==
                            (old(self).edge(p, q) && p != x && q != x) by {
                        if old(self).edge(p, q) && (p == x || q == x) {
                            assert(old(self).edge(q, p));
                            assert(old(self).contains(x));
                        }
                    }
                }
                return;
            }
        };
        self.nodes.remove(ix);
        let ghost s0 = *old(self);
        let ghost s1 = *self;
        proof {
            Self::lemma_remove_entry(s0, s1, ix as int, x);
        }
        let mut i: usize = 0;
        while i < self.nodes.len()
            invariant
                self.nodes@.len() == s1.nodes@.len(),
                i <= self.nodes@.len(),
                forall|j: int| 0 <= j < self.nodes@.len() ==>
                    (#[trigger] self.nodes@[j]).id == s1.nodes@[j].id,
                forall|j: int| 0 <= j < self.nodes@.len() ==>
                    (#[trigger] self.nodes@[j]).kind == s1.nodes@[j].kind,
                forall|j: int| i <= j < self.nodes@.len() ==>
                    (#[trigger] self.nodes@[j]).adj == s1.nodes@[j].adj,
                forall|j: int, y: NodeId| 0 <= j < i ==>
                    ((#[trigger] self.nodes@[j].adj@.contains(y))
                     <==> (s1.nodes@[j].adj@.contains(y) && y != x)),
            decreases self.nodes@.len() - i,
        {
            self.purge_from_adj(i, x);
            i += 1;
        }
        let ghost s2 = *self;
        proof {
            Self::lemma_filter_adj(s1, s2, x);
            assert forall|p: NodeId, q: NodeId|
                #![trigger s2.edge(p, q)]
                #![trigger s0.edge(p, q)]
                s2.edge(p, q) == (s0.edge(p, q) && p != x && q != x) by {
                assert(s2.edge(p, q) == (s1.edge(p, q) && q != x));
                assert(s1.edge(p, q) == (s0.edge(p, q) && p != x));
            }
            assert(!s2.contains(x));
            assert(s2.wf()) by {
                assert forall|p: NodeId, q: NodeId| #[trigger] s2.edge(p, q) implies
                    s2.edge(q, p) && s2.contains(p) && s2.contains(q) by {
                    assert(s0.edge(p, q));
                    assert(s0.edge(q, p));
                    assert(s0.contains(p) && s0.contains(q));
                }
            }
        }
    }
}

} // verus!
