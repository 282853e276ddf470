//! Path Resolver: computes a shortest forwarding path (fewest hops) from the
//! local node to a destination over the current Topology View, by
//! breadth-first search.

use vstd::prelude::*;
use crate::NodeId;
use crate::topology::TopologyView;

verus! {

/// `p` is a hop sequence from `src` to `dst` over the edges of `t`: it
/// starts at `src`, ends at `dst`, and each consecutive pair is an edge.
pub open spec fn is_path(t: TopologyView, src: NodeId, dst: NodeId, p: Seq<NodeId>) -> bool {
    &&& p.len() >= 1
    &&& p[0] == src
    &&& p[p.len() - 1] == dst
    &&& forall|i: int| 0 <= i < p.len() - 1 ==> t.edge(p[i], #[trigger] p[i + 1])
}

/// Law: a purged node carries no traffic. Once `x` is gone from a
/// well-formed view, no hop sequence over that view passes through `x`
/// (other than one starting at `x` itself), so a resolved path never names a
/// removed node again.
pub proof fn lemma_no_path_through_removed(
    t: TopologyView,
    src: NodeId,
    dst: NodeId,
    x: NodeId,
    q: Seq<NodeId>,
)
    requires
        t.wf(),
        !t.contains(x),
        is_path(t, src, dst, q),
        x != src,
    ensures
        !q.contains(x),
{
    if q.contains(x) {
        let i = choose|i: int| 0 <= i < q.len() && q[i] == x;
        assert(i > 0);
        assert(t.edge(q[i - 1], q[(i - 1) + 1]));
        t.lemma_edge_endpoints(q[i - 1], q[i]);
    }
}

/// How many entries of `s` are set.
spec fn count_true(s: Seq<bool>) -> nat
    decreases s.len(),
{
    if s.len() == 0 {
        0
    } else {
        count_true(s.drop_last()) + if s.last() {
            1nat
        } else {
            0nat
        }
    }
}

proof fn lemma_count_true_le(s: Seq<bool>)
    ensures
        count_true(s) <= s.len(),
    decreases s.len(),
{
    if s.len() > 0 {
        lemma_count_true_le(s.drop_last());
    }
}

proof fn lemma_count_true_update(s: Seq<bool>, i: int)
    requires
        0 <= i < s.len(),
        !s[i],
    ensures
        count_true(s.update(i, true)) == count_true(s) + 1,
    decreases s.len(),
{
    let s2 = s.update(i, true);
    if i == s.len() - 1 {
        assert(s2.drop_last() =~= s.drop_last());
    } else {
        assert(s2.drop_last() =~= s.drop_last().update(i, true));
        lemma_count_true_update(s.drop_last(), i);
        assert(s2.last() == s.last());
    }
}

proof fn lemma_count_all_false(s: Seq<bool>)
    requires
        forall|j: int| 0 <= j < s.len() ==> !(#[trigger] s[j]),
    ensures
        count_true(s) == 0,
    decreases s.len(),
{
    if s.len() > 0 {
        lemma_count_all_false(s.drop_last());
    }
}

/// Whether `v` occurs in `q`.
spec fn in_queue(q: Seq<NodeId>, v: NodeId) -> bool {
    exists|k: int| 0 <= k < q.len() && q[k] == v
}

/// The breadth-first state is sound and closed: distances along recorded
/// parents shrink back to `src`, and every edge out of a visited node leads
/// to a visited node at most one hop further.
spec fn bfs_done(t: TopologyView, src: NodeId, visited: Seq<bool>, dist: Seq<usize>, parent: Seq<NodeId>) -> bool {
    &&& visited.len() == 256
    &&& dist.len() == 256
    &&& parent.len() == 256
    &&& visited[src as int]
    &&& dist[src as int] == 0
    &&& forall|u: NodeId, v: NodeId| visited[u as int] && #[trigger] t.edge(u, v) ==>
        visited[v as int] && dist[v as int] <= dist[u as int] + 1
    &&& forall|v: NodeId| #[trigger] visited[v as int] && v != src ==>
        visited[parent[v as int] as int]
        && t.edge(parent[v as int], v)
        && dist[parent[v as int] as int] + 1 == dist[v as int]
}

/// If the visited set is closed under edges (with distances growing by at
/// most one per hop), then the end of any path from `src` is visited, at a
/// distance bounded by the path's hop count.
proof fn lemma_closed_reach(
    t: TopologyView,
    visited: Seq<bool>,
    dist: Seq<usize>,
    src: NodeId,
    dst: NodeId,
    p: Seq<NodeId>,
)
    requires
        visited.len() == 256,
        dist.len() == 256,
        visited[src as int],
        dist[src as int] == 0,
        forall|u: NodeId, v: NodeId| visited[u as int] && #[trigger] t.edge(u, v) ==>
            visited[v as int] && dist[v as int] <= dist[u as int] + 1,
        is_path(t, src, dst, p),
    ensures
        visited[dst as int],
        dist[dst as int] <= p.len() - 1,
    decreases p.len(),
{
    if p.len() == 1 {
        assert(dst == src);
    } else {
        let q = p.drop_last();
        let prev = p[p.len() - 2];
        assert(is_path(t, src, prev, q)) by {
            assert(q[q.len() - 1] == prev);
            assert forall|i: int| 0 <= i < q.len() - 1 implies t.edge(q[i], #[trigger] q[i + 1]) by {
                assert(p[i] == q[i] && p[i + 1] == q[i + 1]);
                assert(t.edge(p[i], p[i + 1]));
            }
        }
        lemma_closed_reach(t, visited, dist, src, prev, q);
        let i = p.len() - 2;
        assert(t.edge(p[i], p[i + 1]));
    }
}

impl TopologyView {
    /// Breadth-first search from `src`: marks every node reachable from
    /// `src`, with its hop distance and the hop it was reached from.
    #[verifier::rlimit(100)]
    fn bfs(&self, src: NodeId) -> (r: (Vec<bool>, Vec<usize>, Vec<NodeId>))
        requires
            self.wf(),
        ensures
            bfs_done(*self, src, r.0@, r.1@, r.2@),
    {
        let mut visited: Vec<bool> = Vec::new();
        let mut dist: Vec<usize> = Vec::new();
        let mut parent: Vec<NodeId> = Vec::new();
        let mut n: usize = 0;
        while n < 256
            invariant
                visited@.len() == n,
                dist@.len() == n,
                parent@.len() == n,
                n <= 256,
                forall|j: int| 0 <= j < n ==> !(#[trigger] visited@[j]),
                forall|j: int| 0 <= j < n ==> (#[trigger] dist@[j]) == 0,
            decreases 256 - n,
        {
            visited.push(false);
            dist.push(0);
            parent.push(0);
            n += 1;
        }
        proof {
            assert(count_true(visited@) == 0) by {
                lemma_count_all_false(visited@);
            }
        }
        let mut queue: Vec<NodeId> = Vec::new();
        visited[src as usize] = true;
        queue.push(src);
        proof {
            lemma_count_true_update(Seq::new(256, |j: int| false), src as int);
            assert(Seq::new(256, |j: int| false) =~= visited@.update(src as int, false));
            assert(visited@ =~= Seq::new(256, |j: int| false).update(src as int, true));
            lemma_count_true_le(visited@);
            assert(queue@[0] == src);
            assert(in_queue(queue@, src));
        }
        let mut qh: usize = 0;
        while qh < queue.len()
            invariant
                self.wf(),
                visited@.len() == 256,
                dist@.len() == 256,
                parent@.len() == 256,
                qh <= queue@.len(),
                visited@[src as int],
                dist@[src as int] == 0,
                count_true(visited@) <= 256,
                forall|k: int| 0 <= k < queue@.len() ==> visited@[(#[trigger] queue@[k]) as int],
                forall|v: NodeId| #[trigger] visited@[v as int] ==> in_queue(queue@, v),
                forall|k1: int, k2: int| 0 <= k1 <= k2 < queue@.len() ==>
                    dist@[(#[trigger] queue@[k1]) as int] <= dist@[(#[trigger] queue@[k2]) as int],
                qh < queue@.len() ==>
                    dist@[queue@[queue@.len() - 1] as int] <= dist@[queue@[qh as int] as int] + 1,
                forall|k: int, v: NodeId| 0 <= k < qh && #[trigger] self.edge(queue@[k], v) ==>
                    visited@[v as int] && dist@[v as int] <= dist@[queue@[k] as int] + 1,
                forall|v: NodeId| #[trigger] visited@[v as int] ==>
                    dist@[v as int] + 1 <= count_true(visited@),
                forall|v: NodeId| #[trigger] visited@[v as int] && v != src ==>
                    visited@[parent@[v as int] as int]
                    && self.edge(parent@[v as int], v)
                    && dist@[parent@[v as int] as int] + 1 == dist@[v as int],
            decreases 256 - count_true(visited@), queue@.len() - qh,
        {
            let u = queue[qh];
            let nbrs = self.neighbors(u);
            let du = dist[u as usize];
            let ghost c0 = count_true(visited@);
            let ghost q0 = queue@;
            let mut w: usize = 0;
            while w < nbrs.len()
                invariant
                    self.wf(),
                    c0 <= count_true(visited@),
                    count_true(visited@) == c0 ==> queue@ == q0,
                    qh < queue@.len(),
                    u == queue@[qh as int],
                    du == dist@[u as int],
                    w <= nbrs@.len(),
                    forall|j: int| 0 <= j < nbrs@.len() ==> self.edge(u, #[trigger] nbrs@[j]),
                    qh <= queue@.len(),
                    visited@.len() == 256,
                    dist@.len() == 256,
                    parent@.len() == 256,
                    visited@[src as int],
                    dist@[src as int] == 0,
                    count_true(visited@) <= 256,
                    forall|k: int| 0 <= k < queue@.len() ==>
                        visited@[(#[trigger] queue@[k]) as int],
                    forall|v: NodeId| #[trigger] visited@[v as int] ==> in_queue(queue@, v),
                    forall|k1: int, k2: int| 0 <= k1 <= k2 < queue@.len() ==>
                        dist@[(#[trigger] queue@[k1]) as int]
                        <= dist@[(#[trigger] queue@[k2]) as int],
                    dist@[queue@[queue@.len() - 1] as int] <= du + 1,
                    forall|k: int, v: NodeId| 0 <= k < qh && #[trigger] self.edge(queue@[k], v) ==>
                        visited@[v as int] && dist@[v as int] <= dist@[queue@[k] as int] + 1,
                    forall|v: NodeId| #[trigger] visited@[v as int] ==>
                        dist@[v as int] + 1 <= count_true(visited@),
                    forall|v: NodeId| #[trigger] visited@[v as int] && v != src ==>
                        visited@[parent@[v as int] as int]
                        && self.edge(parent@[v as int], v)
                        && dist@[parent@[v as int] as int] + 1 == dist@[v as int],
                    forall|j: int| 0 <= j < w ==>
                        visited@[(#[trigger] nbrs@[j]) as int]
                        && dist@[nbrs@[j] as int] <= du + 1,
                decreases nbrs@.len() - w,
            {
                let v = nbrs[w];
                assert(self.edge(u, v));
                if !visited[v as usize] {
                    let ghost pre_visited = visited@;
                    let ghost pre_queue = queue@;
                    visited[v as usize] = true;
                    dist[v as usize] = du + 1;
                    parent[v as usize] = u;
                    queue.push(v);
                    proof {
                        lemma_count_true_update(pre_visited, v as int);
                        lemma_count_true_le(visited@);
                        assert forall|x: NodeId| #[trigger] visited@[x as int] implies
                            in_queue(queue@, x) by {
                            if x == v {
                                assert(queue@[queue@.len() - 1] == v);
                            } else {
                                assert(pre_visited[x as int]);
                                let k = choose|k: int| 0 <= k < pre_queue.len()
                                    && pre_queue[k] == x;
                                assert(queue@[k] == x);
                            }
                        }
                    }
                }
                w += 1;
            }
            proof {
                assert forall|k: int, v: NodeId| 0 <= k < qh + 1
                    && #[trigger] self.edge(queue@[k], v) implies
                    visited@[v as int] && dist@[v as int] <= dist@[queue@[k] as int] + 1 by {
                    if k == qh {
                        assert(nbrs@.contains(v));
                        let j = choose|j: int| 0 <= j < nbrs@.len() && nbrs@[j] == v;
                        assert(visited@[(nbrs@[j]) as int] && dist@[nbrs@[j] as int] <= du + 1);
                    }
                }
            }
            qh += 1;
        }
        proof {
            assert forall|u: NodeId, v: NodeId| visited@[u as int]
                && #[trigger] self.edge(u, v) implies
                visited@[v as int] && dist@[v as int] <= dist@[u as int] + 1 by {
                let k = choose|k: int| 0 <= k < queue@.len() && queue@[k] == u;
                assert(self.edge(queue@[k], v));
            }
        }
        (visited, dist, parent)
    }

    /// Rebuilds the hop sequence from `src` to `dst` out of the parents that
    /// breadth-first search recorded. The result has exactly `dist[dst]`
    /// hops.
    #[verifier::loop_isolation(false)]
    fn build_path(&self, visited: &Vec<bool>, dist: &Vec<usize>, parent: &Vec<NodeId>, src: NodeId, dst: NodeId) -> (r: Vec<NodeId>)
        requires
            bfs_done(*self, src, visited@, dist@, parent@),
            visited@[dst as int],
        ensures
            is_path(*self, src, dst, r@),
            r@.len() == dist@[dst as int] + 1,
    {
        let mut rev: Vec<NodeId> = Vec::new();
        rev.push(dst);
        let mut cur = dst;
        while cur != src
            invariant
                rev@.len() >= 1,
                rev@[0] == dst,
                rev@[rev@.len() - 1] == cur,
                visited@[cur as int],
                forall|k: int| 0 <= k < rev@.len() ==>
                    visited@[(#[trigger] rev@[k]) as int]
                    && dist@[rev@[k] as int] + k == dist@[dst as int],
                forall|k: int| 0 <= k < rev@.len() - 1 ==>
                    self.edge(rev@[k + 1], #[trigger] rev@[k]),
            decreases dist@[cur as int],
        {
            let nxt = parent[cur as usize];
            proof {
                assert(visited@[cur as int] && cur != src);
            }
            rev.push(nxt);
            cur = nxt;
        }
        let mut path: Vec<NodeId> = Vec::new();
        let mut k2: usize = rev.len();
        while k2 > 0
            invariant
                k2 <= rev@.len(),
                path@.len() == rev@.len() - k2,
                forall|i: int| 0 <= i < path@.len() ==>
                    (#[trigger] path@[i]) == rev@[rev@.len() - 1 - i],
            decreases k2,
        {
            k2 -= 1;
            path.push(rev[k2]);
        }
        proof {
            let p = path@;
            let l = rev@.len() as int;
            assert(p.len() == l);
            assert(p[0] == rev@[l - 1] && rev@[l - 1] == src);
            assert(p[p.len() - 1] == rev@[0]);
            assert forall|i: int| 0 <= i < p.len() - 1 implies
                self.edge(p[i], #[trigger] p[i + 1]) by {
                assert(p[i] == rev@[l - 1 - i]);
                assert(p[i + 1] == rev@[l - 2 - i]);
                assert(self.edge(rev@[(l - 2 - i) + 1], rev@[l - 2 - i]));
            }
            assert(is_path(*self, src, dst, p));
            assert(dist@[src as int] + (l - 1) == dist@[dst as int]);
        }
        path
    }

    /// Computes a forwarding path from `src` to `dst` over the current view:
    /// a shortest hop sequence (fewest hops) when `dst` is reachable, and
    /// nothing when it is not, signaling the caller to trigger discovery.
    pub fn resolve(&self, src: NodeId, dst: NodeId) -> (r: Option<Vec<NodeId>>)
        requires
            self.wf(),
        ensures
            match r {
                Some(p) => {
                    &&& is_path(*self, src, dst, p@)
                    &&& forall|q: Seq<NodeId>| is_path(*self, src, dst, q) ==> p@.len() <= q.len()
                },
                None => forall|q: Seq<NodeId>| !is_path(*self, src, dst, q),
            },
    {
        let (visited, dist, parent) = self.bfs(src);
        if !visited[dst as usize] {
            proof {
                assert forall|q: Seq<NodeId>| !is_path(*self, src, dst, q) by {
                    if is_path(*self, src, dst, q) {
                        lemma_closed_reach(*self, visited@, dist@, src, dst, q);
                    }
                }
            }
            return None;
        }
        let path = self.build_path(&visited, &dist, &parent, src, dst);
        proof {
            assert forall|q: Seq<NodeId>| is_path(*self, src, dst, q) implies
                path@.len() <= q.len() by {
                lemma_closed_reach(*self, visited@, dist@, src, dst, q);
            }
        }
        Some(path)
    }
}

} // verus!
