//! Delivery Engine: owns the link set, the Topology View, the fragment
//! assembler and the pending-acknowledgment bookkeeping; exposes the send
//! and receive entry points and the acknowledgment / negative-acknowledgment
//! recovery state machine.
//!
//! The engine is a pure state machine: outbound packets are queued on an
//! outbox of (first hop, packet) pairs and upward notifications on an event
//! queue; the surrounding reactor drains both and performs the actual I/O.

use vstd::prelude::*;
use crate::NodeId;
use crate::fragment::{
    accept_drops, all_filled, assembled, chunk_count, chunk_of, copy_bytes, fragment,
    prior_slots, Fragment, FragmentAssembler,
};
use crate::packet::{NackCause, Packet, PacketKind, RoutingHeader};
use crate::resolve::is_path;
use crate::topology::{NodeKind, TopologyView};

verus! {

/// A fragment in flight: enough to retransmit it if a negative
/// acknowledgment names it.
pub struct PendingFragment {
    pub session: u64,
    pub dest: NodeId,
    pub frag: Fragment,
    pub path: Vec<NodeId>,
}

/// Upward notifications for the application layer.
pub enum EngineEvent {
    /// A whole message finished reassembling.
    Delivered { origin: NodeId, session: u64, payload: Vec<u8> },
    /// A trace response of the named discovery round was folded in.
    DiscoveryComplete { flood_id: u64 },
    /// A node was purged from the Topology View after a failure.
    NodeRemoved { id: NodeId },
}

/// A retryable send failure: no usable path to the destination is known.
/// The caller retries once a discovery round has refreshed the view.
#[derive(Debug, Clone, Copy, PartialEq, Eq, Structural)]
pub enum SendError {
    PathNotFound,
}

/// The packet is a discovery probe with the given round and trace.
pub open spec fn is_flood_request(
    p: Packet,
    fid: u64,
    init: NodeId,
    trace: Seq<(NodeId, NodeKind)>,
) -> bool {
    match p.kind {
        PacketKind::FloodRequest { flood_id, initiator, trace: t } =>
            flood_id == fid && initiator == init && t@ == trace,
        _ => false,
    }
}

/// The packet is a trace response with the given round and trace.
pub open spec fn is_flood_response(
    p: Packet,
    fid: u64,
    init: NodeId,
    trace: Seq<(NodeId, NodeKind)>,
) -> bool {
    match p.kind {
        PacketKind::FloodResponse { flood_id, initiator, trace: t } =>
            flood_id == fid && initiator == init && t@ == trace,
        _ => false,
    }
}

/// The packet carries fragment `idx` of a message of `total` fragments in
/// session `s`, stamped with the hop list `hops` and the cursor past the
/// sender.
pub open spec fn is_msg_fragment(
    p: Packet,
    s: u64,
    hops: Seq<NodeId>,
    idx: int,
    total: int,
    data: Seq<u8>,
) -> bool {
    &&& p.session == s
    &&& p.header.hops@ == hops
    &&& p.header.cursor == 1
    &&& match p.kind {
        PacketKind::MsgFragment(f) => f.index == idx && f.total == total && f.data@ == data,
        _ => false,
    }
}

/// After a successful send, the queues grew by one entry per chunk: packet
/// `j` carries fragment `j` of the payload toward the first hop of the path
/// recorded with the first pending entry — a shortest path from the sender
/// to `dest` — and the matching fragment is recorded as awaiting
/// acknowledgment.
pub open spec fn send_recorded(
    pre: RoutingHandler,
    post: RoutingHandler,
    payload: Seq<u8>,
    dest: NodeId,
    s: u64,
) -> bool {
    let n = chunk_count(payload.len()) as int;
    let p = post.pend()[pre.pend().len() as int].path@;
    &&& is_path(pre.topo(), pre.node_id(), dest, p)
    &&& p.len() >= 2
    &&& (forall|q: Seq<NodeId>| is_path(pre.topo(), pre.node_id(), dest, q) ==> p.len() <= q.len())
    &&& forall|j: int| 0 <= j < n ==> {
        let e = #[trigger] post.outq()[pre.outq().len() + j];
        e.0 == p[1] && is_msg_fragment(e.1, s, p, j, n, chunk_of(payload, j))
    }
    &&& forall|j: int| 0 <= j < n ==> {
        let w = #[trigger] post.pend()[pre.pend().len() + j];
        &&& w.session == s
        &&& w.dest == dest
        &&& w.path@ == p
        &&& w.frag.index == j
        &&& w.frag.total == n
        &&& w.frag.data@ == chunk_of(payload, j)
    }
}

/// Whether some pending fragment carries the (session, fragment index) key.
pub open spec fn pend_has_key(s: Seq<PendingFragment>, session: u64, index: u64) -> bool {
    exists|j: int| 0 <= j < s.len()
        && (#[trigger] s[j]).session == session && s[j].frag.index == index
}

/// `s` with every fragment of the (session, fragment index) key removed,
/// order kept.
pub open spec fn without_key(s: Seq<PendingFragment>, session: u64, index: u64)
    -> Seq<PendingFragment>
    decreases s.len(),
{
    if s.len() == 0 {
        Seq::<PendingFragment>::empty()
    } else {
        let rest = without_key(s.drop_last(), session, index);
        if s.last().session == session && s.last().frag.index == index {
            rest
        } else {
            rest.push(s.last())
        }
    }
}

/// The first pending fragment of the (session, fragment index) key
/// (meaningful when `pend_has_key`).
pub open spec fn first_key(s: Seq<PendingFragment>, session: u64, index: u64) -> PendingFragment
    decreases s.len(),
{
    if s.len() == 0 {
        arbitrary()
    } else if s.first().session == session && s.first().frag.index == index {
        s.first()
    } else {
        first_key(s.drop_first(), session, index)
    }
}

/// Law: acknowledging a key removes every pending fragment of that key and
/// no other; a key nothing pends under (a late or unknown acknowledgment)
/// leaves the pending set exactly as it was.
pub proof fn lemma_without_key(s: Seq<PendingFragment>, session: u64, index: u64)
    ensures
        forall|j: int| 0 <= j < without_key(s, session, index).len() ==>
            !((#[trigger] without_key(s, session, index)[j]).session == session
              && without_key(s, session, index)[j].frag.index == index),
        !pend_has_key(s, session, index) ==> without_key(s, session, index) == s,
    decreases s.len(),
{
    if s.len() > 0 {
        lemma_without_key(s.drop_last(), session, index);
        let rest = without_key(s.drop_last(), session, index);
        assert forall|j: int| 0 <= j < without_key(s, session, index).len() implies
            !((#[trigger] without_key(s, session, index)[j]).session == session
              && without_key(s, session, index)[j].frag.index == index) by {
            if j < rest.len() {
                assert(without_key(s, session, index)[j] == rest[j]);
            } else {
                assert(without_key(s, session, index)[j] == s.last());
            }
        }
        if !pend_has_key(s, session, index) {
            assert(!pend_has_key(s.drop_last(), session, index)) by {
                if pend_has_key(s.drop_last(), session, index) {
                    let j = choose|j: int| 0 <= j < s.drop_last().len()
                        && (#[trigger] s.drop_last()[j]).session == session
                        && s.drop_last()[j].frag.index == index;
                    assert(s[j].session == session && s[j].frag.index == index);
                }
            }
            let l = s.len() - 1;
            assert(!(s[l].session == session && s[l].frag.index == index));
            assert(without_key(s, session, index) =~= s);
        }
    }
}

proof fn lemma_has_key_front(s: Seq<PendingFragment>, session: u64, index: u64)
    requires
        s.len() > 0,
    ensures
        pend_has_key(s, session, index) == (
            (s.first().session == session && s.first().frag.index == index)
            || pend_has_key(s.drop_first(), session, index)),
{
    if pend_has_key(s, session, index) {
        let j = choose|j: int| 0 <= j < s.len()
            && (#[trigger] s[j]).session == session && s[j].frag.index == index;
        if j > 0 {
            assert(s.drop_first()[j - 1] == s[j]);
        }
    }
    if pend_has_key(s.drop_first(), session, index) {
        let j = choose|j: int| 0 <= j < s.drop_first().len()
            && (#[trigger] s.drop_first()[j]).session == session
            && s.drop_first()[j].frag.index == index;
        assert(s[j + 1] == s.drop_first()[j]);
    }
}

proof fn lemma_first_key_push(s: Seq<PendingFragment>, x: PendingFragment, session: u64, index: u64)
    ensures
        pend_has_key(s, session, index) ==>
            first_key(s.push(x), session, index) == first_key(s, session, index),
        (!pend_has_key(s, session, index) && x.session == session && x.frag.index == index) ==>
            first_key(s.push(x), session, index) == x,
        (!pend_has_key(s, session, index)
            && !(x.session == session && x.frag.index == index)) ==>
            !pend_has_key(s.push(x), session, index),
    decreases s.len(),
{
    if s.len() == 0 {
        assert(s.push(x).first() == x);
        assert(s.push(x).drop_first() =~= Seq::<PendingFragment>::empty());
        if !(x.session == session && x.frag.index == index) {
            assert forall|j: int| 0 <= j < s.push(x).len() implies
                !((#[trigger] s.push(x)[j]).session == session
                  && s.push(x)[j].frag.index == index) by {}
        }
    } else {
        assert(s.push(x).first() == s.first());
        assert(s.push(x).drop_first() =~= s.drop_first().push(x));
        lemma_first_key_push(s.drop_first(), x, session, index);
        lemma_has_key_front(s, session, index);
        lemma_has_key_front(s.push(x), session, index);
    }
}

/// The view still offers a route from `me` to `dest`.
pub open spec fn resendable(t: TopologyView, me: NodeId, dest: NodeId) -> bool {
    dest != me && exists|q: Seq<NodeId>| is_path(t, me, dest, q)
}

/// Exactly one retransmission of the fragment `e` carries: the pending set
/// and the outbox each grew by one entry; the packet re-carries `e`'s
/// fragment along a shortest path of `t`, and the fragment pends again under
/// its key.
pub open spec fn resent_one(
    pre_pend: Seq<PendingFragment>,
    pre_out: Seq<(NodeId, Packet)>,
    post: RoutingHandler,
    t: TopologyView,
    me: NodeId,
    e: PendingFragment,
) -> bool {
    let w = post.pend().last();
    let o = post.outq().last();
    &&& post.pend().len() == pre_pend.len() + 1
    &&& post.pend().subrange(0, pre_pend.len() as int) == pre_pend
    &&& post.outq().len() == pre_out.len() + 1
    &&& post.outq().subrange(0, pre_out.len() as int) == pre_out
    &&& w.session == e.session
    &&& w.dest == e.dest
    &&& w.frag.index == e.frag.index
    &&& w.frag.total == e.frag.total
    &&& w.frag.data@ == e.frag.data@
    &&& is_path(t, me, e.dest, w.path@)
    &&& w.path@.len() >= 2
    &&& (forall|q: Seq<NodeId>| is_path(t, me, e.dest, q) ==> w.path@.len() <= q.len())
    &&& o.0 == w.path@[1]
    &&& is_msg_fragment(
        o.1, e.session, w.path@, e.frag.index as int, e.frag.total as int, e.frag.data@)
}

/// The packets appended past `pre_len` are all discovery probes.
pub open spec fn appended_only_probes(post: RoutingHandler, pre_len: int) -> bool {
    forall|t: int| pre_len <= t < post.outq().len() ==>
        (#[trigger] post.outq()[t]).1.kind matches PacketKind::FloodRequest { .. }
}

/// The fragment's header can be answered: it holds at least the origin and
/// this node, and names this node as its final hop.
pub open spec fn fragment_wellformed(header: RoutingHeader, node: RoutingHandler) -> bool {
    header.hops@.len() >= 2 && header.hops@.last() == node.node_id()
}

/// `entry` is an acknowledgment of the fragment, routed back along the
/// reversed hop list toward the hop the fragment came from.
pub open spec fn acked_back(
    entry: (NodeId, Packet),
    header: RoutingHeader,
    session: u64,
    index: u64,
) -> bool {
    let n = header.hops@.len();
    &&& entry.0 == header.hops@[n - 2]
    &&& entry.1.session == session
    &&& entry.1.header.hops@.len() == n
    &&& (forall|t: int| 0 <= t < n ==>
        (#[trigger] entry.1.header.hops@[t]) == header.hops@[n - 1 - t])
    &&& entry.1.header.cursor == 1
    &&& (entry.1.kind matches PacketKind::Ack { index: i } && i == index)
}

/// The neighbors a probe is forwarded to: every current neighbor except the
/// hop it arrived from, in link order.
pub open spec fn forward_targets(nbrs: Seq<NodeId>, from: NodeId) -> Seq<NodeId>
    decreases nbrs.len(),
{
    if nbrs.len() == 0 {
        Seq::<NodeId>::empty()
    } else {
        let rest = forward_targets(nbrs.drop_last(), from);
        if nbrs.last() == from {
            rest
        } else {
            rest.push(nbrs.last())
        }
    }
}

/// Law: loop avoidance. Handling a probe extends its trace by exactly the
/// handling node, so a trace that does not yet list that node and repeats no
/// node still repeats none after the extension; with every relay dropping
/// rounds it has already recorded, no probe of a round crosses a node twice.
pub proof fn lemma_trace_stays_simple(
    trace: Seq<(NodeId, NodeKind)>,
    me: NodeId,
    kind: NodeKind,
)
    requires
        forall|i: int, j: int| 0 <= i < j < trace.len() ==>
            (#[trigger] trace[i]).0 != (#[trigger] trace[j]).0,
        forall|i: int| 0 <= i < trace.len() ==> (#[trigger] trace[i]).0 != me,
    ensures
        forall|i: int, j: int| 0 <= i < j < trace.push((me, kind)).len() ==>
            (#[trigger] trace.push((me, kind))[i]).0 != (#[trigger] trace.push((me, kind))[j]).0,
{
    let ext = trace.push((me, kind));
    assert forall|i: int, j: int| 0 <= i < j < ext.len() implies
        (#[trigger] ext[i]).0 != (#[trigger] ext[j]).0 by {
        if j == trace.len() {
            assert(ext[i] == trace[i]);
        } else {
            assert(ext[i] == trace[i] && ext[j] == trace[j]);
        }
    }
}

proof fn lemma_forward_targets_prefix(nbrs: Seq<NodeId>, from: NodeId, k: int, t: int)
    requires
        0 <= k <= nbrs.len(),
        0 <= t < forward_targets(nbrs.take(k), from).len(),
    ensures
        forward_targets(nbrs.take(k), from).len() <= forward_targets(nbrs, from).len(),
        forward_targets(nbrs.take(k), from)[t] == forward_targets(nbrs, from)[t],
    decreases nbrs.len() - k,
{
    if k == nbrs.len() {
        assert(nbrs.take(k) =~= nbrs);
    } else {
        assert(nbrs.take(k + 1).drop_last() =~= nbrs.take(k));
        assert(nbrs.take(k + 1).last() == nbrs[k]);
        lemma_forward_targets_prefix(nbrs, from, k + 1, t);
    }
}

/// The routing-and-delivery engine of one node.
pub struct RoutingHandler {
    id: NodeId,
    kind: NodeKind,
    neighbors: Vec<NodeId>,
    topology: TopologyView,
    flood_seen: Vec<(NodeId, u64)>,
    next_flood_id: u64,
    next_session: u64,
    pending: Vec<PendingFragment>,
    waiting: Vec<PendingFragment>,
    outbox: Vec<(NodeId, Packet)>,
    events: Vec<EngineEvent>,
    assembler: FragmentAssembler,
}

impl RoutingHandler {
    /// This node's identifier.
    pub closed spec fn node_id(self) -> NodeId {
        self.id
    }

    /// This node's kind.
    pub closed spec fn node_kind(self) -> NodeKind {
        self.kind
    }

    /// The current link set: identifiers of direct neighbors.
    pub closed spec fn nbrs(self) -> Seq<NodeId> {
        self.neighbors@
    }

    /// The current Topology View.
    pub closed spec fn topo(self) -> TopologyView {
        self.topology
    }

    /// The discovery rounds already seen, as (initiator, flood id) keys.
    pub closed spec fn seen(self) -> Seq<(NodeId, u64)> {
        self.flood_seen@
    }

    /// The next flood identifier this node will use.
    pub closed spec fn fidctr(self) -> u64 {
        self.next_flood_id
    }

    /// The next session identifier this node will allocate.
    pub closed spec fn sessctr(self) -> u64 {
        self.next_session
    }

    /// Fragments awaiting acknowledgment.
    pub closed spec fn pend(self) -> Seq<PendingFragment> {
        self.pending@
    }

    /// Fragments awaiting a fresh route before they can be retransmitted.
    pub closed spec fn waitq(self) -> Seq<PendingFragment> {
        self.waiting@
    }

    /// Queued outbound packets, each with the neighbor to hand it to.
    pub closed spec fn outq(self) -> Seq<(NodeId, Packet)> {
        self.outbox@
    }

    /// Queued upward events.
    pub closed spec fn evq(self) -> Seq<EngineEvent> {
        self.events@
    }

    /// The reassembly state.
    pub closed spec fn reasm(self) -> FragmentAssembler {
        self.assembler
    }

    /// The engine's invariant: its graph and its reassembly state are
    /// well-formed.
    pub open spec fn wf(self) -> bool {
        &&& self.topo().wf()
        &&& self.reasm().wf()
    }

    /// A fresh engine: empty link set, empty view, nothing queued.
    pub fn new(id: NodeId, kind: NodeKind) -> (r: Self)
        ensures
            r.wf(),
            r.node_id() == id,
            r.node_kind() == kind,
            r.nbrs() == Seq::<NodeId>::empty(),
            forall|x: NodeId| !(#[trigger] r.topo().contains(x)),
            forall|a: NodeId, b: NodeId| !(#[trigger] r.topo().edge(a, b)),
            r.seen() == Seq::<(NodeId, u64)>::empty(),
            r.pend() == Seq::<PendingFragment>::empty(),
            r.waitq() == Seq::<PendingFragment>::empty(),
            r.outq() == Seq::<(NodeId, Packet)>::empty(),
            r.evq() == Seq::<EngineEvent>::empty(),
            forall|s: u64, o: NodeId| !(#[trigger] r.reasm().has_buffer(s, o)),
    {
        RoutingHandler {
            id,
            kind,
            neighbors: Vec::new(),
            topology: TopologyView::new(),
            flood_seen: Vec::new(),
            next_flood_id: 0,
            next_session: 0,
            pending: Vec::new(),
            waiting: Vec::new(),
            outbox: Vec::new(),
            events: Vec::new(),
            assembler: FragmentAssembler::new(),
        }
    }

    /// Adds a direct link to `n` (the sending endpoint lives with the
    /// reactor). Nothing else changes.
    pub fn add_neighbor(&mut self, n: NodeId)
        requires
            old(self).wf(),
        ensures
            final(self).wf(),
            final(self).nbrs() == old(self).nbrs().push(n),
            final(self).node_id() == old(self).node_id(),
            final(self).node_kind() == old(self).node_kind(),
            final(self).topo() == old(self).topo(),
            final(self).seen() == old(self).seen(),
            final(self).fidctr() == old(self).fidctr(),
            final(self).sessctr() == old(self).sessctr(),
            final(self).pend() == old(self).pend(),
            final(self).waitq() == old(self).waitq(),
            final(self).outq() == old(self).outq(),
            final(self).evq() == old(self).evq(),
            final(self).reasm() == old(self).reasm(),
    {
        self.neighbors.push(n);
    }

    /// Drops the link to `n` and purges `n` from the Topology View, so that
    /// no path computed afterwards passes through it; queues a node-removed
    /// event. The next send toward a destination routed through `n` finds no
    /// path and triggers rediscovery.
    pub fn remove_neighbor(&mut self, n: NodeId)
        requires
            old(self).wf(),
        ensures
            final(self).wf(),
            forall|y: NodeId| !(#[trigger] final(self).nbrs().contains(y)) ||
                (old(self).nbrs().contains(y) && y != n),
            forall|y: NodeId| old(self).nbrs().contains(y) && y != n ==>
                (#[trigger] final(self).nbrs().contains(y)),
            !final(self).topo().contains(n),
            forall|y: NodeId| y != n ==>
                #[trigger] final(self).topo().contains(y) == old(self).topo().contains(y),
            forall|p: NodeId, q: NodeId|
                #![trigger final(self).topo().edge(p, q)]
                #![trigger old(self).topo().edge(p, q)]
                final(self).topo().edge(p, q) ==
                    (old(self).topo().edge(p, q) && p != n && q != n),
            final(self).node_id() == old(self).node_id(),
            final(self).node_kind() == old(self).node_kind(),
            final(self).pend() == old(self).pend(),
            final(self).waitq() == old(self).waitq(),
            final(self).outq() == old(self).outq(),
            final(self).evq() == old(self).evq().push(EngineEvent::NodeRemoved { id: n }),
            final(self).reasm() == old(self).reasm(),
    {
        let mut kept: Vec<NodeId> = Vec::new();
        let mut i: usize = 0;
        while i < self.neighbors.len()
            invariant
                i <= self.neighbors@.len(),
                self.neighbors@ == old(self).neighbors@,
                forall|t: int| 0 <= t < kept@.len() ==> (#[trigger] kept@[t]) != n
                    && old(self).neighbors@.contains(kept@[t]),
                forall|t: int| 0 <= t < i && old(self).neighbors@[t] != n ==>
                    kept@.contains(#[trigger] old(self).neighbors@[t]),
            decreases self.neighbors@.len() - i,
        {
            let v = self.neighbors[i];
            let ghost pre = kept@;
            if v != n {
                kept.push(v);
            }
            proof {
                assert forall|t: int| 0 <= t < i + 1 && old(self).neighbors@[t] != n implies
                    kept@.contains(#[trigger] old(self).neighbors@[t]) by {
                    if t < i {
                        let w = choose|u: int| 0 <= u < pre.len()
                            && pre[u] == old(self).neighbors@[t];
                        assert(kept@[w] == old(self).neighbors@[t]);
                    } else {
                        assert(kept@[pre.len() as int] == v);
                    }
                }
                assert forall|t: int| 0 <= t < kept@.len() implies (#[trigger] kept@[t]) != n
                    && old(self).neighbors@.contains(kept@[t]) by {
                    if t < pre.len() {
                        assert(kept@[t] == pre[t]);
                    } else {
                        assert(kept@[t] == v && old(self).neighbors@[i as int] == v);
                    }
                }
            }
            i += 1;
        }
        self.neighbors = kept;
        self.topology.remove_node(n);
        self.events.push(EngineEvent::NodeRemoved { id: n });
        proof {
            assert forall|y: NodeId| !(#[trigger] self.nbrs().contains(y)) ||
                (old(self).nbrs().contains(y) && y != n) by {
                if self.nbrs().contains(y) {
                    let w = choose|t: int| 0 <= t < self.neighbors@.len()
                        && self.neighbors@[t] == y;
                    assert(self.neighbors@[w] != n);
                }
            }
            assert forall|y: NodeId| old(self).nbrs().contains(y) && y != n implies
                (#[trigger] self.nbrs().contains(y)) by {
                let w = choose|t: int| 0 <= t < old(self).neighbors@.len()
                    && old(self).neighbors@[t] == y;
                assert(self.neighbors@.contains(old(self).neighbors@[w]));
            }
        }
    }

    /// Starts a new discovery round: allocates the next flood identifier,
    /// records the round as already seen (so a probe looping back is
    /// dropped), and queues one probe per neighbor, each carrying the trace
    /// that holds this node alone.
    pub fn start_discovery(&mut self) -> (fid: u64)
        requires
            old(self).wf(),
        ensures
            final(self).wf(),
            fid == old(self).fidctr(),
            final(self).fidctr() == if old(self).fidctr() < u64::MAX {
                (old(self).fidctr() + 1) as u64
            } else {
                old(self).fidctr()
            },
            final(self).seen() == old(self).seen().push((old(self).node_id(), fid)),
            final(self).outq().len() == old(self).outq().len() + old(self).nbrs().len(),
            final(self).outq().subrange(0, old(self).outq().len() as int) == old(self).outq(),
            forall|j: int| 0 <= j < old(self).nbrs().len() ==> {
                let e = #[trigger] final(self).outq()[old(self).outq().len() + j];
                e.0 == old(self).nbrs()[j]
                && is_flood_request(e.1, fid, old(self).node_id(),
                       seq![(old(self).node_id(), old(self).node_kind())])
            },
            final(self).node_id() == old(self).node_id(),
            final(self).node_kind() == old(self).node_kind(),
            final(self).nbrs() == old(self).nbrs(),
            final(self).topo() == old(self).topo(),
            final(self).sessctr() == old(self).sessctr(),
            final(self).pend() == old(self).pend(),
            final(self).waitq() == old(self).waitq(),
            final(self).evq() == old(self).evq(),
            final(self).reasm() == old(self).reasm(),
    {
        let fid = self.next_flood_id;
        if self.next_flood_id < u64::MAX {
            self.next_flood_id = self.next_flood_id + 1;
        }
        self.flood_seen.push((self.id, fid));
        let mut j: usize = 0;
        while j < self.neighbors.len()
            invariant
                j <= self.neighbors@.len(),
                self.id == old(self).id,
                self.kind == old(self).kind,
                self.neighbors@ == old(self).neighbors@,
                self.topology == old(self).topology,
                self.flood_seen@ == old(self).flood_seen@.push((old(self).id, fid)),
                self.next_flood_id == if old(self).next_flood_id < u64::MAX {
                    (old(self).next_flood_id + 1) as u64
                } else {
                    old(self).next_flood_id
                },
                self.next_session == old(self).next_session,
                self.pending@ == old(self).pending@,
                self.waiting@ == old(self).waiting@,
                self.events@ == old(self).events@,
                self.assembler == old(self).assembler,
                old(self).wf(),
                self.outbox@.len() == old(self).outbox@.len() + j,
                self.outbox@.subrange(0, old(self).outbox@.len() as int) == old(self).outbox@,
                forall|t: int| 0 <= t < j ==> {
                    let e = #[trigger] self.outbox@[old(self).outbox@.len() + t];
                    e.0 == old(self).neighbors@[t]
                    && is_flood_request(e.1, fid, old(self).id,
                           seq![(old(self).id, old(self).kind)])
                },
            decreases self.neighbors@.len() - j,
        {
            let nbr = self.neighbors[j];
            let mut trace: Vec<(NodeId, NodeKind)> = Vec::new();
            trace.push((self.id, self.kind));
            proof {
                assert(trace@ =~= seq![(old(self).id, old(self).kind)]);
            }
            let pkt = Packet {
                session: 0,
                header: RoutingHeader { hops: Vec::new(), cursor: 0 },
                kind: PacketKind::FloodRequest {
                    flood_id: fid,
                    initiator: self.id,
                    trace,
                },
            };
            self.outbox.push((nbr, pkt));
            proof {
                assert(self.outbox@.subrange(0, old(self).outbox@.len() as int)
                    =~= old(self).outbox@);
            }
            j += 1;
        }
        fid
    }

    /// Sends an application payload to `dest`: resolves a shortest path over
    /// the current Topology View, fragments the payload, stamps every
    /// fragment with the resolved hop list and the session identifier (the
    /// caller's, or a freshly allocated one), records each fragment as
    /// awaiting acknowledgment, and queues each onto the path's first hop.
    ///
    /// When no usable path is known the send fails fast with a retryable
    /// path-not-found condition, after triggering a discovery round; the
    /// caller retries once discovery completes.
    pub fn send_message(&mut self, payload: &Vec<u8>, dest: NodeId, session: Option<u64>)
        -> (r: Result<u64, SendError>)
        requires
            old(self).wf(),
        ensures
            final(self).wf(),
            final(self).node_id() == old(self).node_id(),
            final(self).node_kind() == old(self).node_kind(),
            final(self).nbrs() == old(self).nbrs(),
            final(self).topo() == old(self).topo(),
            final(self).waitq() == old(self).waitq(),
            final(self).evq() == old(self).evq(),
            final(self).reasm() == old(self).reasm(),
            (r matches Ok(s) ==> s == (match session {
                Some(s0) => s0,
                None => old(self).sessctr(),
            })),
            r is Ok ==> final(self).seen() == old(self).seen(),
            r is Ok ==> final(self).outq().len()
                == old(self).outq().len() + chunk_count(payload@.len()),
            r is Ok ==> final(self).outq().subrange(0, old(self).outq().len() as int)
                == old(self).outq(),
            r is Ok ==> final(self).pend().len()
                == old(self).pend().len() + chunk_count(payload@.len()),
            r is Ok ==> final(self).pend().subrange(0, old(self).pend().len() as int)
                == old(self).pend(),
            (r matches Ok(s) ==> send_recorded(*old(self), *final(self), payload@, dest, s)),
            r is Err ==> (r matches Err(e) && e == SendError::PathNotFound),
            r is Err ==> (dest == old(self).node_id()
                || forall|q: Seq<NodeId>|
                    !is_path(old(self).topo(), old(self).node_id(), dest, q)),
            r is Err ==> final(self).pend() == old(self).pend(),
            r is Err ==> final(self).sessctr() == old(self).sessctr(),
            r is Err ==> final(self).outq().subrange(0, old(self).outq().len() as int)
                == old(self).outq(),
            r is Err ==> appended_only_probes(*final(self), old(self).outq().len() as int),
            // with no path at all, a discovery probe goes to every neighbor
            (r is Err && dest != old(self).node_id()) ==>
                final(self).outq().len() == old(self).outq().len() + old(self).nbrs().len(),
    {
        let me = self.id;
        let path = match self.topology.resolve(me, dest) {
            None => {
                let ghost pre_len = self.outbox@.len() as int;
                let ghost pre = *self;
                let fid = self.start_discovery();
                proof {
                    assert forall|t: int| pre_len <= t < self.outbox@.len() implies
                        (#[trigger] self.outbox@[t]).1.kind
                            matches PacketKind::FloodRequest { .. } by {
                        let j = t - pre_len;
                        assert(is_flood_request(self.outq()[pre_len + j].1, fid,
                            pre.node_id(), seq![(pre.node_id(), pre.node_kind())]));
                    }
                }
                return Err(SendError::PathNotFound);
            }
            Some(p) => p,
        };
        if path.len() < 2 {
            proof {
                assert(path@[0] == me && path@[path@.len() - 1] == dest);
            }
            return Err(SendError::PathNotFound);
        }
        let s = match session {
            Some(x) => x,
            None => {
                let s = self.next_session;
                if self.next_session < u64::MAX {
                    self.next_session = self.next_session + 1;
                }
                s
            }
        };
        let frags = fragment(payload);
        let ghost p = path@;
        let ghost n = chunk_count(payload@.len()) as int;
        let first_hop = path[1];
        let mut j: usize = 0;
        while j < frags.len()
            invariant
                j <= frags@.len(),
                frags@.len() == n,
                n == chunk_count(payload@.len()),
                forall|t: int| 0 <= t < frags@.len() ==> (#[trigger] frags@[t]).index == t,
                forall|t: int| 0 <= t < frags@.len() ==> (#[trigger] frags@[t]).total == n,
                forall|t: int| 0 <= t < frags@.len() ==>
                    (#[trigger] frags@[t]).data@ == chunk_of(payload@, t),
                p == path@,
                p.len() >= 2,
                first_hop == p[1],
                self.id == old(self).id,
                self.kind == old(self).kind,
                self.neighbors@ == old(self).neighbors@,
                self.topology == old(self).topology,
                self.flood_seen@ == old(self).flood_seen@,
                self.next_flood_id == old(self).next_flood_id,
                self.waiting@ == old(self).waiting@,
                self.events@ == old(self).events@,
                self.assembler == old(self).assembler,
                old(self).wf(),
                self.outbox@.len() == old(self).outbox@.len() + j,
                self.outbox@.subrange(0, old(self).outbox@.len() as int) == old(self).outbox@,
                forall|t: int| 0 <= t < j ==> {
                    let e = #[trigger] self.outbox@[old(self).outbox@.len() + t];
                    e.0 == p[1] && is_msg_fragment(e.1, s, p, t, n, chunk_of(payload@, t))
                },
                self.pending@.len() == old(self).pending@.len() + j,
                self.pending@.subrange(0, old(self).pending@.len() as int)
                    == old(self).pending@,
                forall|t: int| 0 <= t < j ==> {
                    let w = #[trigger] self.pending@[old(self).pending@.len() + t];
                    w.session == s && w.dest == dest && w.path@ == p
                    && w.frag.index == t && w.frag.total == n
                    && w.frag.data@ == chunk_of(payload@, t)
                },
            decreases frags@.len() - j,
        {
            let f = &frags[j];
            let pkt = Packet {
                session: s,
                header: RoutingHeader { hops: copy_bytes(&path), cursor: 1 },
                kind: PacketKind::MsgFragment(Fragment {
                    index: f.index,
                    total: f.total,
                    data: copy_bytes(&f.data),
                }),
            };
            self.outbox.push((first_hop, pkt));
            self.pending.push(PendingFragment {
                session: s,
                dest,
                frag: Fragment {
                    index: f.index,
                    total: f.total,
                    data: copy_bytes(&f.data),
                },
                path: copy_bytes(&path),
            });
            proof {
                assert(self.outbox@.subrange(0, old(self).outbox@.len() as int)
                    =~= old(self).outbox@);
                assert(self.pending@.subrange(0, old(self).pending@.len() as int)
                    =~= old(self).pending@);
            }
            j += 1;
        }
        proof {
            let t0: int = 0;
            assert(chunk_count(payload@.len()) >= 1);
            assert(self.pending@[old(self).pending@.len() + t0].path@ == p);
            assert(self.pending@[old(self).pending@.len() as int].path@ == p);
            assert(send_recorded(*old(self), *self, payload@, dest, s));
        }
        Ok(s)
    }

    /// Clears the pending-acknowledgment entries of one fragment key,
    /// handing back the first (the one a retransmission would resend).
    fn take_key(&mut self, session: u64, index: u64) -> (r: Option<PendingFragment>)
        requires
            old(self).wf(),
        ensures
            final(self).wf(),
            final(self).pend() == without_key(old(self).pend(), session, index),
            r is Some <==> pend_has_key(old(self).pend(), session, index),
            (r matches Some(e) ==> e == first_key(old(self).pend(), session, index)),
            final(self).node_id() == old(self).node_id(),
            final(self).node_kind() == old(self).node_kind(),
            final(self).nbrs() == old(self).nbrs(),
            final(self).topo() == old(self).topo(),
            final(self).seen() == old(self).seen(),
            final(self).fidctr() == old(self).fidctr(),
            final(self).sessctr() == old(self).sessctr(),
            final(self).waitq() == old(self).waitq(),
            final(self).outq() == old(self).outq(),
            final(self).evq() == old(self).evq(),
            final(self).reasm() == old(self).reasm(),
    {
        let mut taken: Vec<PendingFragment> = Vec::new();
        core::mem::swap(&mut taken, &mut self.pending);
        let ghost orig = taken@;
        proof {
            assert(self.pending@ =~= Seq::<PendingFragment>::empty());
            assert(orig.take(0) =~= Seq::<PendingFragment>::empty());
        }
        let mut found: Option<PendingFragment> = None;
        let ghost mut k: int = 0;
        while taken.len() > 0
            invariant
                0 <= k <= orig.len(),
                taken@ == orig.skip(k),
                self.id == old(self).id,
                self.kind == old(self).kind,
                self.neighbors@ == old(self).neighbors@,
                self.topology == old(self).topology,
                self.flood_seen@ == old(self).flood_seen@,
                self.next_flood_id == old(self).next_flood_id,
                self.next_session == old(self).next_session,
                self.waiting@ == old(self).waiting@,
                self.outbox@ == old(self).outbox@,
                self.events@ == old(self).events@,
                self.assembler == old(self).assembler,
                old(self).wf(),
                orig == old(self).pending@,
                self.pending@ == without_key(orig.take(k), session, index),
                found is Some <==> pend_has_key(orig.take(k), session, index),
                (found matches Some(e) ==> e == first_key(orig.take(k), session, index)),
            decreases taken@.len(),
        {
            proof {
                assert(taken@[0] == orig[k]);
            }
            let e = taken.remove(0);
            proof {
                assert(taken@ =~= orig.skip(k + 1));
                assert(orig.take(k + 1).drop_last() =~= orig.take(k));
                assert(orig.take(k + 1).last() == orig[k]);
                lemma_first_key_push(orig.take(k), orig[k], session, index);
                assert(orig.take(k).push(orig[k]) =~= orig.take(k + 1));
            }
            if e.session == session && e.frag.index == index {
                if found.is_none() {
                    found = Some(e);
                }
                proof {
                    assert(pend_has_key(orig.take(k + 1), session, index)) by {
                        assert(orig.take(k + 1)[k] == orig[k]);
                    }
                }
            } else {
                self.pending.push(e);
                proof {
                    assert(pend_has_key(orig.take(k + 1), session, index)
                        == pend_has_key(orig.take(k), session, index)) by {
                        if pend_has_key(orig.take(k + 1), session, index) {
                            let j = choose|j: int| 0 <= j < orig.take(k + 1).len()
                                && (#[trigger] orig.take(k + 1)[j]).session == session
                                && orig.take(k + 1)[j].frag.index == index;
                            assert(j < k);
                            assert(orig.take(k)[j] == orig.take(k + 1)[j]);
                        }
                        if pend_has_key(orig.take(k), session, index) {
                            let j = choose|j: int| 0 <= j < orig.take(k).len()
                                && (#[trigger] orig.take(k)[j]).session == session
                                && orig.take(k)[j].frag.index == index;
                            assert(orig.take(k + 1)[j] == orig.take(k)[j]);
                        }
                    }
                }
            }
            proof {
                k = k + 1;
            }
        }
        proof {
            assert(orig.take(orig.len() as int) =~= orig);
        }
        found
    }

    /// Clears the pending acknowledgment of the named fragment. A late or
    /// unknown acknowledgment is ignored, not an error: the pending set is
    /// then exactly what it was. Nothing else changes.
    pub fn handle_ack(&mut self, session: u64, index: u64)
        requires
            old(self).wf(),
        ensures
            final(self).wf(),
            final(self).pend() == without_key(old(self).pend(), session, index),
            !pend_has_key(old(self).pend(), session, index) ==>
                final(self).pend() == old(self).pend(),
            final(self).node_id() == old(self).node_id(),
            final(self).node_kind() == old(self).node_kind(),
            final(self).nbrs() == old(self).nbrs(),
            final(self).topo() == old(self).topo(),
            final(self).seen() == old(self).seen(),
            final(self).fidctr() == old(self).fidctr(),
            final(self).sessctr() == old(self).sessctr(),
            final(self).waitq() == old(self).waitq(),
            final(self).outq() == old(self).outq(),
            final(self).evq() == old(self).evq(),
            final(self).reasm() == old(self).reasm(),
    {
        self.take_key(session, index);
        proof {
            lemma_without_key(old(self).pend(), session, index);
        }
    }

    /// Retransmits the fragment `e` carries if the current view offers a
    /// route; otherwise parks it until a fresh route is discovered, and
    /// triggers discovery.
    fn resend_or_wait(&mut self, e: PendingFragment)
        requires
            old(self).wf(),
        ensures
            final(self).wf(),
            final(self).node_id() == old(self).node_id(),
            final(self).node_kind() == old(self).node_kind(),
            final(self).nbrs() == old(self).nbrs(),
            final(self).topo() == old(self).topo(),
            final(self).sessctr() == old(self).sessctr(),
            final(self).evq() == old(self).evq(),
            final(self).reasm() == old(self).reasm(),
            resendable(old(self).topo(), old(self).node_id(), e.dest) ==> (
                resent_one(old(self).pend(), old(self).outq(), *final(self),
                    old(self).topo(), old(self).node_id(), e)
                && final(self).waitq() == old(self).waitq()
                && final(self).seen() == old(self).seen()
                && final(self).fidctr() == old(self).fidctr()),
            !resendable(old(self).topo(), old(self).node_id(), e.dest) ==> (
                final(self).pend() == old(self).pend()
                && final(self).waitq() == old(self).waitq().push(e)
                && final(self).outq().subrange(0, old(self).outq().len() as int)
                    == old(self).outq()
                && appended_only_probes(*final(self), old(self).outq().len() as int)),
    {
        let me = self.id;
        let found = match self.topology.resolve(me, e.dest) {
            Some(p) => {
                if p.len() >= 2 {
                    Some(p)
                } else {
                    proof {
                        assert(p@[0] == me && p@[p@.len() - 1] == e.dest);
                    }
                    None
                }
            }
            None => None,
        };
        match found {
            Some(p) => {
                proof {
                    let selfpath = seq![me];
                    assert(is_path(self.topology, me, me, selfpath));
                    if e.dest == me {
                        assert(p@.len() <= selfpath.len());
                        assert(false);
                    }
                    assert(resendable(self.topology, me, e.dest));
                }
                let first_hop = p[1];
                let pkt = Packet {
                    session: e.session,
                    header: RoutingHeader { hops: copy_bytes(&p), cursor: 1 },
                    kind: PacketKind::MsgFragment(Fragment {
                        index: e.frag.index,
                        total: e.frag.total,
                        data: copy_bytes(&e.frag.data),
                    }),
                };
                self.outbox.push((first_hop, pkt));
                self.pending.push(PendingFragment {
                    session: e.session,
                    dest: e.dest,
                    frag: e.frag,
                    path: p,
                });
                proof {
                    assert(self.outbox@.subrange(0, old(self).outbox@.len() as int)
                        =~= old(self).outbox@);
                    assert(self.pending@.subrange(0, old(self).pending@.len() as int)
                        =~= old(self).pending@);
                }
            }
            None => {
                let ghost pre_len = self.outbox@.len() as int;
                let ghost pre = *self;
                let fid = self.start_discovery();
                proof {
                    assert forall|t: int| pre_len <= t < self.outbox@.len() implies
                        (#[trigger] self.outbox@[t]).1.kind
                            matches PacketKind::FloodRequest { .. } by {
                        let j = t - pre_len;
                        assert(is_flood_request(self.outq()[pre_len + j].1, fid,
                            pre.node_id(), seq![(pre.node_id(), pre.node_kind())]));
                    }
                }
                self.waiting.push(e);
            }
        }
    }

    /// Dispatches a negative acknowledgment naming fragment (session,
    /// index): repairs the Topology View as the cause demands, and — when
    /// the named fragment is tracked — retransmits it along a fresh route,
    /// or parks it behind a new discovery round when none is known yet. A
    /// nack for an unknown fragment repairs the topology it can (a named
    /// failing relay) and is otherwise ignored.
    pub fn handle_nack(&mut self, session: u64, index: u64, cause: NackCause)
        requires
            old(self).wf(),
        ensures
            final(self).wf(),
            final(self).node_id() == old(self).node_id(),
            final(self).node_kind() == old(self).node_kind(),
            final(self).nbrs() == old(self).nbrs(),
            final(self).sessctr() == old(self).sessctr(),
            final(self).reasm() == old(self).reasm(),
            // topology repair, by cause
            (cause matches NackCause::RelayFailure(x) ==> (
                !final(self).topo().contains(x)
                && (forall|y: NodeId| y != x ==>
                    #[trigger] final(self).topo().contains(y) == old(self).topo().contains(y))
                && (forall|p: NodeId, q: NodeId|
                    #![trigger final(self).topo().edge(p, q)]
                    #![trigger old(self).topo().edge(p, q)]
                    final(self).topo().edge(p, q) ==
                        (old(self).topo().edge(p, q) && p != x && q != x))
                && final(self).evq() == old(self).evq().push(
                    EngineEvent::NodeRemoved { id: x }))),
            cause is Dropped ==> final(self).topo() == old(self).topo(),
            !(cause matches NackCause::RelayFailure(_)) ==> final(self).evq() == old(self).evq(),
            // stale-route causes only ever prune: no node or edge appears
            forall|y: NodeId| #[trigger] final(self).topo().contains(y) ==>
                old(self).topo().contains(y),
            forall|p: NodeId, q: NodeId| #[trigger] final(self).topo().edge(p, q) ==>
                old(self).topo().edge(p, q),
            // a path that ended at a relay loses its final edge
            (cause is DestinationIsRelay
                && pend_has_key(old(self).pend(), session, index)) ==> ({
                let pth = first_key(old(self).pend(), session, index).path@;
                pth.len() >= 2 ==>
                    !final(self).topo().edge(pth[pth.len() - 2], pth[pth.len() - 1])
            }),
            // a misdelivery prunes the edge that led to the unexpected node
            (cause matches NackCause::UnexpectedRecipient(x) ==> (
                pend_has_key(old(self).pend(), session, index) ==> ({
                    let pth = first_key(old(self).pend(), session, index).path@;
                    forall|k: int| 1 <= k < pth.len() && (#[trigger] pth[k]) == x
                        && (forall|t: int| 1 <= t < k ==> pth[t] != x)
                        ==> !final(self).topo().edge(pth[k - 1], x)
                }))),
            // fragment bookkeeping
            !pend_has_key(old(self).pend(), session, index) ==> (
                final(self).pend() == old(self).pend()
                && final(self).waitq() == old(self).waitq()
                && final(self).outq() == old(self).outq()),
            pend_has_key(old(self).pend(), session, index) ==> ({
                let e = first_key(old(self).pend(), session, index);
                &&& (resendable(final(self).topo(), old(self).node_id(), e.dest) ==> (
                    resent_one(without_key(old(self).pend(), session, index),
                        old(self).outq(), *final(self),
                        final(self).topo(), old(self).node_id(), e)
                    && final(self).waitq() == old(self).waitq()))
                &&& (!resendable(final(self).topo(), old(self).node_id(), e.dest) ==> (
                    final(self).pend() == without_key(old(self).pend(), session, index)
                    && final(self).waitq() == old(self).waitq().push(e)
                    && final(self).outq().subrange(0, old(self).outq().len() as int)
                        == old(self).outq()
                    && appended_only_probes(*final(self), old(self).outq().len() as int)))
            }),
    {
        proof {
            lemma_without_key(old(self).pend(), session, index);
        }
        let entry = self.take_key(session, index);
        match cause {
            NackCause::RelayFailure(x) => {
                self.topology.remove_node(x);
                self.events.push(EngineEvent::NodeRemoved { id: x });
            }
            NackCause::DestinationIsRelay => {
                if let Some(e) = &entry {
                    let plen = e.path.len();
                    if plen >= 2 {
                        self.topology.remove_edge(e.path[plen - 2], e.path[plen - 1]);
                    }
                }
            }
            NackCause::Dropped => {}
            NackCause::UnexpectedRecipient(x) => {
                if let Some(e) = &entry {
                    let mut k: usize = 1;
                    let mut pruned = false;
                    while k < e.path.len()
                        invariant
                            1 <= k,
                            !pruned ==> self.topology == old(self).topology,
                            !pruned ==> (forall|t: int| 1 <= t < k ==> e.path@[t] != x),
                            pruned ==> (forall|k2: int| 1 <= k2 < e.path@.len()
                                && (#[trigger] e.path@[k2]) == x
                                && (forall|t: int| 1 <= t < k2 ==> e.path@[t] != x)
                                ==> !self.topology.edge(e.path@[k2 - 1], x)),
                            self.wf(),
                            self.id == old(self).id,
                            self.kind == old(self).kind,
                            self.neighbors@ == old(self).neighbors@,
                            self.flood_seen@ == old(self).flood_seen@,
                            self.next_flood_id == old(self).next_flood_id,
                            self.next_session == old(self).next_session,
                            self.pending@ == without_key(old(self).pending@, session, index),
                            self.waiting@ == old(self).waiting@,
                            self.outbox@ == old(self).outbox@,
                            self.events@ == old(self).events@,
                            self.assembler == old(self).assembler,
                            forall|y: NodeId| #[trigger] self.topology.contains(y)
                                == old(self).topology.contains(y),
                            forall|p: NodeId, q: NodeId| #[trigger] self.topology.edge(p, q)
                                ==> old(self).topology.edge(p, q),
                        decreases e.path@.len() - k,
                    {
                        if !pruned && e.path[k] == x {
                            self.topology.remove_edge(e.path[k - 1], x);
                            pruned = true;
                        }
                        k += 1;
                    }
                }
            }
        }
        if let Some(e) = entry {
            self.resend_or_wait(e);
        }
    }

    /// Takes the fragment that has waited longest for a route and tries it
    /// again: retransmitted if the view now offers a path, else parked anew
    /// (behind a fresh discovery round). Reports whether a fragment was
    /// waiting at all. The reactor calls this once per waiting fragment
    /// after a discovery round completes.
    pub fn retry_waiting(&mut self) -> (r: bool)
        requires
            old(self).wf(),
        ensures
            final(self).wf(),
            final(self).node_id() == old(self).node_id(),
            final(self).node_kind() == old(self).node_kind(),
            final(self).nbrs() == old(self).nbrs(),
            final(self).topo() == old(self).topo(),
            final(self).sessctr() == old(self).sessctr(),
            final(self).evq() == old(self).evq(),
            final(self).reasm() == old(self).reasm(),
            r == (old(self).waitq().len() > 0),
            old(self).waitq().len() == 0 ==> (
                final(self).pend() == old(self).pend()
                && final(self).waitq() == old(self).waitq()
                && final(self).outq() == old(self).outq()
                && final(self).seen() == old(self).seen()
                && final(self).fidctr() == old(self).fidctr()),
            old(self).waitq().len() > 0 ==> ({
                let e = old(self).waitq().first();
                &&& (resendable(old(self).topo(), old(self).node_id(), e.dest) ==> (
                    resent_one(old(self).pend(), old(self).outq(), *final(self),
                        old(self).topo(), old(self).node_id(), e)
                    && final(self).waitq() == old(self).waitq().drop_first()))
                &&& (!resendable(old(self).topo(), old(self).node_id(), e.dest) ==> (
                    final(self).pend() == old(self).pend()
                    && final(self).waitq() == old(self).waitq().drop_first().push(e)
                    && final(self).outq().subrange(0, old(self).outq().len() as int)
                        == old(self).outq()
                    && appended_only_probes(*final(self), old(self).outq().len() as int)))
            }),
    {
        if self.waiting.len() == 0 {
            return false;
        }
        let e = self.waiting.remove(0);
        proof {
            assert(self.waiting@ =~= old(self).waiting@.drop_first());
        }
        self.resend_or_wait(e);
        true
    }

    /// Receives one message fragment addressed to this node: integrates it
    /// into the reassembly buffer of its (session, origin) key — the origin
    /// being the first hop of the packet's header — and sends an
    /// acknowledgment back along the reversed hop list. Once the whole
    /// message is present, a delivery event carries the reassembled payload
    /// upward. A fragment whose header is not addressed to this node, or too
    /// short to answer, is dropped.
    pub fn handle_fragment(&mut self, header: &RoutingHeader, session: u64, frag: &Fragment)
        requires
            old(self).wf(),
        ensures
            final(self).wf(),
            final(self).node_id() == old(self).node_id(),
            final(self).node_kind() == old(self).node_kind(),
            final(self).nbrs() == old(self).nbrs(),
            final(self).topo() == old(self).topo(),
            final(self).seen() == old(self).seen(),
            final(self).fidctr() == old(self).fidctr(),
            final(self).sessctr() == old(self).sessctr(),
            final(self).pend() == old(self).pend(),
            final(self).waitq() == old(self).waitq(),
            !fragment_wellformed(*header, *old(self)) ==> (
                final(self).outq() == old(self).outq()
                && final(self).evq() == old(self).evq()
                && final(self).reasm() == old(self).reasm()),
            fragment_wellformed(*header, *old(self)) ==> ({
                let origin = header.hops@[0];
                let prior = prior_slots(old(self).reasm(), *frag, session, origin);
                let updated = prior.update(frag.index as int, Some(frag.data@));
                &&& final(self).outq().len() == old(self).outq().len() + 1
                &&& final(self).outq().subrange(0, old(self).outq().len() as int)
                    == old(self).outq()
                &&& acked_back(final(self).outq().last(), *header, session, frag.index)
                &&& (accept_drops(old(self).reasm(), *frag, session, origin) ==> (
                    final(self).reasm() == old(self).reasm()
                    && final(self).evq() == old(self).evq()))
                &&& (!accept_drops(old(self).reasm(), *frag, session, origin)
                        && all_filled(updated) ==> (
                    !final(self).reasm().has_buffer(session, origin)
                    && final(self).evq().len() == old(self).evq().len() + 1
                    && final(self).evq().subrange(0, old(self).evq().len() as int)
                        == old(self).evq()
                    && (final(self).evq().last() matches EngineEvent::Delivered {
                            origin: o2, session: s2, payload }
                        && o2 == origin && s2 == session && payload@ == assembled(updated))))
                &&& (!accept_drops(old(self).reasm(), *frag, session, origin)
                        && !all_filled(updated) ==> (
                    final(self).reasm().has_buffer(session, origin)
                    && final(self).reasm().slots_of(session, origin) == updated
                    && final(self).evq() == old(self).evq()))
                &&& (forall|s2: u64, o2: NodeId| !(s2 == session && o2 == origin) ==> (
                    #[trigger] final(self).reasm().has_buffer(s2, o2)
                        == old(self).reasm().has_buffer(s2, o2)
                    && (old(self).reasm().has_buffer(s2, o2) ==>
                        final(self).reasm().slots_of(s2, o2)
                            == old(self).reasm().slots_of(s2, o2))))
            }),
    {
        let hlen = header.hops.len();
        if hlen < 2 || header.hops[hlen - 1] != self.id {
            return;
        }
        let origin = header.hops[0];
        let mut rev: Vec<NodeId> = Vec::new();
        let mut k: usize = hlen;
        while k > 0
            invariant
                k <= hlen,
                hlen == header.hops@.len(),
                rev@.len() == hlen - k,
                forall|t: int| 0 <= t < rev@.len() ==>
                    (#[trigger] rev@[t]) == header.hops@[hlen - 1 - t],
            decreases k,
        {
            k -= 1;
            rev.push(header.hops[k]);
        }
        let back_to = header.hops[hlen - 2];
        let ack = Packet {
            session,
            header: RoutingHeader { hops: rev, cursor: 1 },
            kind: PacketKind::Ack { index: frag.index },
        };
        self.outbox.push((back_to, ack));
        proof {
            assert(self.outbox@.subrange(0, old(self).outbox@.len() as int)
                =~= old(self).outbox@);
        }
        let done = self.assembler.accept(frag, session, origin);
        if let Some(payload) = done {
            self.events.push(EngineEvent::Delivered { origin, session, payload });
            proof {
                assert(self.events@.subrange(0, old(self).events@.len() as int)
                    =~= old(self).events@);
            }
        }
    }

    /// Whether the (initiator, flood id) round was already seen.
    fn seen_contains(&self, initiator: NodeId, flood_id: u64) -> (r: bool)
        ensures
            r == self.seen().contains((initiator, flood_id)),
    {
        let mut i: usize = 0;
        while i < self.flood_seen.len()
            invariant
                i <= self.flood_seen@.len(),
                forall|j: int| 0 <= j < i ==> (#[trigger] self.flood_seen@[j])
                    != (initiator, flood_id),
            decreases self.flood_seen@.len() - i,
        {
            let (a, b) = self.flood_seen[i];
            if a == initiator && b == flood_id {
                proof {
                    assert(self.flood_seen@[i as int] == (initiator, flood_id));
                }
                return true;
            }
            i += 1;
        }
        proof {
            if self.seen().contains((initiator, flood_id)) {
                let j = choose|j: int| 0 <= j < self.flood_seen@.len()
                    && self.flood_seen@[j] == (initiator, flood_id);
                assert(false);
            }
        }
        false
    }

    /// The probe's trace extended by this node.
    fn extended_trace(&self, trace: &Vec<(NodeId, NodeKind)>) -> (r: Vec<(NodeId, NodeKind)>)
        ensures
            r@ == trace@.push((self.node_id(), self.node_kind())),
    {
        let mut r: Vec<(NodeId, NodeKind)> = Vec::new();
        let mut i: usize = 0;
        while i < trace.len()
            invariant
                i <= trace@.len(),
                r@ == trace@.subrange(0, i as int),
            decreases trace@.len() - i,
        {
            r.push(trace[i]);
            assert(r@ =~= trace@.subrange(0, i + 1 as int));
            i += 1;
        }
        assert(r@ =~= trace@);
        r.push((self.id, self.kind));
        r
    }

    /// Handles a discovery probe that arrived from the neighbor `from`.
    /// A relay drops a round it has already forwarded (loop avoidance);
    /// otherwise it records the round, appends itself to the trace — so a
    /// trace never gains anything but this one node — and forwards a copy to
    /// every neighbor but `from`, or, having no other neighbor, turns the
    /// probe into a trace response sent back to `from`. A non-relay node
    /// always responds immediately with the extended trace.
    pub fn handle_flood_request(
        &mut self,
        flood_id: u64,
        initiator: NodeId,
        trace: &Vec<(NodeId, NodeKind)>,
        from: NodeId,
    )
        requires
            old(self).wf(),
        ensures
            final(self).wf(),
            final(self).node_id() == old(self).node_id(),
            final(self).node_kind() == old(self).node_kind(),
            final(self).nbrs() == old(self).nbrs(),
            final(self).topo() == old(self).topo(),
            final(self).fidctr() == old(self).fidctr(),
            final(self).sessctr() == old(self).sessctr(),
            final(self).pend() == old(self).pend(),
            final(self).waitq() == old(self).waitq(),
            final(self).evq() == old(self).evq(),
            final(self).reasm() == old(self).reasm(),
            (old(self).node_kind() == NodeKind::Relay
                && old(self).seen().contains((initiator, flood_id))) ==> (
                final(self).outq() == old(self).outq()
                && final(self).seen() == old(self).seen()),
            (old(self).node_kind() == NodeKind::Relay
                && !old(self).seen().contains((initiator, flood_id))) ==> ({
                let ext = trace@.push((old(self).node_id(), old(self).node_kind()));
                let tgts = forward_targets(old(self).nbrs(), from);
                &&& final(self).seen() == old(self).seen().push((initiator, flood_id))
                &&& (tgts.len() > 0 ==> (
                    final(self).outq().len() == old(self).outq().len() + tgts.len()
                    && final(self).outq().subrange(0, old(self).outq().len() as int)
                        == old(self).outq()
                    && forall|t: int| 0 <= t < tgts.len() ==> {
                        let e = #[trigger] final(self).outq()[old(self).outq().len() + t];
                        e.0 == tgts[t] && is_flood_request(e.1, flood_id, initiator, ext)
                    }))
                &&& (tgts.len() == 0 ==> (
                    final(self).outq().len() == old(self).outq().len() + 1
                    && final(self).outq().subrange(0, old(self).outq().len() as int)
                        == old(self).outq()
                    && final(self).outq().last().0 == from
                    && is_flood_response(final(self).outq().last().1, flood_id, initiator, ext)))
            }),
            old(self).node_kind() != NodeKind::Relay ==> ({
                let ext = trace@.push((old(self).node_id(), old(self).node_kind()));
                &&& final(self).seen() == old(self).seen()
                &&& final(self).outq().len() == old(self).outq().len() + 1
                &&& final(self).outq().subrange(0, old(self).outq().len() as int)
                    == old(self).outq()
                &&& final(self).outq().last().0 == from
                &&& is_flood_response(final(self).outq().last().1, flood_id, initiator, ext)
            }),
    {
        let is_relay = match self.kind {
            NodeKind::Relay => true,
            _ => false,
        };
        if !is_relay {
            let ext = self.extended_trace(trace);
            let pkt = Packet {
                session: 0,
                header: RoutingHeader { hops: Vec::new(), cursor: 0 },
                kind: PacketKind::FloodResponse { flood_id, initiator, trace: ext },
            };
            self.outbox.push((from, pkt));
            proof {
                assert(self.outbox@.subrange(0, old(self).outbox@.len() as int)
                    =~= old(self).outbox@);
            }
            return;
        }
        if self.seen_contains(initiator, flood_id) {
            return;
        }
        self.flood_seen.push((initiator, flood_id));
        let ghost tgts = forward_targets(old(self).nbrs(), from);
        let mut pushed: usize = 0;
        let mut j: usize = 0;
        while j < self.neighbors.len()
            invariant
                j <= self.neighbors@.len(),
                self.id == old(self).id,
                self.kind == old(self).kind,
                self.neighbors@ == old(self).neighbors@,
                self.topology == old(self).topology,
                self.flood_seen@ == old(self).flood_seen@.push((initiator, flood_id)),
                self.next_flood_id == old(self).next_flood_id,
                self.next_session == old(self).next_session,
                self.pending@ == old(self).pending@,
                self.waiting@ == old(self).waiting@,
                self.events@ == old(self).events@,
                self.assembler == old(self).assembler,
                old(self).wf(),
                tgts == forward_targets(old(self).neighbors@, from),
                pushed == forward_targets(old(self).neighbors@.take(j as int), from).len(),
                pushed <= j,
                self.outbox@.len() == old(self).outbox@.len() + pushed,
                self.outbox@.subrange(0, old(self).outbox@.len() as int) == old(self).outbox@,
                forall|t: int| 0 <= t < pushed ==> {
                    let e = #[trigger] self.outbox@[old(self).outbox@.len() + t];
                    e.0 == forward_targets(old(self).neighbors@.take(j as int), from)[t]
                    && is_flood_request(e.1, flood_id, initiator,
                        trace@.push((old(self).id, old(self).kind)))
                },
                forall|t: int| 0 <= t < pushed ==>
                    forward_targets(old(self).neighbors@.take(j as int), from)[t]
                        == #[trigger] tgts[t],
            decreases self.neighbors@.len() - j,
        {
            let nbr = self.neighbors[j];
            proof {
                assert(old(self).neighbors@.take(j + 1 as int).drop_last()
                    =~= old(self).neighbors@.take(j as int));
                assert(old(self).neighbors@.take(j + 1 as int).last()
                    == old(self).neighbors@[j as int]);
            }
            if nbr != from {
                let ext = self.extended_trace(trace);
                let pkt = Packet {
                    session: 0,
                    header: RoutingHeader { hops: Vec::new(), cursor: 0 },
                    kind: PacketKind::FloodRequest { flood_id, initiator, trace: ext },
                };
                self.outbox.push((nbr, pkt));
                pushed += 1;
                proof {
                    assert(self.outbox@.subrange(0, old(self).outbox@.len() as int)
                        =~= old(self).outbox@);
                }
            }
            proof {
                assert forall|t: int| 0 <= t < pushed implies
                    forward_targets(old(self).neighbors@.take(j + 1 as int), from)[t]
                        == #[trigger] tgts[t] by {
                    lemma_forward_targets_prefix(old(self).neighbors@, from, j + 1, t);
                }
            }
            j += 1;
        }
        proof {
            assert(old(self).neighbors@.take(old(self).neighbors@.len() as int)
                =~= old(self).neighbors@);
        }
        if pushed == 0 {
            let ext = self.extended_trace(trace);
            let pkt = Packet {
                session: 0,
                header: RoutingHeader { hops: Vec::new(), cursor: 0 },
                kind: PacketKind::FloodResponse { flood_id, initiator, trace: ext },
            };
            self.outbox.push((from, pkt));
            proof {
                assert(self.outbox@.subrange(0, old(self).outbox@.len() as int)
                    =~= old(self).outbox@);
            }
        }
    }

    /// Handles a trace response. The round's initiator folds the trace into
    /// its Topology View — every listed node is recorded (with the kind the
    /// trace gives it) and every consecutive pair becomes an edge — and
    /// queues a discovery-complete event; partial topology is acceptable and
    /// later responses refine it. Any other node passes the response one hop
    /// backward along the trace, toward the initiator.
    pub fn handle_flood_response(
        &mut self,
        flood_id: u64,
        initiator: NodeId,
        trace: &Vec<(NodeId, NodeKind)>,
    )
        requires
            old(self).wf(),
        ensures
            final(self).wf(),
            final(self).node_id() == old(self).node_id(),
            final(self).node_kind() == old(self).node_kind(),
            final(self).nbrs() == old(self).nbrs(),
            final(self).seen() == old(self).seen(),
            final(self).fidctr() == old(self).fidctr(),
            final(self).sessctr() == old(self).sessctr(),
            final(self).pend() == old(self).pend(),
            final(self).waitq() == old(self).waitq(),
            final(self).reasm() == old(self).reasm(),
            initiator == old(self).node_id() ==> ({
                &&& final(self).outq() == old(self).outq()
                &&& final(self).evq() == old(self).evq().push(
                    EngineEvent::DiscoveryComplete { flood_id })
                // every listed node is now known, old nodes stay, no stray node appears
                &&& (forall|t: int| 0 <= t < trace@.len() ==>
                    final(self).topo().contains((#[trigger] trace@[t]).0))
                &&& (forall|y: NodeId| old(self).topo().contains(y) ==>
                    #[trigger] final(self).topo().contains(y))
                &&& (forall|y: NodeId| #[trigger] final(self).topo().contains(y) ==>
                    old(self).topo().contains(y)
                    || exists|t: int| 0 <= t < trace@.len() && (#[trigger] trace@[t]).0 == y)
                // a node the trace lists under one kind only is recorded with it
                &&& (forall|t: int| 0 <= t < trace@.len()
                    && (forall|u: int| 0 <= u < trace@.len()
                        && (#[trigger] trace@[u]).0 == trace@[t].0 ==> trace@[u].1 == trace@[t].1)
                    ==> final(self).topo().kind_of((#[trigger] trace@[t]).0) == trace@[t].1)
                // every consecutive pair became an edge, old edges stay, no stray edge
                &&& (forall|t: int| 0 <= t < trace@.len() - 1 && trace@[t].0 != trace@[t + 1].0 ==>
                    final(self).topo().edge((#[trigger] trace@[t]).0, trace@[t + 1].0))
                &&& (forall|p: NodeId, q: NodeId| old(self).topo().edge(p, q) ==>
                    #[trigger] final(self).topo().edge(p, q))
                &&& (forall|p: NodeId, q: NodeId| #[trigger] final(self).topo().edge(p, q) ==>
                    old(self).topo().edge(p, q)
                    || exists|t: int| 0 <= t < trace@.len() - 1
                        && ((#[trigger] trace@[t]).0 == p && trace@[t + 1].0 == q
                            || trace@[t].0 == q && trace@[t + 1].0 == p))
            }),
            initiator != old(self).node_id() ==> ({
                &&& final(self).topo() == old(self).topo()
                &&& final(self).evq() == old(self).evq()
                // not on the trace, or its very start: nothing to pass back
                &&& ((forall|t: int| 0 <= t < trace@.len()
                        ==> (#[trigger] trace@[t]).0 != old(self).node_id())
                    ==> final(self).outq() == old(self).outq())
                &&& (trace@.len() > 0 && trace@[0].0 == old(self).node_id()
                    ==> final(self).outq() == old(self).outq())
                // listed downstream: exactly one copy goes one hop backward
                &&& ((trace@.len() > 0 && trace@[0].0 != old(self).node_id()
                        && exists|t: int| 0 <= t < trace@.len()
                            && (#[trigger] trace@[t]).0 == old(self).node_id()) ==> (
                    final(self).outq().len() == old(self).outq().len() + 1
                    && final(self).outq().subrange(0, old(self).outq().len() as int)
                        == old(self).outq()
                    && exists|k: int| 1 <= k < trace@.len()
                        && (#[trigger] trace@[k]).0 == old(self).node_id()
                        && final(self).outq().last().0 == trace@[k - 1].0
                        && is_flood_response(final(self).outq().last().1,
                            flood_id, initiator, trace@)))
            }),
    {
        if initiator != self.id {
            let mut k: usize = 0;
            while k < trace.len()
                invariant
                    k <= trace@.len(),
                    *self == *old(self),
                    initiator != old(self).id,
                    old(self).wf(),
                    forall|t: int| 0 <= t < k ==> (#[trigger] trace@[t]).0 != self.id,
                decreases trace@.len() - k,
            {
                if trace[k].0 == self.id {
                    if k >= 1 {
                        let mut copy: Vec<(NodeId, NodeKind)> = Vec::new();
                        let mut i: usize = 0;
                        while i < trace.len()
                            invariant
                                i <= trace@.len(),
                                copy@ == trace@.subrange(0, i as int),
                            decreases trace@.len() - i,
                        {
                            copy.push(trace[i]);
                            assert(copy@ =~= trace@.subrange(0, i + 1 as int));
                            i += 1;
                        }
                        assert(copy@ =~= trace@);
                        let pkt = Packet {
                            session: 0,
                            header: RoutingHeader { hops: Vec::new(), cursor: 0 },
                            kind: PacketKind::FloodResponse {
                                flood_id,
                                initiator,
                                trace: copy,
                            },
                        };
                        let back_to = trace[k - 1].0;
                        self.outbox.push((back_to, pkt));
                        proof {
                            assert(self.outbox@.subrange(0, old(self).outbox@.len() as int)
                                =~= old(self).outbox@);
                        }
                    }
                    return;
                }
                k += 1;
            }
            return;
        }
        // fold the trace: first every node with its kind, then every edge
        let mut t: usize = 0;
        while t < trace.len()
            invariant
                t <= trace@.len(),
                self.id == old(self).id,
                self.kind == old(self).kind,
                self.neighbors@ == old(self).neighbors@,
                self.flood_seen@ == old(self).flood_seen@,
                self.next_flood_id == old(self).next_flood_id,
                self.next_session == old(self).next_session,
                self.pending@ == old(self).pending@,
                self.waiting@ == old(self).waiting@,
                self.outbox@ == old(self).outbox@,
                self.events@ == old(self).events@,
                self.assembler == old(self).assembler,
                self.topology.wf(),
                old(self).wf(),
                forall|u: int| 0 <= u < t ==>
                    self.topology.contains((#[trigger] trace@[u]).0),
                forall|y: NodeId| old(self).topology.contains(y) ==>
                    #[trigger] self.topology.contains(y),
                forall|y: NodeId| #[trigger] self.topology.contains(y) ==>
                    old(self).topology.contains(y)
                    || exists|u: int| 0 <= u < t && (#[trigger] trace@[u]).0 == y,
                forall|u: int| 0 <= u < t
                    && (forall|u2: int| 0 <= u2 < trace@.len()
                        && (#[trigger] trace@[u2]).0 == trace@[u].0
                        ==> trace@[u2].1 == trace@[u].1)
                    ==> self.topology.kind_of((#[trigger] trace@[u]).0) == trace@[u].1,
                forall|p: NodeId, q: NodeId|
                    #![trigger self.topology.edge(p, q)]
                    #![trigger old(self).topology.edge(p, q)]
                    self.topology.edge(p, q) == old(self).topology.edge(p, q),
            decreases trace@.len() - t,
        {
            let (nid, nkind) = trace[t];
            self.topology.insert_node(nid, nkind);
            proof {
                assert forall|y: NodeId| #[trigger] self.topology.contains(y) implies
                    old(self).topology.contains(y)
                    || exists|u: int| 0 <= u < t + 1 && (#[trigger] trace@[u]).0 == y by {
                    if y == nid {
                        assert(trace@[t as int].0 == y);
                    }
                }
            }
            t += 1;
        }
        let mut t2: usize = 0;
        while t2 < trace.len()
            invariant
                t2 <= trace@.len(),
                self.id == old(self).id,
                self.kind == old(self).kind,
                self.neighbors@ == old(self).neighbors@,
                self.flood_seen@ == old(self).flood_seen@,
                self.next_flood_id == old(self).next_flood_id,
                self.next_session == old(self).next_session,
                self.pending@ == old(self).pending@,
                self.waiting@ == old(self).waiting@,
                self.outbox@ == old(self).outbox@,
                self.events@ == old(self).events@,
                self.assembler == old(self).assembler,
                self.topology.wf(),
                old(self).wf(),
                forall|u: int| 0 <= u < trace@.len() ==>
                    self.topology.contains((#[trigger] trace@[u]).0),
                forall|y: NodeId| old(self).topology.contains(y) ==>
                    #[trigger] self.topology.contains(y),
                forall|y: NodeId| #[trigger] self.topology.contains(y) ==>
                    old(self).topology.contains(y)
                    || exists|u: int| 0 <= u < trace@.len() && (#[trigger] trace@[u]).0 == y,
                forall|u: int| 0 <= u < trace@.len()
                    && (forall|u2: int| 0 <= u2 < trace@.len()
                        && (#[trigger] trace@[u2]).0 == trace@[u].0 ==> trace@[u2].1 == trace@[u].1)
                    ==> self.topology.kind_of((#[trigger] trace@[u]).0) == trace@[u].1,
                forall|u: int| 0 <= u < t2 && u < trace@.len() - 1
                    && trace@[u].0 != trace@[u + 1].0 ==>
                    self.topology.edge((#[trigger] trace@[u]).0, trace@[u + 1].0),
                forall|p: NodeId, q: NodeId| old(self).topology.edge(p, q) ==>
                    #[trigger] self.topology.edge(p, q),
                forall|p: NodeId, q: NodeId| #[trigger] self.topology.edge(p, q) ==>
                    old(self).topology.edge(p, q)
                    || exists|u: int| 0 <= u < t2 && u < trace@.len() - 1
                        && ((#[trigger] trace@[u]).0 == p && trace@[u + 1].0 == q
                            || trace@[u].0 == q && trace@[u + 1].0 == p),
            decreases trace@.len() - t2,
        {
            if t2 + 1 < trace.len() {
                let a = trace[t2].0;
                let b = trace[t2 + 1].0;
                if a != b {
                    let ghost pre_topo = self.topology;
                    self.topology.add_edge(a, b);
                    proof {
                        assert forall|p: NodeId, q: NodeId| #[trigger] self.topology.edge(p, q)
                            implies old(self).topology.edge(p, q)
                            || exists|u: int| 0 <= u < t2 + 1 && u < trace@.len() - 1
                                && ((#[trigger] trace@[u]).0 == p && trace@[u + 1].0 == q
                                    || trace@[u].0 == q && trace@[u + 1].0 == p) by {
                            if !pre_topo.edge(p, q) {
                                assert(trace@[t2 as int].0 == a && trace@[t2 + 1].0 == b);
                                assert((p == a && q == b) || (p == b && q == a));
                            } else if !old(self).topology.edge(p, q) {
                                let u = choose|u: int| 0 <= u < t2 && u < trace@.len() - 1
                                    && ((#[trigger] trace@[u]).0 == p && trace@[u + 1].0 == q
                                        || trace@[u].0 == q && trace@[u + 1].0 == p);
                                assert(0 <= u < t2 + 1);
                            }
                        }
                        assert forall|u: int| 0 <= u < t2 + 1 && u < trace@.len() - 1
                            && trace@[u].0 != trace@[u + 1].0 implies
                            self.topology.edge((#[trigger] trace@[u]).0, trace@[u + 1].0) by {
                            if u < t2 {
                                assert(pre_topo.edge(trace@[u].0, trace@[u + 1].0));
                            }
                        }
                    }
                }
            }
            t2 += 1;
        }
        self.events.push(EngineEvent::DiscoveryComplete { flood_id });
        proof {
            assert(self.events@.subrange(0, old(self).events@.len() as int)
                =~= old(self).events@);
            assert(self.events@ =~= old(self).events@.push(
                EngineEvent::DiscoveryComplete { flood_id }));
        }
    }

    /// How many fragments await acknowledgment.
    pub fn pending_count(&self) -> (r: usize)
        ensures
            r == self.pend().len(),
    {
        self.pending.len()
    }

    /// How many fragments await a fresh route.
    pub fn waiting_count(&self) -> (r: usize)
        ensures
            r == self.waitq().len(),
    {
        self.waiting.len()
    }

    /// The current Topology View, for path queries.
    pub fn topology_view(&self) -> (r: &TopologyView)
        ensures
            *r == self.topo(),
    {
        &self.topology
    }

    /// Hands the queued outbound packets to the reactor, leaving the outbox
    /// empty.
    pub fn take_outbox(&mut self) -> (r: Vec<(NodeId, Packet)>)
        requires
            old(self).wf(),
        ensures
            final(self).wf(),
            r@ == old(self).outq(),
            final(self).outq() == Seq::<(NodeId, Packet)>::empty(),
            final(self).node_id() == old(self).node_id(),
            final(self).node_kind() == old(self).node_kind(),
            final(self).nbrs() == old(self).nbrs(),
            final(self).topo() == old(self).topo(),
            final(self).seen() == old(self).seen(),
            final(self).fidctr() == old(self).fidctr(),
            final(self).sessctr() == old(self).sessctr(),
            final(self).pend() == old(self).pend(),
            final(self).waitq() == old(self).waitq(),
            final(self).evq() == old(self).evq(),
            final(self).reasm() == old(self).reasm(),
    {
        let mut out: Vec<(NodeId, Packet)> = Vec::new();
        core::mem::swap(&mut out, &mut self.outbox);
        proof {
            assert(self.outbox@ =~= Seq::<(NodeId, Packet)>::empty());
        }
        out
    }

    /// Hands the queued upward events to the application layer, leaving the
    /// event queue empty.
    pub fn take_events(&mut self) -> (r: Vec<EngineEvent>)
        requires
            old(self).wf(),
        ensures
            final(self).wf(),
            r@ == old(self).evq(),
            final(self).evq() == Seq::<EngineEvent>::empty(),
            final(self).node_id() == old(self).node_id(),
            final(self).node_kind() == old(self).node_kind(),
            final(self).nbrs() == old(self).nbrs(),
            final(self).topo() == old(self).topo(),
            final(self).seen() == old(self).seen(),
            final(self).fidctr() == old(self).fidctr(),
            final(self).sessctr() == old(self).sessctr(),
            final(self).pend() == old(self).pend(),
            final(self).waitq() == old(self).waitq(),
            final(self).outq() == old(self).outq(),
            final(self).reasm() == old(self).reasm(),
    {
        let mut out: Vec<EngineEvent> = Vec::new();
        core::mem::swap(&mut out, &mut self.events);
        proof {
            assert(self.events@ =~= Seq::<EngineEvent>::empty());
        }
        out
    }
}

} // verus!
