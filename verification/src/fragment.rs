//! Fragment codec: splits an outgoing byte payload into an ordered sequence of
//! fixed-capacity fragments, and reassembles inbound fragments (keyed by
//! session and origin) back into the original payload.

use vstd::prelude::*;
use crate::NodeId;

verus! {

/// Capacity of one fragment's payload chunk, in bytes.
pub const FRAGMENT_CAPACITY: usize = 128;

/// One unit of a fragmented message. The session identifier and routing
/// header are stamped on by the delivery engine, not the codec.
pub struct Fragment {
    /// Zero-based, contiguous position of this chunk within its message.
    pub index: u64,
    /// Number of fragments of the whole message; fixed at send time and
    /// identical across all fragments of a session.
    pub total: u64,
    /// The chunk itself; at most `FRAGMENT_CAPACITY` bytes, and shorter only
    /// for the last chunk of a message.
    pub data: Vec<u8>,
}

/// How many chunks a payload of `len` bytes splits into: ceiling division,
/// except that the empty payload still yields one (empty) chunk, so that
/// every session has at least one fragment to acknowledge.
pub open spec fn chunk_count(len: nat) -> nat {
    if len == 0 {
        1
    } else {
        (len + (FRAGMENT_CAPACITY - 1) as nat) / (FRAGMENT_CAPACITY as nat)
    }
}

/// The `i`-th chunk of `payload`: bytes `[CAP*i, CAP*(i+1))`, clipped to the
/// payload's end.
pub open spec fn chunk_of(payload: Seq<u8>, i: int) -> Seq<u8> {
    let start = (FRAGMENT_CAPACITY as int) * i;
    let end = if (FRAGMENT_CAPACITY as int) * (i + 1) <= payload.len() {
        (FRAGMENT_CAPACITY as int) * (i + 1)
    } else {
        payload.len() as int
    };
    payload.subrange(start, end)
}

/// The ordered sequence of all chunks of `payload`.
pub open spec fn chunks_of(payload: Seq<u8>) -> Seq<Seq<u8>> {
    Seq::new(chunk_count(payload.len()), |i: int| chunk_of(payload, i))
}

/// Concatenation of a sequence of chunks, in order.
pub open spec fn join(chunks: Seq<Seq<u8>>) -> Seq<u8>
    decreases chunks.len(),
{
    if chunks.len() == 0 {
        Seq::<u8>::empty()
    } else {
        chunks.first() + join(chunks.drop_first())
    }
}

/// Appending a chunk appends its bytes to the joined whole.
pub proof fn lemma_join_push(chunks: Seq<Seq<u8>>, x: Seq<u8>)
    ensures
        join(chunks.push(x)) == join(chunks) + x,
    decreases chunks.len(),
{
    let p = chunks.push(x);
    if chunks.len() == 0 {
        assert(p.drop_first() =~= Seq::<Seq<u8>>::empty());
        assert(join(Seq::<Seq<u8>>::empty()) == Seq::<u8>::empty());
        assert(join(p) == x + Seq::<u8>::empty());
        assert(join(p) =~= x);
        assert(join(chunks) + x =~= x);
    } else {
        assert(p.drop_first() =~= chunks.drop_first().push(x));
        lemma_join_push(chunks.drop_first(), x);
        assert(join(p) == chunks.first() + (join(chunks.drop_first()) + x));
        assert(chunks.first() + (join(chunks.drop_first()) + x)
            =~= (chunks.first() + join(chunks.drop_first())) + x);
        assert(join(chunks) == chunks.first() + join(chunks.drop_first()));
    }
}

/// Splitting a payload into chunks and joining them again gives back exactly
/// the original payload.
pub proof fn lemma_join_chunks_of(payload: Seq<u8>)
    ensures
        join(chunks_of(payload)) == payload,
    decreases payload.len(),
{
    let cap = FRAGMENT_CAPACITY as int;
    if payload.len() <= FRAGMENT_CAPACITY {
        assert(chunks_of(payload).len() == 1);
        assert(chunks_of(payload).first() =~= payload);
        assert(chunks_of(payload).drop_first() =~= Seq::<Seq<u8>>::empty());
        assert(join(Seq::<Seq<u8>>::empty()) == Seq::<u8>::empty());
        assert(join(chunks_of(payload)) == payload + Seq::<u8>::empty());
        assert(payload + Seq::<u8>::empty() =~= payload);
    } else {
        let rest = payload.skip(cap);
        assert(chunks_of(payload).drop_first() =~~= chunks_of(rest)) by {
            assert(chunk_count(payload.len()) == 1 + chunk_count(rest.len()));
            assert forall|i: int| 0 <= i < chunk_count(rest.len()) implies
                chunk_of(payload, i + 1) =~= chunk_of(rest, i) by {
                assert(rest.len() == payload.len() - cap);
            }
        }
        lemma_join_chunks_of(rest);
        assert(chunks_of(payload).first() =~= payload.take(cap));
        assert(payload.take(cap) + rest =~= payload);
    }
}

/// Splits `payload` into its chunks, each carried by a `Fragment` stamped
/// with its index and the total count. The empty payload yields exactly one
/// empty fragment.
pub fn fragment(payload: &Vec<u8>) -> (r: Vec<Fragment>)
    ensures
        r@.len() == chunk_count(payload@.len()),
        forall|i: int| 0 <= i < r@.len() ==> (#[trigger] r@[i]).index == i,
        forall|i: int| 0 <= i < r@.len() ==> (#[trigger] r@[i]).total == r@.len(),
        forall|i: int| 0 <= i < r@.len() ==> (#[trigger] r@[i]).data@ == chunk_of(payload@, i),
{
    let len = payload.len();
    let total: usize = if len == 0 {
        1
    } else {
        (len - 1) / FRAGMENT_CAPACITY + 1
    };
    assert(total == chunk_count(payload@.len()));
    let mut r: Vec<Fragment> = Vec::new();
    let mut i: usize = 0;
    while i < total
        invariant
            i <= total,
            total == chunk_count(payload@.len()),
            len == payload@.len(),
            total <= len + 1,
            r@.len() == i,
            forall|k: int| 0 <= k < i ==> (#[trigger] r@[k]).index == k,
            forall|k: int| 0 <= k < i ==> (#[trigger] r@[k]).total == total,
            forall|k: int| 0 <= k < i ==> (#[trigger] r@[k]).data@ == chunk_of(payload@, k),
        decreases total - i,
    {
        let start = i * FRAGMENT_CAPACITY;
        assert(start <= len);
        let end = if len - start > FRAGMENT_CAPACITY {
            start + FRAGMENT_CAPACITY
        } else {
            len
        };
        let mut data: Vec<u8> = Vec::new();
        let mut j = start;
        while j < end
            invariant
                start <= j <= end,
                end <= len,
                len == payload@.len(),
                data@ == payload@.subrange(start as int, j as int),
            decreases end - j,
        {
            data.push(payload[j]);
            assert(data@ =~= payload@.subrange(start as int, j + 1 as int));
            j += 1;
        }
        assert(data@ =~= chunk_of(payload@, i as int));
        r.push(Fragment { index: i as u64, total: total as u64, data });
        i += 1;
    }
    r
}

/// A byte-for-byte copy of `v`.
pub(crate) fn copy_bytes(v: &Vec<u8>) -> (r: Vec<u8>)
    ensures
        r@ == v@,
{
    let mut r: Vec<u8> = Vec::new();
    let mut i: usize = 0;
    while i < v.len()
        invariant
            i <= v@.len(),
            r@ == v@.subrange(0, i as int),
        decreases v@.len() - i,
    {
        r.push(v[i]);
        assert(r@ =~= v@.subrange(0, i + 1 as int));
        i += 1;
    }
    assert(r@ =~= v@);
    r
}

/// A partially reassembled message: the chunks received so far for one
/// (session, origin) key. Slot `i` holds the chunk of fragment index `i`.
pub struct ReassemblyBuffer {
    session: u64,
    origin: NodeId,
    slots: Vec<Option<Vec<u8>>>,
}

/// Accumulates inbound fragments, keyed by (session identifier, originating
/// node), until all indices of a message are present; then yields the
/// concatenated payload and discards the buffer.
pub struct FragmentAssembler {
    buffers: Vec<ReassemblyBuffer>,
}

/// The abstract content of one received chunk slot.
pub open spec fn slot_view(o: Option<Vec<u8>>) -> Option<Seq<u8>> {
    match o {
        Some(v) => Some(v@),
        None => None,
    }
}

/// The abstract content of a buffer's slots.
pub open spec fn view_slots(slots: Seq<Option<Vec<u8>>>) -> Seq<Option<Seq<u8>>> {
    slots.map_values(|o: Option<Vec<u8>>| slot_view(o))
}

/// Whether every chunk of a message has been received.
pub open spec fn all_filled(slots: Seq<Option<Seq<u8>>>) -> bool {
    forall|i: int| 0 <= i < slots.len() ==> (#[trigger] slots[i]) is Some
}

/// The bytes of one slot; empty where the chunk is still missing.
pub open spec fn slot_data(o: Option<Seq<u8>>) -> Seq<u8> {
    match o {
        Some(d) => d,
        None => Seq::<u8>::empty(),
    }
}

/// The payload a buffer reassembles to: its chunks concatenated in slot
/// order. Meaningful once `all_filled` holds.
pub open spec fn assembled(slots: Seq<Option<Seq<u8>>>) -> Seq<u8> {
    join(slots.map_values(|o: Option<Seq<u8>>| slot_data(o)))
}

impl FragmentAssembler {
    /// The entry at position `i` belongs to the (session, origin) key.
    pub closed spec fn matches_at(self, i: int, session: u64, origin: NodeId) -> bool {
        &&& 0 <= i < self.buffers@.len()
        &&& self.buffers@[i].session == session
        &&& self.buffers@[i].origin == origin
    }

    /// Whether a reassembly is in progress for the key.
    pub closed spec fn has_buffer(self, session: u64, origin: NodeId) -> bool {
        exists|i: int| self.matches_at(i, session, origin)
    }

    /// The chunk slots of the key's buffer (meaningful when `has_buffer`).
    pub closed spec fn slots_of(self, session: u64, origin: NodeId) -> Seq<Option<Seq<u8>>> {
        let i = choose|i: int| self.matches_at(i, session, origin);
        view_slots(self.buffers@[i].slots@)
    }

    /// At most one buffer per (session, origin) key.
    pub closed spec fn wf(self) -> bool {
        forall|i: int, j: int| 0 <= i < j < self.buffers@.len() ==> (
            (#[trigger] self.buffers@[i]).session != (#[trigger] self.buffers@[j]).session
            || self.buffers@[i].origin != self.buffers@[j].origin)
    }

    proof fn lemma_key_unique(self, i: int, j: int, session: u64, origin: NodeId)
        requires
            self.wf(),
            self.matches_at(i, session, origin),
            self.matches_at(j, session, origin),
        ensures
            i == j,
    {
    }

    /// An assembler with no reassembly in progress.
    pub fn new() -> (r: Self)
        ensures
            r.wf(),
            forall|s: u64, o: NodeId| !(#[trigger] r.has_buffer(s, o)),
    {
        FragmentAssembler { buffers: Vec::new() }
    }

    fn find_buffer(&self, session: u64, origin: NodeId) -> (r: Option<usize>)
        ensures
            match r {
                Some(i) => self.matches_at(i as int, session, origin),
                None => !self.has_buffer(session, origin),
            },
    {
        let mut i: usize = 0;
        while i < self.buffers.len()
            invariant
                i <= self.buffers@.len(),
                forall|j: int| 0 <= j < i ==> !self.matches_at(j, session, origin),
            decreases self.buffers@.len() - i,
        {
            if self.buffers[i].session == session && self.buffers[i].origin == origin {
                return Some(i);
            }
            i += 1;
        }
        None
    }
}

/// The chunk slots `accept` integrates a fragment into: the key's existing
/// buffer, or a fresh all-empty one sized by the fragment's declared total.
pub open spec fn prior_slots(
    a: FragmentAssembler,
    frag: Fragment,
    session: u64,
    origin: NodeId,
) -> Seq<Option<Seq<u8>>> {
    if a.has_buffer(session, origin) {
        a.slots_of(session, origin)
    } else {
        Seq::new(frag.total as nat, |i: int| None::<Seq<u8>>)
    }
}

/// A fragment is dropped rather than integrated when its index lies outside
/// the buffer for its key (an existing buffer's size governs; a fresh one is
/// sized by the fragment's declared total), or when that declared total
/// cannot size a buffer at all.
pub open spec fn accept_drops(
    a: FragmentAssembler,
    frag: Fragment,
    session: u64,
    origin: NodeId,
) -> bool {
    ||| frag.index >= prior_slots(a, frag, session, origin).len()
    ||| (!a.has_buffer(session, origin) && frag.total > usize::MAX)
}

impl FragmentAssembler {
    /// Removing the sole entry of a key keeps every other key's buffer as it
    /// was and leaves the removed key without one.
    proof fn lemma_remove_entry(a1: Self, a2: Self, i: int, session: u64, origin: NodeId)
        requires
            a1.wf(),
            a1.matches_at(i, session, origin),
            a2.buffers@ == a1.buffers@.remove(i),
        ensures
            a2.wf(),
            !a2.has_buffer(session, origin),
            forall|s: u64, o: NodeId|
                #![trigger a2.has_buffer(s, o)]
                #![trigger a1.has_buffer(s, o)]
                !(s == session && o == origin) ==> (
                    a2.has_buffer(s, o) == a1.has_buffer(s, o)
                    && (a1.has_buffer(s, o) ==> a2.slots_of(s, o) == a1.slots_of(s, o))),
    {
        assert forall|k: int| 0 <= k < a2.buffers@.len() implies
            #[trigger] a2.buffers@[k] == (if k < i {
                a1.buffers@[k]
            } else {
                a1.buffers@[k + 1]
            }) by {}
        assert forall|k: int| 0 <= k < a2.buffers@.len() implies
            !a2.matches_at(k, session, origin) by {
            let k1 = if k < i { k } else { k + 1 };
            if a2.matches_at(k, session, origin) {
                a1.lemma_key_unique(k1, i, session, origin);
            }
        }
        assert forall|s: u64, o: NodeId| !(s == session && o == origin)
            && #[trigger] a1.has_buffer(s, o) implies
            a2.has_buffer(s, o) && a2.slots_of(s, o) == a1.slots_of(s, o) by {
            let k1 = choose|k: int| a1.matches_at(k, session, origin);
            a1.lemma_key_unique(k1, i, session, origin);
            let w1 = choose|k: int| a1.matches_at(k, s, o);
            let w2 = if w1 < i { w1 } else { w1 - 1 };
            assert(a2.matches_at(w2, s, o));
            let c2 = choose|k: int| a2.matches_at(k, s, o);
            let c2up = if c2 < i { c2 } else { c2 + 1 };
            assert(a1.matches_at(c2up, s, o));
            a1.lemma_key_unique(c2up, w1, s, o);
        }
        assert forall|s: u64, o: NodeId| !(s == session && o == origin)
            && #[trigger] a2.has_buffer(s, o) implies a1.has_buffer(s, o) by {
            let w2 = choose|k: int| a2.matches_at(k, s, o);
            let w1 = if w2 < i { w2 } else { w2 + 1 };
            assert(a1.matches_at(w1, s, o));
        }
    }

    /// Appending a buffer for a key that has none keeps every other key's
    /// buffer as it was and gives the key exactly the appended slots.
    proof fn lemma_push_entry(a1: Self, a2: Self, b: ReassemblyBuffer, session: u64, origin: NodeId)
        requires
            a1.wf(),
            !a1.has_buffer(session, origin),
            a2.buffers@ == a1.buffers@.push(b),
            b.session == session,
            b.origin == origin,
        ensures
            a2.wf(),
            a2.has_buffer(session, origin),
            a2.slots_of(session, origin) == view_slots(b.slots@),
            forall|s: u64, o: NodeId|
                #![trigger a2.has_buffer(s, o)]
                #![trigger a1.has_buffer(s, o)]
                !(s == session && o == origin) ==> (
                    a2.has_buffer(s, o) == a1.has_buffer(s, o)
                    && (a1.has_buffer(s, o) ==> a2.slots_of(s, o) == a1.slots_of(s, o))),
    {
        let n = a1.buffers@.len() as int;
        assert(a2.matches_at(n, session, origin));
        assert forall|k: int| 0 <= k < n implies
            !a1.matches_at(k, session, origin) by {}
        assert(a2.wf()) by {
            assert forall|k: int, l: int| 0 <= k < l < a2.buffers@.len() implies
                ((#[trigger] a2.buffers@[k]).session != (#[trigger] a2.buffers@[l]).session
                || a2.buffers@[k].origin != a2.buffers@[l].origin) by {
                if l < n {
                    assert(a2.buffers@[k] == a1.buffers@[k]);
                    assert(a2.buffers@[l] == a1.buffers@[l]);
                } else {
                    assert(a2.buffers@[l] == b);
                    assert(a2.buffers@[k] == a1.buffers@[k]);
                    assert(!a1.matches_at(k, session, origin));
                }
            }
        }
        let c = choose|k: int| a2.matches_at(k, session, origin);
        a2.lemma_key_unique(c, n, session, origin);
        assert forall|s: u64, o: NodeId| !(s == session && o == origin)
            && #[trigger] a1.has_buffer(s, o) implies
            a2.has_buffer(s, o) && a2.slots_of(s, o) == a1.slots_of(s, o) by {
            let w1 = choose|k: int| a1.matches_at(k, s, o);
            assert(a2.matches_at(w1, s, o));
            let c2 = choose|k: int| a2.matches_at(k, s, o);
            assert(c2 < n);
            assert(a1.matches_at(c2, s, o));
            a1.lemma_key_unique(c2, w1, s, o);
        }
        assert forall|s: u64, o: NodeId| !(s == session && o == origin)
            && #[trigger] a2.has_buffer(s, o) implies a1.has_buffer(s, o) by {
            let w2 = choose|k: int| a2.matches_at(k, s, o);
            assert(w2 < n);
            assert(a1.matches_at(w2, s, o));
        }
    }

    /// Integrates one inbound fragment for the (session, origin) key.
    /// A duplicate index overwrites its slot rather than erring; a fragment
    /// whose index does not fit its key's buffer is dropped. Once every chunk
    /// of the message is present the concatenated payload is returned and the
    /// buffer discarded. Reassemblies under other keys are never touched.
    pub fn accept(&mut self, frag: &Fragment, session: u64, origin: NodeId) -> (r: Option<Vec<u8>>)
        requires
            old(self).wf(),
        ensures
            final(self).wf(),
            forall|s: u64, o: NodeId|
                #![trigger final(self).has_buffer(s, o)]
                #![trigger old(self).has_buffer(s, o)]
                !(s == session && o == origin) ==> (
                    final(self).has_buffer(s, o) == old(self).has_buffer(s, o)
                    && (old(self).has_buffer(s, o) ==>
                        final(self).slots_of(s, o) == old(self).slots_of(s, o))),
            accept_drops(*old(self), *frag, session, origin) ==> (
                r is None && *final(self) == *old(self)),
            !accept_drops(*old(self), *frag, session, origin) ==> ({
                let updated = prior_slots(*old(self), *frag, session, origin)
                    .update(frag.index as int, Some(frag.data@));
                if all_filled(updated) {
                    &&& (r matches Some(p) && p@ == assembled(updated))
                    &&& !final(self).has_buffer(session, origin)
                } else {
                    &&& r is None
                    &&& final(self).has_buffer(session, origin)
                    &&& final(self).slots_of(session, origin) == updated
                }
            }),
    {
        let ghost prior = prior_slots(*old(self), *frag, session, origin);
        let ghost had = old(self).has_buffer(session, origin);
        let ghost mut removed_at: int = 0;
        let found = self.find_buffer(session, origin);
        let mut buf: ReassemblyBuffer;
        match found {
            Some(i) => {
                proof {
                    let w = choose|k: int| old(self).matches_at(k, session, origin);
                    assert(old(self).has_buffer(session, origin));
                    old(self).lemma_key_unique(i as int, w, session, origin);
                    assert(prior == view_slots(old(self).buffers@[i as int].slots@));
                    removed_at = i as int;
                }
                if frag.index >= self.buffers[i].slots.len() as u64 {
                    proof {
                        assert(prior.len() == old(self).buffers@[i as int].slots@.len());
                        assert(accept_drops(*old(self), *frag, session, origin));
                    }
                    return None;
                }
                buf = self.buffers.remove(i);
            }
            None => {
                if frag.total == 0 || frag.total > usize::MAX as u64 || frag.index >= frag.total {
                    proof {
                        assert(prior.len() == frag.total as nat);
                        assert(accept_drops(*old(self), *frag, session, origin));
                    }
                    return None;
                }
                let total = frag.total as usize;
                let mut slots: Vec<Option<Vec<u8>>> = Vec::new();
                while slots.len() < total
                    invariant
                        slots@.len() <= total,
                        forall|k: int| 0 <= k < slots@.len() ==> (#[trigger] slots@[k]) is None,
                    decreases total - slots@.len(),
                {
                    slots.push(None);
                }
                proof {
                    assert(view_slots(slots@) =~= prior);
                }
                buf = ReassemblyBuffer { session, origin, slots };
            }
        }
        let ghost mid = *self;
        proof {
            if had {
                Self::lemma_remove_entry(*old(self), mid, removed_at, session, origin);
            }
            assert(!mid.has_buffer(session, origin));
            assert(view_slots(buf.slots@) == prior);
            assert(!accept_drops(*old(self), *frag, session, origin));
        }
        let idx = frag.index as usize;
        let data = copy_bytes(&frag.data);
        buf.slots[idx] = Some(data);
        let ghost updated = prior.update(frag.index as int, Some(frag.data@));
        proof {
            assert(view_slots(buf.slots@) =~= updated);
        }
        let mut complete = true;
        let mut j: usize = 0;
        while j < buf.slots.len()
            invariant
                j <= buf.slots@.len(),
                view_slots(buf.slots@) == updated,
                complete ==> forall|k: int| 0 <= k < j ==> (#[trigger] updated[k]) is Some,
                !complete ==> !all_filled(updated),
            decreases buf.slots@.len() - j,
        {
            if buf.slots[j].is_none() {
                proof {
                    assert(updated[j as int] is None);
                }
                complete = false;
            }
            j += 1;
        }
        if complete {
            assert(all_filled(updated));
            let ghost m = updated.map_values(|o: Option<Seq<u8>>| slot_data(o));
            let mut out: Vec<u8> = Vec::new();
            let mut k: usize = 0;
            proof {
                assert(out@ =~= join(m.take(0)));
            }
            while k < buf.slots.len()
                invariant
                    k <= buf.slots@.len(),
                    view_slots(buf.slots@) == updated,
                    all_filled(updated),
                    m == updated.map_values(|o: Option<Seq<u8>>| slot_data(o)),
                    out@ == join(m.take(k as int)),
                decreases buf.slots@.len() - k,
            {
                match &buf.slots[k] {
                    Some(d) => {
                        let mut t: usize = 0;
                        while t < d.len()
                            invariant
                                t <= d@.len(),
                                out@ == join(m.take(k as int)) + d@.subrange(0, t as int),
                            decreases d@.len() - t,
                        {
                            out.push(d[t]);
                            assert(out@ =~= join(m.take(k as int)) + d@.subrange(0, t + 1 as int));
                            t += 1;
                        }
                        proof {
                            assert(m[k as int] == d@);
                            assert(m.take(k + 1 as int) =~= m.take(k as int).push(m[k as int]));
                            lemma_join_push(m.take(k as int), m[k as int]);
                            assert(d@.subrange(0, d@.len() as int) =~= d@);
                            assert(out@ == join(m.take(k + 1 as int)));
                        }
                    }
                    None => {
                        proof {
                            assert(updated[k as int] is Some);
                            assert(false);
                        }
                    }
                }
                k += 1;
            }
            proof {
                assert(m.take(m.len() as int) =~= m);
                assert(out@ == assembled(updated));
                assert(*self == mid);
            }
            Some(out)
        } else {
            proof {
                assert(!all_filled(updated));
            }
            let ghost pushed = buf;
            self.buffers.push(buf);
            proof {
                Self::lemma_push_entry(mid, *self, pushed, session, origin);
                assert(self.slots_of(session, origin) == updated);
            }
            None
        }
    }
}

/// Law: reassembly inverts fragmentation. For any payload, the chunk slots
/// holding exactly the chunks that `fragment` produces (slot `i` the `i`-th
/// chunk) are complete, and they assemble back to the payload itself.
pub proof fn lemma_round_trip(payload: Seq<u8>)
    ensures
        ({
            let full = Seq::new(chunk_count(payload.len()), |i: int| Some(chunk_of(payload, i)));
            all_filled(full) && assembled(full) == payload
        }),
{
    let full = Seq::new(chunk_count(payload.len()), |i: int| Some(chunk_of(payload, i)));
    let m = full.map_values(|o: Option<Seq<u8>>| slot_data(o));
    assert(m =~= chunks_of(payload));
    lemma_join_chunks_of(payload);
}

/// Law: re-delivering an already-seen fragment index does not corrupt a
/// reassembly in progress. Integrating a chunk into the slot that already
/// holds that same chunk leaves the buffer exactly as it was.
pub proof fn lemma_duplicate_fragment_unchanged(slots: Seq<Option<Seq<u8>>>, i: int, d: Seq<u8>)
    requires
        0 <= i < slots.len(),
        slots[i] == Some(d),
    ensures
        slots.update(i, Some(d)) == slots,
{
    assert(slots.update(i, Some(d)) =~= slots);
}

} // verus!
