use vstd::prelude::*;

use crate::clock::{admits, merged, ClockMap, VectorClock};
use crate::message::{MessageView, PeerMessage};
use crate::store::ClockStore;

verus! {

/// Whether `m` may be surfaced against the local clock `local`.
pub open spec fn deliverable(local: ClockMap, m: MessageView) -> bool {
    admits(local, m.sender, m.clocks)
}

/// `i` is the first entry of `buf` that may be delivered against `local`.
pub open spec fn is_first_ready(local: ClockMap, buf: Seq<MessageView>, i: int) -> bool {
    &&& 0 <= i < buf.len()
    &&& deliverable(local, buf[i])
    &&& forall|j: int| 0 <= j < i ==> !deliverable(local, #[trigger] buf[j])
}

/// The first entry of `buf` that may be delivered against `local`, if any.
pub open spec fn first_ready(local: ClockMap, buf: Seq<MessageView>) -> Option<int> {
    if exists|i: int| is_first_ready(local, buf, i) {
        Some(choose|i: int| is_first_ready(local, buf, i))
    } else {
        None
    }
}

/// What a rescan leaves: the clock, the entries still held, and the entries
/// delivered in the order they were delivered.
pub struct RescanView {
    pub clocks: ClockMap,
    pub pending: Seq<MessageView>,
    pub delivered: Seq<MessageView>,
}

/// A rescan of `buf` against `local`: deliver the first entry that may be delivered,
/// merge its clock, and start over from the head, until no entry may be delivered.
pub open spec fn rescan(local: ClockMap, buf: Seq<MessageView>) -> RescanView
    decreases buf.len(),
{
    match first_ready(local, buf) {
        Some(i) => if 0 <= i < buf.len() {
            let r = rescan(merged(local, buf[i].clocks), buf.remove(i));
            RescanView { clocks: r.clocks, pending: r.pending, delivered: seq![buf[i]] + r.delivered }
        } else {
            RescanView { clocks: local, pending: buf, delivered: Seq::empty() }
        },
        None => RescanView { clocks: local, pending: buf, delivered: Seq::empty() },
    }
}

/// The views of a list of messages.
pub open spec fn views(s: Seq<PeerMessage>) -> Seq<MessageView> {
    s.map_values(|m: PeerMessage| m@)
}

/// Every message of the list has a well-formed clock.
pub open spec fn all_wf(s: Seq<PeerMessage>) -> bool {
    forall|i: int| 0 <= i < s.len() ==> (#[trigger] s[i]).wf()
}

/// The engine as the contracts see it.
pub struct EngineView {
    pub clocks: ClockMap,
    pub pending: Seq<MessageView>,
    pub delivered: Seq<MessageView>,
}

/// One message handed to the engine: delivered, merged, and followed by a rescan of
/// the held messages if it may be delivered; held back otherwise.
pub open spec fn deliver_step(e: EngineView, m: MessageView) -> EngineView {
    if deliverable(e.clocks, m) {
        let after = rescan(merged(e.clocks, m.clocks), e.pending);
        EngineView {
            clocks: after.clocks,
            pending: after.pending,
            delivered: e.delivered.push(m) + after.delivered,
        }
    } else {
        EngineView { pending: e.pending.push(m), ..e }
    }
}

/// The messages `ms` handed to the engine one after another, first to last.
pub open spec fn deliver_each(e: EngineView, ms: Seq<MessageView>) -> EngineView
    decreases ms.len(),
{
    if ms.len() == 0 {
        e
    } else {
        deliver_step(deliver_each(e, ms.drop_last()), ms.last())
    }
}

/// What happened to a message handed to the engine.
#[derive(PartialEq, Eq, Structural, Debug, Clone, Copy)]
pub enum Outcome {
    /// It was surfaced, and the clock merged.
    Delivered,
    /// It is held back until the clock catches up with it.
    Buffered,
}

/// The messages that arrived before they could be delivered, oldest first.
pub struct PendingBuffer {
    queue: Vec<PeerMessage>,
}

impl View for PendingBuffer {
    type V = Seq<MessageView>;

    closed spec fn view(&self) -> Seq<MessageView> {
        views(self.queue@)
    }
}

impl PendingBuffer {
    pub closed spec fn wf(&self) -> bool {
        all_wf(self.queue@)
    }

    /// An empty buffer.
    pub fn new() -> (r: PendingBuffer)
        ensures
            r.wf(),
            r@ == Seq::<MessageView>::empty(),
    {
        PendingBuffer { queue: Vec::new() }
    }

    /// The number of messages held.
    pub fn len(&self) -> (n: usize)
        ensures
            n == self@.len(),
    {
        self.queue.len()
    }

    /// Holds `m` behind the messages already held.
    pub fn push(&mut self, m: PeerMessage)
        requires
            old(self).wf(),
            m.wf(),
        ensures
            final(self).wf(),
            final(self)@ == old(self)@.push(m@),
    {
        self.queue.push(m);
        proof {
            assert(views(self.queue@) =~= views(old(self).queue@).push(m@));
        }
    }

    /// A copy of the buffer.
    pub fn copy(&self) -> (r: PendingBuffer)
        requires
            self.wf(),
        ensures
            r.wf(),
            r@ == self@,
    {
        PendingBuffer { queue: copy_messages(&self.queue) }
    }

    /// The first message held that `store` admits, if any.
    fn first_ready(&self, store: &ClockStore) -> (r: Option<usize>)
        requires
            self.wf(),
            store.wf(),
        ensures
            r matches Some(i) ==> is_first_ready(store@, self@, i as int),
            r is None ==> forall|i: int|
                0 <= i < self@.len() ==> !deliverable(store@, #[trigger] self@[i]),
    {
        let mut i: usize = 0;
        while i < self.queue.len()
            invariant
                self.wf(),
                store.wf(),
                i <= self@.len(),
                self@.len() == self.queue@.len(),
                forall|j: int| 0 <= j < i ==> !deliverable(store@, #[trigger] self@[j]),
            decreases self.queue@.len() - i,
        {
            let m = &self.queue[i];
            assert(self.queue@[i as int].wf());
            if store.admits(&m.sender, &m.clocks) {
                return Some(i);
            }
            i = i + 1;
        }
        None
    }

    /// Takes out the message at `i`.
    fn take(&mut self, i: usize) -> (m: PeerMessage)
        requires
            old(self).wf(),
            i < old(self)@.len(),
        ensures
            final(self).wf(),
            m.wf(),
            m@ == old(self)@[i as int],
            final(self)@ == old(self)@.remove(i as int),
    {
        let m = self.queue.remove(i);
        proof {
            assert(old(self).queue@[i as int] == m);
            assert(views(self.queue@) =~= views(old(self).queue@).remove(i as int));
            assert forall|j: int| 0 <= j < self.queue@.len() implies (
            #[trigger] self.queue@[j]).wf() by {
                if j < i {
                    assert(self.queue@[j] == old(self).queue@[j]);
                } else {
                    assert(self.queue@[j] == old(self).queue@[j + 1]);
                }
            }
        }
        m
    }
}

/// Copies of a list of messages.
pub(crate) fn copy_messages(v: &Vec<PeerMessage>) -> (r: Vec<PeerMessage>)
    requires
        all_wf(v@),
    ensures
        all_wf(r@),
        views(r@) == views(v@),
{
    let mut out: Vec<PeerMessage> = Vec::new();
    let mut i: usize = 0;
    while i < v.len()
        invariant
            i <= v@.len(),
            all_wf(v@),
            all_wf(out@),
            out@.len() == i,
            views(out@) == views(v@.take(i as int)),
        decreases v@.len() - i,
    {
        assert(v@[i as int].wf());
        let m = v[i].copy();
        let ghost before = out@;
        out.push(m);
        proof {
            assert forall|j: int| 0 <= j <= i implies #[trigger] views(out@)[j] == views(
                v@.take(i as int + 1),
            )[j] by {
                if j < i {
                    assert(views(before)[j] == views(v@.take(i as int))[j]);
                    assert(out@[j] == before[j]);
                }
            }
            assert(views(out@) =~= views(v@.take(i as int + 1)));
            assert forall|j: int| 0 <= j < out@.len() implies (#[trigger] out@[j]).wf() by {
                if j < before.len() {
                    assert(out@[j] == before[j]);
                }
            }
        }
        i = i + 1;
    }
    proof {
        assert(v@.take(v@.len() as int) =~= v@);
    }
    out
}

/// Tests incoming messages for causal order, merges those that pass into the clock
/// store, holds back the others and delivers them once the clock has caught up.
/// Delivered messages collect in order until they are taken.
pub struct DeliveryEngine {
    store: ClockStore,
    pending: PendingBuffer,
    delivered: Vec<PeerMessage>,
}

impl View for DeliveryEngine {
    type V = EngineView;

    closed spec fn view(&self) -> EngineView {
        EngineView {
            clocks: self.store@,
            pending: self.pending@,
            delivered: views(self.delivered@),
        }
    }
}

impl DeliveryEngine {
    pub closed spec fn wf(&self) -> bool {
        &&& self.store.wf()
        &&& self.pending.wf()
        &&& all_wf(self.delivered@)
    }

    /// An engine over `store`, holding nothing and having delivered nothing.
    pub fn new(store: ClockStore) -> (r: DeliveryEngine)
        requires
            store.wf(),
        ensures
            r.wf(),
            r@.clocks == store@,
            r@.pending == Seq::<MessageView>::empty(),
            r@.delivered == Seq::<MessageView>::empty(),
    {
        let r = DeliveryEngine { store, pending: PendingBuffer::new(), delivered: Vec::new() };
        proof {
            assert(views(r.delivered@) =~= Seq::<MessageView>::empty());
        }
        r
    }

    /// A copy of the engine.
    pub fn copy(&self) -> (r: DeliveryEngine)
        requires
            self.wf(),
        ensures
            r.wf(),
            r@ == self@,
    {
        DeliveryEngine {
            store: self.store.copy(),
            pending: self.pending.copy(),
            delivered: copy_messages(&self.delivered),
        }
    }

    /// The clock store.
    pub fn store(&self) -> (r: &ClockStore)
        requires
            self.wf(),
        ensures
            r.wf(),
            r@ == self@.clocks,
    {
        &self.store
    }

    /// The number of messages held back.
    pub fn pending_len(&self) -> (n: usize)
        ensures
            n == self@.pending.len(),
    {
        self.pending.len()
    }

    /// Registers `id` at zero if the store does not know it yet.
    pub fn register(&mut self, id: &String)
        requires
            old(self).wf(),
        ensures
            final(self).wf(),
            final(self)@.clocks == (if old(self)@.clocks.contains_key(id@) {
                old(self)@.clocks
            } else {
                old(self)@.clocks.insert(id@, 0)
            }),
            final(self)@.pending == old(self)@.pending,
            final(self)@.delivered == old(self)@.delivered,
    {
        self.store.register(id);
    }

    /// Counts one more message of this node, `id`, and returns the clock to stamp it
    /// with; `None`, with nothing changed, where `id` is unknown or at its largest.
    pub fn self_increment(&mut self, id: &String) -> (r: Option<VectorClock>)
        requires
            old(self).wf(),
        ensures
            final(self).wf(),
            r is Some <==> old(self)@.clocks.contains_key(id@) && old(self)@.clocks[id@]
                < u32::MAX,
            r is None ==> final(self)@ == old(self)@,
            r matches Some(c) ==> c.wf() && final(self)@.clocks == old(self)@.clocks.insert(
                id@,
                (old(self)@.clocks[id@] + 1) as u32,
            ) && c@ == final(self)@.clocks,
            final(self)@.pending == old(self)@.pending,
            final(self)@.delivered == old(self)@.delivered,
    {
        self.store.self_increment(id)
    }

    /// Hands over the messages delivered so far, oldest first, and forgets them.
    pub fn take_delivered(&mut self) -> (r: Vec<PeerMessage>)
        requires
            old(self).wf(),
        ensures
            final(self).wf(),
            views(r@) == old(self)@.delivered,
            all_wf(r@),
            final(self)@.clocks == old(self)@.clocks,
            final(self)@.pending == old(self)@.pending,
            final(self)@.delivered == Seq::<MessageView>::empty(),
    {
        let mut r: Vec<PeerMessage> = Vec::new();
        std::mem::swap(&mut r, &mut self.delivered);
        proof {
            assert(views(self.delivered@) =~= Seq::<MessageView>::empty());
        }
        r
    }

    /// Delivers held messages for as long as one of them may be delivered, always the
    /// oldest such one first.
    pub fn rescan(&mut self)
        requires
            old(self).wf(),
        ensures
            final(self).wf(),
            final(self)@.clocks == rescan(old(self)@.clocks, old(self)@.pending).clocks,
            final(self)@.pending == rescan(old(self)@.clocks, old(self)@.pending).pending,
            final(self)@.delivered == old(self)@.delivered + rescan(
                old(self)@.clocks,
                old(self)@.pending,
            ).delivered,
    {
        let ghost r0 = rescan(self@.clocks, self@.pending);
        let ghost d0 = self@.delivered;
        proof {
            assert(d0 + r0.delivered =~= self@.delivered + r0.delivered);
        }
        loop
            invariant
                self.wf(),
                rescan(self@.clocks, self@.pending).clocks == r0.clocks,
                rescan(self@.clocks, self@.pending).pending == r0.pending,
                self@.delivered + rescan(self@.clocks, self@.pending).delivered == d0
                    + r0.delivered,
            ensures
                self.wf(),
                self@.clocks == r0.clocks,
                self@.pending == r0.pending,
                self@.delivered == d0 + r0.delivered,
            decreases self@.pending.len(),
        {
            match self.pending.first_ready(&self.store) {
                Some(i) => {
                    let ghost c = self@.clocks;
                    let ghost p = self@.pending;
                    let ghost d = self@.delivered;
                    proof {
                        assert(first_ready(c, p) == Some(i as int)) by {
                            let k = choose|k: int| is_first_ready(c, p, k);
                            if k < i {
                                assert(!deliverable(c, p[k]));
                            }
                            if k > i {
                                assert(!deliverable(c, p[i as int]));
                            }
                        }
                    }
                    let m = self.pending.take(i);
                    self.store.merge(&m.clocks);
                    self.delivered.push(m);
                    proof {
                        assert(views(self.delivered@) =~= d.push(m@));
                        let r = rescan(merged(c, p[i as int].clocks), p.remove(i as int));
                        assert(d.push(m@) + r.delivered =~= d + (seq![p[i as int]]
                            + r.delivered));
                    }
                },
                None => {
                    proof {
                        let c = self@.clocks;
                        let p = self@.pending;
                        if exists|k: int| is_first_ready(c, p, k) {
                            let k = choose|k: int| is_first_ready(c, p, k);
                            assert(!deliverable(c, p[k]));
                        }
                        assert(first_ready(c, p) is None);
                        assert(rescan(c, p) == RescanView { clocks: c, pending: p, delivered: Seq::empty() });
                        assert(self@.delivered + Seq::<MessageView>::empty() =~= self@.delivered);
                    }
                    break;
                },
            }
        }
    }

    /// Delivers `m` if it is the next message of its sender and depends on nothing
    /// this node has not seen, then delivers whatever that frees among the held
    /// messages; holds `m` back otherwise.
    pub fn deliver(&mut self, m: PeerMessage) -> (r: Outcome)
        requires
            old(self).wf(),
            m.wf(),
        ensures
            final(self).wf(),
            r == (if deliverable(old(self)@.clocks, m@) {
                Outcome::Delivered
            } else {
                Outcome::Buffered
            }),
            final(self)@ == deliver_step(old(self)@, m@),
    {
        if self.store.admits(&m.sender, &m.clocks) {
            self.store.merge(&m.clocks);
            let ghost d = self@.delivered;
            self.delivered.push(m);
            proof {
                assert(views(self.delivered@) =~= d.push(m@));
            }
            self.rescan();
            Outcome::Delivered
        } else {
            self.pending.push(m);
            Outcome::Buffered
        }
    }
}

} // verus!
