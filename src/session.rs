use vstd::prelude::*;

use crate::message::{MessageView, PeerMessage};

verus! {

/// Where a connection stands in its protocol.
#[derive(PartialEq, Eq, Structural, Debug, Clone, Copy)]
pub enum SessionState {
    /// Made, but this side has not sent its identity yet.
    Connecting,
    /// This side sent its identity and waits for the peer's.
    Handshaking,
    /// Both identities are known; data frames flow.
    Active,
    /// Over; nothing more is handled.
    Closed,
}

/// What the transport is to do after an event. None of these sends a frame: a
/// message that arrives is delivered here or not at all, never passed on.
#[derive(PartialEq, Eq, Structural, Debug, Clone, Copy)]
pub enum Action {
    /// Nothing.
    Continue,
    /// Start a timer that reports `token` after `delay_ms` milliseconds.
    Schedule { token: u64, delay_ms: u64 },
    /// Close this connection.
    Close,
}

/// A session as the contracts see it.
pub struct SessionView {
    pub state: SessionState,
    /// The peer's identity, once it has sent it.
    pub remote: Option<Seq<char>>,
    /// Messages held back by the fault injector, oldest first, each with its timer.
    pub delayed: Seq<(u64, MessageView)>,
    /// The token the next delayed message gets.
    pub next_token: u64,
}

/// Timer tokens rise along the queue and were all handed out already.
pub open spec fn queue_ok(q: Seq<(u64, MessageView)>, next_token: u64) -> bool {
    &&& forall|i: int, j: int| 0 <= i < j < q.len() ==> q[i].0 < q[j].0
    &&& forall|i: int| 0 <= i < q.len() ==> (#[trigger] q[i]).0 < next_token
}

/// The messages of a delay queue, without their timers.
pub open spec fn queued_messages(q: Seq<(u64, MessageView)>) -> Seq<MessageView> {
    q.map_values(|x: (u64, MessageView)| x.1)
}

/// The state of one connection: its protocol state, the peer's identity and the
/// messages the fault injector holds back on it.
pub struct Session {
    state: SessionState,
    remote: Option<String>,
    delayed: Vec<(u64, PeerMessage)>,
    next_token: u64,
}

/// The view of an optional identity.
pub open spec fn remote_view(r: Option<String>) -> Option<Seq<char>> {
    match r {
        Some(s) => Some(s@),
        None => None,
    }
}

impl View for Session {
    type V = SessionView;

    closed spec fn view(&self) -> SessionView {
        SessionView {
            state: self.state,
            remote: remote_view(self.remote),
            delayed: self.delayed@.map_values(|x: (u64, PeerMessage)| (x.0, x.1@)),
            next_token: self.next_token,
        }
    }
}

impl Session {
    pub closed spec fn wf(&self) -> bool {
        &&& forall|i: int| 0 <= i < self.delayed@.len() ==> (#[trigger] self.delayed@[i]).1.wf()
        &&& queue_ok(self@.delayed, self.next_token)
    }

    /// A connection that has just been made.
    pub fn new() -> (r: Session)
        ensures
            r.wf(),
            r@ == (SessionView {
                state: SessionState::Connecting,
                remote: None,
                delayed: Seq::empty(),
                next_token: 0,
            }),
    {
        let r = Session { state: SessionState::Connecting, remote: None, delayed: Vec::new(), next_token: 0 };
        proof {
            assert(r@.delayed =~= Seq::<(u64, MessageView)>::empty());
        }
        r
    }

    /// The protocol state.
    pub fn state(&self) -> (r: SessionState)
        ensures
            r == self@.state,
    {
        self.state
    }

    /// The peer's identity, once known.
    pub fn remote(&self) -> (r: Option<&String>)
        ensures
            r matches Some(s) ==> self@.remote == Some(s@),
            r is None ==> self@.remote is None,
    {
        match &self.remote {
            Some(s) => Some(s),
            None => None,
        }
    }

    /// The number of messages held back on this connection.
    pub fn delayed_len(&self) -> (n: usize)
        ensures
            n == self@.delayed.len(),
    {
        self.delayed.len()
    }

    /// The token the next delayed message gets.
    pub fn next_token(&self) -> (r: u64)
        ensures
            r == self@.next_token,
    {
        self.next_token
    }

    /// Ends the session; nothing it still holds is delivered.
    pub fn close(&mut self)
        requires
            old(self).wf(),
        ensures
            final(self).wf(),
            final(self)@ == (SessionView { state: SessionState::Closed, ..old(self)@ }),
    {
        self.state = SessionState::Closed;
    }

    /// Moves to `state`, all else kept.
    pub(crate) fn set_state(&mut self, state: SessionState)
        requires
            old(self).wf(),
        ensures
            final(self).wf(),
            final(self)@ == (SessionView { state, ..old(self)@ }),
    {
        self.state = state;
    }

    /// Completes the handshake with the peer's identity.
    pub(crate) fn activate(&mut self, remote: String)
        requires
            old(self).wf(),
        ensures
            final(self).wf(),
            final(self)@ == (SessionView {
                state: SessionState::Active,
                remote: Some(remote@),
                ..old(self)@
            }),
    {
        self.state = SessionState::Active;
        self.remote = Some(remote);
    }

    /// Queues `m` under the next timer token and returns that token.
    pub(crate) fn hold(&mut self, m: PeerMessage) -> (token: u64)
        requires
            old(self).wf(),
            m.wf(),
            old(self)@.next_token < u64::MAX,
        ensures
            final(self).wf(),
            token == old(self)@.next_token,
            final(self)@ == (SessionView {
                delayed: old(self)@.delayed.push((token, m@)),
                next_token: (token + 1) as u64,
                ..old(self)@
            }),
    {
        let token = self.next_token;
        let ghost q = self@.delayed;
        self.delayed.push((token, m));
        self.next_token = token + 1;
        proof {
            assert(self@.delayed =~= q.push((token, m@)));
            assert forall|i: int| 0 <= i < self.delayed@.len() implies (
            #[trigger] self.delayed@[i]).1.wf() by {
                if i < q.len() {
                    assert(self.delayed@[i] == old(self).delayed@[i]);
                }
            }
        }
        token
    }

    /// Timer tokens rise along the delay queue and all lie below the next one, so a
    /// new delay's token differs from that of every message still held.
    pub proof fn lemma_tokens(&self)
        requires
            self.wf(),
        ensures
            queue_ok(self@.delayed, self@.next_token),
            forall|i: int|
                0 <= i < self@.delayed.len() ==> (#[trigger] self@.delayed[i]).0 != self@.next_token,
    {
    }

    /// Where the held message whose timer is `token` stands, if one is held.
    pub(crate) fn position_of(&self, token: u64) -> (r: Option<usize>)
        requires
            self.wf(),
        ensures
            r matches Some(i) ==> i < self@.delayed.len() && self@.delayed[i as int].0 == token,
            r is None ==> forall|i: int|
                0 <= i < self@.delayed.len() ==> (#[trigger] self@.delayed[i]).0 != token,
    {
        let mut i: usize = 0;
        while i < self.delayed.len()
            invariant
                i <= self@.delayed.len(),
                self@.delayed.len() == self.delayed@.len(),
                forall|j: int| 0 <= j < i ==> (#[trigger] self@.delayed[j]).0 != token,
            decreases self.delayed@.len() - i,
        {
            if self.delayed[i].0 == token {
                return Some(i);
            }
            i = i + 1;
        }
        None
    }

    /// Takes out the held message at `i`.
    pub(crate) fn release_at(&mut self, i: usize) -> (m: PeerMessage)
        requires
            old(self).wf(),
            i < old(self)@.delayed.len(),
        ensures
            final(self).wf(),
            m.wf(),
            m@ == old(self)@.delayed[i as int].1,
            final(self)@ == (SessionView {
                delayed: old(self)@.delayed.remove(i as int),
                ..old(self)@
            }),
    {
        let ghost q = self@.delayed;
        let (_, m) = self.delayed.remove(i);
        proof {
            let r = q.remove(i as int);
            assert(self@.delayed =~= r);
            assert(old(self).delayed@[i as int].1.wf());
            assert forall|j: int| 0 <= j < self.delayed@.len() implies (
            #[trigger] self.delayed@[j]).1.wf() by {
                if j < i {
                    assert(self.delayed@[j] == old(self).delayed@[j]);
                } else {
                    assert(self.delayed@[j] == old(self).delayed@[j + 1]);
                }
            }
            assert forall|a: int, b: int| 0 <= a < b < r.len() implies r[a].0 < r[b].0 by {
                let a2 = if a < i { a } else { a + 1 };
                let b2 = if b < i { b } else { b + 1 };
                assert(r[a] == q[a2] && r[b] == q[b2]);
            }
            assert forall|j: int| 0 <= j < r.len() implies (#[trigger] r[j]).0 < self.next_token by {
                if j < i {
                    assert(r[j] == q[j]);
                } else {
                    assert(r[j] == q[j + 1]);
                }
            }
        }
        m
    }
}

} // verus!
