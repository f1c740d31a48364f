use vstd::prelude::*;

use crate::clock::{ClockMap, VectorClock};
use crate::delivery::{all_wf, deliver_step, views, DeliveryEngine, EngineView};
use crate::fault::{
    inspect, policy_view, verdict, FaultMode, FaultPolicy, PolicyView, Verdict, DEFAULT_DELAY_MS,
};
use crate::message::{decoded_message, encoded_message, MessageView, PeerMessage};
use crate::session::{Action, Session, SessionState, SessionView};
use crate::store::ClockStore;

verus! {

/// A node as the contracts see it.
pub struct FactoryView {
    pub engine: EngineView,
    /// This node's identity.
    pub me: Seq<char>,
    pub policy: Option<PolicyView>,
}

/// What one event does to the engine and the session, and what the transport is
/// to do.
pub struct Step {
    pub engine: EngineView,
    pub session: SessionView,
    pub action: Action,
}

/// `c` with `id` registered at zero if it was unknown.
pub open spec fn registered(c: ClockMap, id: Seq<char>) -> ClockMap {
    if c.contains_key(id) {
        c
    } else {
        c.insert(id, 0)
    }
}

/// `s`, closed.
pub open spec fn closed(s: SessionView) -> SessionView {
    SessionView { state: SessionState::Closed, ..s }
}

/// A text frame: the peer's identity. It is registered, and completes the handshake
/// unless that is done already.
pub open spec fn text_step(e: EngineView, s: SessionView, text: Seq<char>) -> Step {
    if s.state == SessionState::Closed {
        Step { engine: e, session: s, action: Action::Continue }
    } else {
        Step {
            engine: EngineView { clocks: registered(e.clocks, text), ..e },
            session: if s.state == SessionState::Active {
                s
            } else {
                SessionView { state: SessionState::Active, remote: Some(text), ..s }
            },
            action: Action::Continue,
        }
    }
}

/// A data frame that decoded to `m` (`None`: it did not decode). Before the
/// handshake is done, or where it did not decode, the session closes. Otherwise the
/// fault policy decides: drop it, hold it under a new timer, or deliver it.
pub open spec fn message_step(
    policy: Option<PolicyView>,
    e: EngineView,
    s: SessionView,
    m: Option<MessageView>,
) -> Step {
    if s.state == SessionState::Closed {
        Step { engine: e, session: s, action: Action::Continue }
    } else if s.state != SessionState::Active {
        Step { engine: e, session: closed(s), action: Action::Close }
    } else {
        match m {
            None => Step { engine: e, session: closed(s), action: Action::Close },
            Some(m) => match verdict(policy, m.sender) {
                Verdict::Drop => Step { engine: e, session: s, action: Action::Continue },
                Verdict::Delay(d) => if s.next_token < u64::MAX {
                    Step {
                        engine: e,
                        session: SessionView {
                            delayed: s.delayed.push((s.next_token, m)),
                            next_token: (s.next_token + 1) as u64,
                            ..s
                        },
                        action: Action::Schedule { token: s.next_token, delay_ms: d },
                    }
                } else {
                    Step { engine: e, session: closed(s), action: Action::Close }
                },
                Verdict::Pass => Step { engine: deliver_step(e, m), session: s, action: Action::Continue },
            },
        }
    }
}

/// The message a data frame carries, as bincode reads it.
pub open spec fn frame_message(bytes: Seq<u8>) -> Option<MessageView> {
    match decoded_message(bytes) {
        Some(t) => Some(MessageView { sender: t.0, clocks: t.1, message: t.2 }),
        None => None,
    }
}

/// Where in `q` the message whose timer is `token` stands, if one is held there.
pub open spec fn token_index(q: Seq<(u64, MessageView)>, token: u64) -> Option<int> {
    if exists|i: int| 0 <= i < q.len() && q[i].0 == token {
        Some(choose|i: int| 0 <= i < q.len() && q[i].0 == token)
    } else {
        None
    }
}

/// A timer fired. The held message that timer was set for goes to the engine; a
/// token that no held message carries is an internal error and closes the session.
/// With one delay for all held messages the timers fire in the order they were
/// set, so held messages leave in the order they arrived.
pub open spec fn timer_step(e: EngineView, s: SessionView, token: u64) -> Step {
    if s.state == SessionState::Closed {
        Step { engine: e, session: s, action: Action::Continue }
    } else {
        match token_index(s.delayed, token) {
            Some(i) => Step {
                engine: deliver_step(e, s.delayed[i].1),
                session: SessionView { delayed: s.delayed.remove(i), ..s },
                action: Action::Continue,
            },
            None => Step { engine: e, session: closed(s), action: Action::Close },
        }
    }
}

/// The view of an optional message.
pub open spec fn message_view(m: Option<PeerMessage>) -> Option<MessageView> {
    match m {
        Some(x) => Some(x@),
        None => None,
    }
}

/// A peer node: its identity, its fault policy, and the delivery engine that all
/// of its connections feed. It makes the sessions of new connections and runs their
/// events.
pub struct MessageFactory {
    engine: DeliveryEngine,
    me: String,
    demo_client: Option<FaultPolicy>,
}

impl View for MessageFactory {
    type V = FactoryView;

    closed spec fn view(&self) -> FactoryView {
        FactoryView {
            engine: self.engine@,
            me: self.me@,
            policy: policy_view(self.demo_client),
        }
    }
}

impl MessageFactory {
    pub closed spec fn wf(&self) -> bool {
        self.engine.wf()
    }

    /// A node over `vclocks`, named "undefined" until `me` names it, with no fault
    /// policy and nothing held or delivered.
    pub fn build(vclocks: ClockStore) -> (r: MessageFactory)
        requires
            vclocks.wf(),
        ensures
            r.wf(),
            r@ == (FactoryView {
                engine: EngineView {
                    clocks: vclocks@,
                    pending: Seq::empty(),
                    delivered: Seq::empty(),
                },
                me: "undefined"@,
                policy: None,
            }),
    {
        MessageFactory { engine: DeliveryEngine::new(vclocks), me: "undefined".to_owned(), demo_client: None }
    }

    /// A copy of this node under the identity `me`.
    pub fn me(&self, me: &str) -> (r: MessageFactory)
        requires
            self.wf(),
        ensures
            r.wf(),
            r@ == (FactoryView { me: me@, ..self@ }),
    {
        MessageFactory {
            engine: self.engine.copy(),
            me: me.to_owned(),
            demo_client: match &self.demo_client {
                Some(p) => Some(p.copy()),
                None => None,
            },
        }
    }

    /// Delays the messages of `peer` by the default delay.
    pub fn demo(&mut self, peer: &str)
        requires
            old(self).wf(),
        ensures
            final(self).wf(),
            final(self)@ == (FactoryView {
                policy: Some(PolicyView { target: peer@, mode: FaultMode::Delay(DEFAULT_DELAY_MS) }),
                ..old(self)@
            }),
    {
        self.demo_client = Some(FaultPolicy::delay(peer.to_owned()));
    }

    /// Drops the messages of the fault policy's target instead of delaying them, or
    /// delays them again; without a target nothing changes.
    pub fn set_drop(&mut self, on: bool)
        requires
            old(self).wf(),
        ensures
            final(self).wf(),
            final(self)@ == (FactoryView {
                policy: match old(self)@.policy {
                    Some(p) => Some(PolicyView {
                        target: p.target,
                        mode: if on {
                            FaultMode::Drop
                        } else {
                            FaultMode::Delay(DEFAULT_DELAY_MS)
                        },
                    }),
                    None => None,
                },
                ..old(self)@
            }),
    {
        let mode = if on {
            FaultMode::Drop
        } else {
            FaultMode::Delay(DEFAULT_DELAY_MS)
        };
        match &mut self.demo_client {
            Some(p) => {
                p.mode = mode;
            },
            None => {},
        }
    }

    /// This node's identity.
    pub fn name(&self) -> (r: &String)
        ensures
            r@ == self@.me,
    {
        &self.me
    }

    /// The delivery engine.
    pub fn engine(&self) -> (r: &DeliveryEngine)
        requires
            self.wf(),
        ensures
            r.wf(),
            r@ == self@.engine,
    {
        &self.engine
    }

    /// A copy of this node's clocks.
    pub fn clocks(&self) -> (r: VectorClock)
        requires
            self.wf(),
        ensures
            r.wf(),
            r@ == self@.engine.clocks,
    {
        self.engine.store().snapshot()
    }

    /// Hands over the messages delivered so far, oldest first.
    pub fn take_delivered(&mut self) -> (r: Vec<PeerMessage>)
        requires
            old(self).wf(),
        ensures
            final(self).wf(),
            views(r@) == old(self)@.engine.delivered,
            all_wf(r@),
            final(self)@ == (FactoryView {
                engine: EngineView { delivered: Seq::empty(), ..old(self)@.engine },
                ..old(self)@
            }),
    {
        self.engine.take_delivered()
    }

    /// The session of a connection that was just made, before any identity was sent.
    pub fn connection_made(&self) -> (r: Session)
        ensures
            r.wf(),
            r@ == (SessionView {
                state: SessionState::Connecting,
                remote: None,
                delayed: Seq::empty(),
                next_token: 0,
            }),
    {
        Session::new()
    }

    /// The session of a connection that a peer made to this node, and the identity
    /// frame to send it first.
    pub fn server_connected(&self) -> (r: (Session, String))
        ensures
            r.0.wf(),
            r.0@ == (SessionView {
                state: SessionState::Handshaking,
                remote: None,
                delayed: Seq::empty(),
                next_token: 0,
            }),
            r.1@ == self@.me,
    {
        let mut s = self.connection_made();
        s.set_state(SessionState::Handshaking);
        (s, self.me.clone())
    }

    /// The session of a connection that this node made to a peer, and the identity
    /// frame to send it first.
    pub fn client_connected(&self) -> (r: (Session, String))
        ensures
            r.0.wf(),
            r.0@ == (SessionView {
                state: SessionState::Handshaking,
                remote: None,
                delayed: Seq::empty(),
                next_token: 0,
            }),
            r.1@ == self@.me,
    {
        self.server_connected()
    }

    /// A text frame arrived on `s`.
    pub fn on_text(&mut self, s: &mut Session, text: String) -> (r: Action)
        requires
            old(self).wf(),
            old(s).wf(),
        ensures
            final(self).wf(),
            final(s).wf(),
            ({
                let st = text_step(old(self)@.engine, old(s)@, text@);
                &&& final(self)@ == (FactoryView { engine: st.engine, ..old(self)@ })
                &&& final(s)@ == st.session
                &&& r == st.action
            }),
    {
        match s.state() {
            SessionState::Closed => {},
            SessionState::Active => {
                self.engine.register(&text);
            },
            _ => {
                self.engine.register(&text);
                s.activate(text);
            },
        }
        Action::Continue
    }

    /// A data frame that decoded to `m` arrived on `s` (`None`: it did not decode).
    pub fn on_message(&mut self, s: &mut Session, m: Option<PeerMessage>) -> (r: Action)
        requires
            old(self).wf(),
            old(s).wf(),
            m matches Some(x) ==> x.wf(),
        ensures
            final(self).wf(),
            final(s).wf(),
            ({
                let st = message_step(old(self)@.policy, old(self)@.engine, old(s)@, message_view(m));
                &&& final(self)@ == (FactoryView { engine: st.engine, ..old(self)@ })
                &&& final(s)@ == st.session
                &&& r == st.action
            }),
    {
        match s.state() {
            SessionState::Closed => {
                return Action::Continue;
            },
            SessionState::Active => {},
            _ => {
                s.set_state(SessionState::Closed);
                return Action::Close;
            },
        }
        match m {
            None => {
                s.set_state(SessionState::Closed);
                Action::Close
            },
            Some(m) => match inspect(&self.demo_client, &m.sender) {
                Verdict::Drop => Action::Continue,
                Verdict::Delay(d) => {
                    if s.next_token() < u64::MAX {
                        let token = s.hold(m);
                        Action::Schedule { token, delay_ms: d }
                    } else {
                        s.set_state(SessionState::Closed);
                        Action::Close
                    }
                },
                Verdict::Pass => {
                    self.engine.deliver(m);
                    Action::Continue
                },
            },
        }
    }

    /// A binary frame arrived on `s`.
    pub fn on_frame(&mut self, s: &mut Session, bytes: &[u8]) -> (r: Action)
        requires
            old(self).wf(),
            old(s).wf(),
        ensures
            final(self).wf(),
            final(s).wf(),
            ({
                let st = message_step(old(self)@.policy, old(self)@.engine, old(s)@, frame_message(bytes@));
                &&& final(self)@ == (FactoryView { engine: st.engine, ..old(self)@ })
                &&& final(s)@ == st.session
                &&& r == st.action
            }),
    {
        let m = PeerMessage::from_frame(bytes);
        proof {
            assert(message_view(m) == frame_message(bytes@));
        }
        self.on_message(s, m)
    }

    /// The timer `token` of `s` fired.
    pub fn on_timeout(&mut self, s: &mut Session, token: u64) -> (r: Action)
        requires
            old(self).wf(),
            old(s).wf(),
        ensures
            final(self).wf(),
            final(s).wf(),
            ({
                let st = timer_step(old(self)@.engine, old(s)@, token);
                &&& final(self)@ == (FactoryView { engine: st.engine, ..old(self)@ })
                &&& final(s)@ == st.session
                &&& r == st.action
            }),
    {
        if s.state() == SessionState::Closed {
            return Action::Continue;
        }
        match s.position_of(token) {
            Some(i) => {
                proof {
                    s.lemma_tokens();
                    let q = s@.delayed;
                    let k = choose|k: int| 0 <= k < q.len() && q[k].0 == token;
                    if k < i {
                        assert(q[k].0 < q[i as int].0);
                    }
                    if k > i {
                        assert(q[i as int].0 < q[k].0);
                    }
                    assert(token_index(q, token) == Some(i as int));
                }
                let m = s.release_at(i);
                self.engine.deliver(m);
                Action::Continue
            },
            None => {
                s.set_state(SessionState::Closed);
                Action::Close
            },
        }
    }

    /// Counts a new local message and stamps `text` with this node's clock; `None`,
    /// with nothing changed, where this node's own counter is missing or at its
    /// largest.
    pub fn stamp_local(&mut self, text: String) -> (r: Option<PeerMessage>)
        requires
            old(self).wf(),
        ensures
            final(self).wf(),
            r is Some <==> old(self)@.engine.clocks.contains_key(old(self)@.me)
                && old(self)@.engine.clocks[old(self)@.me] < u32::MAX,
            r is None ==> final(self)@ == old(self)@,
            r matches Some(m) ==> ({
                let clocks = old(self)@.engine.clocks.insert(
                    old(self)@.me,
                    (old(self)@.engine.clocks[old(self)@.me] + 1) as u32,
                );
                &&& m.wf()
                &&& m@ == (MessageView { sender: old(self)@.me, clocks, message: text@ })
                &&& final(self)@ == (FactoryView {
                    engine: EngineView { clocks, ..old(self)@.engine },
                    ..old(self)@
                })
            }),
    {
        match self.engine.self_increment(&self.me) {
            Some(clocks) => Some(PeerMessage { sender: self.me.clone(), clocks, message: text }),
            None => None,
        }
    }

    /// Counts a new local message and returns the data frame to send to every
    /// connected peer; `None`, with nothing changed, where `stamp_local` gives none.
    /// This is the only frame of a message the node makes, and it carries the
    /// node's own identity as sender: what the node receives it never passes on.
    pub fn send_local(&mut self, text: String) -> (r: Option<Vec<u8>>)
        requires
            old(self).wf(),
        ensures
            final(self).wf(),
            r is Some <==> old(self)@.engine.clocks.contains_key(old(self)@.me)
                && old(self)@.engine.clocks[old(self)@.me] < u32::MAX,
            r is None ==> final(self)@ == old(self)@,
            r matches Some(b) ==> ({
                let clocks = old(self)@.engine.clocks.insert(
                    old(self)@.me,
                    (old(self)@.engine.clocks[old(self)@.me] + 1) as u32,
                );
                &&& b@ == encoded_message(old(self)@.me, clocks, text@)
                &&& frame_message(b@) == Some(
                    MessageView { sender: old(self)@.me, clocks, message: text@ },
                )
                &&& final(self)@ == (FactoryView {
                    engine: EngineView { clocks, ..old(self)@.engine },
                    ..old(self)@
                })
            }),
    {
        match self.stamp_local(text) {
            Some(m) => Some(m.to_frame()),
            None => None,
        }
    }
}

} // verus!
