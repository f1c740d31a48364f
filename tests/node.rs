use ws_p2p::clock::VectorClock;
use ws_p2p::fault::{inspect, FaultMode, FaultPolicy, Verdict, DEFAULT_DELAY_MS};
use ws_p2p::handler::MessageFactory;
use ws_p2p::message::PeerMessage;
use ws_p2p::session::{Action, Session, SessionState};
use ws_p2p::store::ClockStore;

fn node(name: &str) -> MessageFactory {
    let mut store = ClockStore::new();
    store.register(&name.to_string());
    MessageFactory::build(store).me(name)
}

fn linked(n: &mut MessageFactory, peer: &str) -> Session {
    let (mut s, _) = n.client_connected();
    assert_eq!(n.on_text(&mut s, peer.to_string()), Action::Continue);
    s
}

fn frame(sender: &str, entries: &[(&str, u32)], text: &str) -> Vec<u8> {
    let m = PeerMessage {
        sender: sender.to_string(),
        clocks: VectorClock::from_entries(entries.iter().map(|(k, v)| (k.to_string(), *v)).collect()),
        message: text.to_string(),
    };
    m.to_frame()
}

fn texts(n: &mut MessageFactory) -> Vec<String> {
    n.take_delivered().into_iter().map(|m| m.message).collect()
}

fn at(n: &MessageFactory, k: &str) -> Option<u32> {
    n.clocks().get(&k.to_string())
}

#[test]
fn build_is_undefined_until_named() {
    let f = MessageFactory::build(ClockStore::new());
    assert_eq!(f.name(), "undefined");
    let g = f.me("localhost:3012");
    assert_eq!(g.name(), "localhost:3012");
    assert_eq!(f.name(), "undefined");
}

#[test]
fn me_keeps_state_and_policy() {
    let mut f = node("a");
    f.demo("x");
    let mut s = linked(&mut f, "b");
    assert_eq!(f.on_frame(&mut s, &frame("b", &[("b", 2)], "late")), Action::Continue);
    let g = f.me("renamed");
    assert_eq!(g.engine().pending_len(), 1);
    assert_eq!(g.clocks().get(&"b".to_string()), Some(0));
    let mut g = g;
    let mut t = linked(&mut g, "x");
    assert!(matches!(g.on_frame(&mut t, &frame("x", &[("x", 1)], "held")), Action::Schedule { .. }));
}

#[test]
fn connections_send_identity_first() {
    let f = node("a");
    let (s, id) = f.server_connected();
    assert_eq!(id, "a");
    assert_eq!(s.state(), SessionState::Handshaking);
    let (s, id) = f.client_connected();
    assert_eq!(id, "a");
    assert_eq!(s.state(), SessionState::Handshaking);
    assert_eq!(f.connection_made().state(), SessionState::Connecting);
}

#[test]
fn identity_frame_completes_handshake() {
    let mut f = node("a");
    let (mut s, _) = f.server_connected();
    assert_eq!(f.on_text(&mut s, "b".to_string()), Action::Continue);
    assert_eq!(s.state(), SessionState::Active);
    assert_eq!(s.remote().map(|r| r.as_str()), Some("b"));
    assert_eq!(at(&f, "b"), Some(0));
}

#[test]
fn data_before_identity_closes() {
    let mut f = node("a");
    let (mut s, _) = f.server_connected();
    assert_eq!(f.on_frame(&mut s, &frame("b", &[("b", 1)], "early")), Action::Close);
    assert_eq!(s.state(), SessionState::Closed);
    assert!(texts(&mut f).is_empty());
    assert_eq!(at(&f, "b"), None);
}

#[test]
fn undecodable_frame_closes() {
    let mut f = node("a");
    let mut s = linked(&mut f, "b");
    assert_eq!(f.on_frame(&mut s, &[1, 2, 3]), Action::Close);
    assert_eq!(s.state(), SessionState::Closed);
    // a closed session handles nothing more
    assert_eq!(f.on_frame(&mut s, &frame("b", &[("b", 1)], "x")), Action::Continue);
    assert!(texts(&mut f).is_empty());
}

#[test]
fn frame_is_delivered() {
    let mut f = node("a");
    let mut s = linked(&mut f, "b");
    assert_eq!(f.on_frame(&mut s, &frame("b", &[("a", 0), ("b", 1)], "hi")), Action::Continue);
    assert_eq!(texts(&mut f), vec!["hi"]);
    assert_eq!(at(&f, "b"), Some(1));
}

#[test]
fn frame_bytes_are_bincode() {
    let bytes = frame("a", &[("a", 1)], "hi");
    let expected: Vec<u8> = vec![
        0, 0, 0, 0, 0, 0, 0, 1, b'a', // sender
        0, 0, 0, 0, 0, 0, 0, 1, // one clock entry
        0, 0, 0, 0, 0, 0, 0, 1, b'a', 0, 0, 0, 1, // "a" => 1
        0, 0, 0, 0, 0, 0, 0, 2, b'h', b'i', // message
    ];
    assert_eq!(bytes, expected);
}

#[test]
fn frame_round_trip() {
    let bytes = frame("peer", &[("peer", 3), ("other", 1)], "text");
    let m = PeerMessage::from_frame(&bytes).unwrap();
    assert_eq!(m.sender, "peer");
    assert_eq!(m.message, "text");
    assert_eq!(m.clocks.len(), 2);
    assert_eq!(m.clocks.get(&"peer".to_string()), Some(3));
    assert_eq!(m.clocks.get(&"other".to_string()), Some(1));
    assert!(PeerMessage::from_frame(&bytes[..5]).is_none());
    assert!(PeerMessage::from_frame(&[]).is_none());
}

#[test]
fn send_local_stamps_and_encodes() {
    let mut f = node("a");
    let b1 = f.send_local("one".to_string()).unwrap();
    let b2 = f.send_local("two".to_string()).unwrap();
    assert_eq!(at(&f, "a"), Some(2));
    let m1 = PeerMessage::from_frame(&b1).unwrap();
    let m2 = PeerMessage::from_frame(&b2).unwrap();
    assert_eq!(m1.sender, "a");
    assert_eq!(m1.clocks.get(&"a".to_string()), Some(1));
    assert_eq!(m2.clocks.get(&"a".to_string()), Some(2));
    assert_eq!(m2.message, "two");
}

#[test]
fn send_local_needs_own_counter() {
    let mut f = MessageFactory::build(ClockStore::new()).me("a");
    assert!(f.send_local("lost".to_string()).is_none());
    assert!(f.stamp_local("lost".to_string()).is_none());
}

#[test]
fn drop_fidelity() {
    let mut f = node("a");
    f.demo("x");
    f.set_drop(true);
    let mut s = linked(&mut f, "x");
    let before = f.clocks().to_vec();
    for i in 1..=5u32 {
        let text = format!("m{}", i);
        assert_eq!(f.on_frame(&mut s, &frame("x", &[("x", i)], &text)), Action::Continue);
    }
    assert!(texts(&mut f).is_empty());
    assert_eq!(f.engine().pending_len(), 0);
    assert_eq!(f.clocks().to_vec(), before);
    // others still get through
    let mut t = linked(&mut f, "y");
    assert_eq!(f.on_frame(&mut t, &frame("y", &[("y", 1)], "ok")), Action::Continue);
    assert_eq!(texts(&mut f), vec!["ok"]);
}

#[test]
fn drop_fidelity_interleaved() {
    let run = |with_target: bool| {
        let mut f = node("a");
        f.demo("x");
        f.set_drop(true);
        let mut sx = linked(&mut f, "x");
        let mut sy = linked(&mut f, "y");
        for i in 1..=3u32 {
            if with_target {
                f.on_frame(&mut sx, &frame("x", &[("x", i), ("y", i - 1)], "dropped"));
            }
            f.on_frame(&mut sy, &frame("y", &[("y", i)], "kept"));
        }
        (f.clocks().to_vec(), f.engine().pending_len(), texts(&mut f))
    };
    assert_eq!(run(true), run(false));
    assert_eq!(run(true).2, vec!["kept", "kept", "kept"]);
}

#[test]
fn set_drop_without_target_changes_nothing() {
    let mut f = node("a");
    f.set_drop(true);
    let mut s = linked(&mut f, "x");
    assert_eq!(f.on_frame(&mut s, &frame("x", &[("x", 1)], "ok")), Action::Continue);
    assert_eq!(texts(&mut f), vec!["ok"]);
}

#[test]
fn delay_ordering() {
    let mut f = node("a");
    f.demo("x");
    let mut s = linked(&mut f, "x");
    let a1 = f.on_frame(&mut s, &frame("x", &[("x", 1)], "m1"));
    let a2 = f.on_frame(&mut s, &frame("x", &[("x", 2)], "m2"));
    assert_eq!(a1, Action::Schedule { token: 0, delay_ms: DEFAULT_DELAY_MS });
    assert_eq!(a2, Action::Schedule { token: 1, delay_ms: 4000 });
    assert_eq!(s.delayed_len(), 2);
    assert!(texts(&mut f).is_empty());
    assert_eq!(at(&f, "x"), Some(0));
    assert_eq!(f.on_timeout(&mut s, 0), Action::Continue);
    assert_eq!(texts(&mut f), vec!["m1"]);
    assert_eq!(s.delayed_len(), 1);
    assert_eq!(f.on_timeout(&mut s, 1), Action::Continue);
    assert_eq!(texts(&mut f), vec!["m2"]);
    assert_eq!(at(&f, "x"), Some(2));
}

#[test]
fn each_timer_releases_the_oldest_message() {
    let mut f = node("a");
    f.demo("x");
    let mut s = linked(&mut f, "x");
    f.on_frame(&mut s, &frame("x", &[("x", 1)], "m1"));
    f.on_frame(&mut s, &frame("x", &[("x", 2)], "m2"));
    assert_eq!(f.on_timeout(&mut s, 0), Action::Continue);
    assert_eq!(texts(&mut f), vec!["m1"]);
    assert_eq!(s.delayed_len(), 1);
    // the first timer again: its message is gone, so the token is unknown
    assert_eq!(f.on_timeout(&mut s, 0), Action::Close);
    assert_eq!(s.state(), SessionState::Closed);
    assert!(texts(&mut f).is_empty());
    assert_eq!(s.delayed_len(), 1);
}

#[test]
fn timer_releases_its_own_message() {
    let mut f = node("a");
    f.demo("x");
    let mut s = linked(&mut f, "x");
    f.on_frame(&mut s, &frame("x", &[("x", 1)], "m1"));
    f.on_frame(&mut s, &frame("x", &[("x", 2)], "m2"));
    // the second timer fires first: only its own message leaves, and waits
    assert_eq!(f.on_timeout(&mut s, 1), Action::Continue);
    assert!(texts(&mut f).is_empty());
    assert_eq!(f.engine().pending_len(), 1);
    assert_eq!(s.delayed_len(), 1);
    assert_eq!(f.on_timeout(&mut s, 0), Action::Continue);
    assert_eq!(texts(&mut f), vec!["m1", "m2"]);
    assert_eq!(s.state(), SessionState::Active);
}

#[test]
fn timer_with_nothing_held_closes() {
    let mut f = node("a");
    f.demo("x");
    let mut s = linked(&mut f, "x");
    f.on_frame(&mut s, &frame("x", &[("x", 1)], "m1"));
    assert_eq!(f.on_timeout(&mut s, 0), Action::Continue);
    assert_eq!(texts(&mut f), vec!["m1"]);
    assert_eq!(f.on_timeout(&mut s, 0), Action::Close);
    assert_eq!(s.state(), SessionState::Closed);
}

#[test]
fn delay_tokens_are_fresh() {
    let mut f = node("a");
    f.demo("x");
    let mut s = linked(&mut f, "x");
    let mut tokens = Vec::new();
    for i in 1..=4u32 {
        match f.on_frame(&mut s, &frame("x", &[("x", i)], "m")) {
            Action::Schedule { token, .. } => tokens.push(token),
            other => panic!("unexpected {:?}", other),
        }
        if i == 2 {
            assert_eq!(f.on_timeout(&mut s, tokens[0]), Action::Continue);
        }
    }
    assert_eq!(tokens, vec![0, 1, 2, 3]);
    assert_eq!(s.next_token(), 4);
}

#[test]
fn unknown_timer_closes() {
    let mut f = node("a");
    let mut s = linked(&mut f, "x");
    assert_eq!(f.on_timeout(&mut s, 7), Action::Close);
    assert_eq!(s.state(), SessionState::Closed);
}

#[test]
fn delayed_messages_of_others_pass() {
    let policy = Some(FaultPolicy { target: "x".to_string(), mode: FaultMode::Delay(10) });
    assert_eq!(inspect(&policy, &"x".to_string()), Verdict::Delay(10));
    assert_eq!(inspect(&policy, &"y".to_string()), Verdict::Pass);
    let dropping = Some(FaultPolicy { target: "x".to_string(), mode: FaultMode::Drop });
    assert_eq!(inspect(&dropping, &"x".to_string()), Verdict::Drop);
    assert_eq!(inspect(&None, &"x".to_string()), Verdict::Pass);
}

#[test]
fn topology_bounded_propagation() {
    // chain A - B - C: A and C share no link
    let mut a = node("A");
    let mut b = node("B");
    let mut c = node("C");
    let mut b_from_a = linked(&mut b, "A");
    let mut a_from_b = linked(&mut a, "B");
    let mut c_from_b = linked(&mut c, "B");
    // what B sends goes to both of its peers
    let early = b.send_local("early from B".to_string()).unwrap();
    assert_eq!(c.on_frame(&mut c_from_b, &early), Action::Continue);
    assert_eq!(a.on_frame(&mut a_from_b, &early), Action::Continue);
    assert_eq!(texts(&mut c), vec!["early from B"]);
    assert_eq!(texts(&mut a), vec!["early from B"]);
    // A's frame goes to its one peer, B
    let sent = a.send_local("from A".to_string()).unwrap();
    assert_eq!(b.on_frame(&mut b_from_a, &sent), Action::Continue);
    assert_eq!(texts(&mut b), vec!["from A"]);
    // B hands the transport nothing to pass on, so C never hears of it
    assert!(texts(&mut c).is_empty());
    assert_eq!(at(&c, "A"), Some(0));
    // and what B sends after seeing it waits at C for what C cannot get
    let late = b.send_local("late from B".to_string()).unwrap();
    assert_eq!(c.on_frame(&mut c_from_b, &late), Action::Continue);
    assert!(texts(&mut c).is_empty());
    assert_eq!(c.engine().pending_len(), 1);
}
