use ws_p2p::clock::VectorClock;
use ws_p2p::delivery::{DeliveryEngine, Outcome};
use ws_p2p::message::PeerMessage;
use ws_p2p::store::ClockStore;

fn clock(entries: &[(&str, u32)]) -> VectorClock {
    VectorClock::from_entries(entries.iter().map(|(k, v)| (k.to_string(), *v)).collect())
}

fn msg(sender: &str, entries: &[(&str, u32)], text: &str) -> PeerMessage {
    PeerMessage { sender: sender.to_string(), clocks: clock(entries), message: text.to_string() }
}

fn at(c: &VectorClock, k: &str) -> Option<u32> {
    c.get(&k.to_string())
}

#[test]
fn set_and_get() {
    let mut c = VectorClock::new();
    assert_eq!(c.len(), 0);
    c.set("a".to_string(), 3);
    c.set("b".to_string(), 1);
    c.set("a".to_string(), 5);
    assert_eq!(c.len(), 2);
    assert_eq!(at(&c, "a"), Some(5));
    assert_eq!(at(&c, "b"), Some(1));
    assert_eq!(at(&c, "c"), None);
}

#[test]
fn later_entry_wins() {
    let c = clock(&[("a", 1), ("b", 2), ("a", 7)]);
    assert_eq!(c.len(), 2);
    assert_eq!(at(&c, "a"), Some(7));
    assert_eq!(at(&c, "b"), Some(2));
}

#[test]
fn merge_takes_pointwise_maximum() {
    let mut c = clock(&[("a", 3), ("b", 1)]);
    let changed = c.merge(&clock(&[("a", 2), ("b", 4), ("c", 0)]));
    assert!(changed);
    assert_eq!(at(&c, "a"), Some(3));
    assert_eq!(at(&c, "b"), Some(4));
    assert_eq!(at(&c, "c"), Some(0));
}

#[test]
fn merge_twice_is_merge_once() {
    let update = clock(&[("a", 2), ("x", 9)]);
    let mut c = clock(&[("a", 5), ("b", 1)]);
    assert!(c.merge(&update));
    let once = c.to_vec();
    assert!(!c.merge(&update));
    assert_eq!(c.to_vec(), once);
    assert_eq!(at(&c, "a"), Some(5));
    assert_eq!(at(&c, "x"), Some(9));
}

#[test]
fn new_peer_at_zero_raises_nothing() {
    let mut c = clock(&[("a", 1)]);
    assert!(!c.merge(&clock(&[("z", 0)])));
    assert_eq!(at(&c, "z"), Some(0));
    assert!(c.merge(&clock(&[("y", 1)])));
    assert_eq!(c.len(), 3);
}

#[test]
fn merge_never_lowers() {
    let mut c = clock(&[("a", 5)]);
    assert!(!c.merge(&clock(&[("a", 1)])));
    assert_eq!(at(&c, "a"), Some(5));
}

#[test]
fn admits_the_next_message_of_a_sender() {
    let local = clock(&[("a", 1), ("b", 2)]);
    let a = "a".to_string();
    assert!(local.admits(&a, &clock(&[("a", 2), ("b", 2)])));
    assert!(local.admits(&a, &clock(&[("a", 2), ("b", 0)])));
    assert!(!local.admits(&a, &clock(&[("a", 3)])));
    assert!(!local.admits(&a, &clock(&[("a", 1)])));
    assert!(!local.admits(&a, &clock(&[("a", 2), ("b", 3)])));
    // a third peer unknown here counts as zero
    assert!(local.admits(&a, &clock(&[("a", 2), ("z", 0)])));
    assert!(!local.admits(&a, &clock(&[("a", 2), ("z", 1)])));
    // a message that does not name its sender is never the next one
    assert!(!local.admits(&a, &clock(&[("b", 0)])));
    assert!(!local.admits(&a, &clock(&[])));
}

#[test]
fn register_keeps_known_peers() {
    let mut s = ClockStore::new();
    let a = "a".to_string();
    s.register(&a);
    assert_eq!(s.get(&a), Some(0));
    s.merge(&clock(&[("a", 4)]));
    s.register(&a);
    assert_eq!(s.get(&a), Some(4));
}

#[test]
fn self_increment_stamps_a_copy() {
    let mut s = ClockStore::new();
    let me = "me".to_string();
    assert!(s.self_increment(&me).is_none());
    s.register(&me);
    s.merge(&clock(&[("b", 2)]));
    let c = s.self_increment(&me).unwrap();
    assert_eq!(at(&c, "me"), Some(1));
    assert_eq!(at(&c, "b"), Some(2));
    let c2 = s.self_increment(&me).unwrap();
    assert_eq!(at(&c2, "me"), Some(2));
    assert_eq!(at(&c, "me"), Some(1));
    assert_eq!(s.get(&me), Some(2));
}

#[test]
fn self_increment_stops_at_the_largest_counter() {
    let mut s = ClockStore::new();
    s.merge(&clock(&[("me", u32::MAX)]));
    let me = "me".to_string();
    assert!(s.self_increment(&me).is_none());
    assert_eq!(s.get(&me), Some(u32::MAX));
}

#[test]
fn cascade_delivery() {
    let mut e = DeliveryEngine::new(ClockStore::new());
    assert_eq!(e.deliver(msg("A", &[("A", 2)], "second")), Outcome::Buffered);
    assert_eq!(e.pending_len(), 1);
    assert!(e.take_delivered().is_empty());
    assert_eq!(e.deliver(msg("A", &[("A", 1)], "first")), Outcome::Delivered);
    assert_eq!(e.pending_len(), 0);
    let out = e.take_delivered();
    let texts: Vec<&str> = out.iter().map(|m| m.message.as_str()).collect();
    assert_eq!(texts, vec!["first", "second"]);
    assert_eq!(e.store().get(&"A".to_string()), Some(2));
}

#[test]
fn first_contact_delivery() {
    let mut store = ClockStore::new();
    store.register(&"me".to_string());
    let mut e = DeliveryEngine::new(store);
    assert_eq!(e.deliver(msg("S", &[("S", 1)], "hello")), Outcome::Delivered);
    assert_eq!(e.store().get(&"S".to_string()), Some(1));
    assert_eq!(e.store().get(&"me".to_string()), Some(0));
    assert_eq!(e.take_delivered().len(), 1);
}

#[test]
fn causal_order_per_sender() {
    let mut e = DeliveryEngine::new(ClockStore::new());
    assert_eq!(e.deliver(msg("S", &[("S", 3)], "3")), Outcome::Buffered);
    assert_eq!(e.deliver(msg("S", &[("S", 2)], "2")), Outcome::Buffered);
    assert!(e.take_delivered().is_empty());
    assert_eq!(e.deliver(msg("S", &[("S", 1)], "1")), Outcome::Delivered);
    let texts: Vec<String> = e.take_delivered().into_iter().map(|m| m.message).collect();
    assert_eq!(texts, vec!["1", "2", "3"]);
}

#[test]
fn waits_for_third_party_knowledge() {
    let mut e = DeliveryEngine::new(ClockStore::new());
    // B had seen A's first message when it sent this one
    assert_eq!(e.deliver(msg("B", &[("A", 1), ("B", 1)], "reply")), Outcome::Buffered);
    assert_eq!(e.store().get(&"B".to_string()), None);
    assert_eq!(e.deliver(msg("A", &[("A", 1)], "question")), Outcome::Delivered);
    let texts: Vec<String> = e.take_delivered().into_iter().map(|m| m.message).collect();
    assert_eq!(texts, vec!["question", "reply"]);
    assert_eq!(e.store().get(&"B".to_string()), Some(1));
}

#[test]
fn rescan_restarts_from_the_head() {
    let mut e = DeliveryEngine::new(ClockStore::new());
    // held in this order: C depends on B, B depends on A's first
    assert_eq!(e.deliver(msg("C", &[("B", 1), ("C", 1)], "c")), Outcome::Buffered);
    assert_eq!(e.deliver(msg("B", &[("A", 1), ("B", 1)], "b")), Outcome::Buffered);
    assert_eq!(e.deliver(msg("A", &[("A", 1)], "a")), Outcome::Delivered);
    let texts: Vec<String> = e.take_delivered().into_iter().map(|m| m.message).collect();
    assert_eq!(texts, vec!["a", "b", "c"]);
    assert_eq!(e.pending_len(), 0);
}

#[test]
fn message_without_its_sender_is_held() {
    let mut e = DeliveryEngine::new(ClockStore::new());
    assert_eq!(e.deliver(msg("A", &[("B", 0)], "anonymous")), Outcome::Buffered);
    assert_eq!(e.deliver(msg("A", &[("A", 1)], "named")), Outcome::Delivered);
    let texts: Vec<String> = e.take_delivered().into_iter().map(|m| m.message).collect();
    assert_eq!(texts, vec!["named"]);
    assert_eq!(e.pending_len(), 1);
}

#[test]
fn delivered_again_changes_no_clock() {
    let mut e = DeliveryEngine::new(ClockStore::new());
    assert_eq!(e.deliver(msg("A", &[("A", 1), ("B", 0)], "x")), Outcome::Delivered);
    let before = e.store().snapshot().to_vec();
    assert_eq!(e.deliver(msg("A", &[("A", 1), ("B", 0)], "x")), Outcome::Buffered);
    assert_eq!(e.store().snapshot().to_vec(), before);
}

#[test]
fn rescan_keeps_a_sender_without_its_next_message() {
    let mut e = DeliveryEngine::new(ClockStore::new());
    assert_eq!(e.deliver(msg("S", &[("S", 3)], "s3")), Outcome::Buffered);
    assert_eq!(e.deliver(msg("T", &[("S", 0), ("T", 1)], "t1")), Outcome::Delivered);
    let texts: Vec<String> = e.take_delivered().into_iter().map(|m| m.message).collect();
    assert_eq!(texts, vec!["t1"]);
    assert_eq!(e.pending_len(), 1);
    assert_eq!(e.store().get(&"S".to_string()), Some(0));
}

#[test]
fn duplicate_is_held_not_delivered() {
    let mut e = DeliveryEngine::new(ClockStore::new());
    assert_eq!(e.deliver(msg("A", &[("A", 1)], "x")), Outcome::Delivered);
    assert_eq!(e.deliver(msg("A", &[("A", 1)], "x")), Outcome::Buffered);
    assert_eq!(e.take_delivered().len(), 1);
    assert_eq!(e.pending_len(), 1);
}
