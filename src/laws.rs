use vstd::prelude::*;

use crate::clock::{clock_at, entry_ok, merged, raises, ClockMap};
use crate::delivery::{
    deliver_each, deliver_step, deliverable, first_ready, is_first_ready, rescan, EngineView,
    RescanView,
};
use crate::fault::{FaultMode, PolicyView};
use crate::handler::{message_step, timer_step, Step};
use crate::message::MessageView;
use crate::session::{queue_ok, queued_messages, Action, SessionState, SessionView};

verus! {

/// `ds` delivered one after another from the clock `c`: each may be delivered
/// against the clock that those before it left.
pub open spec fn replays(c: ClockMap, ds: Seq<MessageView>) -> bool
    decreases ds.len(),
{
    if ds.len() == 0 {
        true
    } else {
        deliverable(c, ds[0]) && replays(merged(c, ds[0].clocks), ds.drop_first())
    }
}

/// The clock left after merging the clocks of `ds` into `c`, first to last.
pub open spec fn replayed(c: ClockMap, ds: Seq<MessageView>) -> ClockMap
    decreases ds.len(),
{
    if ds.len() == 0 {
        c
    } else {
        replayed(merged(c, ds[0].clocks), ds.drop_first())
    }
}

/// Merging never lowers a counter nor forgets a peer, and merging the same clock a
/// second time changes nothing.
pub proof fn lemma_merge_monotonic(local: ClockMap, update: ClockMap)
    ensures
        forall|k: Seq<char>|
            #[trigger] local.contains_key(k) ==> merged(local, update).contains_key(k)
                && merged(local, update)[k] >= local[k],
        forall|k: Seq<char>|
            #[trigger] update.contains_key(k) ==> merged(local, update).contains_key(k)
                && merged(local, update)[k] >= update[k],
        merged(merged(local, update), update) == merged(local, update),
        !raises(merged(local, update), update),
{
    assert(merged(merged(local, update), update) =~= merged(local, update));
}

/// Delivering a message moves the local counter of its sender up by exactly one
/// and leaves every other counter where it was; a peer first heard of through the
/// message is registered at the counter it already had, zero.
pub proof fn lemma_delivery_advances_sender(c: ClockMap, m: MessageView)
    requires
        deliverable(c, m),
    ensures
        forall|k: Seq<char>|
            #[trigger] clock_at(merged(c, m.clocks), k) == if k == m.sender {
                clock_at(c, k) + 1
            } else {
                clock_at(c, k)
            },
{
    assert forall|k: Seq<char>|
        #[trigger] clock_at(merged(c, m.clocks), k) == if k == m.sender {
            clock_at(c, k) + 1
        } else {
            clock_at(c, k)
        } by {
        if m.clocks.contains_key(k) {
            assert(entry_ok(c, m.sender, k, m.clocks[k]));
        }
    }
}

proof fn lemma_replays_concat(c: ClockMap, a: Seq<MessageView>, b: Seq<MessageView>)
    requires
        replays(c, a),
        replays(replayed(c, a), b),
    ensures
        replays(c, a + b),
        replayed(c, a + b) == replayed(replayed(c, a), b),
    decreases a.len(),
{
    if a.len() == 0 {
        assert(a + b =~= b);
    } else {
        lemma_replays_concat(merged(c, a[0].clocks), a.drop_first(), b);
        assert((a + b).drop_first() =~= a.drop_first() + b);
        assert((a + b)[0] == a[0]);
    }
}

proof fn lemma_rescan_replays(c: ClockMap, buf: Seq<MessageView>)
    ensures
        replays(c, rescan(c, buf).delivered),
        replayed(c, rescan(c, buf).delivered) == rescan(c, buf).clocks,
    decreases buf.len(),
{
    match first_ready(c, buf) {
        Some(i) => {
            let k = choose|k: int| is_first_ready(c, buf, k);
            assert(is_first_ready(c, buf, k));
            assert(k == i);
            let c1 = merged(c, buf[i].clocks);
            lemma_rescan_replays(c1, buf.remove(i));
            let r = rescan(c1, buf.remove(i));
            let ds = seq![buf[i]] + r.delivered;
            assert(ds.drop_first() =~= r.delivered);
            assert(ds[0] == buf[i]);
        },
        None => {},
    }
}

/// What one message handed to the engine surfaces, behind what was surfaced
/// before, replays from the clock the engine had, and leaves the engine's clock.
pub proof fn lemma_deliver_step_replays(e: EngineView, m: MessageView)
    ensures
        deliver_step(e, m).delivered.len() >= e.delivered.len(),
        deliver_step(e, m).delivered.take(e.delivered.len() as int) == e.delivered,
        replays(e.clocks, deliver_step(e, m).delivered.skip(e.delivered.len() as int)),
        replayed(e.clocks, deliver_step(e, m).delivered.skip(e.delivered.len() as int))
            == deliver_step(e, m).clocks,
{
    let after = deliver_step(e, m);
    let n = e.delivered.len() as int;
    if deliverable(e.clocks, m) {
        let c1 = merged(e.clocks, m.clocks);
        let r = rescan(c1, e.pending);
        lemma_rescan_replays(c1, e.pending);
        let ds = after.delivered.skip(n);
        assert(ds =~= seq![m] + r.delivered);
        assert(ds.drop_first() =~= r.delivered);
        assert(after.delivered.take(n) =~= e.delivered);
    } else {
        assert(after.delivered.skip(n) =~= Seq::<MessageView>::empty());
        assert(after.delivered.take(n) =~= e.delivered);
    }
}

/// Messages handed to the engine one after another: all that they surface, behind
/// what was surfaced before, replays from the engine's first clock.
pub proof fn lemma_deliver_each_replays(e: EngineView, ms: Seq<MessageView>)
    ensures
        deliver_each(e, ms).delivered.len() >= e.delivered.len(),
        deliver_each(e, ms).delivered.take(e.delivered.len() as int) == e.delivered,
        replays(e.clocks, deliver_each(e, ms).delivered.skip(e.delivered.len() as int)),
        replayed(e.clocks, deliver_each(e, ms).delivered.skip(e.delivered.len() as int))
            == deliver_each(e, ms).clocks,
    decreases ms.len(),
{
    let n = e.delivered.len() as int;
    if ms.len() == 0 {
        assert(e.delivered.take(n) =~= e.delivered);
        assert(e.delivered.skip(n) =~= Seq::<MessageView>::empty());
    } else {
        let mid = deliver_each(e, ms.drop_last());
        lemma_deliver_each_replays(e, ms.drop_last());
        lemma_deliver_step_replays(mid, ms.last());
        let after = deliver_step(mid, ms.last());
        let k = mid.delivered.len() as int;
        let a = mid.delivered.skip(n);
        let b = after.delivered.skip(k);
        lemma_replays_concat(e.clocks, a, b);
        assert(after.delivered.skip(n) =~= a + b) by {
            assert(after.delivered =~= after.delivered.take(k) + b);
        }
        assert(after.delivered.take(n) =~= mid.delivered.take(n)) by {
            assert(after.delivered.take(k) == mid.delivered);
        }
    }
}

/// The number of messages of `ds` that `sender` sent.
pub open spec fn count_sender(ds: Seq<MessageView>, sender: Seq<char>) -> nat
    decreases ds.len(),
{
    if ds.len() == 0 {
        0
    } else {
        (if ds[0].sender == sender {
            1nat
        } else {
            0nat
        }) + count_sender(ds.drop_first(), sender)
    }
}

/// Causal order per sender, for a replayed sequence: the messages of `sender` in it
/// carry the counters one past the starting clock's, two past it, and so on, in
/// that order, with no gap and no repeat; and the clock left behind counts exactly
/// those messages for `sender`.
pub proof fn lemma_sender_counters(c: ClockMap, ds: Seq<MessageView>, sender: Seq<char>)
    requires
        replays(c, ds),
    ensures
        forall|j: int|
            0 <= j < ds.len() && (#[trigger] ds[j]).sender == sender ==> ds[j].clocks.contains_key(
                sender,
            ) && ds[j].clocks[sender] == clock_at(c, sender) + 1 + count_sender(ds.take(j), sender),
        clock_at(replayed(c, ds), sender) == clock_at(c, sender) + count_sender(ds, sender),
    decreases ds.len(),
{
    if ds.len() > 0 {
        let c1 = merged(c, ds[0].clocks);
        let rest = ds.drop_first();
        lemma_delivery_advances_sender(c, ds[0]);
        lemma_sender_counters(c1, rest, sender);
        assert(clock_at(c1, sender) == clock_at(c, sender) + (if ds[0].sender == sender {
            1int
        } else {
            0int
        }));
        assert forall|j: int|
            0 <= j < ds.len() && (#[trigger] ds[j]).sender == sender implies ds[j].clocks.contains_key(
            sender,
        ) && ds[j].clocks[sender] == clock_at(c, sender) + 1 + count_sender(ds.take(j), sender) by {
            if j == 0 {
                assert(entry_ok(c, ds[0].sender, sender, ds[0].clocks[sender]));
                assert(ds.take(0).len() == 0);
            } else {
                assert(rest[j - 1] == ds[j]);
                assert(ds.take(j).drop_first() =~= rest.take(j - 1));
                assert(ds.take(j)[0] == ds[0]);
            }
        }
    }
}

/// Causal order per sender, for the engine: of all that a run of incoming messages
/// surfaces, the messages of `sender` carry the counters one past the engine's
/// counter for `sender` before the run, two past it, and so on, in that order, with
/// no gap and no repeat; the message stamped `n + 1` never comes before the one
/// stamped `n`.
pub proof fn lemma_causal_order(e: EngineView, ms: Seq<MessageView>, sender: Seq<char>)
    ensures
        ({
            let after = deliver_each(e, ms);
            let ds = after.delivered.skip(e.delivered.len() as int);
            &&& forall|j: int|
                0 <= j < ds.len() && (#[trigger] ds[j]).sender == sender
                    ==> ds[j].clocks.contains_key(sender) && ds[j].clocks[sender] == clock_at(
                    e.clocks,
                    sender,
                ) + 1 + count_sender(ds.take(j), sender)
            &&& clock_at(after.clocks, sender) == clock_at(e.clocks, sender) + count_sender(
                ds,
                sender,
            )
        }),
{
    lemma_deliver_each_replays(e, ms);
    lemma_sender_counters(
        e.clocks,
        deliver_each(e, ms).delivered.skip(e.delivered.len() as int),
        sender,
    );
}

/// A message the engine has delivered is not delivered again: handed over a second
/// time it is held, and the clocks stay as they were.
pub proof fn lemma_delivered_again(e: EngineView, m: MessageView)
    requires
        deliverable(e.clocks, m),
    ensures
        !deliverable(deliver_step(e, m).clocks, m),
        deliver_step(deliver_step(e, m), m) == (EngineView {
            pending: deliver_step(e, m).pending.push(m),
            ..deliver_step(e, m)
        }),
{
    let e1 = deliver_step(e, m);
    lemma_deliver_step_replays(e, m);
    let ds = e1.delivered.skip(e.delivered.len() as int);
    lemma_sender_counters(e.clocks, ds, m.sender);
    let n = e.delivered.len() as int;
    assert(e1.delivered =~= e.delivered.push(m) + rescan(
        merged(e.clocks, m.clocks),
        e.pending,
    ).delivered);
    assert(ds[0] == m);
    assert(ds.take(0).len() == 0);
    assert(count_sender(ds, m.sender) >= 1) by {
        assert(ds.len() > 0);
    }
    assert(entry_ok(e1.clocks, m.sender, m.sender, m.clocks[m.sender]) == false);
}

/// The messages of `ds` that `sender` sent, in their order.
pub open spec fn from_sender(ds: Seq<MessageView>, sender: Seq<char>) -> Seq<MessageView>
    decreases ds.len(),
{
    if ds.len() == 0 {
        ds
    } else if ds[0].sender == sender {
        seq![ds[0]] + from_sender(ds.drop_first(), sender)
    } else {
        from_sender(ds.drop_first(), sender)
    }
}

proof fn lemma_from_sender_remove(ds: Seq<MessageView>, sender: Seq<char>, i: int)
    requires
        0 <= i < ds.len(),
        ds[i].sender != sender,
    ensures
        from_sender(ds.remove(i), sender) == from_sender(ds, sender),
    decreases ds.len(),
{
    if i == 0 {
        assert(ds.remove(0) =~= ds.drop_first());
    } else {
        let r = ds.drop_first();
        assert(r[i - 1] == ds[i]);
        lemma_from_sender_remove(r, sender, i - 1);
        assert(ds.remove(i).drop_first() =~= r.remove(i - 1));
        assert(ds.remove(i)[0] == ds[0]);
    }
}

/// A rescan keeps a sender's messages in order: where no held message of `sender`
/// carries the counter one past the local one, the rescan delivers none of them,
/// keeps every one of them held in the order they were, and leaves the local
/// counter of `sender` as it was.
pub proof fn lemma_rescan_holds_sender(c: ClockMap, buf: Seq<MessageView>, sender: Seq<char>)
    requires
        forall|i: int|
            0 <= i < buf.len() && (#[trigger] buf[i]).sender == sender ==> clock_at(
                buf[i].clocks,
                sender,
            ) != clock_at(c, sender) + 1,
    ensures
        from_sender(rescan(c, buf).pending, sender) == from_sender(buf, sender),
        clock_at(rescan(c, buf).clocks, sender) == clock_at(c, sender),
        forall|j: int|
            0 <= j < rescan(c, buf).delivered.len() ==> (#[trigger] rescan(
                c,
                buf,
            ).delivered[j]).sender != sender,
    decreases buf.len(),
{
    match first_ready(c, buf) {
        Some(i) => {
            let k = choose|k: int| is_first_ready(c, buf, k);
            assert(is_first_ready(c, buf, k));
            assert(k == i);
            let x = buf[i];
            if x.sender == sender {
                assert(entry_ok(c, x.sender, sender, x.clocks[sender]));
            }
            let c1 = merged(c, x.clocks);
            lemma_delivery_advances_sender(c, x);
            assert(clock_at(c1, sender) == clock_at(c, sender));
            let rest = buf.remove(i);
            assert forall|j: int|
                0 <= j < rest.len() && (#[trigger] rest[j]).sender == sender implies clock_at(
                rest[j].clocks,
                sender,
            ) != clock_at(c1, sender) + 1 by {
                if j < i {
                    assert(rest[j] == buf[j]);
                } else {
                    assert(rest[j] == buf[j + 1]);
                }
            }
            lemma_rescan_holds_sender(c1, rest, sender);
            lemma_from_sender_remove(buf, sender, i);
            let r = rescan(c1, rest);
            let ds = seq![x] + r.delivered;
            assert forall|j: int| 0 <= j < ds.len() implies (#[trigger] ds[j]).sender != sender by {
                if j > 0 {
                    assert(ds[j] == r.delivered[j - 1]);
                }
            }
        },
        None => {},
    }
}

/// The data frames `ms` arriving on one session in turn.
pub open spec fn message_steps(
    policy: Option<PolicyView>,
    e: EngineView,
    s: SessionView,
    ms: Seq<Option<MessageView>>,
) -> Step
    decreases ms.len(),
{
    if ms.len() == 0 {
        Step { engine: e, session: s, action: Action::Continue }
    } else {
        let prev = message_steps(policy, e, s, ms.drop_last());
        message_step(policy, prev.engine, prev.session, ms.last())
    }
}

/// `ms` without the messages that `target` sent.
pub open spec fn without_sender(ms: Seq<Option<MessageView>>, target: Seq<char>) -> Seq<
    Option<MessageView>,
>
    decreases ms.len(),
{
    if ms.len() == 0 {
        ms
    } else if ms.last() matches Some(m) && m.sender == target {
        without_sender(ms.drop_last(), target)
    } else {
        without_sender(ms.drop_last(), target).push(ms.last())
    }
}

/// Drop fidelity: on a session past its handshake, under a policy that drops the
/// messages of `target`, a run of frames leaves the engine, its clocks and held
/// messages included, and the session exactly as the same run with every message
/// of `target` taken out would, however many of them there are and however they
/// are interleaved with the others.
pub proof fn lemma_drop_fidelity(
    target: Seq<char>,
    e: EngineView,
    s: SessionView,
    ms: Seq<Option<MessageView>>,
)
    requires
        s.state == SessionState::Active,
    ensures
        ({
            let p = Some(PolicyView { target, mode: FaultMode::Drop });
            let all = message_steps(p, e, s, ms);
            let others = message_steps(p, e, s, without_sender(ms, target));
            &&& all.engine == others.engine
            &&& all.session == others.session
            &&& all.session.state == SessionState::Active || all.session.state
                == SessionState::Closed
        }),
    decreases ms.len(),
{
    let p = Some(PolicyView { target, mode: FaultMode::Drop });
    if ms.len() == 0 {
        assert(without_sender(ms, target) == ms);
    } else {
        let init = ms.drop_last();
        lemma_drop_fidelity(target, e, s, init);
        let prev = message_steps(p, e, s, init);
        let prev_others = message_steps(p, e, s, without_sender(init, target));
        let last = ms.last();
        assert(message_steps(p, e, s, ms) == message_step(p, prev.engine, prev.session, last));
        if last matches Some(m) && m.sender == target {
            assert(without_sender(ms, target) == without_sender(init, target));
        } else {
            let w = without_sender(init, target).push(last);
            assert(without_sender(ms, target) == w);
            assert(w.drop_last() =~= without_sender(init, target));
            assert(w.last() == last);
            assert(message_steps(p, e, s, w) == message_step(
                p,
                prev_others.engine,
                prev_others.session,
                last,
            ));
        }
    }
}

/// The timers `tokens` of one session firing in turn.
pub open spec fn timer_steps(e: EngineView, s: SessionView, tokens: Seq<u64>) -> Step
    decreases tokens.len(),
{
    if tokens.len() == 0 {
        Step { engine: e, session: s, action: Action::Continue }
    } else {
        let prev = timer_steps(e, s, tokens.drop_last());
        timer_step(prev.engine, prev.session, tokens.last())
    }
}

/// The timer tokens of a delay queue, oldest first.
pub open spec fn timer_tokens(q: Seq<(u64, MessageView)>) -> Seq<u64> {
    q.map_values(|x: (u64, MessageView)| x.0)
}

/// Held messages leave in the order they arrived: when the session's timers fire
/// in the order they were set, as one delay for all of them makes them do, `n`
/// fires hand the `n` oldest held messages to the engine, oldest first, and leave
/// the rest held.
pub proof fn lemma_fifo_release(e: EngineView, s: SessionView, n: int)
    requires
        s.state != SessionState::Closed,
        queue_ok(s.delayed, s.next_token),
        0 <= n <= s.delayed.len(),
    ensures
        ({
            let st = timer_steps(e, s, timer_tokens(s.delayed).take(n));
            &&& st.engine == deliver_each(e, queued_messages(s.delayed.take(n)))
            &&& st.session == (SessionView { delayed: s.delayed.skip(n), ..s })
        }),
    decreases n,
{
    let q = s.delayed;
    if n == 0 {
        assert(q.skip(0) =~= q);
        assert(queued_messages(q.take(0)) =~= Seq::<MessageView>::empty());
        assert(timer_tokens(q).take(0) =~= Seq::<u64>::empty());
    } else {
        lemma_fifo_release(e, s, n - 1);
        let t = timer_tokens(q).take(n);
        assert(t.drop_last() =~= timer_tokens(q).take(n - 1));
        assert(t.last() == q[n - 1].0);
        let rest = q.skip(n - 1);
        assert(rest[0] == q[n - 1]);
        assert forall|k: int| 0 <= k < rest.len() && rest[k].0 == q[n - 1].0 implies k == 0 by {
            assert(rest[k] == q[n - 1 + k]);
        }
        let k = choose|k: int| 0 <= k < rest.len() && rest[k].0 == q[n - 1].0;
        assert(k == 0);
        assert(rest.remove(0) =~= q.skip(n));
        assert(queued_messages(q.take(n)).drop_last() =~= queued_messages(q.take(n - 1)));
        assert(queued_messages(q.take(n)).last() == q[n - 1].1);
    }
}

/// Delay ordering: under a policy that delays the messages of `target` by `d`, two
/// of its messages arriving one after the other on a session past its handshake
/// are not handed to the engine on arrival. Each gets a timer of `d` whose token no
/// held message has, and they queue behind whatever was held before, the first
/// ahead of the second. As the timers fire in the order they were set, the first
/// reaches the engine with its own timer while the second is still held, and the
/// second follows with its own.
pub proof fn lemma_delay_order(
    target: Seq<char>,
    d: u64,
    e: EngineView,
    s: SessionView,
    m1: MessageView,
    m2: MessageView,
)
    requires
        s.state == SessionState::Active,
        queue_ok(s.delayed, s.next_token),
        s.next_token < u64::MAX - 1,
        m1.sender == target,
        m2.sender == target,
    ensures
        ({
            let p = Some(PolicyView { target, mode: FaultMode::Delay(d) });
            let t1 = s.next_token;
            let t2 = (s.next_token + 1) as u64;
            let st1 = message_step(p, e, s, Some(m1));
            let st2 = message_step(p, st1.engine, st1.session, Some(m2));
            let fires = timer_tokens(s.delayed).push(t1).push(t2);
            let k = s.delayed.len() as int;
            let first = timer_steps(st2.engine, st2.session, fires.take(k + 1));
            let both = timer_steps(st2.engine, st2.session, fires);
            &&& st1.action == Action::Schedule { token: t1, delay_ms: d }
            &&& st2.action == Action::Schedule { token: t2, delay_ms: d }
            &&& forall|i: int| 0 <= i < s.delayed.len() ==> (#[trigger] s.delayed[i]).0 != t1
                && s.delayed[i].0 != t2
            &&& st2.engine == e
            &&& st2.session.delayed == s.delayed.push((t1, m1)).push((t2, m2))
            &&& first.engine == deliver_each(e, queued_messages(s.delayed).push(m1))
            &&& first.session.delayed == seq![(t2, m2)]
            &&& both.engine == deliver_each(e, queued_messages(s.delayed).push(m1).push(m2))
            &&& both.session.delayed.len() == 0
        }),
{
    let p = Some(PolicyView { target, mode: FaultMode::Delay(d) });
    let t1 = s.next_token;
    let t2 = (s.next_token + 1) as u64;
    let st1 = message_step(p, e, s, Some(m1));
    let st2 = message_step(p, st1.engine, st1.session, Some(m2));
    let q = s.delayed;
    let q2 = q.push((t1, m1)).push((t2, m2));
    let k = q.len() as int;
    assert(st2.session.delayed == q2);
    assert(queue_ok(q2, st2.session.next_token)) by {
        assert forall|i: int, j: int| 0 <= i < j < q2.len() implies q2[i].0 < q2[j].0 by {
            if j < k {
                assert(q2[i] == q[i] && q2[j] == q[j]);
            } else if i < k {
                assert(q2[i] == q[i]);
            }
        }
        assert forall|i: int| 0 <= i < q2.len() implies (#[trigger] q2[i]).0
            < st2.session.next_token by {
            if i < k {
                assert(q2[i] == q[i]);
            }
        }
    }
    let fires = timer_tokens(q).push(t1).push(t2);
    assert(timer_tokens(q2) =~= fires);
    assert(fires.take(k + 2) =~= fires);
    lemma_fifo_release(st2.engine, st2.session, k + 1);
    lemma_fifo_release(st2.engine, st2.session, k + 2);
    assert(q2.take(k + 1) =~= q.push((t1, m1)));
    assert(queued_messages(q.push((t1, m1))) =~= queued_messages(q).push(m1));
    assert(q2.skip(k + 1) =~= seq![(t2, m2)]);
    assert(q2.take(k + 2) =~= q2);
    assert(queued_messages(q2) =~= queued_messages(q).push(m1).push(m2));
    assert(q2.skip(k + 2) =~= Seq::<(u64, MessageView)>::empty());
}

/// Cascade delivery: at a receiver that holds nothing and has not counted any
/// message of `a`, the second message of `a` arriving before the first is held;
/// the first is then delivered, and the rescan it triggers delivers the second
/// right behind it, leaving nothing held and the counter of `a` at two.
pub proof fn lemma_cascade(e: EngineView, a: Seq<char>, t1: Seq<char>, t2: Seq<char>)
    requires
        e.pending.len() == 0,
        clock_at(e.clocks, a) == 0,
    ensures
        ({
            let m1 = MessageView { sender: a, clocks: map![a => 1u32], message: t1 };
            let m2 = MessageView { sender: a, clocks: map![a => 2u32], message: t2 };
            let e1 = deliver_step(e, m2);
            let e2 = deliver_step(e1, m1);
            &&& !deliverable(e.clocks, m2)
            &&& e1 == (EngineView { pending: seq![m2], ..e })
            &&& deliverable(e1.clocks, m1)
            &&& e2.pending.len() == 0
            &&& e2.delivered == e.delivered + seq![m1, m2]
            &&& clock_at(e2.clocks, a) == 2
        }),
{
    let m1 = MessageView { sender: a, clocks: map![a => 1u32], message: t1 };
    let m2 = MessageView { sender: a, clocks: map![a => 2u32], message: t2 };
    assert(m2.clocks.contains_key(a));
    assert(!entry_ok(e.clocks, a, a, m2.clocks[a]));
    let e1 = deliver_step(e, m2);
    assert(e.pending.push(m2) =~= seq![m2]);
    assert(e1 == (EngineView { pending: seq![m2], ..e }));
    assert forall|k: Seq<char>| #[trigger] m1.clocks.contains_key(k) implies entry_ok(
        e1.clocks,
        a,
        k,
        m1.clocks[k],
    ) by {}
    let c1 = merged(e1.clocks, m1.clocks);
    assert(clock_at(c1, a) == 1);
    assert forall|k: Seq<char>| #[trigger] m2.clocks.contains_key(k) implies entry_ok(
        c1,
        a,
        k,
        m2.clocks[k],
    ) by {}
    let buf = seq![m2];
    assert(is_first_ready(c1, buf, 0));
    let i = choose|i: int| is_first_ready(c1, buf, i);
    assert(i == 0);
    let c2 = merged(c1, m2.clocks);
    assert(clock_at(c2, a) == 2);
    assert(buf.remove(0) =~= Seq::<MessageView>::empty());
    let empty = Seq::<MessageView>::empty();
    if exists|k: int| is_first_ready(c2, empty, k) {
        let k = choose|k: int| is_first_ready(c2, empty, k);
    }
    assert(rescan(c2, empty) == RescanView { clocks: c2, pending: empty, delivered: empty });
    assert(rescan(c1, buf).delivered =~= seq![m2]);
    assert(e.delivered.push(m1) + seq![m2] =~= e.delivered + seq![m1, m2]);
}

/// First-contact delivery: a message from a sender this node has never heard of,
/// stamped with its sender alone at one, is surfaced at once, right behind what was
/// surfaced before, and registers its sender at one.
pub proof fn lemma_first_contact(e: EngineView, m: MessageView)
    requires
        !e.clocks.contains_key(m.sender),
        m.clocks == map![m.sender => 1u32],
    ensures
        deliverable(e.clocks, m),
        merged(e.clocks, m.clocks) == e.clocks.insert(m.sender, 1u32),
        deliver_step(e, m).delivered.len() > e.delivered.len(),
        deliver_step(e, m).delivered[e.delivered.len() as int] == m,
        e.pending.len() == 0 ==> deliver_step(e, m).clocks == e.clocks.insert(m.sender, 1u32),
{
    assert(merged(e.clocks, m.clocks) =~= e.clocks.insert(m.sender, 1u32));
    let c1 = merged(e.clocks, m.clocks);
    let r = rescan(c1, e.pending);
    assert((e.delivered.push(m) + r.delivered)[e.delivered.len() as int] == m);
    if e.pending.len() == 0 {
        if exists|i: int| is_first_ready(c1, e.pending, i) {
            let i = choose|i: int| is_first_ready(c1, e.pending, i);
        }
    }
}

} // verus!
