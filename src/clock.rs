use vstd::prelude::*;

verus! {

/// A clock seen as a map: peer identity to counter.
pub type ClockMap = Map<Seq<char>, u32>;

/// The counter a clock holds for `k`; a peer the clock does not know counts as zero.
pub open spec fn clock_at(m: ClockMap, k: Seq<char>) -> int {
    if m.contains_key(k) {
        m[k] as int
    } else {
        0
    }
}

/// Pointwise maximum of `local` and `update`. A key known to one side only keeps
/// that side's counter, so a peer first learned from `update` is registered with
/// the incoming value.
pub open spec fn merged(local: ClockMap, update: ClockMap) -> ClockMap {
    Map::new(
        |k: Seq<char>| local.contains_key(k) || update.contains_key(k),
        |k: Seq<char>|
            if !update.contains_key(k) {
                local[k]
            } else if !local.contains_key(k) {
                update[k]
            } else if local[k] >= update[k] {
                local[k]
            } else {
                update[k]
            },
    )
}

/// The map that a list of entries describes; a later entry for a key wins.
pub open spec fn entries_map(s: Seq<(String, u32)>) -> ClockMap
    decreases s.len(),
{
    if s.len() == 0 {
        Map::empty()
    } else {
        entries_map(s.drop_last()).insert(s.last().0@, s.last().1)
    }
}

/// No two entries name the same peer.
pub open spec fn keys_distinct(s: Seq<(String, u32)>) -> bool {
    forall|i: int, j: int| 0 <= i < j < s.len() ==> s[i].0@ != s[j].0@
}

/// Every key of `entries_map(s)` comes from some entry, and with distinct keys each
/// entry's counter is the one the map holds.
pub proof fn lemma_entries_map(s: Seq<(String, u32)>)
    ensures
        forall|k: Seq<char>|
            #[trigger] entries_map(s).contains_key(k) <==> exists|i: int|
                0 <= i < s.len() && s[i].0@ == k,
        keys_distinct(s) ==> forall|i: int|
            #![trigger s[i]]
            0 <= i < s.len() ==> entries_map(s)[s[i].0@] == s[i].1,
    decreases s.len(),
{
    if s.len() > 0 {
        let p = s.drop_last();
        lemma_entries_map(p);
        assert(entries_map(s) == entries_map(p).insert(s.last().0@, s.last().1));
        assert forall|k: Seq<char>|
            #[trigger] entries_map(s).contains_key(k) <==> exists|i: int|
                0 <= i < s.len() && s[i].0@ == k by {
            if entries_map(s).contains_key(k) && k != s.last().0@ {
                assert(entries_map(p).contains_key(k));
                let i = choose|i: int| 0 <= i < p.len() && p[i].0@ == k;
                assert(s[i] == p[i]);
            }
            if exists|i: int| 0 <= i < s.len() && s[i].0@ == k {
                let i = choose|i: int| 0 <= i < s.len() && s[i].0@ == k;
                if i < p.len() {
                    assert(s[i] == p[i]);
                }
            }
        }
        if keys_distinct(s) {
            assert forall|i: int| #![trigger s[i]] 0 <= i < s.len() implies entries_map(s)[s[i].0@]
                == s[i].1 by {
                if i < p.len() {
                    assert(s[i] == p[i]);
                    assert(s[i].0@ != s.last().0@);
                }
            }
        }
    }
}

/// A vector clock: the counter of each peer this node has heard of.
pub struct VectorClock {
    pub(crate) entries: Vec<(String, u32)>,
}

impl View for VectorClock {
    type V = ClockMap;

    closed spec fn view(&self) -> ClockMap {
        entries_map(self.entries@)
    }
}

impl VectorClock {
    /// Each peer appears in at most one entry.
    pub closed spec fn wf(&self) -> bool {
        keys_distinct(self.entries@)
    }

    /// An empty clock.
    pub fn new() -> (r: VectorClock)
        ensures
            r.wf(),
            r@ == Map::<Seq<char>, u32>::empty(),
    {
        VectorClock { entries: Vec::new() }
    }

    /// The number of peers the clock knows.
    pub fn len(&self) -> (n: usize)
        requires
            self.wf(),
        ensures
            n as nat == self@.dom().len(),
    {
        proof {
            lemma_dom_len_of(self.entries@);
        }
        self.entries.len()
    }

    /// Where `k` stands among the entries, if anywhere.
    fn position(&self, k: &String) -> (r: Option<usize>)
        ensures
            r matches Some(i) ==> i < self.entries@.len() && self.entries@[i as int].0@ == k@,
            r is None ==> forall|i: int|
                0 <= i < self.entries@.len() ==> self.entries@[i].0@ != k@,
    {
        let mut i: usize = 0;
        while i < self.entries.len()
            invariant
                i <= self.entries@.len(),
                forall|j: int| 0 <= j < i ==> self.entries@[j].0@ != k@,
            decreases self.entries@.len() - i,
        {
            if self.entries[i].0 == *k {
                return Some(i);
            }
            i = i + 1;
        }
        None
    }

    /// The counter held for `k`, if the clock knows `k`.
    pub fn get(&self, k: &String) -> (r: Option<u32>)
        requires
            self.wf(),
        ensures
            r == (if self@.contains_key(k@) {
                Some(self@[k@])
            } else {
                None::<u32>
            }),
    {
        proof {
            lemma_entries_map(self.entries@);
        }
        match self.position(k) {
            Some(i) => Some(self.entries[i].1),
            None => None,
        }
    }

    /// Sets the counter of `k` to `v`, adding `k` if it is new.
    pub fn set(&mut self, k: String, v: u32)
        requires
            old(self).wf(),
        ensures
            final(self).wf(),
            final(self)@ == old(self)@.insert(k@, v),
    {
        proof {
            lemma_entries_map(self.entries@);
        }
        match self.position(&k) {
            Some(i) => {
                let ghost s = self.entries@;
                let ghost kv = k@;
                self.entries.set(i, (k, v));
                proof {
                    let t = self.entries@;
                    assert(t == s.update(i as int, (t[i as int].0, v)));
                    assert(keys_distinct(t)) by {
                        assert forall|a: int, b: int| 0 <= a < b < t.len() implies t[a].0@
                            != t[b].0@ by {
                            if a != i && b != i {
                                assert(t[a] == s[a] && t[b] == s[b]);
                            } else if a == i {
                                assert(t[b] == s[b]);
                            } else {
                                assert(t[a] == s[a]);
                            }
                        }
                    }
                    lemma_entries_map(t);
                    assert(entries_map(t) =~= entries_map(s).insert(kv, v)) by {
                        assert forall|q: Seq<char>| #[trigger]
                            entries_map(t).contains_key(q) implies entries_map(s).insert(
                            kv,
                            v,
                        ).contains_key(q) && entries_map(t)[q] == entries_map(s).insert(
                            kv,
                            v,
                        )[q] by {
                            let j = choose|j: int| 0 <= j < t.len() && t[j].0@ == q;
                            if j != i {
                                assert(t[j] == s[j]);
                            }
                        }
                        assert forall|q: Seq<char>| #[trigger]
                            entries_map(s).insert(kv, v).contains_key(q) implies entries_map(
                            t,
                        ).contains_key(q) by {
                            if q != kv {
                                let j = choose|j: int| 0 <= j < s.len() && s[j].0@ == q;
                                assert(t[j] == s[j]);
                            } else {
                                assert(t[i as int].0@ == q);
                            }
                        }
                    }
                }
            },
            None => {
                let ghost s = self.entries@;
                self.entries.push((k, v));
                proof {
                    assert(self.entries@.drop_last() =~= s);
                }
            },
        }
    }

    /// Raises each counter of `self` to the one in `update` where that is higher, and
    /// adds the peers that only `update` knows. Tells whether any counter rose, a
    /// peer first learned counting as risen from zero.
    pub fn merge(&mut self, update: &VectorClock) -> (changed: bool)
        requires
            old(self).wf(),
            update.wf(),
        ensures
            final(self).wf(),
            final(self)@ == merged(old(self)@, update@),
            changed == raises(old(self)@, update@),
    {
        let ghost start = self@;
        let ghost u = update.entries@;
        let mut changed = false;
        let mut j: usize = 0;
        proof {
            assert(u.take(0) =~= Seq::<(String, u32)>::empty());
            assert(merged(start, Map::empty()) =~= start);
        }
        while j < update.entries.len()
            invariant
                j <= u.len(),
                u == update.entries@,
                keys_distinct(u),
                self.wf(),
                self@ == merged(start, entries_map(u.take(j as int))),
                changed == exists|i: int| 0 <= i < j && u[i].1 > clock_at(start, #[trigger] u[i].0@),
            decreases u.len() - j,
        {
            let k = &update.entries[j].0;
            let v = update.entries[j].1;
            proof {
                let m = entries_map(u.take(j as int));
                assert(u.take(j as int + 1).drop_last() =~= u.take(j as int));
                lemma_entries_map(u.take(j as int));
                if m.contains_key(k@) {
                    let i = choose|i: int| 0 <= i < j && u.take(j as int)[i].0@ == k@;
                    assert(u[i].0@ == u[j as int].0@);
                }
                lemma_merged_insert(start, m, k@, v);
            }
            match self.get(k) {
                Some(l) => {
                    if v > l {
                        self.set(k.clone(), v);
                        changed = true;
                    }
                },
                None => {
                    self.set(k.clone(), v);
                    if v > 0 {
                        changed = true;
                    }
                },
            }
            proof {
                assert(self@ =~= merged(start, entries_map(u.take(j as int + 1))));
                if !changed {
                    assert forall|i: int| 0 <= i < j + 1 implies !(u[i].1 > clock_at(
                        start,
                        #[trigger] u[i].0@,
                    )) by {}
                }
            }
            j = j + 1;
        }
        proof {
            assert(u.take(u.len() as int) =~= u);
            lemma_entries_map(u);
            if changed {
                let i = choose|i: int| 0 <= i < u.len() && u[i].1 > clock_at(start, #[trigger] u[i].0@);
                assert(update@.contains_key(u[i].0@));
            } else {
                assert forall|k: Seq<char>| #[trigger] update@.contains_key(k) implies !(update@[k]
                    > clock_at(start, k)) by {
                    let i = choose|i: int| 0 <= i < u.len() && u[i].0@ == k;
                    assert(!(u[i].1 > clock_at(start, u[i].0@)));
                }
            }
        }
        changed
    }

    /// Whether a message that `sender` stamped with `clocks` may be delivered against
    /// this clock.
    pub fn admits(&self, sender: &String, clocks: &VectorClock) -> (r: bool)
        requires
            self.wf(),
            clocks.wf(),
        ensures
            r == admits(self@, sender@, clocks@),
    {
        let ghost u = clocks.entries@;
        proof {
            lemma_entries_map(u);
        }
        if clocks.get(sender).is_none() {
            return false;
        }
        let mut j: usize = 0;
        while j < clocks.entries.len()
            invariant
                j <= u.len(),
                u == clocks.entries@,
                keys_distinct(u),
                self.wf(),
                forall|i: int| 0 <= i < j ==> entry_ok(self@, sender@, #[trigger] u[i].0@, u[i].1),
            decreases u.len() - j,
        {
            let k = &clocks.entries[j].0;
            let v = clocks.entries[j].1;
            let l: u32 = match self.get(k) {
                Some(x) => x,
                None => 0,
            };
            let ok = if *k == *sender {
                v as u64 == l as u64 + 1
            } else {
                v <= l
            };
            if !ok {
                proof {
                    lemma_entries_map(u);
                    assert(u[j as int].0@ == k@);
                    assert(clocks@.contains_key(k@));
                    assert(clocks@[k@] == v);
                    assert(!entry_ok(self@, sender@, k@, clocks@[k@]));
                }
                return false;
            }
            j = j + 1;
        }
        proof {
            assert forall|k: Seq<char>| #[trigger] clocks@.contains_key(k) implies entry_ok(
                self@,
                sender@,
                k,
                clocks@[k],
            ) by {
                let i = choose|i: int| 0 <= i < u.len() && u[i].0@ == k;
                assert(entry_ok(self@, sender@, u[i].0@, u[i].1));
            }
        }
        true
    }

    /// A copy of the clock.
    pub fn copy(&self) -> (r: VectorClock)
        requires
            self.wf(),
        ensures
            r.wf(),
            r@ == self@,
    {
        VectorClock { entries: self.to_vec() }
    }

    /// The entries of the clock, one per peer.
    pub fn to_vec(&self) -> (r: Vec<(String, u32)>)
        requires
            self.wf(),
        ensures
            keys_distinct(r@),
            entries_map(r@) == self@,
    {
        let mut out: Vec<(String, u32)> = Vec::new();
        let mut i: usize = 0;
        while i < self.entries.len()
            invariant
                i <= self.entries@.len(),
                out@ == self.entries@.take(i as int),
            decreases self.entries@.len() - i,
        {
            let e = &self.entries[i];
            out.push((e.0.clone(), e.1));
            proof {
                assert(out@ =~= self.entries@.take(i as int + 1));
            }
            i = i + 1;
        }
        proof {
            assert(out@ =~= self.entries@);
        }
        out
    }

    /// The clock that a list of entries describes; where a peer is listed twice the
    /// later entry wins.
    pub fn from_entries(v: Vec<(String, u32)>) -> (r: VectorClock)
        ensures
            r.wf(),
            r@ == entries_map(v@),
    {
        let ghost s = v@;
        let mut r = VectorClock::new();
        let mut v = v;
        let mut rest: Vec<(String, u32)> = Vec::new();
        // take the entries from the back, then set them front to back
        while v.len() > 0
            invariant
                v@ + rest@.reverse() == s,
            decreases v@.len(),
        {
            let e = v.pop().unwrap();
            proof {
                assert(v@ + rest@.push(e).reverse() =~= s);
            }
            rest.push(e);
        }
        let ghost t = rest@;
        proof {
            assert(t.reverse() =~= s);
        }
        while rest.len() > 0
            invariant
                r.wf(),
                t.reverse() == s,
                rest@ == t.take(rest@.len() as int),
                rest@.len() <= t.len(),
                r@ == entries_map(s.take(t.len() - rest@.len())),
            decreases rest@.len(),
        {
            let ghost n = (t.len() - rest@.len()) as int;
            let e = rest.pop().unwrap();
            proof {
                assert(s[n] == e);
                assert(s.take(n + 1).drop_last() =~= s.take(n));
                assert(rest@ =~= t.take(rest@.len() as int));
            }
            r.set(e.0, e.1);
        }
        proof {
            assert(s.take(s.len() as int) =~= s);
        }
        r
    }
}

/// Some counter of `update` is above the local one, a peer unknown locally counting
/// as zero: merging `update` raises the clock.
pub open spec fn raises(local: ClockMap, update: ClockMap) -> bool {
    exists|k: Seq<char>| #[trigger] update.contains_key(k) && update[k] > clock_at(local, k)
}

/// One entry of a message's clock against the local clock, as `admits` asks.
pub open spec fn entry_ok(local: ClockMap, sender: Seq<char>, k: Seq<char>, v: u32) -> bool {
    if k == sender {
        v == clock_at(local, k) + 1
    } else {
        v <= clock_at(local, k)
    }
}

/// The causal-delivery test for a message from `sender` stamped with `clocks`: it
/// names its sender, its counter for the sender is one past the local one, and no
/// other counter runs ahead of what is known locally. Peers unknown locally count
/// as zero.
pub open spec fn admits(local: ClockMap, sender: Seq<char>, clocks: ClockMap) -> bool {
    &&& clocks.contains_key(sender)
    &&& forall|k: Seq<char>| #[trigger]
        clocks.contains_key(k) ==> entry_ok(local, sender, k, clocks[k])
}

proof fn lemma_merged_insert(local: ClockMap, m: ClockMap, k: Seq<char>, v: u32)
    requires
        !m.contains_key(k),
    ensures
        merged(local, m.insert(k, v)) == merged(local, m).insert(
            k,
            if local.contains_key(k) && local[k] >= v {
                local[k]
            } else {
                v
            },
        ),
{
    assert(merged(local, m.insert(k, v)) =~= merged(local, m).insert(
        k,
        if local.contains_key(k) && local[k] >= v {
            local[k]
        } else {
            v
        },
    ));
}

proof fn lemma_dom_len_of(s: Seq<(String, u32)>)
    requires
        keys_distinct(s),
    ensures
        entries_map(s).dom().len() == s.len(),
        entries_map(s).dom().finite(),
    decreases s.len(),
{
    if s.len() > 0 {
        let p = s.drop_last();
        assert(keys_distinct(p));
        lemma_dom_len_of(p);
        lemma_entries_map(p);
        if entries_map(p).contains_key(s.last().0@) {
            let i = choose|i: int| 0 <= i < p.len() && p[i].0@ == s.last().0@;
            assert(s[i] == p[i]);
        }
    }
}

} // verus!
