use std::collections::{HashMap, HashSet, VecDeque};
use vstd::prelude::*;

verus! {

/// A pending packet: (source, destination, timestamp).
pub type Packet = (i32, i32, i32);

/// Packs the three fields of a packet into one integer, each field shifted
/// into its own 32-bit lane; distinct packets get distinct keys.
pub open spec fn key_of(p: Packet) -> u128 {
    ((p.0 as int + 0x8000_0000) * 0x1_0000_0000_0000_0000 + (p.1 as int + 0x8000_0000)
        * 0x1_0000_0000 + (p.2 as int + 0x8000_0000)) as u128
}

/// Packing is injective.
pub proof fn lemma_key_injective(p: Packet, q: Packet)
    requires
        key_of(p) == key_of(q),
    ensures
        p == q,
{
    let a1 = p.0 as int + 0x8000_0000;
    let b1 = p.1 as int + 0x8000_0000;
    let c1 = p.2 as int + 0x8000_0000;
    let a2 = q.0 as int + 0x8000_0000;
    let b2 = q.1 as int + 0x8000_0000;
    let c2 = q.2 as int + 0x8000_0000;
    assert(a1 * 0x1_0000_0000_0000_0000 + b1 * 0x1_0000_0000 + c1 == a2 * 0x1_0000_0000_0000_0000
        + b2 * 0x1_0000_0000 + c2);
    assert(a1 == a2);
    assert(b1 == b2);
}

/// Computes the deduplication key of a packet.
fn packet_key(source: i32, destination: i32, timestamp: i32) -> (k: u128)
    ensures
        k == key_of((source, destination, timestamp)),
{
    let a = (source as i64 + 0x8000_0000) as u128;
    let b = (destination as i64 + 0x8000_0000) as u128;
    let c = (timestamp as i64 + 0x8000_0000) as u128;
    a * 0x1_0000_0000_0000_0000 + b * 0x1_0000_0000 + c
}


/// Timestamps of the packets in `q` addressed to `d`, in queue order.
pub open spec fn times_to(q: Seq<Packet>, d: i32) -> Seq<i32>
    decreases q.len(),
{
    if q.len() == 0 {
        Seq::empty()
    } else {
        let rest = times_to(q.drop_last(), d);
        if q.last().1 == d {
            rest.push(q.last().2)
        } else {
            rest
        }
    }
}

/// Number of packets in `q` addressed to `d` whose timestamp lies in
/// `[start, end]`, by a plain scan of the queue.
pub open spec fn count_in(q: Seq<Packet>, d: i32, start: i32, end: i32) -> nat
    decreases q.len(),
{
    if q.len() == 0 {
        0
    } else {
        count_in(q.drop_last(), d, start, end) + if q.last().1 == d && start <= q.last().2
            <= end {
            1nat
        } else {
            0nat
        }
    }
}

/// Number of entries of `ts` in `[start, end]`.
pub open spec fn count_range(ts: Seq<i32>, start: i32, end: i32) -> nat
    decreases ts.len(),
{
    if ts.len() == 0 {
        0
    } else {
        count_range(ts.drop_last(), start, end) + if start <= ts.last() <= end {
            1nat
        } else {
            0nat
        }
    }
}

pub open spec fn sorted(ts: Seq<i32>) -> bool {
    forall|i: int, j: int| 0 <= i <= j < ts.len() ==> ts[i] <= ts[j]
}

/// A packet for `d` stamped `t` keeps the timestamps of `d` non-decreasing.
pub open spec fn in_order(q: Seq<Packet>, d: i32, t: i32) -> bool {
    forall|i: int| 0 <= i < q.len() && q[i].1 == d ==> q[i].2 <= t
}

/// The queue after accepting a new packet `p` under capacity `cap`: the
/// oldest packet is evicted first when the queue is full.
pub open spec fn after_insert(q: Seq<Packet>, cap: int, p: Packet) -> Seq<Packet> {
    if q.len() >= cap {
        q.drop_first().push(p)
    } else {
        q.push(p)
    }
}

proof fn lemma_times_push(q: Seq<Packet>, p: Packet, d: i32)
    ensures
        times_to(q.push(p), d) == if p.1 == d {
            times_to(q, d).push(p.2)
        } else {
            times_to(q, d)
        },
{
    assert(q.push(p).drop_last() =~= q);
}

proof fn lemma_times_front(q: Seq<Packet>, d: i32)
    requires
        q.len() > 0,
    ensures
        times_to(q, d) == if q[0].1 == d {
            seq![q[0].2] + times_to(q.drop_first(), d)
        } else {
            times_to(q.drop_first(), d)
        },
    decreases q.len(),
{
    if q.len() == 1 {
        assert(q.drop_last() =~= Seq::<Packet>::empty());
        assert(q.drop_first() =~= Seq::<Packet>::empty());
    } else {
        lemma_times_front(q.drop_last(), d);
        assert(q.drop_last().drop_first() =~= q.drop_first().drop_last());
        if q[0].1 == d {
            assert(seq![q[0].2] + times_to(q.drop_first(), d) =~= if q.last().1 == d {
                (seq![q[0].2] + times_to(q.drop_last().drop_first(), d)).push(q.last().2)
            } else {
                seq![q[0].2] + times_to(q.drop_last().drop_first(), d)
            });
        }
    }
}

proof fn lemma_times_bounded(q: Seq<Packet>, d: i32, t: i32)
    requires
        in_order(q, d, t),
    ensures
        forall|j: int| 0 <= j < times_to(q, d).len() ==> times_to(q, d)[j] <= t,
        times_to(q, d).len() <= q.len(),
    decreases q.len(),
{
    if q.len() > 0 {
        lemma_times_bounded(q.drop_last(), d, t);
    }
}

proof fn lemma_times_len(q: Seq<Packet>, d: i32)
    ensures
        times_to(q, d).len() <= q.len(),
    decreases q.len(),
{
    if q.len() > 0 {
        lemma_times_len(q.drop_last(), d);
    }
}

proof fn lemma_count_via_times(q: Seq<Packet>, d: i32, start: i32, end: i32)
    ensures
        count_in(q, d, start, end) == count_range(times_to(q, d), start, end),
    decreases q.len(),
{
    if q.len() > 0 {
        lemma_count_via_times(q.drop_last(), d, start, end);
        if q.last().1 == d {
            assert(times_to(q, d).drop_last() =~= times_to(q.drop_last(), d));
        }
    }
}

/// When the entries of `ts` in `[start, end]` are exactly those at the
/// positions `lo..hi`, there are `hi - lo` of them.
proof fn lemma_count_interval(ts: Seq<i32>, start: i32, end: i32, lo: int, hi: int)
    requires
        0 <= lo <= hi <= ts.len(),
        forall|i: int| 0 <= i < ts.len() ==> (start <= #[trigger] ts[i] <= end <==> lo <= i < hi),
    ensures
        count_range(ts, start, end) == hi - lo,
    decreases ts.len(),
{
    if ts.len() > 0 {
        let n = ts.len() as int;
        let rest = ts.drop_last();
        assert forall|i: int| 0 <= i < rest.len() implies (start <= #[trigger] rest[i] <= end
            <==> lo <= i < hi) by {
            assert(rest[i] == ts[i]);
        }
        assert(ts.last() == ts[n - 1]);
        if hi == n {
            if lo < n {
                lemma_count_interval(rest, start, end, lo, n - 1);
            } else {
                lemma_count_interval(rest, start, end, n - 1, n - 1);
            }
        } else {
            lemma_count_interval(rest, start, end, lo, hi);
        }
    }
}

/// Position of the first entry of sorted `ts` that is not below `x`.
fn first_not_below(ts: &Vec<i32>, x: i32) -> (p: usize)
    requires
        sorted(ts@),
    ensures
        p <= ts@.len(),
        forall|i: int| 0 <= i < p ==> ts@[i] < x,
        forall|i: int| p <= i < ts@.len() ==> ts@[i] >= x,
{
    let mut lo: usize = 0;
    let mut hi: usize = ts.len();
    while lo < hi
        invariant
            lo <= hi <= ts@.len(),
            sorted(ts@),
            forall|i: int| 0 <= i < lo ==> ts@[i] < x,
            forall|i: int| hi <= i < ts@.len() ==> ts@[i] >= x,
        decreases hi - lo,
    {
        let mid: usize = lo + (hi - lo) / 2;
        if ts[mid] < x {
            lo = mid + 1;
        } else {
            hi = mid;
        }
    }
    lo
}

/// Position of the first entry of sorted `ts` that is above `x`.
fn first_above(ts: &Vec<i32>, x: i32) -> (p: usize)
    requires
        sorted(ts@),
    ensures
        p <= ts@.len(),
        forall|i: int| 0 <= i < p ==> ts@[i] <= x,
        forall|i: int| p <= i < ts@.len() ==> ts@[i] > x,
{
    let mut lo: usize = 0;
    let mut hi: usize = ts.len();
    while lo < hi
        invariant
            lo <= hi <= ts@.len(),
            sorted(ts@),
            forall|i: int| 0 <= i < lo ==> ts@[i] <= x,
            forall|i: int| hi <= i < ts@.len() ==> ts@[i] > x,
        decreases hi - lo,
    {
        let mid: usize = lo + (hi - lo) / 2;
        if ts[mid] <= x {
            lo = mid + 1;
        } else {
            hi = mid;
        }
    }
    lo
}


/// Rejected construction parameter.
#[derive(Debug, Clone, Copy, PartialEq, Eq, Structural)]
pub enum ConfigError {
    /// The capacity given was zero or negative.
    NonPositiveCapacity(i32),
}

/// A bounded buffer of pending packets that rejects exact duplicates, evicts
/// the oldest packet when full, and counts the pending packets of a
/// destination within a time window.
#[derive(Debug)]
pub struct Router {
    memory_limit: i32,
    /// Keys of the pending packets.
    seen: HashSet<u128>,
    /// Pending packets, oldest first.
    queue: VecDeque<Packet>,
    /// For each destination with pending packets, their timestamps in
    /// arrival order.
    by_dest: HashMap<i32, Vec<i32>>,
}

impl View for Router {
    type V = Seq<Packet>;

    closed spec fn view(&self) -> Seq<Packet> {
        self.queue@
    }
}

impl Router {
    /// The most packets the buffer holds.
    pub closed spec fn capacity(&self) -> int {
        self.memory_limit as int
    }

    /// The set of deduplication keys held.
    pub closed spec fn dedup_keys(&self) -> Set<u128> {
        self.seen@
    }

    /// The per-destination timestamp index.
    pub closed spec fn dest_index(&self) -> Map<i32, Seq<i32>> {
        Map::new(|d: i32| self.by_dest@.contains_key(d), |d: i32| self.by_dest@[d]@)
    }

    /// The queue is within capacity and free of duplicates, the key set holds
    /// exactly the keys of the queued packets, each destination's timestamp list
    /// holds exactly its queued timestamps in order, and those never decrease.
    pub closed spec fn wf(&self) -> bool {
        let q = self.queue@;
        &&& self.memory_limit > 0
        &&& q.len() <= self.memory_limit
        &&& q.no_duplicates()
        &&& forall|k: u128|
            #![trigger self.seen@.contains(k)]
            self.seen@.contains(k) <==> exists|i: int| 0 <= i < q.len() && key_of(q[i]) == k
        &&& forall|d: i32|
            #![trigger self.by_dest@.contains_key(d)]
            self.by_dest@.contains_key(d) <==> times_to(q, d).len() > 0
        &&& forall|d: i32|
            #![trigger self.by_dest@[d]]
            self.by_dest@.contains_key(d) ==> self.by_dest@[d]@ == times_to(q, d)
        &&& forall|d: i32| #![trigger times_to(q, d)] sorted(times_to(q, d))
    }

    /// Creates an empty buffer holding at most `memory_limit` packets.
    pub fn new(memory_limit: i32) -> (r: Result<Router, ConfigError>)
        ensures
            memory_limit <= 0 ==> r == Err::<Router, ConfigError>(
                ConfigError::NonPositiveCapacity(memory_limit),
            ),
            memory_limit > 0 ==> r is Ok && r->Ok_0.wf() && r->Ok_0@ == Seq::<Packet>::empty()
                && r->Ok_0.capacity() == memory_limit,
    {
        if memory_limit <= 0 {
            return Err(ConfigError::NonPositiveCapacity(memory_limit));
        }
        let r = Router {
            memory_limit,
            seen: HashSet::new(),
            queue: VecDeque::new(),
            by_dest: HashMap::new(),
        };
        proof {
            assert forall|d: i32| #![trigger times_to(r.queue@, d)] sorted(times_to(r.queue@, d)) by {
                assert(times_to(r.queue@, d) == Seq::<i32>::empty());
            }
        }
        Ok(r)
    }

    /// Removes the oldest pending packet and returns it as
    /// `[source, destination, timestamp]`, or an empty vector when nothing is
    /// pending.
    pub fn forward_packet(&mut self) -> (r: Vec<i32>)
        requires
            old(self).wf(),
        ensures
            final(self).wf(),
            final(self).capacity() == old(self).capacity(),
            old(self)@.len() == 0 ==> r@ == Seq::<i32>::empty() && final(self)@ == old(self)@,
            old(self)@.len() > 0 ==> r@ == seq![old(self)@[0].0, old(self)@[0].1, old(self)@[0].2]
                && final(self)@ == old(self)@.drop_first(),
    {
        let ghost q = self.queue@;
        match self.queue.pop_front() {
            Some(p) => {
                let (source, destination, timestamp) = p;
                let k = packet_key(source, destination, timestamp);
                self.seen.remove(&k);
                let entry = self.by_dest.remove(&destination);
                proof {
                    lemma_times_front(q, destination);
                    assert(q.subrange(1, q.len() as int) == q.drop_first());
                }
                match entry {
                    Some(mut times) => {
                        times.remove(0);
                        if times.len() > 0 {
                            self.by_dest.insert(destination, times);
                        }
                    },
                    None => {},
                }
                proof {
                    let nq = self.queue@;
                    assert forall|k2: u128| #![trigger self.seen@.contains(k2)]
                        self.seen@.contains(k2) <==> exists|i: int|
                            0 <= i < nq.len() && key_of(nq[i]) == k2 by {
                        if self.seen@.contains(k2) {
                            let i = choose|i: int| 0 <= i < q.len() && key_of(q[i]) == k2;
                            assert(i != 0);
                            assert(key_of(nq[i - 1]) == k2);
                        }
                        if exists|i: int| 0 <= i < nq.len() && key_of(nq[i]) == k2 {
                            let i = choose|i: int| 0 <= i < nq.len() && key_of(nq[i]) == k2;
                            assert(q[i + 1] == nq[i]);
                            if k2 == key_of(q[0]) {
                                lemma_key_injective(q[0], q[i + 1]);
                            }
                        }
                    }
                    assert forall|d: i32| #![trigger self.by_dest@.contains_key(d)]
                        self.by_dest@.contains_key(d) <==> times_to(nq, d).len() > 0 by {
                        lemma_times_front(q, d);
                    }
                    assert forall|d: i32| #![trigger self.by_dest@[d]]
                        self.by_dest@.contains_key(d) implies self.by_dest@[d]@ == times_to(nq, d) by {
                        lemma_times_front(q, d);
                        if d == destination {
                            assert(times_to(q, d).drop_first() =~= times_to(nq, d));
                        }
                    }
                    assert forall|d: i32| #![trigger times_to(nq, d)] sorted(times_to(nq, d)) by {
                        lemma_times_front(q, d);
                        assert(sorted(times_to(q, d)));
                        if q[0].1 == d {
                            assert forall|i: int, j: int| 0 <= i <= j < times_to(nq, d).len()
                                implies times_to(nq, d)[i] <= times_to(nq, d)[j] by {
                                assert(times_to(nq, d)[i] == times_to(q, d)[i + 1]);
                                assert(times_to(nq, d)[j] == times_to(q, d)[j + 1]);
                            }
                        }
                    }
                }
                vec![source, destination, timestamp]
            },
            None => Vec::new(),
        }
    }

    /// Accepts a packet unless the same (source, destination, timestamp) is
    /// already pending; when the buffer is full the oldest packet is evicted
    /// first. Returns whether the packet was accepted.
    ///
    /// Range counts stay exact only while the timestamps given for each
    /// destination do not decrease, which callers must keep to.
    pub fn add_packet(&mut self, source: i32, destination: i32, timestamp: i32) -> (r: bool)
        requires
            old(self).wf(),
            old(self)@.contains((source, destination, timestamp)) || in_order(
                old(self)@,
                destination,
                timestamp,
            ),
        ensures
            final(self).wf(),
            final(self).capacity() == old(self).capacity(),
            r == !old(self)@.contains((source, destination, timestamp)),
            final(self)@ == if r {
                after_insert(old(self)@, old(self).capacity(), (source, destination, timestamp))
            } else {
                old(self)@
            },
    {
        let ghost p = (source, destination, timestamp);
        let k = packet_key(source, destination, timestamp);
        if self.seen.contains(&k) {
            proof {
                let i = choose|i: int| 0 <= i < self.queue@.len() && key_of(self.queue@[i]) == k;
                lemma_key_injective(self.queue@[i], p);
                assert(self.queue@[i] == p);
            }
            return false;
        }
        proof {
            if self.queue@.contains(p) {
                let i = choose|i: int| 0 <= i < self.queue@.len() && self.queue@[i] == p;
                assert(key_of(self.queue@[i]) == k);
            }
        }
        if self.queue.len() >= self.memory_limit as usize {
            self.forward_packet();
        }
        let ghost q = self.queue@;
        proof {
            assert(!q.contains(p)) by {
                if q.contains(p) {
                    let i = choose|i: int| 0 <= i < q.len() && q[i] == p;
                    assert(old(self)@[i + 1] == p);
                }
            }
            assert(in_order(q, destination, timestamp)) by {
                assert forall|i: int| 0 <= i < q.len() && q[i].1 == destination implies q[i].2
                    <= timestamp by {
                    assert(q[i] == old(self)@[i + (old(self)@.len() - q.len())]);
                }
            }
            lemma_times_bounded(q, destination, timestamp);
        }
        self.seen.insert(k);
        self.queue.push_back((source, destination, timestamp));
        let entry = self.by_dest.remove(&destination);
        let mut times = match entry {
            Some(v) => v,
            None => Vec::new(),
        };
        times.push(timestamp);
        self.by_dest.insert(destination, times);
        proof {
            let nq = self.queue@;
            assert(nq == q.push(p));
            assert(nq.no_duplicates()) by {
                assert forall|i: int, j: int| 0 <= i < j < nq.len() implies nq[i] != nq[j] by {
                    if j == q.len() {
                        assert(q[i] == nq[i]);
                    }
                }
            }
            assert forall|k2: u128| #![trigger self.seen@.contains(k2)]
                self.seen@.contains(k2) <==> exists|i: int|
                    0 <= i < nq.len() && key_of(nq[i]) == k2 by {
                if self.seen@.contains(k2) && k2 != k {
                    let i = choose|i: int| 0 <= i < q.len() && key_of(q[i]) == k2;
                    assert(key_of(nq[i]) == k2);
                }
                if k2 == k {
                    assert(key_of(nq[q.len() as int]) == k2);
                }
                if exists|i: int| 0 <= i < nq.len() && key_of(nq[i]) == k2 {
                    let i = choose|i: int| 0 <= i < nq.len() && key_of(nq[i]) == k2;
                    if i < q.len() {
                        assert(q[i] == nq[i]);
                    }
                }
            }
            assert forall|d: i32| #![trigger self.by_dest@.contains_key(d)]
                self.by_dest@.contains_key(d) <==> times_to(nq, d).len() > 0 by {
                lemma_times_push(q, p, d);
            }
            assert forall|d: i32| #![trigger self.by_dest@[d]]
                self.by_dest@.contains_key(d) implies self.by_dest@[d]@ == times_to(nq, d) by {
                lemma_times_push(q, p, d);
                if d == destination && entry is None {
                    assert(times_to(q, d) =~= Seq::<i32>::empty());
                }
            }
            assert forall|d: i32| #![trigger times_to(nq, d)] sorted(times_to(nq, d)) by {
                lemma_times_push(q, p, d);
                assert(sorted(times_to(q, d)));
            }
        }
        true
    }

    /// Number of pending packets for `destination` whose timestamp lies in
    /// `[start_time, end_time]`.
    pub fn get_count(&self, destination: i32, start_time: i32, end_time: i32) -> (r: i32)
        requires
            self.wf(),
        ensures
            r as int == count_in(self@, destination, start_time, end_time),
    {
        proof {
            lemma_count_via_times(self.queue@, destination, start_time, end_time);
            lemma_times_len(self.queue@, destination);
        }
        match self.by_dest.get(&destination) {
            Some(times) => {
                assert(sorted(times_to(self.queue@, destination)));
                let left = first_not_below(times, start_time);
                let right = first_above(times, end_time);
                if right > left {
                    proof {
                        lemma_count_interval(times@, start_time, end_time, left as int, right as int);
                    }
                    (right - left) as i32
                } else {
                    proof {
                        lemma_count_interval(times@, start_time, end_time, 0, 0);
                    }
                    0
                }
            },
            None => {
                assert(times_to(self.queue@, destination).len() == 0);
                0
            },
        }
    }
}


/// The queue after offering each packet of `ps` in turn, starting from `q`:
/// duplicates of pending packets are rejected, the others inserted.
pub open spec fn insert_all(q: Seq<Packet>, cap: int, ps: Seq<Packet>) -> Seq<Packet>
    decreases ps.len(),
{
    if ps.len() == 0 {
        q
    } else {
        let prev = insert_all(q, cap, ps.drop_last());
        if prev.contains(ps.last()) {
            prev
        } else {
            after_insert(prev, cap, ps.last())
        }
    }
}

/// The packets that `n` successive removals from the front of `q` hand out.
pub open spec fn drain(q: Seq<Packet>, n: nat) -> Seq<Packet>
    decreases n,
{
    if n == 0 || q.len() == 0 {
        Seq::empty()
    } else {
        seq![q[0]] + drain(q.drop_first(), (n - 1) as nat)
    }
}

/// Offering a packet that is not pending, to a buffer with room for it,
/// accepts it and grows the buffer by exactly one; offering it again right
/// after is rejected, since it is then pending.
pub proof fn lemma_insert_twice(q: Seq<Packet>, cap: int, p: Packet)
    requires
        !q.contains(p),
        q.len() < cap,
    ensures
        after_insert(q, cap, p).len() == q.len() + 1,
        after_insert(q, cap, p).contains(p),
{
    assert(after_insert(q, cap, p)[q.len() as int] == p);
}

proof fn lemma_fill(cap: int, ps: Seq<Packet>)
    requires
        ps.no_duplicates(),
        ps.len() <= cap,
    ensures
        insert_all(Seq::empty(), cap, ps) == ps,
    decreases ps.len(),
{
    if ps.len() > 0 {
        let prev = ps.drop_last();
        lemma_fill(cap, prev);
        assert(!prev.contains(ps.last())) by {
            if prev.contains(ps.last()) {
                let i = choose|i: int| 0 <= i < prev.len() && prev[i] == ps.last();
                assert(ps[i] == ps[ps.len() - 1]);
            }
        }
        assert(prev.push(ps.last()) =~= ps);
    }
}

/// Offering `k + 1` distinct packets to an empty buffer of capacity `k`
/// leaves exactly `k` of them pending: all but the first, which is gone.
pub proof fn lemma_capacity_bound(cap: int, ps: Seq<Packet>)
    requires
        cap > 0,
        ps.no_duplicates(),
        ps.len() == cap + 1,
    ensures
        insert_all(Seq::empty(), cap, ps) == ps.drop_first(),
        insert_all(Seq::empty(), cap, ps).len() == cap,
        !insert_all(Seq::empty(), cap, ps).contains(ps[0]),
{
    let prev = ps.drop_last();
    assert(prev.no_duplicates());
    lemma_fill(cap, prev);
    assert(!prev.contains(ps.last())) by {
        if prev.contains(ps.last()) {
            let i = choose|i: int| 0 <= i < prev.len() && prev[i] == ps.last();
            assert(ps[i] == ps[ps.len() - 1]);
        }
    }
    assert(prev.drop_first().push(ps.last()) =~= ps.drop_first());
    let r = ps.drop_first();
    if r.contains(ps[0]) {
        let i = choose|i: int| 0 <= i < r.len() && r[i] == ps[0];
        assert(ps[i + 1] == ps[0]);
    }
}

proof fn lemma_drain_all(q: Seq<Packet>)
    ensures
        drain(q, q.len()) == q,
    decreases q.len(),
{
    if q.len() > 0 {
        lemma_drain_all(q.drop_first());
        assert(seq![q[0]] + q.drop_first() =~= q);
    }
}

/// Distinct packets offered to an empty buffer that never has to evict come
/// back out of it, one removal at a time, in the order they went in.
pub proof fn lemma_fifo(cap: int, ps: Seq<Packet>)
    requires
        ps.no_duplicates(),
        ps.len() <= cap,
    ensures
        drain(insert_all(Seq::empty(), cap, ps), ps.len()) == ps,
{
    lemma_fill(cap, ps);
    lemma_drain_all(ps);
}

/// Sum of the lengths of the entries of `m` at the keys listed in `ds`.
pub open spec fn total_len(m: Map<i32, Seq<i32>>, ds: Seq<i32>) -> int
    decreases ds.len(),
{
    if ds.len() == 0 {
        0
    } else {
        total_len(m, ds.drop_last()) + m[ds.last()].len()
    }
}

spec fn times_total(q: Seq<Packet>, ds: Seq<i32>) -> int
    decreases ds.len(),
{
    if ds.len() == 0 {
        0
    } else {
        times_total(q, ds.drop_last()) + times_to(q, ds.last()).len()
    }
}

proof fn lemma_times_total_step(q: Seq<Packet>, ds: Seq<i32>)
    requires
        q.len() > 0,
        ds.no_duplicates(),
    ensures
        times_total(q, ds) == times_total(q.drop_last(), ds) + if ds.contains(q.last().1) {
            1int
        } else {
            0int
        },
    decreases ds.len(),
{
    if ds.len() > 0 {
        let rest = ds.drop_last();
        assert(rest.no_duplicates());
        lemma_times_total_step(q, rest);
        let x = q.last().1;
        if rest.contains(x) {
            let i = choose|i: int| 0 <= i < rest.len() && rest[i] == x;
            assert(ds[i] == rest[i]);
        }
        if ds.last() == x {
            assert(ds[ds.len() - 1] == x);
        }
        if ds.contains(x) {
            let i = choose|i: int| 0 <= i < ds.len() && ds[i] == x;
            if i < rest.len() {
                assert(rest[i] == ds[i]);
            }
        }
        assert(times_to(q, ds.last()).len() == times_to(q.drop_last(), ds.last()).len() + if x
            == ds.last() {
            1int
        } else {
            0int
        });
    }
}

proof fn lemma_times_total(q: Seq<Packet>, ds: Seq<i32>)
    requires
        ds.no_duplicates(),
        forall|i: int| 0 <= i < q.len() ==> ds.contains(#[trigger] q[i].1),
    ensures
        times_total(q, ds) == q.len(),
    decreases q.len(),
{
    if q.len() == 0 {
        assert(q =~= Seq::<Packet>::empty());
        lemma_times_total_empty(ds);
    } else {
        let rest = q.drop_last();
        assert forall|i: int| 0 <= i < rest.len() implies ds.contains(#[trigger] rest[i].1) by {
            assert(rest[i] == q[i]);
        }
        lemma_times_total(rest, ds);
        lemma_times_total_step(q, ds);
        assert(ds.contains(q[q.len() - 1].1));
        assert(q.last() == q[q.len() - 1]);
    }
}

proof fn lemma_times_total_empty(ds: Seq<i32>)
    ensures
        times_total(Seq::empty(), ds) == 0,
    decreases ds.len(),
{
    if ds.len() > 0 {
        lemma_times_total_empty(ds.drop_last());
    }
}

proof fn lemma_total_matches(m: Map<i32, Seq<i32>>, q: Seq<Packet>, ds: Seq<i32>)
    requires
        forall|i: int| 0 <= i < ds.len() ==> m[#[trigger] ds[i]].len() == times_to(q, ds[i]).len(),
    ensures
        total_len(m, ds) == times_total(q, ds),
    decreases ds.len(),
{
    if ds.len() > 0 {
        let rest = ds.drop_last();
        assert forall|i: int| 0 <= i < rest.len() implies m[#[trigger] rest[i]].len() == times_to(
            q,
            rest[i],
        ).len() by {
            assert(rest[i] == ds[i]);
        }
        lemma_total_matches(m, q, rest);
        assert(ds.last() == ds[ds.len() - 1]);
    }
}

proof fn lemma_times_nonempty(q: Seq<Packet>, i: int)
    requires
        0 <= i < q.len(),
    ensures
        times_to(q, q[i].1).len() > 0,
    decreases q.len(),
{
    if i < q.len() - 1 {
        assert(q.drop_last()[i] == q[i]);
        lemma_times_nonempty(q.drop_last(), i);
    }
}

impl Router {
    /// The three internal structures agree: there are as many deduplication
    /// keys as pending packets, and the per-destination timestamp lists,
    /// summed over every destination they hold, have as many entries as
    /// there are pending packets.
    pub proof fn lemma_structures_agree(&self, ds: Seq<i32>)
        requires
            self.wf(),
            ds.no_duplicates(),
            ds.to_set() == self.dest_index().dom(),
        ensures
            self.dedup_keys().len() == self@.len(),
            total_len(self.dest_index(), ds) == self@.len(),
    {
        let q = self.queue@;
        let ks = q.map_values(|p: Packet| key_of(p));
        assert(ks.no_duplicates()) by {
            assert forall|i: int, j: int| 0 <= i < j < ks.len() implies ks[i] != ks[j] by {
                if ks[i] == ks[j] {
                    lemma_key_injective(q[i], q[j]);
                }
            }
        }
        assert(self.seen@ =~= ks.to_set()) by {
            assert forall|k: u128| self.seen@.contains(k) <==> ks.to_set().contains(k) by {
                if self.seen@.contains(k) {
                    let i = choose|i: int| 0 <= i < q.len() && key_of(q[i]) == k;
                    assert(ks[i] == k);
                }
                if ks.to_set().contains(k) {
                    let i = choose|i: int| 0 <= i < ks.len() && ks[i] == k;
                    assert(key_of(q[i]) == k);
                }
            }
        }
        ks.unique_seq_to_set();
        let m = self.dest_index();
        assert forall|i: int| 0 <= i < ds.len() implies m[#[trigger] ds[i]].len() == times_to(
            q,
            ds[i],
        ).len() by {
            assert(ds.to_set().contains(ds[i]));
        }
        lemma_total_matches(m, q, ds);
        assert forall|i: int| 0 <= i < q.len() implies ds.contains(#[trigger] q[i].1) by {
            lemma_times_nonempty(q, i);
            assert(self.by_dest@.contains_key(q[i].1));
            assert(ds.to_set().contains(q[i].1));
        }
        lemma_times_total(q, ds);
    }
}

} // verus!
