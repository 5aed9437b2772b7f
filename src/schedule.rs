use vstd::prelude::*;

verus! {

/// A feed as the scheduler holds it: a snapshot taken from the store.
#[derive(Debug)]
pub struct Feed {
    /// The source URL; the feed's key.
    pub link: String,
    pub title: String,
    /// The refresh interval suggested by the source, in minutes.
    pub ttl: Option<u32>,
    pub subscribers: Vec<i64>,
}

/// The polling interval of a feed, in seconds: its `ttl` in seconds, or
/// `min_interval` when it has none, clamped to `[min_interval, max_interval]`.
pub open spec fn interval_of(ttl: Option<u32>, min_interval: u32, max_interval: u32) -> int {
    let base: int = match ttl {
        Some(t) => t * 60,
        None => min_interval as int,
    };
    let raised: int = if base < min_interval { min_interval as int } else { base };
    if raised > max_interval { max_interval as int } else { raised }
}

/// Computes the polling interval of a feed, in seconds.
pub fn poll_interval(ttl: Option<u32>, min_interval: u32, max_interval: u32) -> (r: u64)
    ensures
        r == interval_of(ttl, min_interval, max_interval),
{
    let base: u64 = match ttl {
        Some(t) => t as u64 * 60,
        None => min_interval as u64,
    };
    let raised: u64 = if base < min_interval as u64 { min_interval as u64 } else { base };
    if raised > max_interval as u64 { max_interval as u64 } else { raised }
}

/// A feed waiting for its timer, and the instant (in seconds) at which it fires.
#[derive(Debug)]
pub struct Pending {
    pub feed: Feed,
    pub due: u64,
}

/// No feed key occurs twice.
pub open spec fn keys_unique(q: Seq<Pending>) -> bool {
    forall|i: int, j: int|
        0 <= i < j < q.len() ==> (#[trigger] q[i]).feed.link@ != (#[trigger] q[j]).feed.link@
}

/// Whether a timer is pending for the feed key `k`.
pub open spec fn has_key(q: Seq<Pending>, k: Seq<char>) -> bool {
    exists|i: int| 0 <= i < q.len() && (#[trigger] q[i]).feed.link@ == k
}

/// `now + delay`, held at the largest instant.
pub open spec fn due_at(now: u64, delay: u64) -> u64 {
    if now + delay > u64::MAX { u64::MAX } else { (now + delay) as u64 }
}

/// The pending timers after an insertion that only happens for an absent key.
pub open spec fn enqueued(q: Seq<Pending>, p: Pending) -> Seq<Pending> {
    if has_key(q, p.feed.link@) { q } else { q.push(p) }
}

/// The position of the earliest timer: the first of those with the least due instant.
pub open spec fn earliest(q: Seq<Pending>) -> int
    decreases q.len(),
{
    if q.len() <= 1 {
        0
    } else {
        let j = earliest(q.drop_last());
        if q.last().due < q[j].due { q.len() - 1 } else { j }
    }
}

/// Whether the earliest timer has fired at instant `now`.
pub open spec fn has_due(q: Seq<Pending>, now: u64) -> bool {
    q.len() > 0 && q[earliest(q)].due <= now
}

/// The earliest timer is within bounds, no other fires before it, and those
/// in front of it fire strictly later.
pub proof fn lemma_earliest(q: Seq<Pending>)
    requires
        q.len() > 0,
    ensures
        0 <= earliest(q) < q.len(),
        forall|k: int| 0 <= k < q.len() ==> q[earliest(q)].due <= (#[trigger] q[k]).due,
        forall|k: int| 0 <= k < earliest(q) ==> q[earliest(q)].due < (#[trigger] q[k]).due,
    decreases q.len(),
{
    if q.len() > 1 {
        let d = q.drop_last();
        lemma_earliest(d);
        assert forall|k: int| 0 <= k < d.len() implies d[k] == q[k] by {}
    }
}

/// After an insertion attempt for a key, the key is pending.
proof fn lemma_enqueued_has_key(q: Seq<Pending>, p: Pending)
    ensures
        has_key(enqueued(q, p), p.feed.link@),
{
    if !has_key(q, p.feed.link@) {
        assert(enqueued(q, p)[q.len() as int] == p);
    }
}

/// Arming an absent key leaves exactly one timer for it, the one armed, with
/// its due instant; `due_at(now, delay)` is `now + delay` whenever that fits.
pub proof fn lemma_armed_once(q: Seq<Pending>, p: Pending, now: u64, delay: u64)
    requires
        keys_unique(q),
        !has_key(q, p.feed.link@),
    ensures
        keys_unique(enqueued(q, p)),
        enqueued(q, p).len() == q.len() + 1,
        enqueued(q, p)[q.len() as int] == p,
        forall|i: int| 0 <= i < enqueued(q, p).len() && (#[trigger] enqueued(q, p)[i]).feed.link@ == p.feed.link@
            ==> i == q.len(),
        now + delay <= u64::MAX ==> due_at(now, delay) == now + delay,
{
    lemma_step_unique(q, QueueOp::Arm(p));
    let r = enqueued(q, p);
    assert forall|i: int| 0 <= i < r.len() && (#[trigger] r[i]).feed.link@ == p.feed.link@ implies i == q.len() by {
        if i < q.len() {
            assert(r[i] == q[i]);
        }
    }
}

/// The pending timers after insertion attempts for each of `ps` in turn.
pub open spec fn enqueued_all(q: Seq<Pending>, ps: Seq<Pending>) -> Seq<Pending>
    decreases ps.len(),
{
    if ps.len() == 0 {
        q
    } else {
        enqueued(enqueued_all(q, ps.drop_last()), ps.last())
    }
}

/// Arming one feed key several times with no firing in between: every call
/// after the first finds the key pending (and so returns false), and the
/// timers end as the first call left them, its instant included.
pub proof fn lemma_repeated_enqueue(q: Seq<Pending>, ps: Seq<Pending>, k: Seq<char>)
    requires
        ps.len() >= 1,
        forall|i: int| 0 <= i < ps.len() ==> (#[trigger] ps[i]).feed.link@ == k,
    ensures
        forall|i: int| 1 <= i < ps.len() ==> has_key(#[trigger] enqueued_all(q, ps.subrange(0, i)), k),
        enqueued_all(q, ps) == enqueued(q, ps[0]),
    decreases ps.len(),
{
    if ps.len() == 1 {
        assert(ps.drop_last() =~= Seq::<Pending>::empty());
        assert(enqueued_all(q, ps) == enqueued(enqueued_all(q, ps.drop_last()), ps.last()));
    } else {
        let d = ps.drop_last();
        lemma_repeated_enqueue(q, d, k);
        assert(d[0] == ps[0]);
        lemma_enqueued_has_key(q, ps[0]);
        assert(ps[0].feed.link@ == k);
        assert(ps[ps.len() - 1].feed.link@ == k);
        assert(enqueued_all(q, ps) == enqueued(enqueued_all(q, d), ps.last()));
        assert forall|i: int| 1 <= i < ps.len() implies has_key(#[trigger] enqueued_all(q, ps.subrange(0, i)), k) by {
            if i < d.len() {
                assert(d.subrange(0, i) =~= ps.subrange(0, i));
            } else {
                assert(ps.subrange(0, i) =~= d);
            }
        }
    }
}

/// One operation on the pending timers: an insertion attempt, or a firing at
/// an instant.
pub enum QueueOp {
    Arm(Pending),
    Fire(u64),
}

/// The pending timers after `op`.
pub open spec fn step(q: Seq<Pending>, op: QueueOp) -> Seq<Pending> {
    match op {
        QueueOp::Arm(p) => enqueued(q, p),
        QueueOp::Fire(now) => if has_due(q, now) { q.remove(earliest(q)) } else { q },
    }
}

/// The key that `op` hands out, if it is a firing that finds a timer due.
pub open spec fn fired(q: Seq<Pending>, op: QueueOp) -> Option<Seq<char>> {
    match op {
        QueueOp::Arm(_) => None,
        QueueOp::Fire(now) => if has_due(q, now) { Some(q[earliest(q)].feed.link@) } else { None },
    }
}

/// The pending timers after each of `ops` in turn.
pub open spec fn run(q: Seq<Pending>, ops: Seq<QueueOp>) -> Seq<Pending>
    decreases ops.len(),
{
    if ops.len() == 0 {
        q
    } else {
        step(run(q, ops.drop_last()), ops.last())
    }
}

/// Whether `op` is an insertion attempt for the key `k`.
pub open spec fn arms(op: QueueOp, k: Seq<char>) -> bool {
    match op {
        QueueOp::Arm(p) => p.feed.link@ == k,
        QueueOp::Fire(_) => false,
    }
}

proof fn lemma_step_unique(q: Seq<Pending>, op: QueueOp)
    requires
        keys_unique(q),
    ensures
        keys_unique(step(q, op)),
{
    match op {
        QueueOp::Arm(p) => {
            if !has_key(q, p.feed.link@) {
                let r = q.push(p);
                assert forall|i: int, j: int| 0 <= i < j < r.len() implies
                    (#[trigger] r[i]).feed.link@ != (#[trigger] r[j]).feed.link@ by {
                    if j == q.len() {
                        assert(q[i] == r[i]);
                    }
                }
            }
        },
        QueueOp::Fire(now) => {
            if has_due(q, now) {
                lemma_earliest(q);
                let e = earliest(q);
                let r = q.remove(e);
                assert forall|a: int, b: int| 0 <= a < b < r.len() implies
                    (#[trigger] r[a]).feed.link@ != (#[trigger] r[b]).feed.link@ by {
                    let a2 = if a < e { a } else { a + 1 };
                    let b2 = if b < e { b } else { b + 1 };
                    assert(r[a] == q[a2]);
                    assert(r[b] == q[b2]);
                }
            }
        },
    }
}

proof fn lemma_run_unique(q: Seq<Pending>, ops: Seq<QueueOp>)
    requires
        keys_unique(q),
    ensures
        keys_unique(run(q, ops)),
    decreases ops.len(),
{
    if ops.len() > 0 {
        lemma_run_unique(q, ops.drop_last());
        lemma_step_unique(run(q, ops.drop_last()), ops.last());
    }
}

/// A key that is absent stays absent through any operation but an
/// insertion attempt for it, and nothing hands it out; a key handed out
/// leaves the pending timers.
proof fn lemma_step_key(q: Seq<Pending>, op: QueueOp, k: Seq<char>)
    requires
        keys_unique(q),
    ensures
        fired(q, op) == Some(k) ==> has_key(q, k) && !has_key(step(q, op), k),
        !has_key(q, k) && !arms(op, k) ==> !has_key(step(q, op), k),
{
    match op {
        QueueOp::Arm(p) => {
            if !has_key(q, k) && !arms(op, k) && !has_key(q, p.feed.link@) {
                let r = q.push(p);
                assert forall|i: int| 0 <= i < r.len() implies (#[trigger] r[i]).feed.link@ != k by {
                    if i < q.len() {
                        assert(r[i] == q[i]);
                    }
                }
            }
        },
        QueueOp::Fire(now) => {
            if has_due(q, now) {
                lemma_earliest(q);
                let e = earliest(q);
                let r = q.remove(e);
                assert forall|i: int| 0 <= i < r.len() implies (#[trigger] r[i]).feed.link@ != q[e].feed.link@ by {
                    let i2 = if i < e { i } else { i + 1 };
                    assert(r[i] == q[i2]);
                }
                assert forall|i: int| 0 <= i < r.len() && !has_key(q, k) implies (#[trigger] r[i]).feed.link@ != k by {
                    let i2 = if i < e { i } else { i + 1 };
                    assert(r[i] == q[i2]);
                }
            }
        },
    }
}

/// The pending timers after the first `m + 1` operations are those after the
/// first `m`, stepped by the next one.
proof fn lemma_run_prefix(q: Seq<Pending>, ops: Seq<QueueOp>, m: int)
    requires
        0 <= m < ops.len(),
    ensures
        run(q, ops.subrange(0, m + 1)) == step(run(q, ops.subrange(0, m)), ops[m]),
{
    assert(ops.subrange(0, m + 1).drop_last() =~= ops.subrange(0, m));
}

/// A key absent after the first `m` operations is still absent after the
/// first `j` when none in between is an insertion attempt for it.
proof fn lemma_stays_absent(q: Seq<Pending>, ops: Seq<QueueOp>, k: Seq<char>, m: int, j: int)
    requires
        keys_unique(q),
        0 <= m <= j <= ops.len(),
        !has_key(run(q, ops.subrange(0, m)), k),
        forall|n: int| m <= n < j ==> !arms(#[trigger] ops[n], k),
    ensures
        !has_key(run(q, ops.subrange(0, j)), k),
    decreases j - m,
{
    if m < j {
        lemma_run_unique(q, ops.subrange(0, m));
        lemma_run_prefix(q, ops, m);
        lemma_step_key(run(q, ops.subrange(0, m)), ops[m], k);
        lemma_stays_absent(q, ops, k, m + 1, j);
    }
}

/// Once a firing hands out the key `k`, no later firing hands it out again
/// unless an insertion attempt for `k` comes in between.
pub proof fn lemma_no_second_firing(q: Seq<Pending>, ops: Seq<QueueOp>, k: Seq<char>, i: int, j: int)
    requires
        keys_unique(q),
        0 <= i < j < ops.len(),
        fired(run(q, ops.subrange(0, i)), ops[i]) == Some(k),
        forall|m: int| i < m < j ==> !arms(#[trigger] ops[m], k),
    ensures
        fired(run(q, ops.subrange(0, j)), ops[j]) != Some(k),
{
    lemma_run_unique(q, ops.subrange(0, i));
    lemma_run_prefix(q, ops, i);
    lemma_step_key(run(q, ops.subrange(0, i)), ops[i], k);
    lemma_stays_absent(q, ops, k, i + 1, j);
    lemma_run_unique(q, ops.subrange(0, j));
    lemma_step_key(run(q, ops.subrange(0, j)), ops[j], k);
}

/// The timers that a rescan of `feeds` at `now` asks for, in order.
pub open spec fn rescan_entries(feeds: Seq<Feed>, now: u64, min_interval: u32, max_interval: u32) -> Seq<Pending> {
    Seq::new(
        feeds.len(),
        |i: int| Pending { feed: feeds[i], due: due_at(now, interval_of(feeds[i].ttl, min_interval, max_interval) as u64) },
    )
}

/// The feeds waiting for their timers, at most one per feed key.
pub struct FetchQueue {
    pending: Vec<Pending>,
}

impl View for FetchQueue {
    type V = Seq<Pending>;

    closed spec fn view(&self) -> Seq<Pending> {
        self.pending@
    }
}

impl FetchQueue {
    /// The queue's invariant: one timer per feed key at most.
    pub open spec fn wf(&self) -> bool {
        keys_unique(self@)
    }

    /// An empty queue.
    pub fn new() -> (r: FetchQueue)
        ensures
            r.wf(),
            r@ == Seq::<Pending>::empty(),
    {
        FetchQueue { pending: Vec::new() }
    }

    /// The number of pending timers.
    pub fn len(&self) -> (r: usize)
        ensures
            r == self@.len(),
    {
        self.pending.len()
    }

    /// Whether a timer is pending for the feed key `link`.
    pub fn is_pending(&self, link: &String) -> (r: bool)
        ensures
            r == has_key(self@, link@),
    {
        let mut i: usize = 0;
        while i < self.pending.len()
            invariant
                i <= self@.len(),
                forall|k: int| 0 <= k < i ==> (#[trigger] self@[k]).feed.link@ != link@,
            decreases self@.len() - i,
        {
            if self.pending[i].feed.link == *link {
                return true;
            }
            i = i + 1;
        }
        false
    }

    /// Arms a timer for `feed` that fires `delay` seconds after `now`, unless
    /// one is already pending for its key; returns whether it was armed. A
    /// timer already pending keeps its instant.
    pub fn enqueue(&mut self, feed: Feed, now: u64, delay: u64) -> (r: bool)
        requires
            old(self).wf(),
        ensures
            final(self).wf(),
            r == !has_key(old(self)@, feed.link@),
            final(self)@ == enqueued(old(self)@, Pending { feed, due: due_at(now, delay) }),
            final(self)@ == step(old(self)@, QueueOp::Arm(Pending { feed, due: due_at(now, delay) })),
            fired(old(self)@, QueueOp::Arm(Pending { feed, due: due_at(now, delay) })) is None,
    {
        if self.is_pending(&feed.link) {
            return false;
        }
        let due: u64 = if delay > u64::MAX - now { u64::MAX } else { now + delay };
        let ghost q = self@;
        let ghost p = Pending { feed, due };
        self.pending.push(Pending { feed, due });
        proof {
            assert forall|i: int, j: int| 0 <= i < j < self@.len() implies
                (#[trigger] self@[i]).feed.link@ != (#[trigger] self@[j]).feed.link@ by {
                if j == q.len() {
                    assert(q[i] == self@[i]);
                }
            }
        }
        true
    }

    /// Arms a timer for each of `feeds`, in order, as the periodic rescan does:
    /// each fires after its polling interval from `now`, unless its key is
    /// already pending.
    pub fn arm_all(&mut self, feeds: Vec<Feed>, now: u64, min_interval: u32, max_interval: u32)
        requires
            old(self).wf(),
        ensures
            final(self).wf(),
            final(self)@ == enqueued_all(old(self)@, rescan_entries(feeds@, now, min_interval, max_interval)),
    {
        let ghost q0 = self@;
        let ghost all = feeds@;
        let ghost ps = rescan_entries(all, now, min_interval, max_interval);
        let n: usize = feeds.len();
        let mut rest = feeds;
        let mut i: usize = 0;
        while rest.len() > 0
            invariant
                self.wf(),
                all.len() == n,
                i + rest@.len() == all.len(),
                rest@ == all.subrange(i as int, all.len() as int),
                self@ == enqueued_all(q0, ps.subrange(0, i as int)),
                ps == rescan_entries(all, now, min_interval, max_interval),
            decreases rest@.len(),
        {
            let feed = rest.remove(0);
            let delay = poll_interval(feed.ttl, min_interval, max_interval);
            proof {
                assert(feed == all[i as int]);
                assert(delay == interval_of(all[i as int].ttl, min_interval, max_interval));
                assert(ps[i as int] == (Pending { feed, due: due_at(now, delay) }));
                assert(ps.subrange(0, i + 1).last() == ps[i as int]);
                assert(ps.subrange(0, i + 1).drop_last() =~= ps.subrange(0, i as int));
                assert(ps.subrange(0, i + 1).last() == (Pending { feed, due: due_at(now, delay) }));
            }
            self.enqueue(feed, now, delay);
            i = i + 1;
            assert(rest@ =~= all.subrange(i as int, all.len() as int));
        }
        proof {
            assert(ps.subrange(0, i as int) =~= ps);
        }
    }

    /// The position of the earliest timer; the queue must not be empty.
    fn earliest_index(&self) -> (r: usize)
        requires
            self@.len() > 0,
        ensures
            r == earliest(self@),
    {
        let ghost q = self@;
        let mut best: usize = 0;
        let mut i: usize = 1;
        while i < self.pending.len()
            invariant
                q == self@,
                1 <= i <= q.len(),
                best == earliest(q.subrange(0, i as int)),
                best < i,
            decreases q.len() - i,
        {
            proof {
                let s = q.subrange(0, i + 1);
                assert(s.drop_last() =~= q.subrange(0, i as int));
                lemma_earliest(q.subrange(0, i as int));
            }
            if self.pending[i].due < self.pending[best].due {
                best = i;
            }
            i = i + 1;
        }
        proof {
            assert(q.subrange(0, q.len() as int) =~= q);
        }
        best
    }

    /// The instant at which the earliest timer fires, if any is pending.
    pub fn next_deadline(&self) -> (r: Option<u64>)
        ensures
            r == (if self@.len() > 0 { Some(self@[earliest(self@)].due) } else { None::<u64> }),
            r matches Some(d) ==> forall|k: int| 0 <= k < self@.len() ==> d <= (#[trigger] self@[k]).due,
    {
        if self.pending.len() == 0 {
            return None;
        }
        proof {
            lemma_earliest(self@);
        }
        let i = self.earliest_index();
        Some(self.pending[i].due)
    }

    /// Takes out the earliest timer if it has fired at instant `now`, and
    /// hands back its feed; the feed's key is then no longer pending.
    pub fn next_due(&mut self, now: u64) -> (r: Option<Feed>)
        requires
            old(self).wf(),
        ensures
            final(self).wf(),
            r.is_some() == has_due(old(self)@, now),
            r.is_some() == (exists|k: int| 0 <= k < old(self)@.len() && (#[trigger] old(self)@[k]).due <= now),
            r.is_none() ==> final(self)@ == old(self)@,
            r matches Some(f) ==> f == old(self)@[earliest(old(self)@)].feed
                && final(self)@ == old(self)@.remove(earliest(old(self)@)),
            final(self)@ == step(old(self)@, QueueOp::Fire(now)),
            r matches Some(f) ==> fired(old(self)@, QueueOp::Fire(now)) == Some(f.link@),
            r is None ==> fired(old(self)@, QueueOp::Fire(now)) is None,
    {
        let ghost q = self@;
        if self.pending.len() == 0 {
            return None;
        }
        proof {
            lemma_earliest(q);
        }
        let i = self.earliest_index();
        if self.pending[i].due > now {
            assert(forall|k: int| 0 <= k < q.len() ==> (#[trigger] q[k]).due > now);
            return None;
        }
        let p = self.pending.remove(i);
        proof {
            assert forall|a: int, b: int| 0 <= a < b < self@.len() implies
                (#[trigger] self@[a]).feed.link@ != (#[trigger] self@[b]).feed.link@ by {
                let a2 = if a < i { a } else { a + 1 };
                let b2 = if b < i { b } else { b + 1 };
                assert(self@[a] == q[a2]);
                assert(self@[b] == q[b2]);
            }
        }
        Some(p.feed)
    }
}

} // verus!
