use vstd::prelude::*;

verus! {

/// How long a feed may fail before its subscribers are told it looks dead, in seconds.
pub const DEAD_AFTER_SECS: u64 = 5 * 24 * 60 * 60;

/// When a feed that keeps failing gets its dead-feed notice.
#[derive(Clone, Copy, Debug, PartialEq, Eq, Structural)]
pub enum DeadNoticePolicy {
    /// After every failure once the threshold is passed.
    EveryFailure,
    /// Only at the failure that first passes the threshold in a run of failures.
    FirstCrossing,
}

/// What the tracker reports on a failure: how long the feed has been failing,
/// and what it reported on the failure before, in the same run.
#[derive(Clone, Copy, Debug, PartialEq, Eq, Structural)]
pub struct DownReport {
    pub elapsed: u64,
    pub previous: Option<u64>,
}

/// Whether a failure with report `rep` calls for a dead-feed notice.
pub open spec fn notice_due(policy: DeadNoticePolicy, rep: DownReport) -> bool {
    rep.elapsed > DEAD_AFTER_SECS && match policy {
        DeadNoticePolicy::EveryFailure => true,
        DeadNoticePolicy::FirstCrossing => match rep.previous {
            Some(p) => p <= DEAD_AFTER_SECS,
            None => true,
        },
    }
}

/// Decides whether a failure with report `rep` calls for a dead-feed notice.
pub fn dead_notice_due(policy: DeadNoticePolicy, rep: DownReport) -> (r: bool)
    ensures
        r == notice_due(policy, rep),
{
    if rep.elapsed <= DEAD_AFTER_SECS {
        return false;
    }
    match policy {
        DeadNoticePolicy::EveryFailure => true,
        DeadNoticePolicy::FirstCrossing => match rep.previous {
            Some(p) => p <= DEAD_AFTER_SECS,
            None => true,
        },
    }
}

/// A feed in a run of failures: when the run began and when it last failed.
#[derive(Debug)]
pub struct DownEntry {
    pub link: String,
    pub since: u64,
    pub last: u64,
}

/// `a - b`, held at zero.
pub open spec fn gap(a: u64, b: u64) -> u64 {
    if a >= b { (a - b) as u64 } else { 0 }
}

fn gap_exec(a: u64, b: u64) -> (r: u64)
    ensures
        r == gap(a, b),
{
    if a >= b { a - b } else { 0 }
}

/// The report on a failure at `now` of a feed whose run began at `since` and
/// last failed at `last`.
pub open spec fn report_since(since: u64, last: u64, now: u64) -> DownReport {
    DownReport { elapsed: gap(now, since), previous: Some(gap(last, since)) }
}

/// The report on a failure at `now` of a feed whose run is `e`.
pub open spec fn report_of(e: DownEntry, now: u64) -> DownReport {
    report_since(e.since, e.last, now)
}

/// The feeds that are failing, each once, with the start of its run.
pub struct DownTracker {
    entries: Vec<DownEntry>,
}

impl View for DownTracker {
    type V = Seq<DownEntry>;

    closed spec fn view(&self) -> Seq<DownEntry> {
        self.entries@
    }
}

/// Whether the feed `k` is in a run of failures.
pub open spec fn is_down(q: Seq<DownEntry>, k: Seq<char>) -> bool {
    exists|i: int| 0 <= i < q.len() && (#[trigger] q[i]).link@ == k
}

/// The report on the `i`-th of a run of failures at instants `ts`: the
/// tracker keeps `ts[0]` as the start of the run and the instant of the
/// failure before as its last.
pub open spec fn run_report(ts: Seq<u64>, i: int) -> DownReport {
    if i == 0 {
        DownReport { elapsed: 0, previous: None }
    } else {
        report_since(ts[0], ts[i - 1], ts[i])
    }
}

/// In a run of failures at nondecreasing instants, `FirstCrossing` gives a
/// notice at exactly one failure: the first whose time since the start of
/// the run exceeds `DEAD_AFTER_SECS`. What decides is elapsed time, not the
/// number of failures.
pub proof fn lemma_first_crossing_only(ts: Seq<u64>, i: int)
    requires
        0 <= i < ts.len(),
        forall|a: int, b: int| 0 <= a <= b < ts.len() ==> ts[a] <= ts[b],
    ensures
        notice_due(DeadNoticePolicy::FirstCrossing, run_report(ts, i)) <==> (i > 0
            && gap(ts[i], ts[0]) > DEAD_AFTER_SECS
            && forall|j: int| 0 <= j < i ==> #[trigger] gap(ts[j], ts[0]) <= DEAD_AFTER_SECS),
{
    if i > 0 {
        assert(ts[0] <= ts[i - 1]);
        if gap(ts[i - 1], ts[0]) <= DEAD_AFTER_SECS {
            assert forall|j: int| 0 <= j < i implies #[trigger] gap(ts[j], ts[0]) <= DEAD_AFTER_SECS by {
                assert(ts[0] <= ts[j]);
                assert(ts[j] <= ts[i - 1]);
            }
        } else {
            assert(gap(ts[i - 1], ts[0]) > DEAD_AFTER_SECS);
        }
    }
}

/// The position of the entry of feed `k`, when it is down.
pub open spec fn down_index(q: Seq<DownEntry>, k: Seq<char>) -> int {
    choose|i: int| 0 <= i < q.len() && (#[trigger] q[i]).link@ == k
}

/// The report on a failure at `now` of feed `k`.
pub open spec fn failure_report(q: Seq<DownEntry>, k: Seq<char>, now: u64) -> DownReport {
    if is_down(q, k) {
        report_of(q[down_index(q, k)], now)
    } else {
        DownReport { elapsed: 0, previous: None }
    }
}

/// The entries after a failure at `now` of feed `link`.
pub open spec fn after_failure(q: Seq<DownEntry>, link: String, now: u64) -> Seq<DownEntry> {
    if is_down(q, link@) {
        let i = down_index(q, link@);
        q.update(i, DownEntry { last: now, ..q[i] })
    } else {
        q.push(DownEntry { link, since: now, last: now })
    }
}

/// The tracker follows the model of a run: on the first failure of a run at
/// `ts[0]` it reports `run_report(ts, 0)` and keeps `ts[0]` as start and last;
/// when it keeps `ts[0]` as start and `ts[i - 1]` as last, the failure at
/// `ts[i]` gets `run_report(ts, i)` and leaves `ts[i]` as last.
pub proof fn lemma_tracker_follows_run(q: Seq<DownEntry>, link: String, ts: Seq<u64>, i: int)
    requires
        forall|a: int, b: int| 0 <= a < b < q.len() ==> (#[trigger] q[a]).link@ != (#[trigger] q[b]).link@,
        0 <= i < ts.len(),
        i == 0 ==> !is_down(q, link@),
        i > 0 ==> is_down(q, link@) && q[down_index(q, link@)].since == ts[0]
            && q[down_index(q, link@)].last == ts[i - 1],
    ensures
        failure_report(q, link@, ts[i]) == run_report(ts, i),
        is_down(after_failure(q, link, ts[i]), link@),
        ({
            let r = after_failure(q, link, ts[i]);
            let e = r[down_index(r, link@)];
            e.since == ts[0] && e.last == ts[i]
        }),
{
    let r = after_failure(q, link, ts[i]);
    if i == 0 {
        assert(r[q.len() as int].link@ == link@);
        let j = down_index(r, link@);
        if j != q.len() {
            assert(r[j] == q[j]);
        }
    } else {
        let d = down_index(q, link@);
        assert(r[d].link@ == link@);
        let j = down_index(r, link@);
        if j != d {
            assert(r[j] == q[j]);
            assert(q[j].link@ != q[d].link@);
        }
    }
}

impl DownTracker {
    /// The invariant: one entry per feed.
    pub open spec fn wf(&self) -> bool {
        forall|i: int, j: int|
            0 <= i < j < self@.len() ==> (#[trigger] self@[i]).link@ != (#[trigger] self@[j]).link@
    }

    /// A tracker with no failing feed.
    pub fn new() -> (r: DownTracker)
        ensures
            r.wf(),
            r@ == Seq::<DownEntry>::empty(),
    {
        DownTracker { entries: Vec::new() }
    }

    fn find(&self, link: &String) -> (r: Option<usize>)
        requires
            self.wf(),
        ensures
            r matches Some(i) ==> i < self@.len() && self@[i as int].link@ == link@,
            r is None ==> !is_down(self@, link@),
    {
        let mut i: usize = 0;
        while i < self.entries.len()
            invariant
                i <= self@.len(),
                forall|k: int| 0 <= k < i ==> (#[trigger] self@[k]).link@ != link@,
            decreases self@.len() - i,
        {
            if self.entries[i].link == *link {
                return Some(i);
            }
            i = i + 1;
        }
        None
    }

    /// Whether the feed `link` is in a run of failures.
    pub fn is_failing(&self, link: &String) -> (r: bool)
        requires
            self.wf(),
        ensures
            r == is_down(self@, link@),
    {
        self.find(link).is_some()
    }

    /// Records a failure of the feed `link` at instant `now` (seconds): a run
    /// of failures starts there unless one is going on. Returns how long the
    /// run has lasted, and what was returned on its previous failure.
    pub fn record_failure(&mut self, link: &String, now: u64) -> (r: DownReport)
        requires
            old(self).wf(),
        ensures
            final(self).wf(),
            is_down(final(self)@, link@),
            r == failure_report(old(self)@, link@, now),
            final(self)@ == after_failure(old(self)@, *link, now),
            !is_down(old(self)@, link@) ==> r == (DownReport { elapsed: 0, previous: None })
                && final(self)@ == old(self)@.push(DownEntry { link: *link, since: now, last: now }),
            forall|i: int| 0 <= i < old(self)@.len() && (#[trigger] old(self)@[i]).link@ == link@
                ==> r == report_of(old(self)@[i], now)
                && final(self)@ == old(self)@.update(i, DownEntry { last: now, ..old(self)@[i] }),
    {
        let ghost q = self@;
        match self.find(link) {
            Some(i) => {
                let since = self.entries[i].since;
                let last = self.entries[i].last;
                let rep = DownReport { elapsed: gap_exec(now, since), previous: Some(gap_exec(last, since)) };
                let kept = self.entries[i].link.clone();
                self.entries.set(i, DownEntry { link: kept, since, last: now });
                proof {
                    assert(self@[i as int] == (DownEntry { last: now, ..q[i as int] }));
                    assert forall|j: int| 0 <= j < q.len() && (#[trigger] q[j]).link@ == link@ implies j == i by {
                        if j != i {
                            assert(q[j].link@ != q[i as int].link@);
                        }
                    }
                    assert(self@[i as int].link@ == link@);
                    assert(is_down(q, link@));
                    assert(down_index(q, link@) == i);
                    assert forall|a: int, b: int| 0 <= a < b < self@.len() implies
                        (#[trigger] self@[a]).link@ != (#[trigger] self@[b]).link@ by {
                        assert(q[a].link@ != q[b].link@);
                    }
                }
                rep
            },
            None => {
                let entry = DownEntry { link: link.clone(), since: now, last: now };
                self.entries.push(entry);
                proof {
                    assert(self@[q.len() as int].link@ == link@);
                    assert forall|a: int, b: int| 0 <= a < b < self@.len() implies
                        (#[trigger] self@[a]).link@ != (#[trigger] self@[b]).link@ by {
                        if b == q.len() {
                            assert(q[a] == self@[a]);
                        }
                    }
                }
                DownReport { elapsed: 0, previous: None }
            },
        }
    }

    /// Records a success of the feed `link`: its run of failures, if any, ends.
    pub fn record_success(&mut self, link: &String)
        requires
            old(self).wf(),
        ensures
            final(self).wf(),
            !is_down(final(self)@, link@),
            !is_down(old(self)@, link@) ==> final(self)@ == old(self)@,
            forall|i: int| 0 <= i < old(self)@.len() && (#[trigger] old(self)@[i]).link@ == link@
                ==> final(self)@ == old(self)@.remove(i),
    {
        let ghost q = self@;
        if let Some(i) = self.find(link) {
            self.entries.remove(i);
            proof {
                assert forall|j: int| 0 <= j < q.len() && (#[trigger] q[j]).link@ == link@ implies j == i by {
                    if j != i {
                        assert(q[j].link@ != q[i as int].link@);
                    }
                }
                assert forall|a: int, b: int| 0 <= a < b < self@.len() implies
                    (#[trigger] self@[a]).link@ != (#[trigger] self@[b]).link@ by {
                    let a2 = if a < i { a } else { a + 1 };
                    let b2 = if b < i { b } else { b + 1 };
                    assert(self@[a] == q[a2]);
                    assert(self@[b] == q[b2]);
                }
                assert forall|k: int| 0 <= k < self@.len() implies (#[trigger] self@[k]).link@ != link@ by {
                    let k2 = if k < i { k } else { k + 1 };
                    assert(self@[k] == q[k2]);
                    assert(q[k2].link@ != q[i as int].link@);
                }
            }
        }
    }
}

} // verus!
