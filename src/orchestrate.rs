use vstd::prelude::*;

use crate::downtime::{
    after_failure, dead_notice_due, failure_report, notice_due, DeadNoticePolicy, DownTracker,
};
use crate::render::{dead_feed_msg, dead_feed_text};

verus! {

/// Handles a failed fetch of the feed at `feed_link` at instant `now`: the
/// tracker records it, and when `policy` asks for it the dead-feed notice
/// carrying `error` is returned, to be sent to the feed's current subscribers.
pub fn on_fetch_failure(
    tracker: &mut DownTracker,
    policy: DeadNoticePolicy,
    feed_link: &String,
    feed_title: &String,
    error: &String,
    now: u64,
) -> (r: Option<String>)
    requires
        old(tracker).wf(),
    ensures
        final(tracker).wf(),
        final(tracker)@ == after_failure(old(tracker)@, *feed_link, now),
        r.is_some() == notice_due(policy, failure_report(old(tracker)@, feed_link@, now)),
        r matches Some(m) ==> m@ == dead_feed_text(feed_link@, feed_title@, error@),
{
    let rep = tracker.record_failure(feed_link, now);
    if dead_notice_due(policy, rep) {
        Some(dead_feed_msg(feed_link, feed_title, error))
    } else {
        None
    }
}

} // verus!
