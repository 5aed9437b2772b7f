use vstd::prelude::*;

use crate::classify::{class_of, classify, FailureClass, SendFailure};

verus! {

/// How many sends one subscriber gets for one message.
pub const MAX_ATTEMPTS: u32 = 3;

/// What the caller does with the store or the clock after a send.
#[derive(Clone, Copy, Debug, PartialEq, Eq, Structural)]
pub enum Effect {
    /// Nothing to do beyond the next send, if any.
    Nothing,
    /// Remove this subscriber from the store.
    DeleteSubscriber(i64),
    /// Rewrite the first subscriber identifier into the second in the store.
    UpdateSubscriber(i64, i64),
    /// Wait this many seconds before the next send.
    Sleep(u64),
    /// Stop the whole batch and report the failure.
    Abort,
}

/// The state of one message's delivery to a list of subscribers.
pub struct DeliveryView {
    pub subscribers: Seq<i64>,
    /// The position of the subscriber being served.
    pub index: int,
    /// That subscriber's identifier, as rewritten by migrations.
    pub current: i64,
    /// The sends made to it so far.
    pub attempts: int,
    pub aborted: bool,
}

/// The recipient of the next send, if the batch is not over.
pub open spec fn target_of(v: DeliveryView) -> Option<i64> {
    if !v.aborted && 0 <= v.index < v.subscribers.len() { Some(v.current) } else { None }
}

/// The state that serves the subscriber after the current one.
pub open spec fn advanced(v: DeliveryView) -> DeliveryView {
    DeliveryView {
        index: v.index + 1,
        current: if v.index + 1 < v.subscribers.len() { v.subscribers[v.index + 1] } else { v.current },
        attempts: 0,
        ..v
    }
}

/// The state after a send that may be retried at `id`: another attempt while
/// the budget lasts, else the next subscriber.
pub open spec fn retried(v: DeliveryView, id: i64) -> DeliveryView {
    if v.attempts + 1 >= MAX_ATTEMPTS {
        advanced(v)
    } else {
        DeliveryView { current: id, attempts: v.attempts + 1, ..v }
    }
}

/// The state and the effect after the outcome `res` of a send to the current
/// subscriber.
pub open spec fn after(v: DeliveryView, res: Result<(), SendFailure>) -> (DeliveryView, Effect) {
    match res {
        Ok(()) => (advanced(v), Effect::Nothing),
        Err(f) => match class_of(f) {
            FailureClass::PermanentlyUnreachable => (advanced(v), Effect::DeleteSubscriber(v.current)),
            FailureClass::AddressMigrated(n) => (retried(v, n), Effect::UpdateSubscriber(v.current, n)),
            FailureClass::RateLimited(d) => (retried(v, v.current), Effect::Sleep(d)),
            FailureClass::Other => (DeliveryView { aborted: true, ..v }, Effect::Abort),
        },
    }
}

/// A subscriber that answers every send with a backoff hint gets exactly
/// `MAX_ATTEMPTS` sends: the first `MAX_ATTEMPTS` outcomes keep the batch on
/// it, with no change to the store and no abort, and after the last the batch
/// moves on to the next subscriber.
pub proof fn lemma_backoff_budget(v: DeliveryView, f: SendFailure, d: u64)
    requires
        0 <= v.index < v.subscribers.len(),
        v.attempts == 0,
        !v.aborted,
        class_of(f) == FailureClass::RateLimited(d),
    ensures
        ({
            let (v1, e1) = after(v, Err(f));
            let (v2, e2) = after(v1, Err(f));
            let (v3, e3) = after(v2, Err(f));
            &&& target_of(v1) == Some(v.current) && v1.index == v.index
            &&& target_of(v2) == Some(v.current) && v2.index == v.index
            &&& v3.index == v.index + 1 && v3.attempts == 0 && !v3.aborted
            &&& v3.subscribers == v.subscribers
            &&& e1 == Effect::Sleep(d) && e2 == Effect::Sleep(d) && e3 == Effect::Sleep(d)
        }),
{
}

/// The delivery of one message to each subscriber in turn, with a bounded
/// number of sends per subscriber.
pub struct Delivery {
    subscribers: Vec<i64>,
    index: usize,
    current: i64,
    attempts: u32,
    aborted: bool,
}

impl View for Delivery {
    type V = DeliveryView;

    closed spec fn view(&self) -> DeliveryView {
        DeliveryView {
            subscribers: self.subscribers@,
            index: self.index as int,
            current: self.current,
            attempts: self.attempts as int,
            aborted: self.aborted,
        }
    }
}

impl Delivery {
    /// The invariant: the position stays within one past the end and the
    /// budget is never spent.
    pub open spec fn wf(&self) -> bool {
        &&& 0 <= self@.index <= self@.subscribers.len()
        &&& 0 <= self@.attempts < MAX_ATTEMPTS
    }

    /// Starts a delivery to `subscribers`, in their order.
    pub fn new(subscribers: Vec<i64>) -> (r: Delivery)
        ensures
            r.wf(),
            r@.subscribers == subscribers@,
            r@.index == 0,
            r@.attempts == 0,
            !r@.aborted,
            subscribers@.len() > 0 ==> r@.current == subscribers@[0],
    {
        let current: i64 = if subscribers.len() > 0 { subscribers[0] } else { 0 };
        Delivery { subscribers, index: 0, current, attempts: 0, aborted: false }
    }

    /// The recipient of the next send, or `None` once the batch is over.
    pub fn next_target(&self) -> (r: Option<i64>)
        requires
            self.wf(),
        ensures
            r == target_of(self@),
    {
        if !self.aborted && self.index < self.subscribers.len() {
            Some(self.current)
        } else {
            None
        }
    }

    /// Whether the batch was stopped by a failure that is not retried.
    pub fn is_aborted(&self) -> (r: bool)
        ensures
            r == self@.aborted,
    {
        self.aborted
    }

    fn advance(&mut self)
        requires
            old(self).wf(),
            old(self)@.index < old(self)@.subscribers.len(),
        ensures
            final(self).wf(),
            final(self)@ == advanced(old(self)@),
    {
        let n = self.subscribers.len();
        assert(self.index < n);
        self.index = self.index + 1;
        self.attempts = 0;
        if self.index < self.subscribers.len() {
            self.current = self.subscribers[self.index];
        }
    }

    fn retry(&mut self, id: i64)
        requires
            old(self).wf(),
            old(self)@.index < old(self)@.subscribers.len(),
        ensures
            final(self).wf(),
            final(self)@ == retried(old(self)@, id),
    {
        if self.attempts + 1 >= MAX_ATTEMPTS {
            self.advance();
        } else {
            self.current = id;
            self.attempts = self.attempts + 1;
        }
    }

    /// Takes the outcome of the send to `next_target()` and says what the
    /// caller must do before the next one.
    pub fn record(&mut self, res: &Result<(), SendFailure>) -> (r: Effect)
        requires
            old(self).wf(),
            target_of(old(self)@).is_some(),
        ensures
            final(self).wf(),
            (final(self)@, r) == after(old(self)@, *res),
    {
        match res {
            Ok(()) => {
                self.advance();
                Effect::Nothing
            },
            Err(f) => match classify(f) {
                FailureClass::PermanentlyUnreachable => {
                    let id = self.current;
                    self.advance();
                    Effect::DeleteSubscriber(id)
                },
                FailureClass::AddressMigrated(n) => {
                    let id = self.current;
                    self.retry(n);
                    Effect::UpdateSubscriber(id, n)
                },
                FailureClass::RateLimited(d) => {
                    let id = self.current;
                    self.retry(id);
                    Effect::Sleep(d)
                },
                FailureClass::Other => {
                    self.aborted = true;
                    Effect::Abort
                },
            },
        }
    }
}

} // verus!
