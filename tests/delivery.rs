use rssbot::classify::SendFailure;
use rssbot::delivery::{Delivery, Effect, MAX_ATTEMPTS};

fn failure(description: &str, migrate: Option<i64>, retry: Option<u64>) -> Result<(), SendFailure> {
    Err(SendFailure::Request {
        description: description.to_string(),
        migrate_to_chat_id: migrate,
        retry_after: retry,
    })
}

#[test]
fn rate_limited_subscriber_gets_three_attempts() {
    let mut d = Delivery::new(vec![7]);
    let mut sends = 0;
    let mut effects = Vec::new();
    while let Some(target) = d.next_target() {
        assert_eq!(target, 7);
        sends += 1;
        effects.push(d.record(&failure("Too Many Requests", None, Some(0))));
    }
    assert_eq!(sends, 3);
    assert_eq!(MAX_ATTEMPTS, 3);
    assert_eq!(effects, vec![Effect::Sleep(0), Effect::Sleep(0), Effect::Sleep(0)]);
    assert!(!d.is_aborted());
}

#[test]
fn success_moves_on() {
    let mut d = Delivery::new(vec![1, 2]);
    assert_eq!(d.next_target(), Some(1));
    assert_eq!(d.record(&Ok(())), Effect::Nothing);
    assert_eq!(d.next_target(), Some(2));
    assert_eq!(d.record(&Ok(())), Effect::Nothing);
    assert_eq!(d.next_target(), None);
}

#[test]
fn empty_batch_is_done() {
    let d = Delivery::new(Vec::new());
    assert_eq!(d.next_target(), None);
}

#[test]
fn unreachable_subscriber_is_deleted() {
    let mut d = Delivery::new(vec![1, 2]);
    assert_eq!(d.record(&failure("Forbidden: bot was blocked by the user", None, None)), Effect::DeleteSubscriber(1));
    assert_eq!(d.next_target(), Some(2));
}

#[test]
fn migration_rebinds_and_retries() {
    let mut d = Delivery::new(vec![1, 2]);
    assert_eq!(d.record(&failure("migrated", Some(-5), Some(3))), Effect::UpdateSubscriber(1, -5));
    assert_eq!(d.next_target(), Some(-5));
    assert_eq!(d.record(&Ok(())), Effect::Nothing);
    assert_eq!(d.next_target(), Some(2));
}

#[test]
fn migration_on_last_attempt_gives_up() {
    let mut d = Delivery::new(vec![1, 2]);
    assert_eq!(d.record(&failure("slow down", None, Some(1))), Effect::Sleep(1));
    assert_eq!(d.record(&failure("slow down", None, Some(1))), Effect::Sleep(1));
    assert_eq!(d.record(&failure("migrated", Some(9), None)), Effect::UpdateSubscriber(1, 9));
    assert_eq!(d.next_target(), Some(2));
}

#[test]
fn unclassified_failure_aborts_batch() {
    let mut d = Delivery::new(vec![1, 2, 3]);
    assert_eq!(d.record(&Ok(())), Effect::Nothing);
    assert_eq!(d.record(&failure("Bad Request: can't parse entities", None, None)), Effect::Abort);
    assert!(d.is_aborted());
    assert_eq!(d.next_target(), None);
    let mut d = Delivery::new(vec![1, 2]);
    assert_eq!(d.record(&Err(SendFailure::Other)), Effect::Abort);
    assert_eq!(d.next_target(), None);
}
