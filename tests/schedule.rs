use rssbot::schedule::{poll_interval, Feed, FetchQueue};

fn feed(link: &str, ttl: Option<u32>) -> Feed {
    Feed { link: link.to_string(), title: format!("title of {}", link), ttl, subscribers: vec![1, 2] }
}

#[test]
fn interval_without_ttl_is_min() {
    assert_eq!(poll_interval(None, 60, 3600), 60);
}

#[test]
fn interval_from_ttl_is_capped() {
    assert_eq!(poll_interval(Some(120), 60, 3600), 3600);
}

#[test]
fn interval_from_ttl_in_range_and_raised() {
    assert_eq!(poll_interval(Some(5), 60, 3600), 300);
    assert_eq!(poll_interval(Some(0), 60, 3600), 60);
    assert_eq!(poll_interval(Some(u32::MAX), 60, 3600), 3600);
}

#[test]
fn only_first_enqueue_succeeds() {
    let mut q = FetchQueue::new();
    assert!(q.enqueue(feed("a", None), 0, 60));
    assert!(!q.enqueue(feed("a", None), 10, 5));
    assert!(!q.enqueue(feed("a", Some(1)), 20, 1));
    assert_eq!(q.len(), 1);
    assert_eq!(q.next_deadline(), Some(60));
    assert_eq!(q.next_due(59).map(|f| f.link), None);
    assert_eq!(q.next_due(60).map(|f| f.link), Some("a".to_string()));
}

#[test]
fn fired_key_is_not_returned_twice() {
    let mut q = FetchQueue::new();
    assert!(q.enqueue(feed("a", None), 0, 10));
    assert!(q.enqueue(feed("b", None), 0, 20));
    assert_eq!(q.next_due(100).map(|f| f.link), Some("a".to_string()));
    assert!(!q.is_pending(&"a".to_string()));
    assert_eq!(q.next_due(100).map(|f| f.link), Some("b".to_string()));
    assert!(q.next_due(1000).is_none());
    assert!(q.enqueue(feed("a", None), 100, 10));
    assert_eq!(q.next_due(110).map(|f| f.link), Some("a".to_string()));
}

#[test]
fn earliest_fires_first_and_ties_keep_order() {
    let mut q = FetchQueue::new();
    assert!(q.enqueue(feed("late", None), 0, 50));
    assert!(q.enqueue(feed("x", None), 0, 30));
    assert!(q.enqueue(feed("y", None), 0, 30));
    assert_eq!(q.next_deadline(), Some(30));
    assert_eq!(q.next_due(40).map(|f| f.link), Some("x".to_string()));
    assert_eq!(q.next_due(40).map(|f| f.link), Some("y".to_string()));
    assert_eq!(q.next_due(40).map(|f| f.link), None);
    assert_eq!(q.next_due(50).map(|f| f.link), Some("late".to_string()));
    assert_eq!(q.next_deadline(), None);
}

#[test]
fn snapshot_comes_back_whole() {
    let mut q = FetchQueue::new();
    q.enqueue(feed("a", Some(3)), 0, 0);
    let f = q.next_due(0).unwrap();
    assert_eq!(f.title, "title of a");
    assert_eq!(f.ttl, Some(3));
    assert_eq!(f.subscribers, vec![1, 2]);
}

#[test]
fn due_instant_saturates() {
    let mut q = FetchQueue::new();
    q.enqueue(feed("a", None), u64::MAX - 1, 10);
    assert_eq!(q.next_deadline(), Some(u64::MAX));
}

#[test]
fn rescan_arms_absent_feeds_only() {
    let mut q = FetchQueue::new();
    q.enqueue(feed("a", None), 0, 1000);
    q.arm_all(vec![feed("a", None), feed("b", Some(2)), feed("c", None)], 100, 60, 3600);
    assert_eq!(q.len(), 3);
    assert_eq!(q.next_due(160).map(|f| f.link), Some("c".to_string()));
    assert_eq!(q.next_due(220).map(|f| f.link), Some("b".to_string()));
    assert_eq!(q.next_deadline(), Some(1000));
}
