use rssbot::classify::{chat_is_unavailable, classify, contains_text, FailureClass, SendFailure};

fn request(description: &str, migrate: Option<i64>, retry: Option<u64>) -> SendFailure {
    SendFailure::Request {
        description: description.to_string(),
        migrate_to_chat_id: migrate,
        retry_after: retry,
    }
}

#[test]
fn substring_search() {
    assert!(contains_text("Forbidden: bot was blocked", "Forbidden"));
    assert!(contains_text("abc", ""));
    assert!(contains_text("", ""));
    assert!(!contains_text("", "a"));
    assert!(contains_text("xxabc", "abc"));
    assert!(!contains_text("xxab", "abc"));
    assert!(contains_text("héllo wörld", "wö"));
}

#[test]
fn unavailable_chats() {
    assert!(chat_is_unavailable("Forbidden: bot was blocked by the user"));
    assert!(chat_is_unavailable("Bad Request: chat not found"));
    assert!(!chat_is_unavailable("Bad Request: message is too long"));
    assert!(!chat_is_unavailable("forbidden"));
}

#[test]
fn forbidden_wins_over_other_fields() {
    let f = request("Forbidden: user is deactivated", Some(42), Some(5));
    assert_eq!(classify(&f), FailureClass::PermanentlyUnreachable);
    let f = request("Bad Request: chat not found", None, Some(5));
    assert_eq!(classify(&f), FailureClass::PermanentlyUnreachable);
}

#[test]
fn migration_wins_over_backoff() {
    let f = request("Bad Request: group chat was upgraded", Some(-100123), Some(7));
    assert_eq!(classify(&f), FailureClass::AddressMigrated(-100123));
}

#[test]
fn backoff_and_other() {
    assert_eq!(classify(&request("Too Many Requests", None, Some(9))), FailureClass::RateLimited(9));
    assert_eq!(classify(&request("Internal Server Error", None, None)), FailureClass::Other);
    assert_eq!(classify(&SendFailure::Other), FailureClass::Other);
}
