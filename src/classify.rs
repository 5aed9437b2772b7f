use vstd::prelude::*;

verus! {

/// True when `needle` occurs in `hay` as a contiguous run of characters.
pub open spec fn has_substring(hay: Seq<char>, needle: Seq<char>) -> bool {
    exists|i: int| 0 <= i <= hay.len() - needle.len() && #[trigger] hay.subrange(i, i + needle.len()) == needle
}

/// Whether `needle` occurs in `hay` starting at character `start`.
fn occurs_at(hay: &str, needle: &str, start: usize) -> (r: bool)
    requires
        start + needle@.len() <= hay@.len(),
    ensures
        r == (hay@.subrange(start as int, start + needle@.len()) == needle@),
{
    let h = hay.unicode_len();
    let n = needle.unicode_len();
    let mut j: usize = 0;
    while j < n
        invariant
            n == needle@.len(),
            h == hay@.len(),
            start + n <= h,
            j <= n,
            forall|k: int| 0 <= k < j ==> hay@[start + k] == needle@[k],
        decreases n - j,
    {
        if hay.get_char(start + j) != needle.get_char(j) {
            assert(hay@.subrange(start as int, start + n)[j as int] != needle@[j as int]);
            return false;
        }
        j = j + 1;
    }
    assert(hay@.subrange(start as int, start + n) =~= needle@);
    true
}

/// Whether `needle` occurs anywhere in `hay`.
pub fn contains_text(hay: &str, needle: &str) -> (r: bool)
    ensures
        r == has_substring(hay@, needle@),
{
    let h = hay.unicode_len();
    let n = needle.unicode_len();
    if n > h {
        return false;
    }
    let last = h - n;
    let mut i: usize = 0;
    loop
        invariant
            h == hay@.len(),
            n == needle@.len(),
            last == h - n,
            i <= last,
            forall|k: int| 0 <= k < i ==> #[trigger] hay@.subrange(k, k + n) != needle@,
        decreases last - i,
    {
        if occurs_at(hay, needle, i) {
            return true;
        }
        if i == last {
            return false;
        }
        i = i + 1;
    }
}


/// A failed send, as the messaging platform reports it.
#[derive(Debug)]
pub enum SendFailure {
    /// The platform answered the request with an error.
    Request { description: String, migrate_to_chat_id: Option<i64>, retry_after: Option<u64> },
    /// Anything else: the request did not get a usable answer.
    Other,
}

/// What the delivery pipeline makes of a failed send.
#[derive(Clone, Copy, Debug, PartialEq, Eq, Structural)]
pub enum FailureClass {
    /// The recipient blocked the sender or no longer exists.
    PermanentlyUnreachable,
    /// The recipient now lives under the given identifier.
    AddressMigrated(i64),
    /// The platform asks the sender to wait that many seconds.
    RateLimited(u64),
    /// None of the above; not retried.
    Other,
}

/// The description of a failure that names an unreachable recipient.
pub open spec fn unavailable_text(s: Seq<char>) -> bool {
    has_substring(s, "Forbidden"@) || has_substring(s, "chat not found"@)
}

/// The class of a failure: an unreachable recipient first, then a migration,
/// then a backoff hint.
pub open spec fn class_of(f: SendFailure) -> FailureClass {
    match f {
        SendFailure::Request { description, migrate_to_chat_id, retry_after } => {
            if unavailable_text(description@) {
                FailureClass::PermanentlyUnreachable
            } else if migrate_to_chat_id.is_some() {
                FailureClass::AddressMigrated(migrate_to_chat_id.unwrap())
            } else if retry_after.is_some() {
                FailureClass::RateLimited(retry_after.unwrap())
            } else {
                FailureClass::Other
            }
        },
        SendFailure::Other => FailureClass::Other,
    }
}

/// A description that mentions "Forbidden" makes the recipient unreachable,
/// whatever else the failure carries.
pub proof fn lemma_forbidden_is_unreachable(
    description: String,
    migrate_to_chat_id: Option<i64>,
    retry_after: Option<u64>,
)
    requires
        has_substring(description@, "Forbidden"@),
    ensures
        class_of(SendFailure::Request { description, migrate_to_chat_id, retry_after })
            == FailureClass::PermanentlyUnreachable,
{
}

/// A failure that carries both a new identifier and a backoff hint is a
/// migration, unless its description names an unreachable recipient.
pub proof fn lemma_migration_before_backoff(description: String, id: i64, delay: u64)
    requires
        !unavailable_text(description@),
    ensures
        class_of(SendFailure::Request { description, migrate_to_chat_id: Some(id), retry_after: Some(delay) })
            == FailureClass::AddressMigrated(id),
{
}

/// Whether a failure description says that the chat cannot be reached any more.
pub fn chat_is_unavailable(s: &str) -> (r: bool)
    ensures
        r == unavailable_text(s@),
{
    contains_text(s, "Forbidden") || contains_text(s, "chat not found")
}

/// Classifies a failed send.
pub fn classify(f: &SendFailure) -> (r: FailureClass)
    ensures
        r == class_of(*f),
{
    match f {
        SendFailure::Request { description, migrate_to_chat_id, retry_after } => {
            if chat_is_unavailable(description.as_str()) {
                FailureClass::PermanentlyUnreachable
            } else if let Some(id) = migrate_to_chat_id {
                FailureClass::AddressMigrated(*id)
            } else if let Some(delay) = retry_after {
                FailureClass::RateLimited(*delay)
            } else {
                FailureClass::Other
            }
        },
        SendFailure::Other => FailureClass::Other,
    }
}

} // verus!
