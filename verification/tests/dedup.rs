use lucy::dedup::{DedupStore, hash_key};

#[test]
fn first_call_acquires() {
    let mut store = DedupStore::new();
    let _ = store.dedup_release("t1", "ps", "Get-Process");
    let r = store.dedup_acquire("t1", "ps", "Get-Process", 0);
    assert!(r.acquired);
    assert_eq!(r.prev_age_seconds, 0);
}

#[test]
fn second_call_blocked() {
    let mut store = DedupStore::new();
    let _ = store.dedup_release("t2", "ps", "Get-Service");
    let _ = store.dedup_acquire("t2", "ps", "Get-Service", 0);
    let r = store.dedup_acquire("t2", "ps", "Get-Service", 0);
    assert!(!r.acquired);
}

#[test]
fn different_session_not_blocked() {
    let mut store = DedupStore::new();
    let _ = store.dedup_release("t3a", "ps", "ls");
    let _ = store.dedup_release("t3b", "ps", "ls");
    let _ = store.dedup_acquire("t3a", "ps", "ls", 0);
    let r = store.dedup_acquire("t3b", "ps", "ls", 0);
    assert!(r.acquired);
}

#[test]
fn different_input_not_blocked() {
    let mut store = DedupStore::new();
    let _ = store.dedup_release("t4", "ps", "Get-Process explorer");
    let _ = store.dedup_release("t4", "ps", "Get-Process chrome");
    let _ = store.dedup_acquire("t4", "ps", "Get-Process explorer", 0);
    let r = store.dedup_acquire("t4", "ps", "Get-Process chrome", 0);
    assert!(r.acquired);
}

#[test]
fn long_input_truncated_consistently() {
    let mut store = DedupStore::new();
    let _ = store.dedup_release("t5", "ps", &"a".repeat(2000));
    let a = "a".repeat(600);
    let b = "a".repeat(550);
    // Both truncate to "aaaa…" at 500 chars → same hash → block
    let _ = store.dedup_acquire("t5", "ps", &a, 0);
    let r = store.dedup_acquire("t5", "ps", &b, 0);
    assert!(!r.acquired);
}

#[test]
fn release_allows_retry() {
    let mut store = DedupStore::new();
    let _ = store.dedup_release("t6", "ps", "kill -9 1");
    let _ = store.dedup_acquire("t6", "ps", "kill -9 1", 0);
    let _ = store.dedup_release("t6", "ps", "kill -9 1");
    let r = store.dedup_acquire("t6", "ps", "kill -9 1", 0);
    assert!(r.acquired);
}

#[test]
fn slot_expires_after_five_minutes_and_reports_age() {
    let mut store = DedupStore::new();
    assert!(store.dedup_acquire("s", "ps", "x", 1_000).acquired);
    let r = store.dedup_acquire("s", "ps", "x", 1_000 + 61_500);
    assert!(!r.acquired);
    assert_eq!(r.prev_age_seconds, 61);
    assert_eq!(store.dedup_stats(), 1);
    let r = store.dedup_acquire("s", "ps", "x", 1_000 + 300_000);
    assert!(r.acquired);
    assert_eq!(store.dedup_stats(), 1);
}

#[test]
fn release_reports_whether_slot_was_held() {
    let mut store = DedupStore::new();
    assert!(!store.dedup_release("s", "t", "i"));
    store.dedup_acquire("s", "t", "i", 5);
    assert!(store.dedup_release("s", "t", "i"));
    assert_eq!(store.dedup_stats(), 0);
}

#[test]
fn hash_key_hashes_joined_fields() {
    let k = hash_key("a", "b", "c");
    assert_eq!(k.len(), 64);
    assert!(k.chars().all(|c| c.is_ascii_hexdigit() && !c.is_ascii_uppercase()));
    // The fields are joined with ':' before hashing.
    assert_eq!(hash_key("a:b", "c", "d"), hash_key("a", "b:c", "d"));
    assert_ne!(hash_key("a", "b", "c"), hash_key("a", "b", "d"));
    // Only the first 500 characters (not bytes) of the input count.
    assert_eq!(hash_key("s", "t", &"é".repeat(600)), hash_key("s", "t", &"é".repeat(500)));
    assert_ne!(hash_key("s", "t", &"é".repeat(499)), hash_key("s", "t", &"é".repeat(500)));
}
