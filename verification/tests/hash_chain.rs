use lucy::hash_chain::{compute_chain_hash, verify_chain};

#[test]
fn genesis_chain_produces_deterministic_hash() {
    let a = compute_chain_hash("GENESIS", "abc-123", "ls /tmp", 1730000000);
    let b = compute_chain_hash("GENESIS", "abc-123", "ls /tmp", 1730000000);
    assert_eq!(a, b);
    assert_eq!(a.len(), 64, "SHA-256 hex must be 64 chars");
}

#[test]
fn different_command_produces_different_hash() {
    let a = compute_chain_hash("GENESIS", "id1", "rm /etc/passwd", 1);
    let b = compute_chain_hash("GENESIS", "id1", "ls /etc/passwd", 1);
    assert_ne!(a, b, "different commands must hash differently");
}

#[test]
fn chain_propagates_prev_hash() {
    let h1 = compute_chain_hash("GENESIS", "id1", "cmd", 1);
    let h2 = compute_chain_hash("DIFFERENT", "id1", "cmd", 1);
    assert_ne!(h1, h2);
}

#[test]
fn chain_hash_is_sha256_of_concatenation() {
    // sha256("0")
    assert_eq!(
        compute_chain_hash("", "", "", 0),
        "5feceb66ffc86f38d952786c6d696c79c2dbc239dd4e91b46729d73a27fb57e9"
    );
    assert_eq!(compute_chain_hash("x", "y", "z", 7), compute_chain_hash("", "xy", "z", 7));
    // executed_at is rendered as a signed decimal.
    assert_eq!(compute_chain_hash("a", "b", "c", -12), compute_chain_hash("abc-1", "", "", 2));
    assert_eq!(compute_chain_hash("", "", "", i64::MIN), compute_chain_hash("-922337203685477580", "", "", 8));
}

fn row(id: &str, cmd: &str, at: i64, hash: &str) -> (String, String, i64, String) {
    (id.to_string(), cmd.to_string(), at, hash.to_string())
}

#[test]
fn written_chain_verifies_fully() {
    let h1 = compute_chain_hash("GENESIS", "a1", "ls", 10);
    let h2 = compute_chain_hash(&h1, "a2", "whoami", 20);
    let h3 = compute_chain_hash(&h2, "a3", "hostname", 30);
    let rows = vec![row("a1", "ls", 10, &h1), row("a2", "whoami", 20, &h2), row("a3", "hostname", 30, &h3)];
    let rep = verify_chain("inc-1", &rows);
    assert_eq!(rep.incident_id, "inc-1");
    assert_eq!(rep.total_actions, 3);
    assert_eq!(rep.verified_ok, 3);
    assert!(rep.mismatches.is_empty());
    assert!(rep.fully_valid);
}

#[test]
fn tampered_row_is_reported_without_cascading() {
    let h1 = compute_chain_hash("GENESIS", "a1", "ls", 10);
    let h2 = compute_chain_hash(&h1, "a2", "whoami", 20);
    let h3 = compute_chain_hash(&h2, "a3", "hostname", 30);
    // Row 2's command was edited after the fact; its stored hash was not.
    let rows = vec![row("a1", "ls", 10, &h1), row("a2", "rm -rf /", 20, &h2), row("a3", "hostname", 30, &h3)];
    let rep = verify_chain("inc-2", &rows);
    assert_eq!(rep.verified_ok, 2);
    assert_eq!(rep.mismatches.len(), 1);
    let m = &rep.mismatches[0];
    assert_eq!(m.action_id, "a2");
    assert_eq!(m.position, 2);
    assert_eq!(m.stored_hash, h2);
    assert_eq!(m.expected_hash, compute_chain_hash(&h1, "a2", "rm -rf /", 20));
    assert_eq!(m.reason, "algorithm_mismatch");
    assert!(!rep.fully_valid);
}

#[test]
fn empty_stored_hash_is_missing_hash() {
    let rows = vec![row("a1", "ls", 10, "")];
    let rep = verify_chain("inc-3", &rows);
    assert_eq!(rep.total_actions, 1);
    assert_eq!(rep.verified_ok, 0);
    assert_eq!(rep.mismatches[0].reason, "missing_hash");
    assert_eq!(rep.mismatches[0].stored_hash, "");
    assert_eq!(rep.mismatches[0].expected_hash, compute_chain_hash("GENESIS", "a1", "ls", 10));
    assert!(!rep.fully_valid);
}

#[test]
fn empty_chain_is_valid() {
    let rep = verify_chain("inc-4", &Vec::new());
    assert_eq!(rep.total_actions, 0);
    assert_eq!(rep.verified_ok, 0);
    assert!(rep.fully_valid);
}
