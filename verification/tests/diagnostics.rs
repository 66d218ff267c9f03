use lucy::diagnostics::{
    integrity_kind, is_transient_lock, memory_pipeline_verdict, overall_status, stream_sessions_verdict, Integrity,
};

fn st(v: &[&str]) -> Vec<String> {
    v.iter().map(|s| s.to_string()).collect()
}

#[test]
fn overall_is_the_worst() {
    assert_eq!(overall_status(&st(&["ok", "warning", "ok"])), "warning");
    assert_eq!(overall_status(&st(&["unknown", "error", "warning"])), "error");
    assert_eq!(overall_status(&st(&["ok", "unknown"])), "unknown");
    assert_eq!(overall_status(&st(&["ok", "fine"])), "ok");
    assert_eq!(overall_status(&st(&[])), "ok");
}

#[test]
fn integrity_answers() {
    assert_eq!(integrity_kind("ok"), Integrity::Sound);
    assert_eq!(integrity_kind("database is LOCKED"), Integrity::Busy);
    assert_eq!(integrity_kind("query error: disk I/O"), Integrity::Busy);
    assert_eq!(integrity_kind("*** in database main *** Page 12: btreeInitPage() returns error code 11"), Integrity::Damaged);
}

#[test]
fn transient_locks_are_retried() {
    assert!(is_transient_lock("Database is locked"));
    assert!(is_transient_lock("unable to validate the inverted index for FTS5 table main.x: table is locked"));
    assert!(is_transient_lock("query error: busy"));
    assert!(!is_transient_lock("malformed"));
}

#[test]
fn memory_pipeline_counts() {
    assert_eq!(
        memory_pipeline_verdict(12, 3, 4, 0),
        ("ok".to_string(), "12 active memories, 3 crystals, 4 insights".to_string())
    );
    assert_eq!(
        memory_pipeline_verdict(12, 3, 4, 100),
        ("ok".to_string(), "12 active memories, 3 crystals, 4 insights (100 expired pending cleanup)".to_string())
    );
    assert_eq!(memory_pipeline_verdict(0, 0, 0, 101).0, "warning");
}

#[test]
fn stream_sessions_threshold() {
    assert_eq!(stream_sessions_verdict(20), ("ok".to_string(), "20 active streaming session(s)".to_string()));
    assert_eq!(stream_sessions_verdict(21).0, "warning");
}
