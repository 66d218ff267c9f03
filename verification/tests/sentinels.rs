use lucy::sentinels::{
    audit_broken_report, cert_expiry_report, cert_expiry_tick, model_health_from_body, clock_drift_check, crystal_key_outcomes, crystal_narrative, drift_report,
    heartbeat_step, mcp_down_report, model_health, retention_report,
};

fn pair(l: &str, m: &str) -> Option<(String, String)> {
    Some((l.to_string(), m.to_string()))
}

#[test]
fn small_drift_is_quiet() {
    assert_eq!(drift_report(0), None);
    assert_eq!(drift_report(299), None);
    assert_eq!(drift_report(-299), None);
}

#[test]
fn drift_past_five_minutes_warns() {
    assert_eq!(
        drift_report(300),
        pair("WARN", "housekeeping/clock_drift: local clock off by 300 s.")
    );
    assert_eq!(
        drift_report(-1799),
        pair("WARN", "housekeeping/clock_drift: local clock off by -1799 s.")
    );
}

#[test]
fn drift_past_half_an_hour_is_an_error() {
    assert_eq!(
        drift_report(1800),
        pair(
            "ERROR",
            "housekeeping/clock_drift: local clock off by 1800 s (local ahead). Audit timestamps unreliable. Sync via w32tm /resync."
        )
    );
    assert_eq!(
        drift_report(-4000),
        pair(
            "ERROR",
            "housekeeping/clock_drift: local clock off by -4000 s (remote ahead). Audit timestamps unreliable. Sync via w32tm /resync."
        )
    );
}

#[test]
fn drift_check_parses_the_date_header() {
    // Tue, 15 Apr 2025 07:28:00 GMT is 1744702080 s after the epoch.
    let date = "Tue, 15 Apr 2025 07:28:00 GMT";
    assert_eq!(clock_drift_check(date, 1744702080), None);
    assert_eq!(
        clock_drift_check(date, 1744702080 + 600),
        pair("WARN", "housekeeping/clock_drift: local clock off by 600 s.")
    );
    assert_eq!(clock_drift_check("not a date", 0), None);
}

#[test]
fn heartbeat_needs_two_misses() {
    assert_eq!(heartbeat_step(false, false), (true, None));
    assert_eq!(
        heartbeat_step(true, false),
        (
            true,
            pair(
                "WARN",
                "housekeeping/network_heartbeat: Ollama unreachable at 127.0.0.1:11434 for ≥2 ticks. Semantic recall is degraded."
            )
        )
    );
    assert_eq!(
        heartbeat_step(true, true),
        (false, pair("INFO", "housekeeping/network_heartbeat: Ollama recovered."))
    );
    assert_eq!(heartbeat_step(false, true), (false, None));
}

#[test]
fn model_present_with_any_tag() {
    let names = vec!["llama3:8b".to_string(), "nomic-embed-text:latest".to_string()];
    assert_eq!(model_health(&names), None);
}

#[test]
fn model_missing_warns() {
    let names = vec!["llama3:8b".to_string(), "nomic-embed".to_string()];
    assert_eq!(
        model_health(&names),
        pair(
            "WARN",
            "housekeeping/ollama_model_health: required embedding model `nomic-embed-text` is NOT present in Ollama. Run: ollama pull nomic-embed-text"
        )
    );
    assert!(model_health(&Vec::new()).is_some());
}

#[test]
fn certs_listed_up_to_five() {
    assert_eq!(cert_expiry_report(&Vec::new()), None);
    let one = vec![("CN=a".to_string(), "2025-05-01".to_string())];
    assert_eq!(
        cert_expiry_report(&one),
        pair(
            "WARN",
            "housekeeping/cert_expiry: 1 cert(s) in CurrentUser\\My expire within 30 days — CN=a (expires 2025-05-01)"
        )
    );
    let many: Vec<(String, String)> = (0..7).map(|i| (format!("CN={}", i), "?".to_string())).collect();
    let (_, m) = cert_expiry_report(&many).unwrap();
    assert!(m.starts_with("housekeeping/cert_expiry: 7 cert(s)"));
    assert!(m.ends_with("CN=3 (expires ?); CN=4 (expires ?)"));
    assert!(!m.contains("CN=5"));
}

fn strs(v: &[&str]) -> Vec<String> {
    v.iter().map(|s| s.to_string()).collect()
}

#[test]
fn audit_report_names_the_first_five() {
    assert_eq!(audit_broken_report(&Vec::new()), None);
    assert_eq!(
        audit_broken_report(&strs(&["a", "b", "c", "d", "e", "f"])),
        pair("ERROR", "housekeeping/audit_verify: chain BROKEN for 6 incident(s): a, b, c, d, e")
    );
}

#[test]
fn mcp_report_names_every_server() {
    assert_eq!(mcp_down_report(&Vec::new()), None);
    assert_eq!(
        mcp_down_report(&strs(&["fs", "git"])),
        pair("WARN", "housekeeping/mcp_health: 2 server(s) unreachable: fs, git")
    );
}

#[test]
fn crystal_narrative_joins_title_and_content() {
    assert_eq!(crystal_narrative("", "body"), "body");
    assert_eq!(crystal_narrative("Title", "body"), "Title\n\nbody");
}

#[test]
fn crystal_narrative_is_capped() {
    let content = "é".repeat(5000); // 10000 bytes
    let n = crystal_narrative("", &content);
    assert!(n.ends_with('…'));
    // 8189 bytes cut at a character boundary: 4094 two-byte characters.
    assert_eq!(n.chars().count(), 4094 + 1);
    assert!(n.len() <= 8192);
    let exact = "a".repeat(8192);
    assert_eq!(crystal_narrative("", &exact), exact);
}

#[test]
fn crystal_key_outcomes_keeps_json_arrays() {
    assert_eq!(crystal_key_outcomes("  [\"a\"]"), "  [\"a\"]");
    assert_eq!(crystal_key_outcomes("a, b"), "[]");
    assert_eq!(crystal_key_outcomes("   "), "[]");
}

#[test]
fn retention_reports_only_real_pruning() {
    assert_eq!(retention_report(0, 0), None);
    assert_eq!(
        retention_report(3, 2),
        pair("INFO", "housekeeping/snapshot_retention: pruned 5 (by_age=3, by_count=2)")
    );
}

#[test]
fn model_health_reads_the_tags_body() {
    let warn = pair(
        "WARN",
        "housekeeping/ollama_model_health: required embedding model `nomic-embed-text` is NOT present in Ollama. Run: ollama pull nomic-embed-text",
    );
    assert_eq!(model_health_from_body(r#"{"models":[{"name":"llama3"},{"name":"nomic-embed-text:latest"}]}"#), None);
    assert_eq!(model_health_from_body(r#"{"models":[{"name":"llama3"},{"name":5}]}"#), warn);
    assert_eq!(model_health_from_body(r#"{"other":1}"#), warn);
    assert_eq!(model_health_from_body("not json"), None);
}

#[test]
fn cert_tick_reads_the_powershell_listing() {
    assert_eq!(cert_expiry_tick("", true), None);
    assert_eq!(cert_expiry_tick("  null \n", true), None);
    assert_eq!(cert_expiry_tick(r#"[{"Subject":"CN=a","NotAfter":"2025-05-01"}]"#, false), None);
    assert_eq!(cert_expiry_tick("garbage", true), None);
    assert_eq!(cert_expiry_tick("[]", true), None);
    assert_eq!(
        cert_expiry_tick(r#" {"Subject":"CN=a","NotAfter":"2025-05-01"} "#, true),
        pair(
            "WARN",
            "housekeeping/cert_expiry: 1 cert(s) in CurrentUser\\My expire within 30 days — CN=a (expires 2025-05-01)"
        )
    );
    assert_eq!(
        cert_expiry_tick(r#"[{"Subject":"CN=a"},{"NotAfter":"x","Thumbprint":"t"}]"#, true),
        pair(
            "WARN",
            "housekeeping/cert_expiry: 2 cert(s) in CurrentUser\\My expire within 30 days — CN=a (expires ?); ? (expires x)"
        )
    );
}
