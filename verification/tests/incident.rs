use lucy::incident::{
    advance_phase, incident_phase_prompt, valid_transition, validity_credit, AddEvidenceArgs,
    FinalizeArgs, StartIncidentArgs, EXTRACT_PROMPT, DEFAULT_PROMPT, MAX_EVIDENCE_BYTES,
};

#[test]
fn forward_moves_are_valid() {
    assert!(valid_transition("extract", "plan"));
    assert!(valid_transition("plan", "investigate"));
    assert!(valid_transition("investigate", "diagnose"));
    assert!(valid_transition("diagnose", "report"));
    assert!(valid_transition("report", "done"));
}

#[test]
fn skips_and_backward_moves_are_refused() {
    assert!(!valid_transition("extract", "investigate"));
    assert!(!valid_transition("plan", "report"));
    assert!(!valid_transition("report", "plan"));
    assert!(!valid_transition("done", "plan"));
    assert!(!valid_transition("plan", "extract"));
}

#[test]
fn reroutes_and_bail_out_are_valid() {
    assert!(valid_transition("investigate", "plan"));
    assert!(valid_transition("diagnose", "plan"));
    assert!(valid_transition("extract", "done"));
    assert!(valid_transition("plan", "done"));
    assert!(valid_transition("nonsense", "done"));
}

#[test]
fn advance_counts_reroutes_only() {
    assert_eq!(advance_phase("investigate", "plan"), Ok(1));
    assert_eq!(advance_phase("diagnose", "plan"), Ok(1));
    assert_eq!(advance_phase("extract", "plan"), Ok(0));
    assert_eq!(advance_phase("plan", "investigate"), Ok(0));
    assert_eq!(advance_phase("report", "done"), Ok(0));
}

#[test]
fn advance_refuses_illegal_move_with_message() {
    assert_eq!(
        advance_phase("extract", "report"),
        Err("Illegal phase transition: extract \u{2192} report".to_string())
    );
}

#[test]
fn loop_cap_defaults_to_five() {
    let mut a = StartIncidentArgs {
        shell_id: "s".to_string(),
        host_name: "h".to_string(),
        title: "t".to_string(),
        description: "d".to_string(),
        max_loops: None,
    };
    assert_eq!(a.loop_cap(), 5);
    a.max_loops = Some(9);
    assert_eq!(a.loop_cap(), 9);
}

fn evidence(content: &str, tags: Option<Vec<String>>) -> AddEvidenceArgs {
    AddEvidenceArgs {
        incident_id: "inc".to_string(),
        kind: "log".to_string(),
        source: "syslog".to_string(),
        content: content.to_string(),
        tags,
    }
}

#[test]
fn short_evidence_is_stored_as_is() {
    let e = evidence("disk full on /var", None);
    assert_eq!(e.stored_content(), "disk full on /var");
}

#[test]
fn long_evidence_is_cut_with_note() {
    let big = "x".repeat(MAX_EVIDENCE_BYTES + 10);
    let e = evidence(&big, None);
    let stored = e.stored_content();
    let expected = format!("{}\n\n[...truncated for storage]", "x".repeat(MAX_EVIDENCE_BYTES));
    assert_eq!(stored, expected);
}

#[test]
fn long_evidence_is_cut_at_a_character_boundary() {
    // 'x' then two-byte characters: byte 65536 falls inside a character.
    let big = format!("x{}", "é".repeat(MAX_EVIDENCE_BYTES / 2 + 5));
    let e = evidence(&big, None);
    let stored = e.stored_content();
    let expected = format!("x{}\n\n[...truncated for storage]", "é".repeat(MAX_EVIDENCE_BYTES / 2 - 1));
    assert_eq!(stored, expected);
}

#[test]
fn evidence_of_exactly_the_limit_is_kept() {
    let big = "y".repeat(MAX_EVIDENCE_BYTES);
    let e = evidence(&big, None);
    assert_eq!(e.stored_content(), big);
}

#[test]
fn tags_serialise_as_json_array() {
    assert_eq!(evidence("c", None).tags_json(), "[]");
    assert_eq!(
        evidence("c", Some(vec!["a".to_string(), "b\"c".to_string()])).tags_json(),
        "[\"a\",\"b\\\"c\"]"
    );
    assert_eq!(
        evidence("c", Some(vec!["x\u{1}\n\t\\é\u{7f}".to_string(), String::new()])).tags_json(),
        "[\"x\\u0001\\n\\t\\\\é\u{7f}\",\"\"]"
    );
}

fn finalize(status: Option<&str>) -> FinalizeArgs {
    FinalizeArgs {
        incident_id: "inc".to_string(),
        summary: "s".to_string(),
        root_cause: "r".to_string(),
        status: status.map(|s| s.to_string()),
    }
}

#[test]
fn closing_status_defaults_to_resolved() {
    assert_eq!(finalize(None).closing_status(), Ok("resolved".to_string()));
    assert_eq!(finalize(Some("abandoned")).closing_status(), Ok("abandoned".to_string()));
}

#[test]
fn closing_status_refuses_unknown() {
    assert_eq!(
        finalize(Some("x")).closing_status(),
        Err("invalid status \"x\"".to_string())
    );
}

#[test]
fn validity_credit_weighs_status_and_coverage() {
    let h = vec![
        ("[\"a\",\"b\"]".to_string(), "validated".to_string()),
        ("[]".to_string(), "proposed".to_string()),
        ("bad".to_string(), "refuted".to_string()),
    ];
    assert_eq!(validity_credit(&h), 8);
    let h2 = vec![
        ("[\"a\"]".to_string(), "proposed".to_string()),
        ("[\"a\",\"b\",\"c\"]".to_string(), "inconclusive".to_string()),
    ];
    // An inconclusive hypothesis earns nothing, however well supported.
    assert_eq!(validity_credit(&h2), 2);
    assert_eq!(validity_credit(&Vec::new()), 0);
}

#[test]
fn phase_prompts_by_name() {
    assert_eq!(incident_phase_prompt("extract"), EXTRACT_PROMPT);
    assert_eq!(incident_phase_prompt("bogus"), DEFAULT_PROMPT);
}
