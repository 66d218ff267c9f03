use lucy::grounding::{evidence_target, instance_target, parse_i64_str};

#[test]
fn i64_parsing_follows_std() {
    for s in ["0", "-0", "+7", "42", "-42", "9223372036854775807", "-9223372036854775808", "", "-", "+", "-+1", "1a", " 1", "9223372036854775808"] {
        assert_eq!(parse_i64_str(s), s.parse::<i64>().ok(), "{}", s);
    }
}

#[test]
fn evidence_kind_and_memory_kind_are_checked() {
    assert_eq!(
        evidence_target("agent", "1", "maybe", ""),
        Err("invalid kind 'maybe', expected 'support' or 'contradict'".to_string())
    );
    assert_eq!(
        evidence_target("other", "1", "support", ""),
        Err("invalid memory_kind 'other', expected 'agent' or 'core'".to_string())
    );
    assert_eq!(
        evidence_target("agent", "x1", "support", ""),
        Err("agent memory_id 'x1' is not an integer".to_string())
    );
}

#[test]
fn evidence_targets() {
    assert_eq!(evidence_target("agent", "17", "support", "chat:9"), Ok((17, "chat:9".to_string())));
    assert_eq!(evidence_target("core", "pref.lang", "contradict", ""), Ok((0, "pref.lang".to_string())));
    assert_eq!(evidence_target("core", "pref.lang", "support", "doc:1"), Ok((0, "doc:1".to_string())));
}

#[test]
fn instance_targets() {
    assert_eq!(instance_target("agent", "-3"), Ok((Some(-3), None)));
    assert_eq!(instance_target("core", "id.x"), Ok((None, Some("id.x".to_string()))));
    assert_eq!(instance_target("nope", "1"), Err("invalid memory_kind 'nope'".to_string()));
    assert_eq!(instance_target("agent", "1.5"), Err("agent memory_id '1.5' is not an integer".to_string()));
}
