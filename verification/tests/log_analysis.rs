use lucy::log_analysis::{
    analyze_lines, analyze_log_patterns, build_timeline, detect_format, detect_level_from_text, is_known_level,
    normalize_pattern, parse_generic_line, parse_json_line, parse_line, parse_plain_line, parse_syslog_line, ParsedLine,
};

fn lines(v: &[&str]) -> Vec<String> {
    v.iter().map(|s| s.to_string()).collect()
}

#[test]
fn level_keywords() {
    assert_eq!(detect_level_from_text("kernel panic happened"), "CRITICAL");
    assert_eq!(detect_level_from_text("connection failed"), "ERROR");
    assert_eq!(detect_level_from_text("Warning: disk"), "WARNING");
    assert_eq!(detect_level_from_text("trace id"), "DEBUG");
    assert_eq!(detect_level_from_text("info only"), "INFO");
    assert_eq!(detect_level_from_text("nothing here"), "");
    assert!(is_known_level("NOTICE"));
    assert!(!is_known_level("notice"));
}

#[test]
fn formats_are_detected() {
    assert_eq!(detect_format(&lines(&["{\"level\":\"info\",\"msg\":\"a\"}", "{\"level\":\"error\"}"])), "json");
    assert_eq!(detect_format(&lines(&["May 18 12:34:56 host sshd[1]: ok", "May 18 12:34:57 host cron: run"])), "syslog");
    assert_eq!(detect_format(&lines(&["2026-05-18T12:34:56Z [ERROR] x", "2026-05-18 12:35:00 INFO y"])), "generic");
    assert_eq!(detect_format(&lines(&["<Event xmlns=\"x\">", "plain"])), "event_xml");
    assert_eq!(detect_format(&lines(&["", "   "])), "plain");
    assert_eq!(detect_format(&lines(&["hello", "world"])), "plain");
}

#[test]
fn syslog_line_fields() {
    let p = parse_syslog_line("May 18 12:34:56 host sshd[123]: Failed password for root");
    assert_eq!(p.timestamp, "May 18 12:34:56");
    assert_eq!(p.source, "sshd");
    assert_eq!(p.message, "Failed password for root");
    assert_eq!(p.level, "ERROR");
}

#[test]
fn generic_line_fields() {
    let p = parse_generic_line("2026-05-18T12:34:56.789Z [ERROR] db: connection lost");
    assert_eq!(p.timestamp, "2026-05-18T12:34:56.789Z");
    assert_eq!(p.level, "ERROR");
    assert_eq!(p.source, "db");
    assert_eq!(p.message, "connection lost");
    let q = parse_generic_line("[warn] low disk");
    assert_eq!(q.level, "WARN");
    assert_eq!(q.message, "low disk");
    assert_eq!(q.timestamp, "");
    let r = parse_generic_line("2026-05-18 12:34:56 FOO something: with spaces here: x");
    assert_eq!(r.level, "");
    assert_eq!(r.source, "something");
    assert_eq!(r.message, "with spaces here: x");
    let q = parse_generic_line("2026-05-18 12:34:56 ERROR a b: c");
    assert_eq!(q.level, "ERROR");
    assert_eq!(q.source, "");
    assert_eq!(q.message, "a b: c");
}

#[test]
fn json_line_fields() {
    let p = parse_json_line("{\"ts\":\"2026-01-01T00:00:00\",\"severity\":\"warn\",\"logger\":\"api\",\"msg\":\"slow\"}");
    assert_eq!(p.timestamp, "2026-01-01T00:00:00");
    assert_eq!(p.level, "WARN");
    assert_eq!(p.source, "api");
    assert_eq!(p.message, "slow");
    // The first present key wins, even when it is not a string.
    let q = parse_json_line("{\"timestamp\":5,\"time\":\"x\"}");
    assert_eq!(q.timestamp, "");
    assert_eq!(q.message, "{\"timestamp\":5,\"time\":\"x\"}");
    let r = parse_json_line("not json error");
    assert_eq!(r.level, "ERROR");
    assert_eq!(parse_line("x", "plain").message, parse_plain_line("x").message);
}

#[test]
fn patterns_hide_variable_parts() {
    assert_eq!(
        normalize_pattern("conn 10.0.0.12 failed after 1500 ms for 123e4567-e89b-12d3-a456-426614174000"),
        "conn <IP> failed after <N> ms for <UUID>"
    );
    assert_eq!(normalize_pattern("  open /var/log/app.log   denied "), "open <PATH> denied");
    assert_eq!(normalize_pattern("at 0xdeadbeef"), "at <HEX>");
    let long = "x".repeat(300);
    let p = normalize_pattern(&long);
    assert_eq!(p, format!("{}…", "x".repeat(199)));
}

fn pl(ts: &str, level: &str) -> ParsedLine {
    ParsedLine { timestamp: ts.into(), level: level.into(), source: String::new(), message: String::new(), raw: String::new() }
}

#[test]
fn timeline_buckets_sorted() {
    let ps = vec![
        pl("2026-05-18T13:05:00", "ERROR"),
        pl("2026-05-18T12:59:00", "WARN"),
        pl("2026-05-18T12:10:00", "INFO"),
        pl("", "ERROR"),
        pl("short", "FATAL"),
    ];
    let t = build_timeline(&ps, 60);
    let keys: Vec<&str> = t.iter().map(|b| b.timestamp.as_str()).collect();
    assert_eq!(keys, vec!["2026-05-18T12", "2026-05-18T13", "short"]);
    assert_eq!((t[0].error_count, t[0].warning_count, t[0].total_count), (0, 1, 2));
    assert_eq!((t[1].error_count, t[1].total_count), (1, 1));
    let m = build_timeline(&ps, 15);
    let keys: Vec<&str> = m.iter().map(|b| b.timestamp.as_str()).collect();
    assert_eq!(keys, vec!["2026-05-18T12:00", "2026-05-18T12:45", "2026-05-18T13:00", "short"]);
}

#[test]
fn analysis_end_to_end() {
    let ls = lines(&[
        "2026-05-18T12:00:01Z [ERROR] db: timeout after 30 s",
        "2026-05-18T12:00:05Z [ERROR] db: timeout after 45 s",
        "2026-05-18T12:10:00Z [INFO] web: ok",
        "",
        "2026-05-18T13:00:00Z [WARN] web: slow 250 ms",
    ]);
    let a = analyze_lines(&ls, 60).unwrap();
    assert_eq!(a.total_lines, 5);
    assert_eq!(a.parsed_lines, 4);
    assert_eq!(a.format_detected, "generic");
    assert_eq!(a.levels, vec![("ERROR".to_string(), 2), ("INFO".to_string(), 1), ("WARN".to_string(), 1)]);
    assert_eq!(a.top_sources, vec![("db".to_string(), 2), ("web".to_string(), 2)]);
    assert_eq!(a.error_clusters.len(), 2);
    assert_eq!(a.error_clusters[0].pattern, "timeout after <N> s");
    assert_eq!(a.error_clusters[0].count, 2);
    assert_eq!(a.error_clusters[0].first_seen, "2026-05-18T12:00:01Z");
    assert_eq!(a.error_clusters[0].last_seen, "2026-05-18T12:00:05Z");
    assert_eq!(a.timeline.len(), 2);
    let e = analyze_log_patterns(&Vec::new(), None).unwrap();
    assert_eq!(e.format_detected, "empty");
    // A JSON timestamp that cannot be cut at byte 13 is refused, not a panic.
    let bad = lines(&["{\"ts\":\"2026-05-18T1é:00:00\",\"level\":\"error\"}"]);
    assert!(analyze_lines(&bad, 60).is_none());
}

#[test]
fn counts_cover_the_parsed_lines() {
    let ls = lines(&[
        "2026-05-18T12:00:01Z [ERROR] db: timeout after 30 s",
        "2026-05-18T12:00:05Z [ERROR] db: timeout after 45 s",
        "2026-05-18T12:10:00Z [INFO] web: ok",
        "",
        "2026-05-18T13:00:00Z [WARN] web: slow 250 ms",
        "nothing to see here",
    ]);
    let a = analyze_lines(&ls, 60).unwrap();
    let level_sum: usize = a.levels.iter().map(|(_, n)| *n).sum();
    let timeline_sum: usize = a.timeline.iter().map(|b| b.total_count).sum();
    let parsed: Vec<ParsedLine> =
        ls.iter().filter(|l| !l.trim().is_empty()).map(|l| parse_line(l, &a.format_detected)).collect();
    let with_level = parsed.iter().filter(|p| !p.level.is_empty()).count();
    let with_ts = parsed.iter().filter(|p| !p.timestamp.is_empty()).count();
    assert_eq!(level_sum, with_level);
    assert_eq!(timeline_sum, with_ts);
    assert!(level_sum <= a.parsed_lines);
    assert_eq!(timeline_sum, 4);
    assert_eq!(a.timeline[0].total_count, 3);
    assert_eq!(a.timeline[1].total_count, 1);
}
