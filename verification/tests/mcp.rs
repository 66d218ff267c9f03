use lucy::mcp::{check_server_name, command_from_split, filter_env, parse_command, pool_key, EnvMap, McpTestResult, PoolEntryInfo};

#[test]
fn quoted_path_with_spaces_stays_one_token() {
    let (cmd, args) = parse_command(r#""C:\Program Files\Node\node.exe" server.js"#, false);
    assert_eq!(cmd, r"C:\Program Files\Node\node.exe");
    assert_eq!(args, vec!["server.js"]);
}

#[test]
fn unquoted_npx_injects_dash_y() {
    let (cmd, args) = parse_command("npx some-mcp-package", false);
    assert!(cmd == "npx" || cmd == "npx.cmd");
    assert_eq!(args, vec!["-y", "some-mcp-package"]);
}

#[test]
fn empty_string_does_not_panic() {
    let (cmd, args) = parse_command("", false);
    assert!(cmd == "npx" || cmd == "npx.cmd", "got cmd={}", cmd);
    assert_eq!(args, vec!["-y"]);
}

#[test]
fn parse_command_npx_inserts_dash_y() {
    let (base, args) = parse_command("npx @scope/server arg1", false);
    assert_eq!(base, "npx");
    assert_eq!(args, vec!["-y", "@scope/server", "arg1"]);
}

#[test]
fn parse_command_npx_keeps_existing_dash_y() {
    let (_, args) = parse_command("npx -y @scope/server", false);
    assert_eq!(args.iter().filter(|a| *a == "-y").count(), 1);
}

#[test]
fn parse_command_non_npx_left_alone() {
    let (base, args) = parse_command("python -m my_server --port 9000", false);
    assert_eq!(base, "python");
    assert_eq!(args, vec!["-m", "my_server", "--port", "9000"]);
}

#[test]
fn npx_becomes_npx_cmd_on_windows() {
    let (base, args) = parse_command("npx pkg", true);
    assert_eq!(base, "npx.cmd");
    assert_eq!(args, vec!["-y", "pkg"]);
}

#[test]
fn broken_quoting_falls_back_to_whitespace_words() {
    let (base, args) = parse_command("python \"unterminated arg", false);
    assert_eq!(base, "python");
    assert_eq!(args, vec!["\"unterminated", "arg"]);
    let (base, args) = command_from_split("a b", None, false);
    assert_eq!(base, "a");
    assert_eq!(args, vec!["b"]);
}

#[test]
fn pool_key_is_deterministic_across_env_iter_order() {
    let mut a = EnvMap::new();
    a.insert("FOO".to_string(), "1".to_string());
    a.insert("BAR".to_string(), "2".to_string());
    let mut b = EnvMap::new();
    b.insert("BAR".to_string(), "2".to_string());
    b.insert("FOO".to_string(), "1".to_string());
    let ka = pool_key("github", "npx -y x", &Some(a));
    let kb = pool_key("github", "npx -y x", &Some(b));
    assert_eq!(ka, kb, "same env, different insertion order → same key");
}

#[test]
fn pool_key_differs_when_env_values_differ() {
    let mut a = EnvMap::new();
    a.insert("TOKEN".to_string(), "aaa".to_string());
    let mut b = EnvMap::new();
    b.insert("TOKEN".to_string(), "bbb".to_string());
    let ka = pool_key("x", "cmd", &Some(a));
    let kb = pool_key("x", "cmd", &Some(b));
    assert_ne!(ka, kb, "different secret → must NOT share a session");
}

#[test]
fn pool_key_differs_per_server_name() {
    let ka = pool_key("github", "cmd", &None);
    let kb = pool_key("filesystem", "cmd", &None);
    assert_ne!(ka, kb);
}

#[test]
fn pool_key_differs_per_command() {
    let ka = pool_key("x", "cmd-A", &None);
    let kb = pool_key("x", "cmd-B", &None);
    assert_ne!(ka, kb);
}

#[test]
fn pool_key_no_env_is_stable() {
    let k1 = pool_key("a", "b", &None);
    let k2 = pool_key("a", "b", &None);
    assert_eq!(k1, k2);
}

#[test]
fn pool_key_never_spells_out_values() {
    let mut a = EnvMap::new();
    a.insert("TOKEN".to_string(), "ghp_secret_value".to_string());
    let k = pool_key("srv", "cmd", &Some(a));
    assert!(k.starts_with("srv::cmd::"));
    assert!(!k.contains("ghp_secret_value"));
    assert!(k["srv::cmd::".len()..].chars().all(|c| c.is_ascii_hexdigit()));
}

#[test]
fn filter_env_subset_works() {
    let mut bag = EnvMap::new();
    bag.insert("GITHUB_TOKEN".into(), "ghp_aaa".into());
    bag.insert("SLACK_TOKEN".into(), "xoxb_bbb".into());
    bag.insert("UNRELATED".into(), "noise".into());
    let wanted = vec!["GITHUB_TOKEN".to_string()];
    let filtered = filter_env(&wanted, Some(bag)).expect("some");
    assert_eq!(filtered.len(), 1);
    assert!(filtered.contains_key("GITHUB_TOKEN"));
}

#[test]
fn filter_env_no_keys_returns_none() {
    let mut bag = EnvMap::new();
    bag.insert("X".into(), "Y".into());
    assert!(filter_env(&[], Some(bag)).is_none());
}

#[test]
fn filter_env_no_matches_returns_none() {
    let mut bag = EnvMap::new();
    bag.insert("X".into(), "Y".into());
    let wanted = vec!["NOT_THERE".to_string()];
    assert!(filter_env(&wanted, Some(bag)).is_none());
}

#[test]
fn filter_env_without_bag_is_none() {
    let wanted = vec!["X".to_string()];
    assert!(filter_env(&wanted, None).is_none());
}

#[test]
fn env_insert_replaces_value() {
    let mut m = EnvMap::new();
    m.insert("A".into(), "1".into());
    m.insert("A".into(), "2".into());
    assert_eq!(m.len(), 1);
    assert_eq!(m.to_pairs(), vec![("A".to_string(), "2".to_string())]);
    assert!(!m.contains_key("B"));
}

#[test]
fn server_name_gate_rejects_raw_commands() {
    assert!(check_server_name("github").is_ok());
    let e = check_server_name("powershell -c rm").unwrap_err();
    assert_eq!(e, "MCP server 'powershell -c rm' rejected: not a registered name. Register it via the MCP Servers panel first.");
    assert!(check_server_name("").is_err());
    assert!(check_server_name("a/b").is_err());
    assert!(check_server_name("a\\b").is_err());
    assert!(check_server_name(&"x".repeat(129)).is_err());
    assert!(check_server_name(&"x".repeat(128)).is_ok());
    let long = check_server_name(&format!("{} y", "x".repeat(70))).unwrap_err();
    assert!(long.starts_with(&format!("MCP server '{}'", "x".repeat(60))));
}

#[test]
fn pool_entry_and_test_result_reports() {
    let e = PoolEntryInfo::observe("srv".to_string(), 1_000, 62_999, 7);
    assert_eq!(e.idle_secs, 61);
    assert_eq!(e.next_req_id, 7);
    assert_eq!(PoolEntryInfo::observe("s".to_string(), 5_000, 1_000, 1).idle_secs, 0);
    let ok = McpTestResult::from_outcome(Ok(4), 12);
    assert!(ok.ok && ok.tools_count == 4 && ok.error.is_none() && ok.latency_ms == 12);
    let bad = McpTestResult::from_outcome(Err("boom".to_string()), 3);
    assert!(!bad.ok && bad.tools_count == 0 && bad.error.as_deref() == Some("boom"));
}
