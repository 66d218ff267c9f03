use lucy::command_gate::{cscript_blocked_pattern, permission_verdict, reg_is_write, security_block};

#[test]
fn permission_actions() {
    assert_eq!(permission_verdict("allow", "ok"), Ok(()));
    assert_eq!(permission_verdict("block", "rule 3"), Err("Permiso denegado: rule 3".to_string()));
    assert_eq!(permission_verdict("ask", "rule 4"), Err("Comando requiere aprobación: rule 4.".to_string()));
    assert_eq!(permission_verdict("maybe", "x"), Err("Acción de permiso inválida: maybe".to_string()));
}

#[test]
fn block_message_carries_token_and_reason() {
    assert_eq!(security_block("abc", "reg write"), "SECURITY_BLOCK:abc:reg write");
}

#[test]
fn cscript_blocklist_in_any_case() {
    assert_eq!(
        cscript_blocked_pattern("Set o = CreateObject(\"WScript.Shell\")"),
        Some("wscript.shell".to_string())
    );
    assert_eq!(
        cscript_blocked_pattern("CreateObject(\"MSXML2.XMLHTTP\") and Shell.Application"),
        Some("shell.application".to_string())
    );
    assert_eq!(cscript_blocked_pattern("WScript.Echo \"hi\""), None);
}

#[test]
fn reg_reads_and_writes() {
    assert!(!reg_is_write("query HKLM\\Software"));
    assert!(!reg_is_write("  EXPORT HKCU\\x out.reg"));
    assert!(!reg_is_write("compare a b"));
    assert!(reg_is_write("add HKCU\\x /v y /d 1"));
    assert!(reg_is_write("delete HKCU\\x"));
    assert!(reg_is_write(""));
}
