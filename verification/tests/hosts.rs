use lucy::hosts::{validate_host, validate_password, validate_remote_path, validate_username};

#[test]
fn host_accepts_ips_and_dns_names() {
    assert!(validate_host("192.168.1.10").is_ok());
    assert!(validate_host("prod-web_01.example.com").is_ok());
    assert!(validate_host("[fe80::1]").is_ok());
}

#[test]
fn host_rejects_empty_and_long() {
    assert_eq!(validate_host("").unwrap_err(), "Host inválido: vacío o demasiado largo.");
    assert!(validate_host(&"a".repeat(253)).is_ok());
    assert!(validate_host(&"a".repeat(254)).is_err());
}

#[test]
fn host_rejects_leading_dash() {
    assert_eq!(
        validate_host("-oProxyCommand=evil").unwrap_err(),
        "Host inválido '-oProxyCommand=evil': no puede comenzar con '-' (riesgo de argv-injection)."
    );
}

#[test]
fn host_rejects_metacharacters_and_unicode() {
    assert_eq!(
        validate_host("a;b").unwrap_err(),
        "Host inválido 'a;b': solo se permiten IPs y nombres DNS ASCII (sin caracteres especiales o Unicode)."
    );
    assert!(validate_host("host\u{ff07}x").is_err());
    assert!(validate_host("a b").is_err());
}

#[test]
fn password_length_cap_in_bytes() {
    assert!(validate_password("").is_ok());
    assert!(validate_password(&"x".repeat(256)).is_ok());
    assert_eq!(
        validate_password(&"x".repeat(257)).unwrap_err(),
        "Password inválido: excede 256 caracteres (límite de seguridad)."
    );
    // 129 two-byte characters are 258 bytes
    assert!(validate_password(&"ñ".repeat(129)).is_err());
}

#[test]
fn username_rules() {
    assert!(validate_username("DOMAIN\\admin").is_ok());
    assert!(validate_username("user@corp.local").is_ok());
    assert_eq!(validate_username("").unwrap_err(), "Username inválido: vacío o demasiado largo.");
    assert!(validate_username(&"u".repeat(129)).is_err());
    assert_eq!(
        validate_username("-x").unwrap_err(),
        "Username inválido '-x': no puede comenzar con '-' (riesgo de argv-injection)."
    );
    assert_eq!(
        validate_username("a b").unwrap_err(),
        "Username inválido 'a b': solo se permiten caracteres ASCII alfanuméricos, '.', '-', '_', '\\\\', '@'."
    );
}

#[test]
fn remote_path_rules() {
    assert!(validate_remote_path("/var/log/año.txt").is_ok());
    assert!(validate_remote_path("C:\\Logs\\東京.log").is_ok());
    assert_eq!(validate_remote_path("").unwrap_err(), "Ruta vacía");
    assert_eq!(validate_remote_path(&"a".repeat(4097)).unwrap_err(), "Ruta demasiado larga (>4096)");
    assert_eq!(
        validate_remote_path("/etc/../shadow").unwrap_err(),
        "Ruta inválida: '..' no permitido (path traversal)"
    );
    assert_eq!(validate_remote_path("/a\0b").unwrap_err(), "Ruta inválida: contiene byte nulo");
    assert_eq!(
        validate_remote_path("/tmp/x;rm").unwrap_err(),
        "Ruta inválida: contiene carácter prohibido ';' (shell metacharacter o control byte)"
    );
    assert_eq!(
        validate_remote_path("/tmp/a\tb").unwrap_err(),
        "Ruta inválida: contiene carácter prohibido '\\t' (shell metacharacter o control byte)"
    );
    assert_eq!(
        validate_remote_path("/tmp/a'b").unwrap_err(),
        "Ruta inválida: contiene carácter prohibido '\\'' (shell metacharacter o control byte)"
    );
    assert_eq!(
        validate_remote_path("/tmp/a\u{1}b").unwrap_err(),
        "Ruta inválida: contiene carácter prohibido '\\u{1}' (shell metacharacter o control byte)"
    );
}
