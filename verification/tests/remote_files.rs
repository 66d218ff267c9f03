use base64::Engine;
use lucy::remote_files::{
    check_write_size, read_remote_reply, remote_read_command, remote_write_command, write_remote_reply,
};

#[test]
fn linux_read_command() {
    assert_eq!(
        remote_read_command("/etc/app.conf", true),
        "if [ ! -e '/etc/app.conf' ]; then echo '__LUCY_ERROR__:not_found'; exit 0; fi; \
         if [ ! -f '/etc/app.conf' ]; then echo '__LUCY_ERROR__:not_a_file'; exit 0; fi; \
         if [ ! -r '/etc/app.conf' ]; then echo '__LUCY_ERROR__:permission_denied'; exit 0; fi; \
         base64 -w 0 '/etc/app.conf' 2>/dev/null | head -c 4194304"
    );
}

#[test]
fn windows_read_command_doubles_quotes() {
    let cmd = remote_read_command("C:\\it's\\a.txt", false);
    assert!(cmd.starts_with("if (-not (Test-Path -LiteralPath 'C:\\it''s\\a.txt')) { Write-Output '__LUCY_ERROR__:not_found'; }"));
    assert!(cmd.ends_with("catch { Write-Output ('__LUCY_ERROR__:' + ($_.Exception.GetType().Name)) } }"));
}

#[test]
fn linux_write_command_with_backup() {
    assert_eq!(
        remote_write_command("/tmp/a", "hello", true, true),
        "[ -f '/tmp/a' ] && cp -p '/tmp/a' '/tmp/a.lucy.bak' 2>/dev/null; printf '%s' 'aGVsbG8=' | base64 -d > '/tmp/a' && echo 'OK:5'"
    );
    assert_eq!(
        remote_write_command("/tmp/a", "hi", true, false),
        "printf '%s' 'aGk=' | base64 -d > '/tmp/a' && echo 'OK:2'"
    );
}

#[test]
fn windows_write_command() {
    assert_eq!(
        remote_write_command("C:\\a.txt", "año", false, true),
        "if (Test-Path 'C:\\a.txt') { Copy-Item 'C:\\a.txt' 'C:\\a.txt.lucy.bak' -Force }; \
         $bytes = [Convert]::FromBase64String('YcOxbw=='); [System.IO.File]::WriteAllBytes('C:\\a.txt', $bytes); Write-Output 'OK:4'"
    );
}

#[test]
fn read_reply_decodes_base64() {
    assert_eq!(read_remote_reply("/p", "  aGVs\r\nbG8=\n"), Ok("hello".to_string()));
    assert_eq!(read_remote_reply("/p", ""), Ok(String::new()));
}

#[test]
fn read_reply_reports_categorised_failures() {
    assert_eq!(read_remote_reply("/p", "__LUCY_ERROR__:not_found\n"), Err("Archivo no encontrado: /p".to_string()));
    assert_eq!(
        read_remote_reply("/p", "__LUCY_ERROR__:not_a_file"),
        Err("La ruta existe pero no es un archivo regular: /p".to_string())
    );
    assert_eq!(read_remote_reply("/p", "__LUCY_ERROR__:permission_denied"), Err("Permiso denegado al leer: /p".to_string()));
    assert_eq!(
        read_remote_reply("C:\\p", "__LUCY_ERROR__:IOException"),
        Err("Error remoto al leer 'C:\\p': IOException".to_string())
    );
}

#[test]
fn read_reply_rejects_bad_base64_and_binary() {
    let e = read_remote_reply("/p", "!!!").unwrap_err();
    assert!(e.starts_with("Error decodificando base64 desde host: "));
    assert!(e.ends_with(" (¿el archivo es binario o el remoto truncó la salida?)"));
    assert_eq!(
        read_remote_reply("/p", "/w=="),
        Err("El archivo contiene bytes no-UTF8 — solo se admiten archivos de texto para edición".to_string())
    );
}

#[test]
fn read_reply_rejects_over_one_megabyte() {
    let big = vec![b'a'; 1_048_577];
    let text = base64::engine::general_purpose::STANDARD.encode(&big);
    assert_eq!(
        read_remote_reply("/p", &text),
        Err("Archivo demasiado grande (1048577 bytes, máx 1 MB para edición remota)".to_string())
    );
}

#[test]
fn written_content_reads_back() {
    let content = "línea 1\nlínea 2 — ñ\n";
    let cmd = remote_write_command("/tmp/f", content, true, false);
    let b64 = cmd.split('\'').nth(3).unwrap();
    assert_eq!(read_remote_reply("/tmp/f", b64), Ok(content.to_string()));
}

#[test]
fn write_size_limit() {
    assert_eq!(check_write_size("abc"), Ok(()));
    let big = "x".repeat(1_048_577);
    assert_eq!(check_write_size(&big), Err("Contenido demasiado grande (1048577 bytes, máx 1 MB)".to_string()));
}

#[test]
fn write_reply_needs_ok_marker() {
    assert_eq!(write_remote_reply("/tmp/a", "hello", "OK:5\n", true), Ok("5 bytes escritos. Backup: /tmp/a.lucy.bak".to_string()));
    assert_eq!(write_remote_reply("/tmp/a", "hello", "OK:5", false), Ok("5 bytes escritos.".to_string()));
    assert_eq!(
        write_remote_reply("/tmp/a", "hello", "  permission denied \n", true),
        Err("Error escribiendo archivo remoto: permission denied".to_string())
    );
}
