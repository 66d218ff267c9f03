use lucy::file_ops::{alt_dir_key, backups_to_prune, check_raw_path, file_line_window, line_window, sort_listing, DirEntryInfo};

#[test]
fn verbatim_and_device_prefixes_are_refused() {
    let msg = "Path bloqueado: prefijos verbatim '\\\\?\\' o '\\\\.\\' no permitidos.".to_string();
    assert_eq!(check_raw_path(r"\\?\C:\Windows\System32"), Err(msg.clone()));
    assert_eq!(check_raw_path(r"\\.\PhysicalDrive0"), Err(msg));
}

#[test]
fn traversal_is_refused() {
    assert_eq!(
        check_raw_path(r"C:\Users\me\..\other"),
        Err("Path traversal bloqueado: '..' no permitido.".to_string())
    );
    assert_eq!(check_raw_path(r"C:\Users\me\file.txt"), Ok(()));
    assert_eq!(check_raw_path("src/main.rs"), Ok(()));
}

fn lines(v: &[&str]) -> Vec<String> {
    v.iter().map(|s| s.to_string()).collect()
}

#[test]
fn window_numbers_and_strips_line_ends() {
    let l = lines(&["one\n", "two\r\n", "three\n", ""]);
    assert_eq!(line_window(&l, 2, 2), "[Líneas 2-3 de 4]\n   2│ two\n   3│ three");
    assert_eq!(line_window(&l, 0, 1), "[Líneas 1-1 de 4]\n   1│ one");
}

#[test]
fn window_is_clipped_at_the_end() {
    let l = lines(&["a\n", "b"]);
    assert_eq!(line_window(&l, 2, 10), "[Líneas 2-2 de 2]\n   2│ b");
}

#[test]
fn window_past_the_end_says_so() {
    let l = lines(&["a\n", "b"]);
    assert_eq!(line_window(&l, 5, 3), "[Archivo tiene 2 líneas, rango solicitado 5 fuera de alcance]");
}

#[test]
fn wide_line_numbers_are_not_padded() {
    let l: Vec<String> = (0..12000).map(|i| format!("l{}\n", i)).collect();
    assert_eq!(line_window(&l, 10001, 1), "[Líneas 10001-10001 de 12000]\n10001│ l10000");
}

fn entry(name: &str, is_dir: bool) -> DirEntryInfo {
    DirEntryInfo { name: name.into(), is_dir, size: 0, modified: String::new() }
}

#[test]
fn listing_puts_directories_first_then_names() {
    let r = sort_listing(vec![
        entry("b.txt", false),
        entry("Zeta", true),
        entry("A.txt", false),
        entry("alpha", true),
    ]);
    let names: Vec<&str> = r.iter().map(|e| e.name.as_str()).collect();
    assert_eq!(names, vec!["alpha", "Zeta", "A.txt", "b.txt"]);
}

#[test]
fn listing_keeps_ties_in_reading_order() {
    let r = sort_listing(vec![entry("README", false), entry("readme", false), entry("Readme", false)]);
    let names: Vec<&str> = r.iter().map(|e| e.name.as_str()).collect();
    assert_eq!(names, vec!["README", "readme", "Readme"]);
}

#[test]
fn dir_keys_with_and_without_separator() {
    assert_eq!(alt_dir_key("C:\\proj\\", '\\'), "C:\\proj");
    assert_eq!(alt_dir_key("/home/me/", '/'), "/home/me");
    assert_eq!(alt_dir_key("C:\\proj", '\\'), "C:\\proj\\");
    assert_eq!(alt_dir_key("", '/'), "/");
}

#[test]
fn backups_keep_the_seven_newest() {
    let mut files: Vec<(String, u64)> = (1..=9).map(|d| (format!("lucy-auto-2024-01-0{}.db", d), d as u64)).collect();
    files.push(("lucy-auto-2024-01-01.db.sig".to_string(), 100));
    files.push(("other.db".to_string(), 0));
    assert_eq!(
        backups_to_prune(&files),
        vec!["lucy-auto-2024-01-02.db".to_string(), "lucy-auto-2024-01-01.db".to_string()]
    );
}

#[test]
fn few_backups_are_all_kept() {
    let files = vec![("lucy-auto-a.db".to_string(), 1), ("lucy-auto-b.db".to_string(), 2)];
    assert!(backups_to_prune(&files).is_empty());
}

#[test]
fn file_window_cuts_lines_as_a_rope() {
    let text = "one\ntwo\r\nthree\nfour";
    assert_eq!(file_line_window(text, 2, 2), "[Líneas 2-3 de 4]\n   2│ two\n   3│ three");
    // A final line break leaves an empty last line.
    assert_eq!(file_line_window("a\nb\n", 3, 5), "[Líneas 3-3 de 3]\n   3│ ");
    assert_eq!(file_line_window("a\n", 9, 1), "[Archivo tiene 2 líneas, rango solicitado 9 fuera de alcance]");
}
