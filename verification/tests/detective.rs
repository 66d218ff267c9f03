use lucy::detective::{cluster_summary, detective_window, threat_scan_minutes};

#[test]
fn window_defaults_and_clamps() {
    assert_eq!(detective_window(None), 300);
    assert_eq!(detective_window(Some(5)), 30);
    assert_eq!(detective_window(Some(100_000)), 7200);
    assert_eq!(detective_window(Some(600)), 600);
    assert_eq!(detective_window(Some(-4)), 30);
}

#[test]
fn scan_looks_back_twice_the_window() {
    assert_eq!(threat_scan_minutes(300), 10);
    assert_eq!(threat_scan_minutes(30), 5);
    assert_eq!(threat_scan_minutes(7200), 240);
}

fn f(dir: &str, ext: &str) -> (String, String) {
    (dir.to_string(), ext.to_string())
}

#[test]
fn summary_of_no_files() {
    assert_eq!(cluster_summary(&vec![]), "no indexed file changes in window");
}

#[test]
fn summary_names_top_dir_and_extension() {
    let files = vec![f("/a", "rs"), f("/b", "rs"), f("/a", "toml")];
    assert_eq!(cluster_summary(&files), "3 files, top dir: /a (2×) · mostly .rs (2×)");
}

#[test]
fn summary_without_extension_part() {
    assert_eq!(cluster_summary(&vec![f("/a", ""), f("/a", "")]), "2 files, top dir: /a (2×)");
}
