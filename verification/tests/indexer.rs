use lucy::indexer::{is_excluded_index_dir, keep_index_entry, locate_query, locate_report};

#[test]
fn excludes_the_noise_trees_we_actually_found() {
    for d in ["Program Files", "Program Files (x86)", "Windows", "ProgramData",
              "$Recycle.Bin", "node_modules", "AppData", ".git", "target",
              "OneDriveTemp", "System Volume Information",
              ".rustup", ".cargo", ".dotnet", ".m2", ".vscode"] {
        assert!(is_excluded_index_dir(d), "should exclude {d}");
    }
}

#[test]
fn exclusion_is_case_insensitive() {
    assert!(is_excluded_index_dir("PROGRAM FILES"));
    assert!(is_excluded_index_dir("Node_Modules"));
    assert!(is_excluded_index_dir(".GIT"));
}

#[test]
fn keeps_real_user_directories() {
    for d in ["Documents", "Rust_Projects", "src", "lucy-svelte",
              "windows-tools", "my-target-app", "git-repos", "appdata-viewer"] {
        assert!(!is_excluded_index_dir(d), "should NOT exclude {d}");
    }
}

#[test]
fn root_is_never_pruned_and_files_always_pass() {
    assert!(keep_index_entry(0, true, "node_modules"));
    assert!(!keep_index_entry(1, true, "node_modules"));
    assert!(keep_index_entry(3, false, "node_modules"));
    assert!(keep_index_entry(2, true, "src"));
}

#[test]
fn locate_query_strips_quotes() {
    assert_eq!(locate_query("report.pdf"), "\"report.pdf\"");
    assert_eq!(locate_query("a\"b\"c"), "\"abc\"");
}

#[test]
fn locate_report_lists_paths() {
    assert_eq!(
        locate_report("x.txt", 12, &Vec::new()),
        "[No se encontró ningún archivo conteniendo 'x.txt' en el índice de disco (12 ms)]"
    );
    let found = vec!["C:\\a\\x.txt".to_string(), "D:\\x.txt".to_string()];
    assert_eq!(
        locate_report("x.txt", 3, &found),
        "--- RESULTADO DE LOCATE (3 ms, 2 archivos) ---\nC:\\a\\x.txt\nD:\\x.txt"
    );
}
