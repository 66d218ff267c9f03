use lucy::knowledge_graph::{KgIndexBatchResult, KgIndexResult};
use lucy::knowledge_graph::{
    co_touched_edges, ext_of, index_since, retention_excess, should_skip_dir, should_skip_ext,
};

#[test]
fn skip_dirs_blocks_node_modules() {
    assert!(should_skip_dir("node_modules"));
    assert!(should_skip_dir(".git"));
    assert!(should_skip_dir("target"));
    assert!(should_skip_dir(".vscode"));
}

#[test]
fn skip_dirs_allows_normal_dirs() {
    assert!(!should_skip_dir("src"));
    assert!(!should_skip_dir("docs"));
    assert!(!should_skip_dir("my-project"));
}

#[test]
fn skip_exts_filters_noise() {
    assert!(should_skip_ext("tmp"));
    assert!(should_skip_ext("log"));
    assert!(should_skip_ext("pyc"));
    assert!(!should_skip_ext("rs"));
    assert!(!should_skip_ext("ts"));
    assert!(!should_skip_ext("md"));
}

#[test]
fn ext_of_handles_no_extension() {
    assert_eq!(ext_of("/some/Makefile"), "");
}

#[test]
fn ext_of_lowercases() {
    assert_eq!(ext_of("/some/File.RS"), "rs");
}

#[test]
fn ext_of_follows_path_extension_rules() {
    assert_eq!(ext_of("C:\\proj\\src\\Main.Test.TS"), "ts");
    assert_eq!(ext_of("/home/u/.bashrc"), "");
    assert_eq!(ext_of("/home/u/archive."), "");
    assert_eq!(ext_of("/a/b.txt/"), "txt");
    assert_eq!(ext_of("/a/b.txt/."), "txt");
    assert_eq!(ext_of("/a/.."), "");
    assert_eq!(ext_of(""), "");
}

#[test]
fn co_touched_edges_pair_files_within_window() {
    let touched = vec![
        ("/p/b.rs".to_string(), 1000),
        ("/p/a.rs".to_string(), 1200),
        ("/p/c.rs".to_string(), 5000),
        ("/p/b.rs".to_string(), 1001),
    ];
    let edges = co_touched_edges(&touched);
    assert_eq!(
        edges,
        vec![
            ("/p/a.rs".to_string(), "/p/b.rs".to_string()),
            ("/p/a.rs".to_string(), "/p/b.rs".to_string()),
        ]
    );
}

#[test]
fn co_touched_edges_window_is_inclusive() {
    let touched = vec![("x".to_string(), 0), ("y".to_string(), 300), ("z".to_string(), 601)];
    assert_eq!(co_touched_edges(&touched), vec![("x".to_string(), "y".to_string())]);
}

#[test]
fn index_since_defaults_and_clamps() {
    assert_eq!(index_since(1_000_000, None), 1_000_000 - 1440 * 60);
    assert_eq!(index_since(1_000_000, Some(0)), 1_000_000 - 60);
    assert_eq!(index_since(10_000_000, Some(1_000_000)), 10_000_000 - 43200 * 60);
    assert_eq!(index_since(1_000_000, Some(30)), 1_000_000 - 1800);
}

#[test]
fn retention_drops_a_tenth_over_cap() {
    assert_eq!(retention_excess(50_000, 50_000), 0);
    assert_eq!(retention_excess(60_000, 50_000), 6_000);
    assert_eq!(retention_excess(200_001, 200_000), 20_000);
}

#[test]
fn batch_totals_add_up() {
    let r = |root: &str, s: usize, rec: usize, e: usize| KgIndexResult {
        root: root.to_string(), files_scanned: s, files_recorded: rec, edges_added: e, elapsed_ms: 1,
    };
    let b = KgIndexBatchResult::from_roots(vec![r("a", 10, 3, 2), r("b", 5, 5, 7)]);
    assert_eq!(b.roots.len(), 2);
    assert_eq!((b.total_files_scanned, b.total_files_recorded, b.total_edges), (15, 8, 9));
    let e = KgIndexBatchResult::from_roots(vec![]);
    assert_eq!((e.total_files_scanned, e.total_files_recorded, e.total_edges), (0, 0, 0));
}
