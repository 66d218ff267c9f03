use lucy::file_search::{
    extension_wanted, glob_extensions, matching_lines, search_limit, search_matcher, search_patterns, search_report,
    skip_search_dir,
};

fn strs(v: &[&str]) -> Vec<String> {
    v.iter().map(|s| s.to_string()).collect()
}

#[test]
fn patterns_split_on_bars() {
    assert_eq!(search_patterns(" TODO | fixme ||  "), Ok(strs(&["TODO", "fixme"])));
    assert_eq!(search_patterns(" | "), Err("No se proporcionó un patrón válido.".to_string()));
    assert_eq!(search_patterns(""), Err("No se proporcionó un patrón válido.".to_string()));
}

#[test]
fn glob_entries_lose_stars_and_dots() {
    assert_eq!(glob_extensions("*.rs, .TOML,md,  ,*"), strs(&["rs", "toml", "md"]));
    assert_eq!(glob_extensions(""), Vec::<String>::new());
}

#[test]
fn extension_filter() {
    let exts = Some(strs(&["rs", "toml"]));
    assert!(extension_wanted(&exts, "rs"));
    assert!(!extension_wanted(&exts, "md"));
    assert!(extension_wanted(&None, "anything"));
}

#[test]
fn limit_defaults_and_caps() {
    assert_eq!(search_limit(None), 100);
    assert_eq!(search_limit(Some(5)), 5);
    assert_eq!(search_limit(Some(5000)), 200);
}

#[test]
fn skipped_directories() {
    assert!(skip_search_dir(".git"));
    assert!(skip_search_dir("node_modules"));
    assert!(skip_search_dir("target"));
    assert!(skip_search_dir("build"));
    assert!(skip_search_dir("dist"));
    assert!(!skip_search_dir("src"));
    assert!(!skip_search_dir("Build"));
}

#[test]
fn matching_lines_ignore_ascii_case() {
    let ac = search_matcher(&strs(&["todo", "FIXME"])).unwrap();
    let content = "fn a() {}\n// TODO: later\r\nlet x = 1; // fixme\nnone\n";
    assert_eq!(
        matching_lines(&ac, "src/a.rs", content, 10),
        strs(&["src/a.rs:2| // TODO: later", "src/a.rs:3| let x = 1; // fixme"])
    );
    assert_eq!(matching_lines(&ac, "src/a.rs", content, 1), strs(&["src/a.rs:2| // TODO: later"]));
    assert_eq!(matching_lines(&ac, "src/a.rs", content, 0), Vec::<String>::new());
}

#[test]
fn long_matching_lines_are_cut_at_200_bytes() {
    let ac = search_matcher(&strs(&["x"])).unwrap();
    let line = format!("x{}", "é".repeat(150));
    let hits = matching_lines(&ac, "f", &line, 10);
    assert_eq!(hits.len(), 1);
    // "x" and 99 two-byte characters fit in 200 bytes.
    assert_eq!(hits[0], format!("f:1| x{}", "é".repeat(99)));
}

#[test]
fn reports() {
    assert_eq!(search_report("foo", "C:\\src", &Vec::new()), "[Sin coincidencias para \"foo\" en C:\\src]");
    assert_eq!(
        search_report("foo", "C:\\src", &strs(&["a.rs:1| foo", "b.rs:9| foo()"])),
        "[2 coincidencias para \"foo\"]\na.rs:1| foo\nb.rs:9| foo()"
    );
}
