use lucy::file_diff::{
    compute_text_diff, edit_report, edit_report_from_diff, plan_edit, render_changes, render_line_diff, MAX_LINES,
};

#[test]
fn identical_inputs_return_no_changes() {
    let d = compute_text_diff("hello".into(), "hello".into()).unwrap();
    assert_eq!(d.text, "(no changes)");
    assert_eq!(d.additions + d.deletions, 0);
}

#[test]
fn empty_old_returns_all_additions() {
    let d = compute_text_diff("".into(), "alpha\nbeta\n".into()).unwrap();
    assert!(d.text.contains("+ alpha"));
    assert!(d.text.contains("+ beta"));
    assert_eq!(d.additions, 2);
    assert_eq!(d.deletions, 0);
    assert!(!d.truncated);
}

#[test]
fn one_line_changed_produces_minimal_diff() {
    let old = "a\nb\nc\nd\ne\n".to_string();
    let new = "a\nb\nCHANGED\nd\ne\n".to_string();
    let d = compute_text_diff(old, new).unwrap();
    assert!(d.additions >= 1 && d.deletions >= 1, "got {} adds {} dels — text:\n{}", d.additions, d.deletions, d.text);
    assert!(d.text.contains("CHANGED"));
    assert!(!d.truncated);
}

#[test]
fn huge_diff_gets_truncated_with_footer() {
    let old = (0..MAX_LINES + 50)
        .map(|i| format!("line {} old\n", i))
        .collect::<String>();
    let new = (0..MAX_LINES + 50)
        .map(|i| format!("line {} new\n", i))
        .collect::<String>();
    let d = compute_text_diff(old, new).unwrap();
    assert!(d.truncated, "should report truncation");
    assert!(d.text.contains("truncated"));
}

#[test]
fn fresh_file_with_long_content_truncates() {
    let new = (0..MAX_LINES + 30)
        .map(|i| format!("ln{}\n", i))
        .collect::<String>();
    let d = compute_text_diff("".into(), new).unwrap();
    assert!(d.truncated);
    assert!(d.text.contains("more lines truncated"));
}

#[test]
fn one_line_change_renders_exact_hunk() {
    let d = compute_text_diff("a\nb\nc\nd\ne\n".into(), "a\nb\nCHANGED\nd\ne\n".into()).unwrap();
    assert_eq!(d.text, "@@ -1,5 +1,5 @@\n  a\n  b\n- c\n+ CHANGED\n  d\n  e\n");
    assert_eq!(d.additions, 1);
    assert_eq!(d.deletions, 1);
}

#[test]
fn fresh_file_exact_text_and_crlf() {
    let d = compute_text_diff("".into(), "a\r\nb".into()).unwrap();
    assert_eq!(d.text, "+ a\n+ b\n");
    assert_eq!(d.additions, 2);
}

#[test]
fn fresh_file_footer_counts_the_rest() {
    let new = (0..MAX_LINES + 30).map(|i| format!("ln{}\n", i)).collect::<String>();
    let d = compute_text_diff("".into(), new).unwrap();
    assert_eq!(d.additions, MAX_LINES);
    assert!(d.text.ends_with("+ ln199\n[30 more lines truncated]\n"));
}

#[test]
fn fresh_file_of_exactly_the_cap_is_whole() {
    let new = (0..MAX_LINES).map(|i| format!("ln{}\n", i)).collect::<String>();
    let d = compute_text_diff("".into(), new).unwrap();
    assert!(!d.truncated);
    assert_eq!(d.additions, MAX_LINES);
}

#[test]
fn render_given_groups() {
    let old_lines = vec!["a\n".to_string(), "b\n".to_string(), "c".to_string()];
    let new_lines = vec!["a\n".to_string(), "X\n".to_string(), "c".to_string()];
    let groups = vec![vec![(0u8, 0usize, 1usize, 0usize, 1usize), (3, 1, 2, 1, 2), (0, 2, 3, 2, 3)]];
    let d = render_line_diff(&old_lines, &new_lines, &groups);
    assert_eq!(d.text, "@@ -1,3 +1,3 @@\n  a\n- b\n+ X\n  c\n");
    assert_eq!((d.additions, d.deletions, d.truncated), (1, 1, false));
}

#[test]
fn render_insert_only_at_end() {
    let old_lines = vec!["a\n".to_string()];
    let new_lines = vec!["a\n".to_string(), "b\n".to_string(), "c\n".to_string()];
    let groups = vec![vec![(0u8, 0usize, 1usize, 0usize, 1usize), (2, 1, 1, 1, 3)]];
    let d = render_line_diff(&old_lines, &new_lines, &groups);
    assert_eq!(d.text, "@@ -1,1 +1,3 @@\n  a\n+ b\n+ c\n");
    assert_eq!((d.additions, d.deletions), (2, 0));
}

#[test]
fn render_cuts_after_the_cap() {
    let old_lines: Vec<String> = (0..300).map(|i| format!("o{}\n", i)).collect();
    let new_lines: Vec<String> = Vec::new();
    let groups = vec![vec![(1u8, 0usize, 300usize, 0usize, 0usize)]];
    let d = render_line_diff(&old_lines, &new_lines, &groups);
    assert!(d.truncated);
    assert_eq!(d.deletions, MAX_LINES - 1);
    assert!(d.text.starts_with("@@ -1,300 +1,0 @@\n- o0\n"));
    assert!(d.text.ends_with("- o198\n[diff truncated \u{2014} open the file to see full changes]\n"));
}

#[test]
fn deleting_everything_counts_all_lines() {
    let d = compute_text_diff("x\ny\n".into(), "".into()).unwrap();
    assert_eq!(d.deletions, 2);
    assert_eq!(d.additions, 0);
    assert!(d.text.starts_with("@@ -1,2 +1,0 @@\n- x\n- y\n"));
}


#[test]
fn edit_replaces_the_only_occurrence() {
    assert_eq!(plan_edit("f.txt", "a b c", "b", "X", None), Ok(("a X c".to_string(), 1)));
}

#[test]
fn edit_refuses_ambiguous_text() {
    assert_eq!(
        plan_edit("f.txt", "a b a", "a", "X", None),
        Err("Se encontraron 2 coincidencias del texto en f.txt. Usa replace_all=true para reemplazar todas, o proporciona más contexto para hacer la búsqueda única.".to_string())
    );
    assert_eq!(
        plan_edit("f.txt", "a b a", "a", "X", Some(false)).is_err(),
        true
    );
}

#[test]
fn edit_replace_all_counts_occurrences() {
    assert_eq!(plan_edit("f.txt", "a b a", "a", "X", Some(true)), Ok(("X b X".to_string(), 2)));
    assert_eq!(plan_edit("f.txt", "aaa", "aa", "b", Some(true)), Ok(("ba".to_string(), 1)));
    assert_eq!(plan_edit("f.txt", "ab", "", "x", Some(true)), Ok(("xaxbx".to_string(), 3)));
}

#[test]
fn edit_reports_missing_text() {
    assert_eq!(
        plan_edit("f.txt", "l1\nl2\nl3\nl4", "zz", "X", None),
        Err("No se encontró el texto a reemplazar en f.txt. El archivo tiene 4 líneas.\nPrimeras 3 líneas:\nl1\nl2\nl3\nSugerencia: usa readlines para ver el contenido actual.".to_string())
    );
}

#[test]
fn edit_report_prints_every_change() {
    assert_eq!(
        edit_report("f.txt", 1, "a\nb\n", "a\nX\n"),
        "ok: editado f.txt (1 reemplazo(s))\n## Unified Diff:\n```diff\n a\n-b\n+X\n\n```"
    );
}

#[test]
fn edit_report_cuts_long_diffs() {
    let diff = "+".repeat(3100);
    let r = edit_report_from_diff("p", 2, &diff);
    assert_eq!(r, format!("ok: editado p (2 reemplazo(s))\n## Unified Diff:\n```diff\n{}... [Diff Truncado]\n```", "+".repeat(3000)));
}

#[test]
fn render_changes_adds_missing_newlines() {
    let old_lines = vec!["a\n".to_string(), "b".to_string()];
    let new_lines = vec!["a\n".to_string(), "c\r".to_string()];
    let ops = vec![(0u8, 0usize, 1usize, 0usize, 1usize), (3, 1, 2, 1, 2)];
    assert_eq!(render_changes(&old_lines, &new_lines, &ops), " a\n-b\n+c\r");
}

#[test]
fn uncut_diff_balances_line_counts() {
    let cases = [
        ("a\nb\nc\n", "a\nx\nc\nd\n"),
        ("one\ntwo\nthree\nfour\n", "two\nfour\n"),
        ("x", "x\ny\nz"),
        ("l1\nl2\nl3\nl4\nl5\nl6\nl7\nl8\nl9\n", "l1\nL2\nl3\nl4\nl5\nl6\nl7\nL8\nl9\nl10\n"),
    ];
    for (old, new) in cases {
        let d = compute_text_diff(old.to_string(), new.to_string()).unwrap();
        assert!(!d.truncated);
        let grow = new.lines().count() as i64 - old.lines().count() as i64;
        assert_eq!(d.additions as i64 - d.deletions as i64, grow, "{old:?} -> {new:?}");
    }
}
