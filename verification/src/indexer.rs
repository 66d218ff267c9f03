//! Which directories the disk file index walks into, and how a file is
//! looked up in it.
use vstd::prelude::*;
use crate::text::{
    append, ascii_lower, chars_of, dec, decimal, in_list_lowered, join, join_strings, replace_all_str, replaced_all, str_views,
    views,
};

verus! {

/// Directory names pruned from the file-index walk (lowercase): system,
/// recovery, per-user cache, toolchain, VCS and build-output trees.
pub open spec fn excluded_index_dirs() -> Seq<Seq<char>> {
    seq![
        "$recycle.bin"@, "$windows.~bt"@, "$windows.~ws"@, "$winreagent"@,
        "$sysreset"@, "system volume information"@, "windows"@, "windows.old"@,
        "program files"@, "program files (x86)"@, "programdata"@, "perflogs"@,
        "onedrivetemp"@,
        "appdata"@, ".cache"@, ".npm"@, ".nuget"@, ".gradle"@, ".cargo"@,
        ".rustup"@, ".dotnet"@, ".conda"@, ".m2"@, ".vscode"@,
        "node_modules"@, ".git"@, ".svn"@, ".hg"@, "target"@, "__pycache__"@,
        ".venv"@, "venv"@, "dist"@, ".next"@, ".turbo"@,
    ]
}

fn excluded_index_dir_list() -> (v: Vec<&'static str>)
    ensures
        str_views(v@) == excluded_index_dirs(),
{
    let v = vec![
        "$recycle.bin", "$windows.~bt", "$windows.~ws", "$winreagent",
        "$sysreset", "system volume information", "windows", "windows.old",
        "program files", "program files (x86)", "programdata", "perflogs",
        "onedrivetemp",
        "appdata", ".cache", ".npm", ".nuget", ".gradle", ".cargo",
        ".rustup", ".dotnet", ".conda", ".m2", ".vscode",
        "node_modules", ".git", ".svn", ".hg", "target", "__pycache__",
        ".venv", "venv", "dist", ".next", ".turbo",
    ];
    assert(str_views(v@) =~= excluded_index_dirs());
    v
}

/// Is `dir_name` (a directory's own component name) one of the excluded
/// trees? Case-insensitive (ASCII) and exact, so `windows-tools` is kept.
pub fn is_excluded_index_dir(dir_name: &str) -> (r: bool)
    ensures
        r == excluded_index_dirs().contains(ascii_lower(dir_name@)),
{
    let name = chars_of(dir_name);
    let list = excluded_index_dir_list();
    in_list_lowered(&name, &list)
}

/// The walk's keep-predicate for one entry: the chosen root (depth 0) is
/// always kept, an excluded directory is pruned with its subtree, files
/// always pass.
pub fn keep_index_entry(depth: usize, is_dir: bool, file_name: &str) -> (r: bool)
    ensures
        r == (depth == 0 || !is_dir || !excluded_index_dirs().contains(ascii_lower(file_name@))),
{
    if depth == 0 {
        return true;
    }
    if is_dir {
        return !is_excluded_index_dir(file_name);
    }
    true
}

/// Most files one indexing run records.
pub const MAX_INDEXED_FILES: u64 = 500_000;

// ── Locating a file ────────────────────────────────────────────────────

/// The FTS5 phrase a file name is searched as: the name with its double
/// quotes removed, between double quotes.
pub open spec fn locate_query_spec(name: Seq<char>) -> Seq<char> {
    "\""@ + replaced_all(name, "\""@, ""@) + "\""@
}

/// The search phrase for a file name.
pub fn locate_query(name: &str) -> (r: String)
    ensures
        r@ == locate_query_spec(name@),
{
    let mut r = String::from_str("\"");
    append(&mut r, replace_all_str(name, "\"", "").as_str());
    append(&mut r, "\"");
    r
}

/// The answer to a locate: the paths found, one per line under a header
/// with the time taken and how many, or a note that nothing matched.
pub open spec fn locate_report_spec(name: Seq<char>, elapsed_ms: nat, results: Seq<Seq<char>>) -> Seq<char> {
    if results.len() == 0 {
        "[No se encontró ningún archivo conteniendo '"@ + name + "' en el índice de disco ("@ + decimal(elapsed_ms)
            + " ms)]"@
    } else {
        "--- RESULTADO DE LOCATE ("@ + decimal(elapsed_ms) + " ms, "@ + decimal(results.len()) + " archivos) ---\n"@
            + join(results, "\n"@)
    }
}

/// The answer to a locate of `name` that found `results`.
pub fn locate_report(name: &str, elapsed_ms: u64, results: &Vec<String>) -> (r: String)
    ensures
        r@ == locate_report_spec(name@, elapsed_ms as nat, views(results@)),
{
    if results.len() == 0 {
        let mut r = String::from_str("[No se encontró ningún archivo conteniendo '");
        append(&mut r, name);
        append(&mut r, "' en el índice de disco (");
        append(&mut r, dec(elapsed_ms).as_str());
        append(&mut r, " ms)]");
        r
    } else {
        let mut r = String::from_str("--- RESULTADO DE LOCATE (");
        append(&mut r, dec(elapsed_ms).as_str());
        append(&mut r, " ms, ");
        append(&mut r, dec(results.len() as u64).as_str());
        append(&mut r, " archivos) ---\n");
        append(&mut r, join_strings(results, "\n").as_str());
        r
    }
}

} // verus!
