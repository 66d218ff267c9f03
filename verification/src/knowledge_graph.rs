//! Personal knowledge graph: which files the scanner records, their
//! extensions, and the "co-touched" edges between files modified close
//! together in time.
use vstd::prelude::*;
use crate::text::{
    eq_ignore_ascii_case, starts_with, unicode_lower, lex_le, chars_of, in_list_ignore_case,
    string_of_range, to_lowercase, same, lex_leq, copy_str,
};

verus! {

/// Seconds within which two modifications count as "co-touched".
pub const CO_TOUCH_WINDOW_SEC: i64 = 300;

/// Directory names the scanner never descends into (compared ignoring ASCII case).
pub open spec fn skip_dirs() -> Seq<Seq<char>> {
    seq![
        "node_modules"@, ".git"@, "target"@, "build"@, "dist"@, ".next"@,
        ".svelte-kit"@, "__pycache__"@, ".pytest_cache"@, "venv"@, ".venv"@,
        ".cargo"@, ".vscode"@, ".idea"@, "bin"@, "obj"@, "Debug"@, "Release"@,
    ]
}

/// File extensions the scanner ignores (compared ignoring ASCII case).
pub open spec fn skip_exts() -> Seq<Seq<char>> {
    seq![
        "tmp"@, "log"@, "lock"@, "pyc"@, "pyo"@, "o"@, "obj"@, "exe"@, "dll"@,
        "so"@, "dylib"@, "class"@, "swp"@, "swo"@, "DS_Store"@,
    ]
}

fn skip_dir_list() -> (v: Vec<&'static str>)
    ensures
        v@.map_values(|s: &str| s@) == skip_dirs(),
{
    let v = vec![
        "node_modules", ".git", "target", "build", "dist", ".next",
        ".svelte-kit", "__pycache__", ".pytest_cache", "venv", ".venv",
        ".cargo", ".vscode", ".idea", "bin", "obj", "Debug", "Release",
    ];
    assert(v@.map_values(|s: &str| s@) =~= skip_dirs());
    v
}

fn skip_ext_list() -> (v: Vec<&'static str>)
    ensures
        v@.map_values(|s: &str| s@) == skip_exts(),
{
    let v = vec![
        "tmp", "log", "lock", "pyc", "pyo", "o", "obj", "exe", "dll",
        "so", "dylib", "class", "swp", "swo", "DS_Store",
    ];
    assert(v@.map_values(|s: &str| s@) =~= skip_exts());
    v
}

/// Some element of `list` equals `s` ignoring ASCII case.
pub open spec fn any_ignore_case(list: Seq<Seq<char>>, s: Seq<char>) -> bool {
    exists|j: int| 0 <= j < list.len() && eq_ignore_ascii_case(list[j], s)
}

/// Hidden directories (leading `.`) and the noise trees of `skip_dirs` are skipped.
pub fn should_skip_dir(name: &str) -> (r: bool)
    ensures
        r == (starts_with(name@, "."@) || any_ignore_case(skip_dirs(), name@)),
{
    let v = chars_of(name);
    let dot = chars_of(".");
    if crate::text::has_prefix(&v, &dot) {
        return true;
    }
    let list = skip_dir_list();
    let r = in_list_ignore_case(&v, &list);
    proof {
        if r {
            let j = choose|j: int| 0 <= j < list@.len() && eq_ignore_ascii_case(list@[j]@, v@);
            assert(skip_dirs()[j] == list@[j]@);
        } else {
            assert forall|j: int| 0 <= j < skip_dirs().len() implies !eq_ignore_ascii_case(
                skip_dirs()[j],
                name@,
            ) by {
                assert(skip_dirs()[j] == list@[j]@);
            }
        }
    }
    r
}

/// Noise extensions (temporary files, logs, objects, binaries) are skipped.
pub fn should_skip_ext(ext: &str) -> (r: bool)
    ensures
        r == any_ignore_case(skip_exts(), ext@),
{
    let v = chars_of(ext);
    let list = skip_ext_list();
    let r = in_list_ignore_case(&v, &list);
    proof {
        if r {
            let j = choose|j: int| 0 <= j < list@.len() && eq_ignore_ascii_case(list@[j]@, v@);
            assert(skip_exts()[j] == list@[j]@);
        } else {
            assert forall|j: int| 0 <= j < skip_exts().len() implies !eq_ignore_ascii_case(
                skip_exts()[j],
                ext@,
            ) by {
                assert(skip_exts()[j] == list@[j]@);
            }
        }
    }
    r
}

// ── File name and extension of a path ─────────────────────────────────

/// Path separators (Windows accepts both).
pub open spec fn is_sep(c: char) -> bool {
    c == '/' || c == '\\'
}

/// Start of the path segment that ends at `e` (just after the separator before it).
pub open spec fn seg_start(p: Seq<char>, e: int) -> int
    decreases e,
{
    if e <= 0 {
        0
    } else if is_sep(p[e - 1]) {
        e
    } else {
        seg_start(p, e - 1)
    }
}

proof fn lemma_seg_start(p: Seq<char>, e: int)
    requires
        0 < e <= p.len(),
        !is_sep(p[e - 1]),
    ensures
        0 <= seg_start(p, e) < e,
        forall|j: int| seg_start(p, e) <= j < e ==> !is_sep(p[j]),
        seg_start(p, e) > 0 ==> is_sep(p[seg_start(p, e) - 1]),
    decreases e,
{
    reveal_with_fuel(seg_start, 2);
    if e - 1 > 0 && !is_sep(p[e - 2]) {
        lemma_seg_start(p, e - 1);
    }
}

/// Range of the file name of `p[..e]`: its last component, skipping
/// trailing separators and `.` components; `None` for `..` or no component.
pub open spec fn file_name_range(p: Seq<char>, e: int) -> Option<(int, int)>
    decreases e,
{
    if e <= 0 || e > p.len() {
        None
    } else if is_sep(p[e - 1]) {
        file_name_range(p, e - 1)
    } else {
        let k = seg_start(p, e);
        if 0 <= k < e {
            if p.subrange(k, e) == "."@ {
                file_name_range(p, k)
            } else if p.subrange(k, e) == ".."@ {
                None
            } else {
                Some((k, e))
            }
        } else {
            None
        }
    }
}

/// The file name of a path (what `Path::file_name` returns, with `/` and `\`
/// as separators).
pub open spec fn file_name(p: Seq<char>) -> Option<Seq<char>> {
    match file_name_range(p, p.len() as int) {
        Some((a, b)) => Some(p.subrange(a, b)),
        None => None,
    }
}

/// Index of the last `.` in `s`, if any.
pub open spec fn last_dot(s: Seq<char>) -> Option<int>
    decreases s.len(),
{
    if s.len() == 0 {
        None
    } else if s.last() == '.' {
        Some(s.len() - 1)
    } else {
        last_dot(s.drop_last())
    }
}

/// The extension of a file name (what `Path::extension` returns): the text
/// after the last `.`, unless there is none or the only dot leads the name.
pub open spec fn name_extension(name: Seq<char>) -> Option<Seq<char>> {
    match last_dot(name) {
        Some(i) => if i == 0 {
            None
        } else {
            Some(name.subrange(i + 1, name.len() as int))
        },
        None => None,
    }
}

/// The lowercased extension of a path, or the empty string.
pub open spec fn ext_of_spec(p: Seq<char>) -> Seq<char> {
    match file_name(p) {
        Some(n) => match name_extension(n) {
            Some(x) => unicode_lower(x),
            None => unicode_lower(Seq::empty()),
        },
        None => unicode_lower(Seq::empty()),
    }
}

fn seg_start_exec(p: &Vec<char>, e: usize) -> (k: usize)
    requires
        0 < e <= p.len(),
        !is_sep(p@[e - 1]),
    ensures
        k == seg_start(p@, e as int),
{
    proof {
        lemma_seg_start(p@, e as int);
        reveal_with_fuel(seg_start, 2);
    }
    let mut k = e - 1;
    while k > 0 && !(p[k - 1] == '/' || p[k - 1] == '\\')
        invariant
            k < e,
            e <= p.len(),
            seg_start(p@, e as int) == seg_start(p@, k as int + 1),
            !is_sep(p@[k as int]),
        decreases k,
    {
        proof {
            reveal_with_fuel(seg_start, 2);
        }
        k -= 1;
    }
    proof {
        reveal_with_fuel(seg_start, 2);
    }
    k
}

fn file_name_range_exec(p: &Vec<char>) -> (r: Option<(usize, usize)>)
    ensures
        match r {
            Some((a, b)) => a < b <= p.len() && file_name_range(p@, p@.len() as int) == Some(
                (a as int, b as int),
            ),
            None => file_name_range(p@, p@.len() as int) is None,
        },
{
    let dot = chars_of(".");
    let dotdot = chars_of("..");
    let mut e = p.len();
    loop
        invariant
            e <= p.len(),
            dot@ == "."@,
            dotdot@ == ".."@,
            file_name_range(p@, p@.len() as int) == file_name_range(p@, e as int),
        decreases e,
    {
        if e == 0 {
            return None;
        }
        if p[e - 1] == '/' || p[e - 1] == '\\' {
            e -= 1;
        } else {
            let k = seg_start_exec(p, e);
            proof {
                lemma_seg_start(p@, e as int);
            }
            let seg = crate::text::string_of_range(p, k, e);
            let segv = chars_of(seg.as_str());
            if same(&segv, &dot) {
                e = k;
            } else if same(&segv, &dotdot) {
                return None;
            } else {
                return Some((k, e));
            }
        }
    }
}

fn last_dot_exec(s: &Vec<char>) -> (r: Option<usize>)
    ensures
        match r {
            Some(i) => i < s.len() && last_dot(s@) == Some(i as int),
            None => last_dot(s@) is None,
        },
{
    let mut e = s.len();
    assert(s@.take(e as int) =~= s@);
    while e > 0 && s[e - 1] != '.'
        invariant
            e <= s.len(),
            last_dot(s@) == last_dot(s@.take(e as int)),
        decreases e,
    {
        assert(s@.take(e as int).drop_last() =~= s@.take(e - 1));
        e -= 1;
    }
    if e == 0 {
        None
    } else {
        assert(s@.take(e as int).last() == '.');
        Some(e - 1)
    }
}

/// The lowercased extension of `path` (`""` when it has none), with
/// `Path::extension` rules: `/some/File.RS` gives `rs`, `/some/Makefile`
/// and `.bashrc` give `""`.
pub fn ext_of(path: &str) -> (r: String)
    ensures
        r@ == ext_of_spec(path@),
{
    let p = chars_of(path);
    assert(p@.take(p@.len() as int) =~= p@);
    let empty = String::new();
    match file_name_range_exec(&p) {
        Some((a, b)) => {
            let name = string_of_range(&p, a, b);
            let nv = chars_of(name.as_str());
            match last_dot_exec(&nv) {
                Some(i) => {
                    if i == 0 {
                        to_lowercase(empty.as_str())
                    } else {
                        let x = string_of_range(&nv, i + 1, nv.len());
                        to_lowercase(x.as_str())
                    }
                },
                None => to_lowercase(empty.as_str()),
            }
        },
        None => to_lowercase(empty.as_str()),
    }
}

} // verus!

verus! {

/// A file touched during a scan pass: its path and modification time.
pub open spec fn touch_view(t: Seq<(String, i64)>) -> Seq<(Seq<char>, i64)> {
    t.map_values(|e: (String, i64)| (e.0@, e.1))
}

/// The edge two touched files `i` and `j` contribute: their paths ordered
/// so the smaller comes first, when the mtimes are at most
/// `CO_TOUCH_WINDOW_SEC` apart and the paths differ.
pub open spec fn touch_pair(t: Seq<(Seq<char>, i64)>, i: int, j: int) -> Seq<(Seq<char>, Seq<char>)> {
    let d = t[i].1 - t[j].1;
    if d > CO_TOUCH_WINDOW_SEC || -d > CO_TOUCH_WINDOW_SEC {
        Seq::empty()
    } else {
        let (a, b) = if lex_le(t[i].0, t[j].0) {
            (t[i].0, t[j].0)
        } else {
            (t[j].0, t[i].0)
        };
        if a == b {
            Seq::empty()
        } else {
            seq![(a, b)]
        }
    }
}

/// Edges of file `i` with files `i+1 .. j`, in order.
pub open spec fn touch_row(t: Seq<(Seq<char>, i64)>, i: int, j: int) -> Seq<(Seq<char>, Seq<char>)>
    decreases j - i,
{
    if j <= i + 1 {
        Seq::empty()
    } else {
        touch_row(t, i, j - 1) + touch_pair(t, i, j - 1)
    }
}

/// Edges of files `0 .. i` with all later files, row by row.
pub open spec fn touch_rows(t: Seq<(Seq<char>, i64)>, i: int) -> Seq<(Seq<char>, Seq<char>)>
    decreases i,
{
    if i <= 0 {
        Seq::empty()
    } else {
        touch_rows(t, i - 1) + touch_row(t, i - 1, t.len() as int)
    }
}

/// All co-touched edges of a scan pass, in the order the scanner records them.
pub open spec fn co_touched(t: Seq<(Seq<char>, i64)>) -> Seq<(Seq<char>, Seq<char>)> {
    touch_rows(t, t.len() as int)
}

pub open spec fn pair_views(v: Seq<(String, String)>) -> Seq<(Seq<char>, Seq<char>)> {
    v.map_values(|e: (String, String)| (e.0@, e.1@))
}

/// The mtime differences the scan computes fit in `i64` and have an absolute value.
pub open spec fn mtimes_comparable(t: Seq<(Seq<char>, i64)>) -> bool {
    forall|i: int, j: int|
        0 <= i < j < t.len() ==> i64::MIN < #[trigger] t[i].1 - #[trigger] t[j].1 <= i64::MAX
}

/// The co-touched edges of one scan pass: for every pair of touched files
/// (earlier first) modified within `CO_TOUCH_WINDOW_SEC` of each other, the
/// two paths in canonical order (`a <= b`); a file paired with its own path
/// gives no edge.
pub fn co_touched_edges(touched: &Vec<(String, i64)>) -> (r: Vec<(String, String)>)
    requires
        mtimes_comparable(touch_view(touched@)),
    ensures
        pair_views(r@) == co_touched(touch_view(touched@)),
{
    let ghost t = touch_view(touched@);
    let mut out: Vec<(String, String)> = Vec::new();
    let mut i: usize = 0;
    while i < touched.len()
        invariant
            i <= touched.len(),
            t == touch_view(touched@),
            t.len() == touched.len(),
            mtimes_comparable(t),
            pair_views(out@) == touch_rows(t, i as int),
        decreases touched.len() - i,
    {
        let ghost before = out@;
        let mut j: usize = i + 1;
        while j < touched.len()
            invariant
                i < j <= touched.len(),
                t == touch_view(touched@),
                t.len() == touched.len(),
                mtimes_comparable(t),
                pair_views(out@) == touch_rows(t, i as int) + touch_row(t, i as int, j as int),
            decreases touched.len() - j,
        {
            let ti = touched[i].1;
            let tj = touched[j].1;
            let ghost prev = out@;
            proof {
                assert(t[i as int] == (touched@[i as int].0@, touched@[i as int].1));
                assert(t[j as int] == (touched@[j as int].0@, touched@[j as int].1));
                assert(i64::MIN < t[i as int].1 - t[j as int].1 <= i64::MAX);
            }
            let d = ti - tj;
            if !(d > CO_TOUCH_WINDOW_SEC || d < -CO_TOUCH_WINDOW_SEC) {
                let pi = chars_of(touched[i].0.as_str());
                let pj = chars_of(touched[j].0.as_str());
                let (a, b) = if lex_leq(&pi, &pj) {
                    (copy_str(touched[i].0.as_str()), copy_str(touched[j].0.as_str()))
                } else {
                    (copy_str(touched[j].0.as_str()), copy_str(touched[i].0.as_str()))
                };
                let av = chars_of(a.as_str());
                let bv = chars_of(b.as_str());
                if !same(&av, &bv) {
                    out.push((a, b));
                    assert(pair_views(out@) =~= pair_views(prev).push((a@, b@)));
                    assert(touch_pair(t, i as int, j as int) =~= seq![(a@, b@)]);
                } else {
                    assert(touch_pair(t, i as int, j as int) =~= Seq::empty());
                }
            } else {
                assert(touch_pair(t, i as int, j as int) =~= Seq::empty());
            }
            assert(pair_views(out@) =~= pair_views(prev) + touch_pair(t, i as int, j as int));
            j += 1;
            proof {
                assert(touch_row(t, i as int, j as int) == touch_row(t, i as int, j - 1)
                    + touch_pair(t, i as int, j - 1));
                assert(pair_views(out@) =~= touch_rows(t, i as int) + touch_row(t, i as int, j as int));
            }
        }
        assert(touch_rows(t, i + 1) == touch_rows(t, i as int) + touch_row(t, i as int, t.len() as int));
        i += 1;
    }
    out
}

/// Start of the scan window: `now` minus `since_min` minutes, where
/// `since_min` defaults to one day and is clamped to `[1, 30 days]`.
pub fn index_since(now: i64, since_min: Option<i64>) -> (r: i64)
    requires
        now >= i64::MIN + 60 * 24 * 30 * 60,
    ensures
        r == now - 60 * clamp(
            match since_min {
                Some(m) => m as int,
                None => 1440int,
            },
            1,
            43200int,
        ),
{
    let w = match since_min {
        Some(m) => m,
        None => 60 * 24,
    };
    let w = if w < 1 {
        1
    } else if w > 60 * 24 * 30 {
        60 * 24 * 30
    } else {
        w
    };
    now - w * 60
}

/// `x` clamped to `[lo, hi]`.
pub open spec fn clamp(x: int, lo: int, hi: int) -> int {
    if x < lo {
        lo
    } else if x > hi {
        hi
    } else {
        x
    }
}

/// How many of the oldest rows a retention pass deletes from a table of
/// `count` rows capped at `cap`: a tenth of them once over the cap, else none.
pub fn retention_excess(count: i64, cap: i64) -> (r: i64)
    requires
        cap >= 0,
    ensures
        r == if count > cap {
            count / 10
        } else {
            0
        },
{
    if count > cap {
        count / 10
    } else {
        0
    }
}

// ── Index runs ─────────────────────────────────────────────────────────

/// What one scan of a root did.
#[derive(Clone, Debug)]
pub struct KgIndexResult {
    pub root: String,
    pub files_scanned: usize,
    pub files_recorded: usize,
    pub edges_added: usize,
    pub elapsed_ms: u64,
}

/// What a scan of every root did, with totals.
#[derive(Clone, Debug)]
pub struct KgIndexBatchResult {
    pub roots: Vec<KgIndexResult>,
    pub total_files_scanned: usize,
    pub total_files_recorded: usize,
    pub total_edges: usize,
}

/// Files scanned by the first `n` runs.
pub open spec fn sum_scanned(r: Seq<KgIndexResult>, n: int) -> nat
    decreases n,
{
    if n <= 0 { 0 } else { sum_scanned(r, n - 1) + r[n - 1].files_scanned as nat }
}

/// Files recorded by the first `n` runs.
pub open spec fn sum_recorded(r: Seq<KgIndexResult>, n: int) -> nat
    decreases n,
{
    if n <= 0 { 0 } else { sum_recorded(r, n - 1) + r[n - 1].files_recorded as nat }
}

/// Edges added by the first `n` runs.
pub open spec fn sum_edges(r: Seq<KgIndexResult>, n: int) -> nat
    decreases n,
{
    if n <= 0 { 0 } else { sum_edges(r, n - 1) + r[n - 1].edges_added as nat }
}

proof fn lemma_sums_monotone(r: Seq<KgIndexResult>, i: int, n: int)
    requires
        0 <= i <= n,
    ensures
        sum_scanned(r, i) <= sum_scanned(r, n),
        sum_recorded(r, i) <= sum_recorded(r, n),
        sum_edges(r, i) <= sum_edges(r, n),
    decreases n - i,
{
    if i < n {
        lemma_sums_monotone(r, i, n - 1);
    }
}

impl KgIndexBatchResult {
    /// The batch made of these runs, with their totals.
    pub fn from_roots(roots: Vec<KgIndexResult>) -> (b: Self)
        requires
            sum_scanned(roots@, roots@.len() as int) <= usize::MAX,
            sum_recorded(roots@, roots@.len() as int) <= usize::MAX,
            sum_edges(roots@, roots@.len() as int) <= usize::MAX,
        ensures
            b.roots@ == roots@,
            b.total_files_scanned == sum_scanned(roots@, roots@.len() as int),
            b.total_files_recorded == sum_recorded(roots@, roots@.len() as int),
            b.total_edges == sum_edges(roots@, roots@.len() as int),
    {
        let mut scanned: usize = 0;
        let mut recorded: usize = 0;
        let mut edges: usize = 0;
        let mut i: usize = 0;
        while i < roots.len()
            invariant
                i <= roots.len(),
                scanned == sum_scanned(roots@, i as int),
                recorded == sum_recorded(roots@, i as int),
                edges == sum_edges(roots@, i as int),
                sum_scanned(roots@, roots@.len() as int) <= usize::MAX,
                sum_recorded(roots@, roots@.len() as int) <= usize::MAX,
                sum_edges(roots@, roots@.len() as int) <= usize::MAX,
            decreases roots.len() - i,
        {
            proof {
                lemma_sums_monotone(roots@, i + 1, roots@.len() as int);
            }
            scanned = scanned + roots[i].files_scanned;
            recorded = recorded + roots[i].files_recorded;
            edges = edges + roots[i].edges_added;
            i += 1;
        }
        KgIndexBatchResult {
            roots,
            total_files_scanned: scanned,
            total_files_recorded: recorded,
            total_edges: edges,
        }
    }
}

} // verus!
