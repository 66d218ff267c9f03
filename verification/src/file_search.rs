//! Text search across the files of a directory tree (a grep for the
//! assistant): the patterns, the extension filter, which directories the
//! walk skips, the matching lines of one file, and the report. The
//! patterns are matched by an Aho-Corasick automaton, ASCII letters
//! without regard to case.
use vstd::prelude::*;
use crate::text::{
    append, ascii_lower, chars_of, contains, cviews, dec, decimal, has_prefix, join, join_strings, lead_char, lines, lines_of,
    same, split, split_of, starts_with, string_of, to_lowercase, trim, trim_chars, unicode_lower, views,
};
use crate::log_analysis::{truncate_utf8, utf8_prefix};

verus! {

#[verifier::external_type_specification]
#[verifier::external_body]
pub struct ExAhoCorasick(aho_corasick::AhoCorasick);

/// The patterns an automaton was built from.
pub uninterp spec fn automaton_patterns(ac: aho_corasick::AhoCorasick) -> Seq<Seq<char>>;

/// The automaton was built for a search: ASCII letters matched without
/// case, with the builder's default (unanchored) start.
pub uninterp spec fn built_for_search(ac: aho_corasick::AhoCorasick) -> bool;

/// Whether the builder accepts `patterns` (it refuses sets past its size
/// limits), and the text of its error when it does not.
pub uninterp spec fn automaton_build(patterns: Seq<Seq<char>>) -> Result<(), Seq<char>>;

/// `AhoCorasick::builder().ascii_case_insensitive(true).build(patterns)`,
/// the error shown as text: an automaton for the patterns, built for a
/// search, or the builder's refusal.
#[verifier::external_body]
fn build_matcher(patterns: &Vec<String>) -> (r: Result<aho_corasick::AhoCorasick, String>)
    ensures
        match r {
            Ok(ac) => automaton_build(views(patterns@)) is Ok && automaton_patterns(ac) == views(patterns@)
                && built_for_search(ac),
            Err(e) => (automaton_build(views(patterns@)) matches Err(x) && x == e@),
        },
{
    aho_corasick::AhoCorasick::builder().ascii_case_insensitive(true).build(patterns).map_err(|e| e.to_string())
}

/// Some pattern occurs in `text`, ASCII letters compared without case.
pub open spec fn any_pattern_in(patterns: Seq<Seq<char>>, text: Seq<char>) -> bool {
    exists|i: int| 0 <= i < patterns.len() && contains(ascii_lower(text), ascii_lower(#[trigger] patterns[i]))
}

/// `AhoCorasick::is_match` on an automaton built for a search: whether
/// some pattern occurs in the text. (On other automata, such as
/// case-sensitive or anchored ones, nothing is claimed; they are not
/// admitted.)
#[verifier::external_body]
fn matcher_hits(ac: &aho_corasick::AhoCorasick, text: &str) -> (b: bool)
    requires
        built_for_search(*ac),
    ensures
        b == any_pattern_in(automaton_patterns(*ac), text@),
{
    ac.is_match(text)
}

/// A search's automaton; only `search_matcher` makes one.
pub struct SearchMatcher {
    ac: aho_corasick::AhoCorasick,
}

impl SearchMatcher {
    #[verifier::type_invariant]
    spec fn inv(self) -> bool {
        built_for_search(self.ac)
    }

    /// The patterns searched for.
    pub closed spec fn patterns(&self) -> Seq<Seq<char>> {
        automaton_patterns(self.ac)
    }
}

// ── Patterns and filters ───────────────────────────────────────────────

/// The pieces of a list, each trimmed, the empty ones dropped.
pub open spec fn nonblank_trimmed(pieces: Seq<Seq<char>>) -> Seq<Seq<char>>
    decreases pieces.len(),
{
    if pieces.len() == 0 {
        Seq::empty()
    } else {
        let rest = nonblank_trimmed(pieces.drop_last());
        let t = trim(pieces.last());
        if t.len() > 0 {
            rest.push(t)
        } else {
            rest
        }
    }
}

/// The patterns of a search: the `|`-separated alternatives, trimmed, the
/// empty ones dropped.
pub open spec fn patterns_spec(pattern: Seq<char>) -> Seq<Seq<char>> {
    nonblank_trimmed(split(pattern, '|'))
}

/// The patterns a search looks for, or the refusal when there are none.
pub fn search_patterns(pattern: &str) -> (r: Result<Vec<String>, String>)
    ensures
        match r {
            Ok(v) => patterns_spec(pattern@).len() > 0 && views(v@) == patterns_spec(pattern@),
            Err(e) => patterns_spec(pattern@).len() == 0 && e@ == "No se proporcionó un patrón válido."@,
        },
{
    let pieces = split_of(&chars_of(pattern), '|');
    let mut out: Vec<String> = Vec::new();
    let mut i: usize = 0;
    while i < pieces.len()
        invariant
            i <= pieces.len(),
            views(out@) == nonblank_trimmed(cviews(pieces@).take(i as int)),
        decreases pieces.len() - i,
    {
        let t = trim_chars(&pieces[i]);
        let ghost before = views(out@);
        assert(cviews(pieces@).take(i + 1).drop_last() =~= cviews(pieces@).take(i as int));
        if t.len() > 0 {
            out.push(string_of(&t));
            assert(views(out@) =~= before.push(t@));
        }
        i += 1;
    }
    assert(cviews(pieces@).take(pieces.len() as int) =~= cviews(pieces@));
    if out.len() == 0 {
        Err(String::from_str("No se proporcionó un patrón válido."))
    } else {
        Ok(out)
    }
}

/// One entry of an extension filter: trimmed, leading `*` then leading
/// `.` removed, lowercased.
pub open spec fn glob_entry(piece: Seq<char>) -> Seq<char> {
    let t = trim(piece);
    let a = t.skip(lead_char(t, '*') as int);
    unicode_lower(a.skip(lead_char(a, '.') as int))
}

/// The entries of an extension filter, the empty ones dropped.
pub open spec fn glob_entries(pieces: Seq<Seq<char>>) -> Seq<Seq<char>>
    decreases pieces.len(),
{
    if pieces.len() == 0 {
        Seq::empty()
    } else {
        let rest = glob_entries(pieces.drop_last());
        let g = glob_entry(pieces.last());
        if g.len() > 0 {
            rest.push(g)
        } else {
            rest
        }
    }
}

/// `v` from index `lo` on.
fn skip_leading(v: &Vec<char>, c: char) -> (r: Vec<char>)
    ensures
        r@ == v@.skip(lead_char(v@, c) as int),
{
    let mut lo: usize = 0;
    assert(v@.skip(0) =~= v@);
    while lo < v.len() && v[lo] == c
        invariant
            lo <= v.len(),
            lead_char(v@, c) == lo + lead_char(v@.skip(lo as int), c),
        decreases v.len() - lo,
    {
        assert(v@.skip(lo as int).drop_first() =~= v@.skip(lo + 1));
        lo += 1;
    }
    assert(lead_char(v@.skip(lo as int), c) == 0);
    let mut r: Vec<char> = Vec::new();
    let mut i = lo;
    while i < v.len()
        invariant
            lo <= i <= v.len(),
            r@ == v@.subrange(lo as int, i as int),
        decreases v.len() - i,
    {
        r.push(v[i]);
        assert(v@.subrange(lo as int, i + 1) =~= v@.subrange(lo as int, i as int).push(v@[i as int]));
        i += 1;
    }
    assert(v@.subrange(lo as int, v.len() as int) =~= v@.skip(lo as int));
    r
}

/// The extensions a comma-separated filter such as `*.rs, .TOML` keeps
/// (`rs`, `toml`).
pub fn glob_extensions(glob: &str) -> (r: Vec<String>)
    ensures
        views(r@) == glob_entries(split(glob@, ',')),
{
    let pieces = split_of(&chars_of(glob), ',');
    let mut out: Vec<String> = Vec::new();
    let mut i: usize = 0;
    while i < pieces.len()
        invariant
            i <= pieces.len(),
            views(out@) == glob_entries(cviews(pieces@).take(i as int)),
        decreases pieces.len() - i,
    {
        let t = trim_chars(&pieces[i]);
        let a = skip_leading(&t, '*');
        let b = skip_leading(&a, '.');
        let g = to_lowercase(string_of(&b).as_str());
        let ghost before = views(out@);
        assert(cviews(pieces@).take(i + 1).drop_last() =~= cviews(pieces@).take(i as int));
        assert(g@ == glob_entry(cviews(pieces@)[i as int]));
        if chars_of(g.as_str()).len() > 0 {
            out.push(g);
            assert(views(out@) =~= before.push(g@));
        }
        i += 1;
    }
    assert(cviews(pieces@).take(pieces.len() as int) =~= cviews(pieces@));
    out
}

/// A file passes the extension filter: there is none, or its lowercased
/// extension is one of the entries.
pub fn extension_wanted(exts: &Option<Vec<String>>, ext_lower: &str) -> (b: bool)
    ensures
        b == match exts {
            None => true,
            Some(v) => views(v@).contains(ext_lower@),
        },
{
    match exts {
        None => true,
        Some(v) => {
            let e = chars_of(ext_lower);
            let mut i: usize = 0;
            while i < v.len()
                invariant
                    i <= v.len(),
                    e@ == ext_lower@,
                    *exts == Some(*v),
                    forall|j: int| 0 <= j < i ==> views(v@)[j] != ext_lower@,
                decreases v.len() - i,
            {
                if same(&chars_of(v[i].as_str()), &e) {
                    assert(views(v@)[i as int] == ext_lower@);
                    assert(views(v@).contains(ext_lower@));
                    return true;
                }
                i += 1;
            }
            false
        },
    }
}

/// Results a search returns: 100 unless asked otherwise, never over 200.
pub fn search_limit(max_results: Option<usize>) -> (n: usize)
    ensures
        n == vstd::math::min(
            match max_results {
                Some(m) => m as int,
                None => 100,
            },
            200,
        ),
{
    let m = match max_results {
        Some(m) => m,
        None => 100,
    };
    if m < 200 {
        m
    } else {
        200
    }
}

/// Directories the search never enters: hidden ones and build or
/// dependency trees.
pub open spec fn skipped_search_dir(name: Seq<char>) -> bool {
    (name.len() > 0 && name[0] == '.') || name == "node_modules"@ || name == "target"@ || name == "build"@ || name
        == "dist"@ || name == ".svelte-kit"@
}

/// Whether the search walk skips a directory of this name.
pub fn skip_search_dir(name: &str) -> (b: bool)
    ensures
        b == skipped_search_dir(name@),
{
    let v = chars_of(name);
    if v.len() > 0 && v[0] == '.' {
        return true;
    }
    same(&v, &chars_of("node_modules")) || same(&v, &chars_of("target")) || same(&v, &chars_of("build")) || same(
        &v,
        &chars_of("dist"),
    ) || same(&v, &chars_of(".svelte-kit"))
}

// ── Hits ───────────────────────────────────────────────────────────────

/// How a matching line is shown: the file, its line number, and the line
/// cut to 200 bytes.
pub open spec fn hit_text(rel: Seq<char>, number: nat, line: Seq<char>) -> Seq<char> {
    rel + ":"@ + decimal(number) + "| "@ + utf8_prefix(line, 200)
}

/// The hits among the first `n` lines of a file, in order.
pub open spec fn hits_upto(patterns: Seq<Seq<char>>, rel: Seq<char>, ls: Seq<Seq<char>>, n: int) -> Seq<Seq<char>>
    decreases n,
{
    if n <= 0 {
        Seq::empty()
    } else {
        let rest = hits_upto(patterns, rel, ls, n - 1);
        if any_pattern_in(patterns, ls[n - 1]) {
            rest.push(hit_text(rel, n as nat, ls[n - 1]))
        } else {
            rest
        }
    }
}

/// The hits of a file, at most `room` of them: the first ones.
pub open spec fn file_hits(patterns: Seq<Seq<char>>, rel: Seq<char>, content: Seq<char>, room: nat) -> Seq<Seq<char>> {
    let all = hits_upto(patterns, rel, lines(content), lines(content).len() as int);
    all.take(vstd::math::min(room as int, all.len() as int))
}

/// The hits among fewer lines are the first hits among more.
proof fn lemma_hits_prefix(patterns: Seq<Seq<char>>, rel: Seq<char>, ls: Seq<Seq<char>>, i: int, j: int)
    requires
        0 <= i <= j,
    ensures
        hits_upto(patterns, rel, ls, i).len() <= hits_upto(patterns, rel, ls, j).len(),
        hits_upto(patterns, rel, ls, j).take(hits_upto(patterns, rel, ls, i).len() as int) == hits_upto(
            patterns,
            rel,
            ls,
            i,
        ),
    decreases j - i,
{
    if i < j {
        lemma_hits_prefix(patterns, rel, ls, i, j - 1);
        let a = hits_upto(patterns, rel, ls, i);
        let b = hits_upto(patterns, rel, ls, j - 1);
        let c = hits_upto(patterns, rel, ls, j);
        assert(c.take(a.len() as int) =~= b.take(a.len() as int));
    } else {
        let a = hits_upto(patterns, rel, ls, i);
        assert(a.take(a.len() as int) =~= a);
    }
}

/// The lines of `content` that hold a pattern of `ac`, shown as hits of
/// the file `rel`, at most `room` of them.
pub fn matching_lines(m: &SearchMatcher, rel: &str, content: &str, room: usize) -> (r: Vec<String>)
    ensures
        views(r@) == file_hits(m.patterns(), rel@, content@, room as nat),
{
    proof {
        use_type_invariant(m);
    }
    let ac = &m.ac;
    let ghost pats = automaton_patterns(*ac);
    let ls = lines_of(&chars_of(content));
    let ghost lv = cviews(ls@);
    let mut out: Vec<String> = Vec::new();
    let mut i: usize = 0;
    while i < ls.len() && out.len() < room
        invariant
            i <= ls.len(),
            lv == cviews(ls@),
            lv == lines(content@),
            pats == automaton_patterns(*ac),
            built_for_search(*ac),
            views(out@) == hits_upto(pats, rel@, lv, i as int),
            out.len() <= room,
        decreases ls.len() - i,
    {
        let line = string_of(&ls[i]);
        let ghost before = views(out@);
        if matcher_hits(ac, line.as_str()) {
            let mut h = String::from_str(rel);
            append(&mut h, ":");
            append(&mut h, dec((i as u64) + 1).as_str());
            append(&mut h, "| ");
            append(&mut h, truncate_utf8(line.as_str(), 200).as_str());
            out.push(h);
            assert(views(out@) =~= before.push(h@));
        }
        i += 1;
    }
    proof {
        let all = hits_upto(pats, rel@, lv, lv.len() as int);
        lemma_hits_prefix(pats, rel@, lv, i as int, lv.len() as int);
        let got = hits_upto(pats, rel@, lv, i as int);
        if i == ls.len() {
            assert(all.take(all.len() as int) =~= all);
        } else {
            assert(got.len() == room);
        }
    }
    out
}

/// The report of a search: how many hits for the pattern, one per line,
/// or that nothing matched in the directory.
pub open spec fn search_report_spec(pattern: Seq<char>, directory: Seq<char>, results: Seq<Seq<char>>) -> Seq<char> {
    if results.len() == 0 {
        "[Sin coincidencias para \""@ + pattern + "\" en "@ + directory + "]"@
    } else {
        "["@ + decimal(results.len()) + " coincidencias para \""@ + pattern + "\"]\n"@ + join(results, "\n"@)
    }
}

/// The report of a search for `pattern` in `directory` that found `results`.
pub fn search_report(pattern: &str, directory: &str, results: &Vec<String>) -> (r: String)
    ensures
        r@ == search_report_spec(pattern@, directory@, views(results@)),
{
    if results.len() == 0 {
        let mut r = String::from_str("[Sin coincidencias para \"");
        append(&mut r, pattern);
        append(&mut r, "\" en ");
        append(&mut r, directory);
        append(&mut r, "]");
        r
    } else {
        let mut r = String::from_str("[");
        append(&mut r, dec(results.len() as u64).as_str());
        append(&mut r, " coincidencias para \"");
        append(&mut r, pattern);
        append(&mut r, "\"]\n");
        append(&mut r, join_strings(results, "\n").as_str());
        r
    }
}

/// The automaton for a search's patterns, or why it could not be built.
pub fn search_matcher(patterns: &Vec<String>) -> (r: Result<SearchMatcher, String>)
    ensures
        match r {
            Ok(m) => automaton_build(views(patterns@)) is Ok && m.patterns() == views(patterns@),
            Err(e) => (automaton_build(views(patterns@)) matches Err(x) && e@ == "Error compilando motor Aho-Corasick: "@ + x),
        },
{
    match build_matcher(patterns) {
        Ok(ac) => Ok(SearchMatcher { ac }),
        Err(e) => {
            let mut m = String::from_str("Error compilando motor Aho-Corasick: ");
            append(&mut m, e.as_str());
            Err(m)
        },
    }
}

// ── Laws ───────────────────────────────────────────────────────────────

/// `hit` shows one of the first `n` lines of `ls` that holds a pattern,
/// under its own number.
pub open spec fn shows_line(patterns: Seq<Seq<char>>, rel: Seq<char>, ls: Seq<Seq<char>>, n: int, hit: Seq<char>) -> bool {
    exists|j: int| 0 <= j < n && any_pattern_in(patterns, ls[j]) && hit == hit_text(rel, (j + 1) as nat, #[trigger] ls[j])
}

/// Every hit among the first `n` lines shows one of those lines that holds
/// a pattern.
proof fn lemma_hits_are_matches(patterns: Seq<Seq<char>>, rel: Seq<char>, ls: Seq<Seq<char>>, n: int)
    requires
        0 <= n <= ls.len(),
    ensures
        forall|k: int|
            0 <= k < hits_upto(patterns, rel, ls, n).len() ==> shows_line(
                patterns,
                rel,
                ls,
                n,
                #[trigger] hits_upto(patterns, rel, ls, n)[k],
            ),
    decreases n,
{
    if n > 0 {
        lemma_hits_are_matches(patterns, rel, ls, n - 1);
        let rest = hits_upto(patterns, rel, ls, n - 1);
        let cur = hits_upto(patterns, rel, ls, n);
        assert forall|k: int| 0 <= k < cur.len() implies shows_line(patterns, rel, ls, n, #[trigger] cur[k]) by {
            if k < rest.len() {
                assert(cur[k] == rest[k]);
                assert(shows_line(patterns, rel, ls, n - 1, rest[k]));
                let j = choose|j: int|
                    0 <= j < n - 1 && any_pattern_in(patterns, ls[j]) && rest[k] == hit_text(rel, (j + 1) as nat, #[trigger] ls[j]);
                assert(cur[k] == hit_text(rel, (j + 1) as nat, ls[j]));
            } else {
                assert(cur[k] == hit_text(rel, n as nat, ls[n - 1]));
            }
        }
    }
}

/// A file's hits are at most `room`, and each shows a line of the file
/// that holds one of the patterns, under that line's number.
pub proof fn law_hits_are_matching_lines(patterns: Seq<Seq<char>>, rel: Seq<char>, content: Seq<char>, room: nat)
    ensures
        file_hits(patterns, rel, content, room).len() <= room,
        forall|k: int|
            0 <= k < file_hits(patterns, rel, content, room).len() ==> shows_line(
                patterns,
                rel,
                lines(content),
                lines(content).len() as int,
                #[trigger] file_hits(patterns, rel, content, room)[k],
            ),
{
    let ls = lines(content);
    lemma_hits_are_matches(patterns, rel, ls, ls.len() as int);
    let all = hits_upto(patterns, rel, ls, ls.len() as int);
    let got = file_hits(patterns, rel, content, room);
    assert forall|k: int| 0 <= k < got.len() implies shows_line(patterns, rel, ls, ls.len() as int, #[trigger] got[k]) by {
        assert(got[k] == all[k]);
    }
}

} // verus!
