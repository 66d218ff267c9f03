//! Log pattern analysis: per-line parsing of common log formats, level
//! counts, clusters of similar errors, and an error timeline.
use vstd::prelude::*;
use vstd::utf8::*;
use crate::regexes::{re_is_match, re_captures, re_replace_all, group_views, regex_is_match, regex_captures, regex_replace_all};
use crate::keyed::{entries_map, key_sorted, distinct_keys, lemma_entries_len, lex_lt, lemma_entries_dom, lemma_entries_value, lemma_entries_update, lemma_entries_insert_new, lemma_sorted_listing_unique, lemma_lex_total, lemma_lex_trans, lemma_lex_antisym};
use crate::text::{lex_le, lex_leq, unicode_upper, to_uppercase, chars_of, copy_str, contains, has_sub, find_from, occurs_at, has_char, has_chr, string_of_range, str_views, starts_with, has_prefix, trim, trim_bounds, same};

verus! {

// ── Outside calls: serde_json ──────────────────────────────────────────

/// Whether `serde_json::from_str::<Value>` accepts the text.
pub uninterp spec fn json_valid(text: Seq<char>) -> bool;

/// For a text that parses as JSON, each key looked up at the top level:
/// absent (`None`), present but not a string (`Some(None)`), or a string.
/// `None` when the text is not JSON.
pub uninterp spec fn json_top_strings(text: Seq<char>, keys: Seq<Seq<char>>) -> Option<Seq<Option<Option<Seq<char>>>>>;

/// `serde_json::from_str::<serde_json::Value>` succeeds.
#[verifier::external_body]
fn json_parses(text: &str) -> (b: bool)
    ensures
        b == json_valid(text@),
{
    serde_json::from_str::<serde_json::Value>(text).is_ok()
}

/// The views of the looked-up JSON fields.
pub open spec fn field_views(v: Seq<Option<Option<String>>>) -> Seq<Option<Option<Seq<char>>>> {
    v.map_values(|f: Option<Option<String>>| match f {
        Some(Some(s)) => Some(Some(s@)),
        Some(None) => Some(None),
        None => None,
    })
}

/// `serde_json::from_str::<Value>`, then `Value::get` and `Value::as_str`
/// for each key.
#[verifier::external_body]
fn json_string_fields(text: &str, keys: &[&str]) -> (r: Option<Vec<Option<Option<String>>>>)
    ensures
        match r {
            Some(f) => json_top_strings(text@, str_views(keys@)) == Some(field_views(f@)) && f@.len() == keys@.len(),
            None => json_top_strings(text@, str_views(keys@)) is None,
        },
{
    serde_json::from_str::<serde_json::Value>(text).ok().map(
        |v| keys.iter().map(|k| v.get(*k).map(|x| x.as_str().map(|s| s.to_string()))).collect(),
    )
}

// ── Levels ─────────────────────────────────────────────────────────────

/// The level a line's wording suggests (by keyword, case-insensitively).
pub open spec fn level_from_text(text: Seq<char>) -> Seq<char> {
    let u = unicode_upper(text);
    if contains(u, "FATAL"@) || contains(u, "CRITICAL"@) || contains(u, "PANIC"@) {
        "CRITICAL"@
    } else if contains(u, "ERROR"@) || contains(u, "FAIL"@) || contains(u, "EXCEPTION"@) {
        "ERROR"@
    } else if contains(u, "WARN"@) {
        "WARNING"@
    } else if contains(u, "DEBUG"@) || contains(u, "TRACE"@) {
        "DEBUG"@
    } else if contains(u, "INFO"@) {
        "INFO"@
    } else {
        Seq::empty()
    }
}

fn has_word(hay: &Vec<char>, w: &str) -> (b: bool)
    ensures
        b == contains(hay@, w@),
{
    has_sub(hay, &chars_of(w))
}

/// Detects a log level from keywords in the text.
pub fn detect_level_from_text(text: &str) -> (l: String)
    ensures
        l@ == level_from_text(text@),
{
    let upper = to_uppercase(text);
    let u = chars_of(upper.as_str());
    if has_word(&u, "FATAL") || has_word(&u, "CRITICAL") || has_word(&u, "PANIC") {
        String::from_str("CRITICAL")
    } else if has_word(&u, "ERROR") || has_word(&u, "FAIL") || has_word(&u, "EXCEPTION") {
        String::from_str("ERROR")
    } else if has_word(&u, "WARN") {
        String::from_str("WARNING")
    } else if has_word(&u, "DEBUG") || has_word(&u, "TRACE") {
        String::from_str("DEBUG")
    } else if has_word(&u, "INFO") {
        String::from_str("INFO")
    } else {
        String::new()
    }
}

/// The level names a parsed line may carry.
pub open spec fn known_levels() -> Seq<Seq<char>> {
    seq!["INFO"@, "WARN"@, "WARNING"@, "ERROR"@, "DEBUG"@, "TRACE"@, "FATAL"@, "CRITICAL"@, "PANIC"@, "NOTICE"@, "VERBOSE"@]
}

fn eq_lit(v: &Vec<char>, lit: &str) -> (b: bool)
    ensures
        b == (v@ == lit@),
{
    same(v, &chars_of(lit))
}

/// Whether `s` is one of the known level names (exact case).
pub fn is_known_level(s: &str) -> (b: bool)
    ensures
        b == known_levels().contains(s@),
{
    let v = chars_of(s);
    let r = eq_lit(&v, "INFO") || eq_lit(&v, "WARN") || eq_lit(&v, "WARNING") || eq_lit(&v, "ERROR")
        || eq_lit(&v, "DEBUG") || eq_lit(&v, "TRACE") || eq_lit(&v, "FATAL") || eq_lit(&v, "CRITICAL")
        || eq_lit(&v, "PANIC") || eq_lit(&v, "NOTICE") || eq_lit(&v, "VERBOSE");
    proof {
        let k = known_levels();
        if r {
            if v@ == "INFO"@ { assert(k[0] == s@); }
            else if v@ == "WARN"@ { assert(k[1] == s@); }
            else if v@ == "WARNING"@ { assert(k[2] == s@); }
            else if v@ == "ERROR"@ { assert(k[3] == s@); }
            else if v@ == "DEBUG"@ { assert(k[4] == s@); }
            else if v@ == "TRACE"@ { assert(k[5] == s@); }
            else if v@ == "FATAL"@ { assert(k[6] == s@); }
            else if v@ == "CRITICAL"@ { assert(k[7] == s@); }
            else if v@ == "PANIC"@ { assert(k[8] == s@); }
            else if v@ == "NOTICE"@ { assert(k[9] == s@); }
            else { assert(k[10] == s@); }
        } else {
            assert forall|i: int| 0 <= i < k.len() implies k[i] != s@ by {
                assert(i == 0 || i == 1 || i == 2 || i == 3 || i == 4 || i == 5 || i == 6 || i == 7 || i == 8 || i == 9 || i == 10);
            }
        }
    }
    r
}

// ── One line ───────────────────────────────────────────────────────────

/// A log line split into its fields.
#[derive(Clone, Debug)]
pub struct ParsedLine {
    pub timestamp: String,
    pub level: String,
    pub source: String,
    pub message: String,
    pub raw: String,
}

impl View for ParsedLine {
    type V = (Seq<char>, Seq<char>, Seq<char>, Seq<char>, Seq<char>);

    open spec fn view(&self) -> Self::V {
        (self.timestamp@, self.level@, self.source@, self.message@, self.raw@)
    }
}

/// A line with no recognised structure: its level guessed from the words.
pub open spec fn plain_spec(line: Seq<char>) -> (Seq<char>, Seq<char>, Seq<char>, Seq<char>, Seq<char>) {
    (Seq::empty(), level_from_text(line), Seq::empty(), line, line)
}

/// Parses a line with no recognised structure.
pub fn parse_plain_line(line: &str) -> (p: ParsedLine)
    ensures
        p@ == plain_spec(line@),
{
    ParsedLine {
        timestamp: String::new(),
        level: detect_level_from_text(line),
        source: String::new(),
        message: copy_str(line),
        raw: copy_str(line),
    }
}

/// Capture group `i`, empty when it did not take part.
pub open spec fn group(c: Seq<Option<Seq<char>>>, i: int) -> Seq<char> {
    if 0 <= i < c.len() && c[i] is Some {
        c[i]->0
    } else {
        Seq::empty()
    }
}

fn group_of(c: &Vec<Option<String>>, i: usize) -> (g: String)
    ensures
        g@ == group(group_views(c@), i as int),
{
    if i < c.len() {
        match &c[i] {
            Some(s) => s.clone(),
            None => String::new(),
        }
    } else {
        String::new()
    }
}

/// `Mon DD HH:MM:SS host service[pid]: message`.
pub const SYSLOG_LINE_RE: &'static str = r"^([A-Z][a-z]{2}\s+\d{1,2}\s+\d{2}:\d{2}:\d{2})\s+(\S+)\s+(\S+?)(?:\[\d+\])?:\s*(.*)";

/// What a syslog line parses to.
pub open spec fn syslog_spec(line: Seq<char>) -> (Seq<char>, Seq<char>, Seq<char>, Seq<char>, Seq<char>) {
    match re_captures(SYSLOG_LINE_RE@, line) {
        Some(c) => (group(c, 1), level_from_text(group(c, 4)), group(c, 3), group(c, 4), line),
        None => plain_spec(line),
    }
}

/// Parses `Mon DD HH:MM:SS host service[pid]: message`.
pub fn parse_syslog_line(line: &str) -> (p: ParsedLine)
    ensures
        p@ == syslog_spec(line@),
{
    match regex_captures(SYSLOG_LINE_RE, line) {
        Some(c) => {
            let message = group_of(&c, 4);
            ParsedLine {
                timestamp: group_of(&c, 1),
                level: detect_level_from_text(message.as_str()),
                source: group_of(&c, 3),
                message,
                raw: copy_str(line),
            }
        },
        None => parse_plain_line(line),
    }
}

/// Index of the first occurrence of `p` in `s`.
pub open spec fn first_occurrence(s: Seq<char>, p: Seq<char>) -> Option<int> {
    if exists|i: int| occurs_at(s, p, i) {
        Some(choose|i: int| occurs_at(s, p, i) && forall|j: int| 0 <= j < i ==> !occurs_at(s, p, j))
    } else {
        None
    }
}

/// `source: message` when the part before the first `": "` is a short
/// (under 40 bytes) word without spaces; else no source.
pub open spec fn split_source(rest: Seq<char>) -> (Seq<char>, Seq<char>) {
    match first_occurrence(rest, ": "@) {
        Some(idx) => {
            let s = rest.subrange(0, idx);
            if encode_utf8(s).len() < 40 && !has_char(s, ' ') {
                (s, rest.subrange(idx + 2, rest.len() as int))
            } else {
                (Seq::empty(), rest)
            }
        },
        None => (Seq::empty(), rest),
    }
}

fn split_source_of(rest: &String) -> (r: (String, String))
    ensures
        (r.0@, r.1@) == split_source(rest@),
{
    let v = chars_of(rest.as_str());
    let sep = chars_of(": ");
    proof {
        reveal_strlit(": ");
    }
    match find_from(&v, &sep, 0) {
        Some(idx) => {
            proof {
                assert(occurs_at(v@, sep@, idx as int));
                let c = choose|i: int| occurs_at(rest@, ": "@, i) && forall|j: int| 0 <= j < i ==> !occurs_at(rest@, ": "@, j);
                if c < idx {
                    assert(!occurs_at(rest@, ": "@, c));
                }
                if c > idx {
                    assert(!occurs_at(rest@, ": "@, idx as int));
                }
                assert(first_occurrence(rest@, ": "@) == Some(idx as int));
            }
            let s = string_of_range(&v, 0, idx);
            if s.as_str().as_bytes().len() < 40 && !has_chr(&chars_of(s.as_str()), ' ') {
                (s, string_of_range(&v, idx + 2, v.len()))
            } else {
                (String::new(), rest.clone())
            }
        },
        None => {
            assert(!(exists|i: int| occurs_at(rest@, ": "@, i)));
            (String::new(), rest.clone())
        },
    }
}

/// `2026-05-18T12:34:56.789Z [ERROR] source: message` and the like.
pub const GENERIC_LINE_RE: &'static str = r"^(\d{4}-\d{2}-\d{2}[T ]\d{2}:\d{2}:\d{2}[^\s]*)\s+\[?(\w+)\]?\s*[-:]?\s*(.*)";

/// `[LEVEL] message`.
pub const BRACKET_LINE_RE: &'static str = r"^\[(\w+)\]\s*(.*)";

/// The level named in a line, upper-cased, if it is a known one.
pub open spec fn named_level(raw: Seq<char>) -> Seq<char> {
    if known_levels().contains(unicode_upper(raw)) {
        unicode_upper(raw)
    } else {
        Seq::empty()
    }
}

fn named_level_of(raw: &String) -> (l: String)
    ensures
        l@ == named_level(raw@),
{
    let up = to_uppercase(raw.as_str());
    if is_known_level(up.as_str()) {
        up
    } else {
        String::new()
    }
}

/// What a line of the generic format parses to.
pub open spec fn generic_spec(line: Seq<char>) -> (Seq<char>, Seq<char>, Seq<char>, Seq<char>, Seq<char>) {
    match re_captures(GENERIC_LINE_RE@, line) {
        Some(c) => {
            let (src, msg) = split_source(group(c, 3));
            (group(c, 1), named_level(group(c, 2)), src, msg, line)
        },
        None => match re_captures(BRACKET_LINE_RE@, line) {
            Some(c) => {
                let msg = if 2 < c.len() && c[2] is Some { c[2]->0 } else { line };
                (Seq::empty(), named_level(group(c, 1)), Seq::empty(), msg, line)
            },
            None => plain_spec(line),
        },
    }
}

/// Parses a line that starts with an ISO-8601 timestamp or `[LEVEL]`.
pub fn parse_generic_line(line: &str) -> (p: ParsedLine)
    ensures
        p@ == generic_spec(line@),
{
    match regex_captures(GENERIC_LINE_RE, line) {
        Some(c) => {
            let level = named_level_of(&group_of(&c, 2));
            let rest = group_of(&c, 3);
            let (source, message) = split_source_of(&rest);
            ParsedLine { timestamp: group_of(&c, 1), level, source, message, raw: copy_str(line) }
        },
        None => match regex_captures(BRACKET_LINE_RE, line) {
            Some(c) => {
                let level = named_level_of(&group_of(&c, 1));
                let message = if 2 < c.len() {
                    match &c[2] {
                        Some(m) => m.clone(),
                        None => copy_str(line),
                    }
                } else {
                    copy_str(line)
                };
                ParsedLine { timestamp: String::new(), level, source: String::new(), message, raw: copy_str(line) }
            },
            None => parse_plain_line(line),
        },
    }
}

/// The keys looked up in a JSON line: timestamp (4 spellings), level (3),
/// source (3), message (3).
pub open spec fn json_keys() -> Seq<Seq<char>> {
    seq![
        "timestamp"@, "time"@, "ts"@, "@timestamp"@,
        "level"@, "severity"@, "loglevel"@,
        "source"@, "logger"@, "service"@,
        "message"@, "msg"@, "error"@,
    ]
}

/// The first of the keys `lo..hi` that is present: its string, or
/// `default` when it is not a string or none is present.
pub open spec fn pick(f: Seq<Option<Option<Seq<char>>>>, lo: int, hi: int, default: Seq<char>) -> Seq<char>
    decreases hi - lo,
{
    if lo >= hi {
        default
    } else {
        match f[lo] {
            Some(Some(s)) => s,
            Some(None) => default,
            None => pick(f, lo + 1, hi, default),
        }
    }
}

fn pick_of(f: &Vec<Option<Option<String>>>, lo: usize, hi: usize, default: &str) -> (r: String)
    requires
        lo <= hi <= f.len(),
    ensures
        r@ == pick(field_views(f@), lo as int, hi as int, default@),
    decreases hi - lo,
{
    if lo >= hi {
        copy_str(default)
    } else {
        match &f[lo] {
            Some(Some(s)) => s.clone(),
            Some(None) => copy_str(default),
            None => pick_of(f, lo + 1, hi, default),
        }
    }
}

/// What a JSON line parses to.
pub open spec fn json_spec(line: Seq<char>) -> (Seq<char>, Seq<char>, Seq<char>, Seq<char>, Seq<char>) {
    match json_top_strings(line, json_keys()) {
        Some(f) => (
            pick(f, 0, 4, Seq::empty()),
            unicode_upper(pick(f, 4, 7, Seq::empty())),
            pick(f, 7, 10, Seq::empty()),
            pick(f, 10, 13, line),
            line,
        ),
        None => plain_spec(line),
    }
}

/// Parses one JSON log line.
pub fn parse_json_line(line: &str) -> (p: ParsedLine)
    ensures
        p@ == json_spec(line@),
{
    let keys: Vec<&str> = vec![
        "timestamp", "time", "ts", "@timestamp",
        "level", "severity", "loglevel",
        "source", "logger", "service",
        "message", "msg", "error",
    ];
    assert(str_views(keys@) =~= json_keys());
    proof {
        reveal_strlit("");
    }
    match json_string_fields(line, keys.as_slice()) {
        Some(f) => {
            assert(json_top_strings(line@, json_keys()) == Some(field_views(f@)));
            assert(""@ == Seq::<char>::empty());
            let level_raw = pick_of(&f, 4, 7, "");
            ParsedLine {
                timestamp: pick_of(&f, 0, 4, ""),
                level: crate::text::to_uppercase(level_raw.as_str()),
                source: pick_of(&f, 7, 10, ""),
                message: pick_of(&f, 10, 13, line),
                raw: copy_str(line),
            }
        },
        None => {
            assert(json_top_strings(line@, json_keys()) is None);
            parse_plain_line(line)
        },
    }
}

/// What a line parses to in the given format.
pub open spec fn line_spec(line: Seq<char>, format: Seq<char>) -> (Seq<char>, Seq<char>, Seq<char>, Seq<char>, Seq<char>) {
    if format == "json"@ {
        json_spec(line)
    } else if format == "syslog"@ {
        syslog_spec(line)
    } else if format == "generic"@ {
        generic_spec(line)
    } else {
        plain_spec(line)
    }
}

/// Parses one line in the detected format.
pub fn parse_line(line: &str, format: &str) -> (p: ParsedLine)
    ensures
        p@ == line_spec(line@, format@),
{
    let f = chars_of(format);
    if eq_lit(&f, "json") {
        parse_json_line(line)
    } else if eq_lit(&f, "syslog") {
        parse_syslog_line(line)
    } else if eq_lit(&f, "generic") {
        parse_generic_line(line)
    } else {
        parse_plain_line(line)
    }
}

// ── Format detection ───────────────────────────────────────────────────

/// A line that is empty or all whitespace.
pub open spec fn is_blank(l: Seq<char>) -> bool {
    trim(l).len() == 0
}

/// The lines that are not blank, in order.
pub open spec fn nonblank(lines: Seq<Seq<char>>) -> Seq<Seq<char>>
    decreases lines.len(),
{
    if lines.len() == 0 {
        Seq::empty()
    } else if is_blank(lines.last()) {
        nonblank(lines.drop_last())
    } else {
        nonblank(lines.drop_last()).push(lines.last())
    }
}

/// At most the first ten of `s`.
pub open spec fn first_ten(s: Seq<Seq<char>>) -> Seq<Seq<char>> {
    if s.len() <= 10 {
        s
    } else {
        s.take(10)
    }
}

/// How many of `s` satisfy `p`.
pub open spec fn count_if(s: Seq<Seq<char>>, p: spec_fn(Seq<char>) -> bool) -> nat
    decreases s.len(),
{
    if s.len() == 0 {
        0
    } else if p(s.last()) {
        count_if(s.drop_last(), p) + 1
    } else {
        count_if(s.drop_last(), p)
    }
}

/// `Mon DD HH:MM:SS host` at the start of a line.
pub const SYSLOG_DETECT_RE: &'static str = r"^[A-Z][a-z]{2}\s+\d{1,2}\s+\d{2}:\d{2}:\d{2}\s+\S+";

/// An ISO-8601-like date or a `[LEVEL]` at the start of a line.
pub const GENERIC_DETECT_RE: &'static str = r"^(\d{4}-\d{2}-\d{2}[T ]|^\[\w+\])";

/// A line that looks like a JSON object.
pub open spec fn json_like(l: Seq<char>) -> bool {
    starts_with(l, "{"@) && json_valid(l)
}

/// A line that holds a Windows event in XML.
pub open spec fn event_xml_like(l: Seq<char>) -> bool {
    contains(l, "<Event xmlns="@) || contains(l, "<TimeCreated SystemTime="@)
}

/// The format of a log, judged on its first ten non-blank lines: a format
/// wins when more than half of them look like it (Windows event XML when
/// any does).
pub open spec fn format_spec(lines: Seq<Seq<char>>) -> Seq<char> {
    let s = first_ten(nonblank(lines));
    if s.len() == 0 {
        "plain"@
    } else if count_if(s, |l: Seq<char>| json_like(l)) > s.len() / 2 {
        "json"@
    } else if count_if(s, |l: Seq<char>| re_is_match(SYSLOG_DETECT_RE@, l)) > s.len() / 2 {
        "syslog"@
    } else if exists|i: int| 0 <= i < s.len() && event_xml_like(#[trigger] s[i]) {
        "event_xml"@
    } else if count_if(s, |l: Seq<char>| re_is_match(GENERIC_DETECT_RE@, l)) > s.len() / 2 {
        "generic"@
    } else {
        "plain"@
    }
}

fn blank(l: &String) -> (b: bool)
    ensures
        b == is_blank(l@),
{
    let v = chars_of(l.as_str());
    let (lo, hi) = trim_bounds(&v);
    lo == hi
}

/// The first ten non-blank lines.
fn sample_of(lines: &Vec<String>) -> (s: Vec<String>)
    ensures
        crate::text::views(s@) == first_ten(nonblank(crate::text::views(lines@))),
{
    let ghost ls = crate::text::views(lines@);
    let mut s: Vec<String> = Vec::new();
    let mut i: usize = 0;
    while i < lines.len()
        invariant
            ls == crate::text::views(lines@),
            i <= lines.len(),
            crate::text::views(s@) == first_ten(nonblank(ls.take(i as int))),
        decreases lines.len() - i,
    {
        let ghost pre = ls.take(i as int);
        assert(ls.take(i + 1).drop_last() =~= pre);
        assert(ls.take(i + 1).last() == lines@[i as int]@);
        let ghost before = crate::text::views(s@);
        if !blank(&lines[i]) && s.len() < 10 {
            s.push(lines[i].clone());
            assert(crate::text::views(s@) =~= before.push(lines@[i as int]@));
            assert(nonblank(pre).len() <= 10 ==> before == nonblank(pre));
            assert(crate::text::views(s@) =~= first_ten(nonblank(ls.take(i + 1))));
        } else if !blank(&lines[i]) {
            let ghost nb = nonblank(pre);
            assert(nonblank(ls.take(i + 1)) == nb.push(lines@[i as int]@));
            assert(nb.push(lines@[i as int]@).take(10) =~= nb.take(10));
        }
        i += 1;
    }
    assert(ls.take(lines.len() as int) =~= ls);
    s
}

/// Detects the log format from the first ten non-blank lines.
pub fn detect_format(lines: &Vec<String>) -> (f: String)
    ensures
        f@ == format_spec(crate::text::views(lines@)),
{
    let sample = sample_of(lines);
    let ghost sv = crate::text::views(sample@);
    if sample.len() == 0 {
        return String::from_str("plain");
    }
    assert(sv.len() == sample.len());
    assert(sv.len() <= 10);
    let half = sample.len() / 2;
    let mut json_n: usize = 0;
    let mut syslog_n: usize = 0;
    let mut generic_n: usize = 0;
    let mut xml = false;
    let mut i: usize = 0;
    let brace = chars_of("{");
    let ev1 = chars_of("<Event xmlns=");
    let ev2 = chars_of("<TimeCreated SystemTime=");
    while i < sample.len()
        invariant
            sv == crate::text::views(sample@),
            i <= sample.len() <= 10,
            brace@ == "{"@,
            ev1@ == "<Event xmlns="@,
            ev2@ == "<TimeCreated SystemTime="@,
            json_n == count_if(sv.take(i as int), |l: Seq<char>| json_like(l)),
            syslog_n == count_if(sv.take(i as int), |l: Seq<char>| re_is_match(SYSLOG_DETECT_RE@, l)),
            generic_n == count_if(sv.take(i as int), |l: Seq<char>| re_is_match(GENERIC_DETECT_RE@, l)),
            json_n <= i && syslog_n <= i && generic_n <= i,
            xml == exists|j: int| 0 <= j < i && event_xml_like(#[trigger] sv[j]),
        decreases sample.len() - i,
    {
        let l = &sample[i];
        let v = chars_of(l.as_str());
        assert(sv[i as int] == l@);
        assert(sv.take(i + 1).drop_last() =~= sv.take(i as int));
        assert(sv.take(i + 1).last() == l@);
        if has_prefix(&v, &brace) && json_parses(l.as_str()) {
            json_n += 1;
        }
        if regex_is_match(SYSLOG_DETECT_RE, l.as_str()) {
            syslog_n += 1;
        }
        if regex_is_match(GENERIC_DETECT_RE, l.as_str()) {
            generic_n += 1;
        }
        if has_sub(&v, &ev1) || has_sub(&v, &ev2) {
            xml = true;
        }
        i += 1;
    }
    assert(sv.take(sample.len() as int) =~= sv);
    if json_n > half {
        String::from_str("json")
    } else if syslog_n > half {
        String::from_str("syslog")
    } else if xml {
        String::from_str("event_xml")
    } else if generic_n > half {
        String::from_str("generic")
    } else {
        String::from_str("plain")
    }
}

// ── Error patterns ─────────────────────────────────────────────────────

pub const UUID_RE: &'static str = r"[0-9a-fA-F]{8}-[0-9a-fA-F]{4}-[0-9a-fA-F]{4}-[0-9a-fA-F]{4}-[0-9a-fA-F]{12}";
pub const IP_RE: &'static str = r"\d{1,3}\.\d{1,3}\.\d{1,3}\.\d{1,3}";
pub const HEX_RE: &'static str = r"0x[0-9a-fA-F]{4,}|[0-9a-fA-F]{8,}";
pub const NUMBER_RE: &'static str = r"\b\d{2,}\b";
pub const WIN_PATH_RE: &'static str = r"[A-Z]:\\[^\s,;]+";
pub const UNIX_PATH_RE: &'static str = r"/[a-zA-Z0-9_./-]{3,}";
pub const WHITESPACE_RE: &'static str = r"\s+";

/// The UTF-8 encoding of a concatenation is the concatenation of the encodings.
pub proof fn lemma_encode_utf8_concat(a: Seq<char>, b: Seq<char>)
    ensures
        encode_utf8(a + b) == encode_utf8(a) + encode_utf8(b),
    decreases a.len(),
{
    if a.len() > 0 {
        lemma_encode_utf8_concat(a.drop_first(), b);
        assert((a + b).drop_first() =~= a.drop_first() + b);
        assert((a + b)[0] == a[0]);
        assert(encode_utf8(a + b) =~= encode_utf8(a) + encode_utf8(b));
    } else {
        assert(a + b =~= b);
        assert(encode_utf8(a) =~= Seq::<u8>::empty());
        assert(encode_utf8(a) + encode_utf8(b) =~= encode_utf8(b));
    }
}

/// The longest prefix of `s` whose UTF-8 encoding fits in `n` bytes.
pub open spec fn utf8_prefix(s: Seq<char>, n: int) -> Seq<char>
    decreases s.len(),
{
    if s.len() == 0 || encode_utf8(seq![s[0]]).len() > n {
        Seq::empty()
    } else {
        seq![s[0]] + utf8_prefix(s.drop_first(), n - encode_utf8(seq![s[0]]).len())
    }
}

/// The longest prefix of `s` that fits in `n` bytes, cut at a character
/// boundary.
pub fn truncate_utf8(s: &str, n: usize) -> (r: String)
    ensures
        r@ == utf8_prefix(s@, n as int),
{
    let v = chars_of(s);
    let mut k: usize = 0;
    let mut used: usize = 0;
    assert(v@.skip(0) =~= v@);
    while k < v.len()
        invariant
            k <= v.len(),
            used <= n,
            utf8_prefix(v@, n as int) == v@.take(k as int) + utf8_prefix(v@.skip(k as int), n - used),
        ensures
            k <= v.len(),
            utf8_prefix(v@, n as int) == v@.take(k as int) + utf8_prefix(v@.skip(k as int), n - used),
            utf8_prefix(v@.skip(k as int), n - used).len() == 0,
        decreases v.len() - k,
    {
        let mut one = String::new();
        crate::text::push_char(&mut one, v[k]);
        let w = one.as_str().as_bytes().len();
        let ghost rest = v@.skip(k as int);
        assert(rest[0] == v@[k as int]);
        assert(one@ =~= seq![v@[k as int]]);
        if w > n - used {
            assert(utf8_prefix(rest, n - used) =~= Seq::<char>::empty());
            break;
        }
        proof {
            assert(rest.drop_first() =~= v@.skip(k + 1));
            assert(v@.take(k + 1) =~= v@.take(k as int) + seq![v@[k as int]]);
            assert(v@.take(k as int) + (seq![rest[0]] + utf8_prefix(rest.drop_first(), n - used - w))
                =~= v@.take(k + 1) + utf8_prefix(v@.skip(k + 1), n - (used + w)));
        }
        used = used + w;
        k += 1;
    }
    proof {
        assert(v@.take(k as int) + utf8_prefix(v@.skip(k as int), n - used) =~= v@.take(k as int));
        assert(v@.subrange(0, k as int) =~= v@.take(k as int));
    }
    string_of_range(&v, 0, k)
}

/// The pattern of an error message: UUIDs, IPs, hex runs, numbers of two
/// or more digits and paths replaced by placeholders, whitespace collapsed,
/// and anything over 200 bytes cut at 199 bytes with an ellipsis.
pub open spec fn pattern_spec(message: Seq<char>) -> Seq<char> {
    let p1 = re_replace_all(UUID_RE@, message, "<UUID>"@);
    let p2 = re_replace_all(IP_RE@, p1, "<IP>"@);
    let p3 = re_replace_all(HEX_RE@, p2, "<HEX>"@);
    let p4 = re_replace_all(NUMBER_RE@, p3, "<N>"@);
    let p5 = re_replace_all(WIN_PATH_RE@, p4, "<PATH>"@);
    let p6 = re_replace_all(UNIX_PATH_RE@, p5, "<PATH>"@);
    let p7 = trim(re_replace_all(WHITESPACE_RE@, p6, " "@));
    if encode_utf8(p7).len() > 200 {
        utf8_prefix(p7, 199) + "\u{2026}"@
    } else {
        p7
    }
}

/// Normalises an error message into its pattern.
pub fn normalize_pattern(message: &str) -> (p: String)
    ensures
        p@ == pattern_spec(message@),
{
    let p = regex_replace_all(UUID_RE, message, "<UUID>");
    let p = regex_replace_all(IP_RE, p.as_str(), "<IP>");
    let p = regex_replace_all(HEX_RE, p.as_str(), "<HEX>");
    let p = regex_replace_all(NUMBER_RE, p.as_str(), "<N>");
    let p = regex_replace_all(WIN_PATH_RE, p.as_str(), "<PATH>");
    let p = regex_replace_all(UNIX_PATH_RE, p.as_str(), "<PATH>");
    let p = regex_replace_all(WHITESPACE_RE, p.as_str(), " ");
    let pv = chars_of(p.as_str());
    let (lo, hi) = trim_bounds(&pv);
    let t = string_of_range(&pv, lo, hi);
    if t.as_str().as_bytes().len() > 200 {
        let mut cut = truncate_utf8(t.as_str(), 199);
        crate::text::append(&mut cut, "\u{2026}");
        cut
    } else {
        t
    }
}

// ── Timeline ───────────────────────────────────────────────────────────

/// A byte that is an ASCII digit.
pub open spec fn digit_byte(b: u8) -> bool {
    48 <= b <= 57
}

/// What `str::parse::<usize>` gives (0 on failure) for the two bytes at
/// 14 and 15 of a timestamp: two digits, or `+` and a digit.
pub open spec fn minute_of(b: Seq<u8>) -> nat {
    let x = b[14];
    let y = b[15];
    if digit_byte(x) && digit_byte(y) {
        ((x - 48) * 10 + (y - 48)) as nat
    } else if x == 43 && digit_byte(y) {
        (y - 48) as nat
    } else {
        0
    }
}

/// The first 13 bytes of a timestamp, as text (`2026-05-18T12`).
pub open spec fn hour_of(ts: Seq<char>) -> Seq<char> {
    decode_utf8(encode_utf8(ts).subrange(0, 13))
}

/// A number below 100 in two digits, zero-padded.
pub open spec fn two_digits(n: nat) -> Seq<char> {
    seq![crate::text::digit_char(n / 10), crate::text::digit_char(n % 10)]
}

/// The bucket a timestamp falls in: its hour, or its hour and the start
/// minute of its `bm`-minute slot, when it is 16 bytes or longer; the
/// timestamp itself when shorter; none when empty.
pub open spec fn bucket_key(ts: Seq<char>, bm: nat) -> Option<Seq<char>> {
    let b = encode_utf8(ts);
    if b.len() >= 16 {
        if bm >= 60 {
            Some(hour_of(ts))
        } else {
            Some(hour_of(ts) + ":"@ + two_digits((minute_of(b) / bm) * bm))
        }
    } else if ts.len() > 0 {
        Some(ts)
    } else {
        None
    }
}

/// The byte slices taken of a timestamp fall on character boundaries (the
/// slicing panics otherwise).
pub open spec fn bucketable(ts: Seq<char>, bm: nat) -> bool {
    let b = encode_utf8(ts);
    b.len() >= 16 ==> (is_char_boundary(b, 13) && (bm < 60 ==> is_char_boundary(b, 14) && is_char_boundary(b, 16)))
}

/// Whether a level counts as an error, and as a warning, on the timeline.
pub open spec fn is_error_level(l: Seq<char>) -> bool {
    l == "ERROR"@ || l == "CRITICAL"@ || l == "FATAL"@
}

pub open spec fn is_warning_level(l: Seq<char>) -> bool {
    l == "WARNING"@ || l == "WARN"@
}

/// Counts (errors, warnings, total) after one more line of level `l`.
pub open spec fn bump(c: (nat, nat, nat), l: Seq<char>) -> (nat, nat, nat) {
    (
        if is_error_level(l) { c.0 + 1 } else { c.0 },
        if is_warning_level(l) { c.1 + 1 } else { c.1 },
        c.2 + 1,
    )
}

/// Counts per bucket over the first `n` parsed lines.
pub open spec fn bucket_counts(
    ps: Seq<(Seq<char>, Seq<char>, Seq<char>, Seq<char>, Seq<char>)>,
    bm: nat,
    n: int,
) -> Map<Seq<char>, (nat, nat, nat)>
    decreases n,
{
    if n <= 0 {
        Map::empty()
    } else {
        let m = bucket_counts(ps, bm, n - 1);
        match bucket_key(ps[n - 1].0, bm) {
            None => m,
            Some(k) => m.insert(k, bump(if m.dom().contains(k) { m[k] } else { (0, 0, 0) }, ps[n - 1].1)),
        }
    }
}

/// The timeline: one bucket per key, in increasing key order.
pub open spec fn timeline_spec(
    ps: Seq<(Seq<char>, Seq<char>, Seq<char>, Seq<char>, Seq<char>)>,
    bm: nat,
) -> Seq<(Seq<char>, (nat, nat, nat))> {
    choose|s: Seq<(Seq<char>, (nat, nat, nat))>| key_sorted(s) && entries_map(s) == bucket_counts(ps, bm, ps.len() as int)
}

/// Error, warning and total counts of one time bucket.
#[derive(Clone, Debug)]
pub struct TimelineBucket {
    pub timestamp: String,
    pub error_count: usize,
    pub warning_count: usize,
    pub total_count: usize,
}

/// (bucket, (errors, warnings, total)) of each bucket.
pub open spec fn bucket_views(v: Seq<TimelineBucket>) -> Seq<(Seq<char>, (nat, nat, nat))> {
    v.map_values(|b: TimelineBucket| (b.timestamp@, (b.error_count as nat, b.warning_count as nat, b.total_count as nat)))
}

/// The views of parsed lines.
pub open spec fn parsed_views(v: Seq<ParsedLine>) -> Seq<(Seq<char>, Seq<char>, Seq<char>, Seq<char>, Seq<char>)> {
    v.map_values(|p: ParsedLine| p@)
}

/// The bucket key of a timestamp, computed.
fn bucket_key_of(ts: &String, bm: usize) -> (k: Option<String>)
    requires
        bm >= 1,
        bucketable(ts@, bm as nat),
    ensures
        match k {
            Some(s) => bucket_key(ts@, bm as nat) == Some(s@),
            None => bucket_key(ts@, bm as nat) is None,
        },
{
    let t = ts.as_str();
    let b = t.as_bytes();
    if b.len() >= 16 {
        proof {
            vstd::utf8::encode_utf8_decode_utf8(t@);
        }
        let (head, _) = t.split_at(13);
        proof {
            vstd::utf8::encode_utf8_decode_utf8(head@);
            assert(head@ == decode_utf8(encode_utf8(t@).subrange(0, 13)));
        }
        if bm >= 60 {
            Some(copy_str(head))
        } else {
            let x = b[14];
            let y = b[15];
            let m: usize = if 48 <= x && x <= 57 && 48 <= y && y <= 57 {
                ((x - 48) as usize) * 10 + ((y - 48) as usize)
            } else if x == 43 && 48 <= y && y <= 57 {
                (y - 48) as usize
            } else {
                0
            };
            assert(m == minute_of(encode_utf8(t@)));
            assert(m <= 99);
            let rem = m % bm;
            assert(rem <= m) by (nonlinear_arith)
                requires
                    bm >= 1,
                    rem == m % bm,
            ;
            let slot = m - rem;
            assert(slot == (m / bm) * bm && slot <= m) by (nonlinear_arith)
                requires
                    bm >= 1,
                    rem == m % bm,
                    slot == m - rem,
            ;
            let mut key = copy_str(head);
            crate::text::append(&mut key, ":");
            crate::text::push_char(&mut key, crate::text::digit_of(slot / 10));
            crate::text::push_char(&mut key, crate::text::digit_of(slot % 10));
            assert(key@ =~= hour_of(t@) + ":"@ + two_digits(slot as nat));
            Some(key)
        }
    } else if !t.is_empty() {
        Some(copy_str(t))
    } else {
        None
    }
}

/// Counts errors, warnings and lines per time bucket of `bucket_minutes`
/// minutes (an hour or more: per hour), buckets in increasing order.
pub fn build_timeline(parsed: &Vec<ParsedLine>, bucket_minutes: usize) -> (t: Vec<TimelineBucket>)
    requires
        bucket_minutes >= 1,
        forall|i: int| 0 <= i < parsed.len() ==> bucketable(#[trigger] parsed@[i].timestamp@, bucket_minutes as nat),
    ensures
        bucket_views(t@) == timeline_spec(parsed_views(parsed@), bucket_minutes as nat),
        key_sorted(bucket_views(t@)),
        entries_map(bucket_views(t@)) == bucket_counts(parsed_views(parsed@), bucket_minutes as nat, parsed@.len() as int),
{
    let ghost ps = parsed_views(parsed@);
    let mut out: Vec<TimelineBucket> = Vec::new();
    let mut i: usize = 0;
    proof {
        assert(bucket_views(out@) =~= Seq::<(Seq<char>, (nat, nat, nat))>::empty());
        assert(entries_map(bucket_views(out@)) =~= bucket_counts(ps, bucket_minutes as nat, 0));
    }
    while i < parsed.len()
        invariant
            ps == parsed_views(parsed@),
            bucket_minutes >= 1,
            forall|j: int| 0 <= j < parsed.len() ==> bucketable(#[trigger] parsed@[j].timestamp@, bucket_minutes as nat),
            i <= parsed.len(),
            key_sorted(bucket_views(out@)),
            entries_map(bucket_views(out@)) == bucket_counts(ps, bucket_minutes as nat, i as int),
            forall|j: int| 0 <= j < out@.len() ==> (#[trigger] out@[j]).total_count <= i
                && out@[j].error_count <= out@[j].total_count && out@[j].warning_count <= out@[j].total_count,
        decreases parsed.len() - i,
    {
        let p = &parsed[i];
        assert(ps[i as int] == p@);
        let ghost bv = bucket_views(out@);
        let ghost m = bucket_counts(ps, bucket_minutes as nat, i as int);
        match bucket_key_of(&p.timestamp, bucket_minutes) {
            None => {},
            Some(key) => {
                let lv = chars_of(p.level.as_str());
                let is_err = eq_lit(&lv, "ERROR") || eq_lit(&lv, "CRITICAL") || eq_lit(&lv, "FATAL");
                let is_warn = eq_lit(&lv, "WARNING") || eq_lit(&lv, "WARN");
                let kc = chars_of(key.as_str());
                // find the key, or the first larger one
                let mut j: usize = 0;
                while j < out.len()
                    invariant
                        bv == bucket_views(out@),
                        j <= out.len(),
                        kc@ == key@,
                        forall|a: int| 0 <= a < j ==> !lex_le(key@, #[trigger] bv[a].0),
                    ensures
                        j <= out.len(),
                        forall|a: int| 0 <= a < j ==> !lex_le(key@, #[trigger] bv[a].0),
                        j < out.len() ==> lex_le(key@, bv[j as int].0),
                    decreases out.len() - j,
                {
                    let other = chars_of(out[j].timestamp.as_str());
                    assert(other@ == bv[j as int].0);
                    if lex_leq(&kc, &other) {
                        break;
                    }
                    j += 1;
                }
                if j < out.len() && out[j].timestamp == key {
                    let old_b = &out[j];
                    assert(bv[j as int].0 == key@);
                    proof {
                        lemma_entries_value(bv, j as int);
                    }
                    let nb = TimelineBucket {
                        timestamp: key,
                        error_count: if is_err { old_b.error_count + 1 } else { old_b.error_count },
                        warning_count: if is_warn { old_b.warning_count + 1 } else { old_b.warning_count },
                        total_count: old_b.total_count + 1,
                    };
                    proof {
                        assert(bv[j as int].1 == (old_b.error_count as nat, old_b.warning_count as nat, old_b.total_count as nat));
                    }
                    out.set(j, nb);
                    proof {
                        let nv = (nb.error_count as nat, nb.warning_count as nat, nb.total_count as nat);
                        assert(bucket_views(out@) =~= bv.update(j as int, (bv[j as int].0, nv)));
                        lemma_entries_update(bv, j as int, nv);
                        assert(key_sorted(bucket_views(out@))) by {
                            assert forall|a: int, b: int| 0 <= a < b < out@.len() implies lex_lt(#[trigger] bucket_views(out@)[a].0, #[trigger] bucket_views(out@)[b].0) by {
                                assert(bucket_views(out@)[a].0 == bv[a].0 && bucket_views(out@)[b].0 == bv[b].0);
                            }
                        }
                    }
                } else {
                    proof {
                        lemma_entries_dom(bv, key@);
                        if entries_map(bv).dom().contains(key@) {
                            let c = choose|c: int| 0 <= c < bv.len() && #[trigger] bv[c].0 == key@;
                            if c < j {
                                lemma_lex_total(key@, bv[c].0);
                            } else if c > j {
                                assert(lex_lt(bv[j as int].0, bv[c].0));
                                lemma_lex_antisym(key@, bv[j as int].0);
                            }
                        }
                    }
                    let nb = TimelineBucket {
                        timestamp: key,
                        error_count: if is_err { 1 } else { 0 },
                        warning_count: if is_warn { 1 } else { 0 },
                        total_count: 1,
                    };
                    out.insert(j, nb);
                    proof {
                        let e = (key@, (nb.error_count as nat, nb.warning_count as nat, 1nat));
                        assert(bucket_views(out@) =~= bv.insert(j as int, e));
                        lemma_entries_insert_new(bv, j as int, e);
                        let after = bucket_views(out@);
                        assert forall|a: int, b: int| 0 <= a < b < after.len() implies lex_lt(#[trigger] after[a].0, #[trigger] after[b].0) by {
                            if b < j {
                                assert(after[a] == bv[a] && after[b] == bv[b]);
                            } else if b == j {
                                assert(after[a] == bv[a]);
                                lemma_lex_total(key@, bv[a].0);
                            } else if a == j {
                                assert(after[b] == bv[b - 1]);
                                if b - 1 > j {
                                    assert(lex_lt(bv[j as int].0, bv[b - 1].0));
                                    lemma_lex_trans(key@, bv[j as int].0, bv[b - 1].0);
                                    if key@ == bv[b - 1].0 {
                                        lemma_lex_antisym(key@, bv[j as int].0);
                                    }
                                }
                            } else if a < j {
                                assert(after[a] == bv[a] && after[b] == bv[b - 1]);
                            } else {
                                assert(after[a] == bv[a - 1] && after[b] == bv[b - 1]);
                            }
                        }
                    }
                }
                proof {
                    assert(bucket_counts(ps, bucket_minutes as nat, i + 1) == m.insert(key@, bump(if m.dom().contains(key@) { m[key@] } else { (0, 0, 0) }, ps[i as int].1)));
                    assert(entries_map(bucket_views(out@)) =~= bucket_counts(ps, bucket_minutes as nat, i + 1));
                }
            },
        }
        i += 1;
    }
    proof {
        let c = timeline_spec(ps, bucket_minutes as nat);
        assert(key_sorted(bucket_views(out@)) && entries_map(bucket_views(out@)) == bucket_counts(ps, bucket_minutes as nat, ps.len() as int));
        lemma_sorted_listing_unique(bucket_views(out@), c);
    }
    out
}

// ── Counting and ranking ───────────────────────────────────────────────

/// Stable insertion of `x` into a list ranked by decreasing `key`: after
/// every element whose key is at least `x`'s.
pub open spec fn insert_desc<T>(t: Seq<T>, x: T, key: spec_fn(T) -> nat) -> Seq<T>
    decreases t.len(),
{
    if t.len() == 0 {
        seq![x]
    } else if key(t.last()) >= key(x) {
        t.push(x)
    } else {
        insert_desc(t.drop_last(), x, key).push(t.last())
    }
}

/// `s` ranked by decreasing `key`, equal keys in their original order
/// (what a stable `sort_by_key` with `Reverse` gives).
pub open spec fn sort_desc<T>(s: Seq<T>, key: spec_fn(T) -> nat) -> Seq<T>
    decreases s.len(),
{
    if s.len() == 0 {
        Seq::empty()
    } else {
        insert_desc(sort_desc(s.drop_last(), key), s.last(), key)
    }
}

/// Keys never increase along `t`.
pub open spec fn ranked_desc<T>(t: Seq<T>, key: spec_fn(T) -> nat) -> bool {
    forall|a: int, b: int| 0 <= a < b < t.len() ==> key(#[trigger] t[a]) >= key(#[trigger] t[b])
}

/// Inserting before the first element with a smaller key is the stable
/// insertion, and keeps the list ranked.
pub proof fn lemma_insert_desc_at<T>(t: Seq<T>, x: T, key: spec_fn(T) -> nat, j: int)
    requires
        ranked_desc(t, key),
        0 <= j <= t.len(),
        forall|a: int| 0 <= a < j ==> key(#[trigger] t[a]) >= key(x),
        j < t.len() ==> key(t[j]) < key(x),
    ensures
        insert_desc(t, x, key) == t.insert(j, x),
        ranked_desc(t.insert(j, x), key),
    decreases t.len(),
{
    let r = t.insert(j, x);
    assert forall|a: int, b: int| 0 <= a < b < r.len() implies key(#[trigger] r[a]) >= key(#[trigger] r[b]) by {
        if b < j {
            assert(r[a] == t[a] && r[b] == t[b]);
        } else if b == j {
            assert(r[a] == t[a]);
        } else if a == j {
            assert(r[b] == t[b - 1]);
            assert(key(t[j]) >= key(t[b - 1]) || b - 1 == j);
        } else if a < j {
            assert(r[a] == t[a] && r[b] == t[b - 1]);
        } else {
            assert(r[a] == t[a - 1] && r[b] == t[b - 1]);
        }
    }
    if t.len() == 0 {
        assert(r =~= seq![x]);
    } else if key(t.last()) >= key(x) {
        if j < t.len() {
            assert(key(t[j]) >= key(t[t.len() - 1]) || j == t.len() - 1);
        }
        assert(j == t.len());
        assert(r =~= t.push(x));
    } else {
        let t1 = t.drop_last();
        assert(ranked_desc(t1, key)) by {
            assert forall|a: int, b: int| 0 <= a < b < t1.len() implies key(#[trigger] t1[a]) >= key(#[trigger] t1[b]) by {
                assert(t1[a] == t[a] && t1[b] == t[b]);
            }
        }
        assert(j <= t1.len());
        assert forall|a: int| 0 <= a < j implies key(#[trigger] t1[a]) >= key(x) by {
            assert(t1[a] == t[a]);
        }
        if j < t1.len() {
            assert(t1[j] == t[j]);
        }
        lemma_insert_desc_at(t1, x, key, j);
        assert(r =~= t1.insert(j, x).push(t.last()));
    }
}

/// The stable ranking is ranked.
pub proof fn lemma_sort_desc_ranked<T>(s: Seq<T>, key: spec_fn(T) -> nat)
    ensures
        ranked_desc(sort_desc(s, key), key),
        sort_desc(s, key).len() == s.len(),
    decreases s.len(),
{
    if s.len() > 0 {
        let t = sort_desc(s.drop_last(), key);
        lemma_sort_desc_ranked(s.drop_last(), key);
        let x = s.last();
        // the insertion point: the first element with a smaller key
        let j = if exists|a: int| 0 <= a < t.len() && key(t[a]) < key(x) {
            choose|a: int| 0 <= a < t.len() && key(t[a]) < key(x) && forall|b: int| 0 <= b < a ==> key(t[b]) >= key(x)
        } else {
            t.len() as int
        };
        lemma_first_smaller(t, x, key);
        lemma_insert_desc_at(t, x, key, j);
    }
}

/// A first element with a smaller key exists when any does.
proof fn lemma_first_smaller<T>(t: Seq<T>, x: T, key: spec_fn(T) -> nat)
    ensures
        (exists|a: int| 0 <= a < t.len() && key(t[a]) < key(x)) ==> (exists|a: int|
            0 <= a < t.len() && key(t[a]) < key(x) && forall|b: int| 0 <= b < a ==> key(t[b]) >= key(x)),
        !(exists|a: int| 0 <= a < t.len() && key(t[a]) < key(x)) ==> forall|a: int| 0 <= a < t.len() ==> key(#[trigger] t[a]) >= key(x),
    decreases t.len(),
{
    if t.len() > 0 {
        lemma_first_smaller(t.drop_last(), x, key);
        if exists|a: int| 0 <= a < t.len() && key(t[a]) < key(x) {
            if exists|a: int| 0 <= a < t.drop_last().len() && key(t.drop_last()[a]) < key(x) {
                let a = choose|a: int| 0 <= a < t.drop_last().len() && key(t.drop_last()[a]) < key(x)
                    && forall|b: int| 0 <= b < a ==> key(t.drop_last()[b]) >= key(x);
                assert(key(t[a]) < key(x));
                assert forall|b: int| 0 <= b < a implies key(t[b]) >= key(x) by {
                    assert(t[b] == t.drop_last()[b]);
                }
            } else {
                let a = t.len() - 1;
                assert forall|b: int| 0 <= b < a implies key(t[b]) >= key(x) by {
                    assert(t[b] == t.drop_last()[b]);
                }
                if key(t[a]) >= key(x) {
                    let c = choose|c: int| 0 <= c < t.len() && key(t[c]) < key(x);
                    assert(t[c] == t.drop_last()[c]);
                }
            }
        }
    }
}

/// Occurrences of each key (but empty ones when `skip_empty`), in order
/// of first appearance.
pub open spec fn tally_keys(keys: Seq<Seq<char>>, skip_empty: bool) -> Seq<(Seq<char>, nat)>
    decreases keys.len(),
{
    if keys.len() == 0 {
        Seq::empty()
    } else {
        let t = tally_keys(keys.drop_last(), skip_empty);
        let k = keys.last();
        if skip_empty && k.len() == 0 {
            t
        } else if exists|i: int| 0 <= i < t.len() && t[i].0 == k {
            let i = choose|i: int| 0 <= i < t.len() && t[i].0 == k;
            t.update(i, (k, t[i].1 + 1))
        } else {
            t.push((k, 1))
        }
    }
}

/// Occurrences of each non-empty key, in order of first appearance.
pub open spec fn tally(keys: Seq<Seq<char>>) -> Seq<(Seq<char>, nat)> {
    tally_keys(keys, true)
}

/// Keys of a tally occur once.
pub open spec fn tally_distinct(t: Seq<(Seq<char>, nat)>) -> bool {
    forall|a: int, b: int| 0 <= a < b < t.len() ==> #[trigger] t[a].0 != #[trigger] t[b].0
}

/// Counts of `keys` (but empty ones when `skip_empty`), in order of first
/// appearance.
pub(crate) fn count_keys(keys: &Vec<String>, skip_empty: bool) -> (r: Vec<(String, usize)>)
    ensures
        tally_views(r@) == tally_keys(crate::text::views(keys@), skip_empty),
        tally_distinct(tally_views(r@)),
        forall|a: int| 0 <= a < r@.len() ==> (#[trigger] r@[a]).1 <= keys@.len(),
{
    let ghost ks = crate::text::views(keys@);
    let mut r: Vec<(String, usize)> = Vec::new();
    let mut i: usize = 0;
    assert(tally_views(r@) =~= tally_keys(ks.take(0), skip_empty));
    while i < keys.len()
        invariant
            ks == crate::text::views(keys@),
            i <= keys.len(),
            tally_views(r@) == tally_keys(ks.take(i as int), skip_empty),
            tally_distinct(tally_views(r@)),
            forall|a: int| 0 <= a < r@.len() ==> (#[trigger] r@[a]).1 <= i,
        decreases keys.len() - i,
    {
        let k = &keys[i];
        let ghost t = tally_views(r@);
        assert(ks.take(i + 1).drop_last() =~= ks.take(i as int));
        assert(ks.take(i + 1).last() == k@);
        if skip_empty && k.as_str().is_empty() {
        } else {
            let mut j: usize = 0;
            while j < r.len()
                invariant
                    t == tally_views(r@),
                    j <= r.len(),
                    forall|a: int| 0 <= a < j ==> #[trigger] t[a].0 != k@,
                ensures
                    j <= r.len(),
                    forall|a: int| 0 <= a < j ==> #[trigger] t[a].0 != k@,
                    j < r.len() ==> t[j as int].0 == k@,
                decreases r.len() - j,
            {
                if r[j].0 == *k {
                    break;
                }
                j += 1;
            }
            if j < r.len() {
                assert(t[j as int].0 == k@);
                proof {
                    let c = choose|c: int| 0 <= c < t.len() && t[c].0 == k@;
                    if c != j {
                        if c < j {
                            assert(t[c].0 != k@);
                        } else {
                            assert(t[j as int].0 != t[c].0);
                        }
                    }
                }
                let n = r[j].1 + 1;
                let name = r[j].0.clone();
                r.set(j, (name, n));
                assert(tally_views(r@) =~= t.update(j as int, (k@, t[j as int].1 + 1)));
                assert forall|a: int, b: int| 0 <= a < b < r@.len() implies #[trigger] tally_views(r@)[a].0 != #[trigger] tally_views(r@)[b].0 by {
                    assert(tally_views(r@)[a].0 == t[a].0 && tally_views(r@)[b].0 == t[b].0);
                }
            } else {
                r.push((k.clone(), 1));
                assert(tally_views(r@) =~= t.push((k@, 1)));
                assert forall|a: int, b: int| 0 <= a < b < r@.len() implies #[trigger] tally_views(r@)[a].0 != #[trigger] tally_views(r@)[b].0 by {
                    if b == r@.len() - 1 {
                        assert(tally_views(r@)[a] == t[a]);
                    } else {
                        assert(tally_views(r@)[a] == t[a] && tally_views(r@)[b] == t[b]);
                    }
                }
            }
        }
        i += 1;
    }
    assert(ks.take(keys.len() as int) =~= ks);
    r
}

/// (key, count) of each counted key.
pub open spec fn tally_views(v: Seq<(String, usize)>) -> Seq<(Seq<char>, nat)> {
    v.map_values(|e: (String, usize)| (e.0@, e.1 as nat))
}

/// The count of a tally entry.
pub open spec fn tally_count(e: (Seq<char>, nat)) -> nat {
    e.1
}

/// Ranks counted keys by decreasing count, ties in their first-seen order.
pub(crate) fn rank_counts(v: Vec<(String, usize)>) -> (r: Vec<(String, usize)>)
    ensures
        tally_views(r@) == sort_desc(tally_views(v@), |e: (Seq<char>, nat)| tally_count(e)),
{
    let ghost key = |e: (Seq<char>, nat)| tally_count(e);
    let ghost tv = tally_views(v@);
    let mut out: Vec<(String, usize)> = Vec::new();
    let mut i: usize = 0;
    assert(tally_views(out@) =~= sort_desc(tv.take(0), key));
    while i < v.len()
        invariant
            tv == tally_views(v@),
            i <= v.len(),
            tally_views(out@) == sort_desc(tv.take(i as int), key),
            ranked_desc(tally_views(out@), key),
            key == (|e: (Seq<char>, nat)| tally_count(e)),
        decreases v.len() - i,
    {
        let x = &v[i];
        let ghost t = tally_views(out@);
        let mut j: usize = 0;
        while j < out.len()
            invariant
                t == tally_views(out@),
                j <= out.len(),
                *x == v@[i as int],
                forall|a: int| 0 <= a < j ==> key(#[trigger] t[a]) >= x.1,
                key == (|e: (Seq<char>, nat)| tally_count(e)),
            ensures
                j <= out.len(),
                forall|a: int| 0 <= a < j ==> key(#[trigger] t[a]) >= x.1,
                j < out.len() ==> key(t[j as int]) < x.1,
            decreases out.len() - j,
        {
            if out[j].1 < x.1 {
                break;
            }
            j += 1;
        }
        proof {
            assert(tv[i as int] == (x.0@, x.1 as nat));
            lemma_insert_desc_at(t, tv[i as int], key, j as int);
            assert(tv.take(i + 1).drop_last() =~= tv.take(i as int));
        }
        out.insert(j, (x.0.clone(), x.1));
        assert(tally_views(out@) =~= t.insert(j as int, tv[i as int]));
        i += 1;
    }
    assert(tv.take(v.len() as int) =~= tv);
    out
}

// ── Error clusters ─────────────────────────────────────────────────────

/// Levels whose lines are clustered.
pub open spec fn clustered_level(l: Seq<char>) -> bool {
    l == "ERROR"@ || l == "CRITICAL"@ || l == "FATAL"@ || l == "WARN"@ || l == "WARNING"@
}

/// A group of similar error lines.
#[derive(Clone, Debug)]
pub struct ErrorCluster {
    /// The normalised message.
    pub pattern: String,
    pub count: usize,
    /// Earliest and latest timestamps seen in the cluster.
    pub first_seen: String,
    pub last_seen: String,
    /// The first raw line of the cluster.
    pub sample: String,
    pub level: String,
}

/// (pattern, count, first seen, last seen, sample, level).
pub open spec fn cluster_views(v: Seq<ErrorCluster>) -> Seq<(Seq<char>, nat, Seq<char>, Seq<char>, Seq<char>, Seq<char>)> {
    v.map_values(|c: ErrorCluster| (c.pattern@, c.count as nat, c.first_seen@, c.last_seen@, c.sample@, c.level@))
}

/// The clusters after one more error line `p`.
pub open spec fn cluster_step(
    cs: Seq<(Seq<char>, nat, Seq<char>, Seq<char>, Seq<char>, Seq<char>)>,
    p: (Seq<char>, Seq<char>, Seq<char>, Seq<char>, Seq<char>),
) -> Seq<(Seq<char>, nat, Seq<char>, Seq<char>, Seq<char>, Seq<char>)> {
    let pat = pattern_spec(p.3);
    let ts = p.0;
    if exists|i: int| 0 <= i < cs.len() && cs[i].0 == pat {
        let i = choose|i: int| 0 <= i < cs.len() && cs[i].0 == pat;
        let c = cs[i];
        cs.update(i, (
            pat,
            c.1 + 1,
            if ts.len() > 0 && (lex_lt(ts, c.2) || c.2.len() == 0) { ts } else { c.2 },
            if ts.len() > 0 && lex_lt(c.3, ts) { ts } else { c.3 },
            c.4,
            c.5,
        ))
    } else {
        cs.push((pat, 1, ts, ts, p.4, p.1))
    }
}

/// The clusters of the error lines among the first `n` parsed lines, in
/// order of first appearance.
pub open spec fn clusters_upto(
    ps: Seq<(Seq<char>, Seq<char>, Seq<char>, Seq<char>, Seq<char>)>,
    n: int,
) -> Seq<(Seq<char>, nat, Seq<char>, Seq<char>, Seq<char>, Seq<char>)>
    decreases n,
{
    if n <= 0 {
        Seq::empty()
    } else if clustered_level(ps[n - 1].1) {
        cluster_step(clusters_upto(ps, n - 1), ps[n - 1])
    } else {
        clusters_upto(ps, n - 1)
    }
}

/// The count of a cluster.
pub open spec fn cluster_count(c: (Seq<char>, nat, Seq<char>, Seq<char>, Seq<char>, Seq<char>)) -> nat {
    c.1
}

/// `a < b` in `String`'s order, decided.
fn str_lt(a: &String, b: &String) -> (r: bool)
    ensures
        r == lex_lt(a@, b@),
{
    let av = chars_of(a.as_str());
    let bv = chars_of(b.as_str());
    lex_leq(&av, &bv) && !same(&av, &bv)
}

fn is_clustered(level: &String) -> (b: bool)
    ensures
        b == clustered_level(level@),
{
    let v = chars_of(level.as_str());
    eq_lit(&v, "ERROR") || eq_lit(&v, "CRITICAL") || eq_lit(&v, "FATAL") || eq_lit(&v, "WARN") || eq_lit(&v, "WARNING")
}

/// Groups the error lines of `parsed` by pattern.
fn cluster_errors(parsed: &Vec<ParsedLine>) -> (r: Vec<ErrorCluster>)
    ensures
        cluster_views(r@) == clusters_upto(parsed_views(parsed@), parsed@.len() as int),
{
    let ghost ps = parsed_views(parsed@);
    let mut cs: Vec<ErrorCluster> = Vec::new();
    let mut i: usize = 0;
    assert(cluster_views(cs@) =~= clusters_upto(ps, 0));
    while i < parsed.len()
        invariant
            ps == parsed_views(parsed@),
            i <= parsed.len(),
            cluster_views(cs@) == clusters_upto(ps, i as int),
            forall|a: int, b: int| 0 <= a < b < cs@.len() ==> #[trigger] cluster_views(cs@)[a].0 != #[trigger] cluster_views(cs@)[b].0,
            forall|a: int| 0 <= a < cs@.len() ==> (#[trigger] cs@[a]).count <= i,
        decreases parsed.len() - i,
    {
        let p = &parsed[i];
        assert(ps[i as int] == p@);
        let ghost cv = cluster_views(cs@);
        if is_clustered(&p.level) {
            let pat = normalize_pattern(p.message.as_str());
            let mut j: usize = 0;
            while j < cs.len()
                invariant
                    cv == cluster_views(cs@),
                    j <= cs.len(),
                    forall|a: int| 0 <= a < j ==> #[trigger] cv[a].0 != pat@,
                ensures
                    j <= cs.len(),
                    forall|a: int| 0 <= a < j ==> #[trigger] cv[a].0 != pat@,
                    j < cs.len() ==> cv[j as int].0 == pat@,
                decreases cs.len() - j,
            {
                if cs[j].pattern == pat {
                    break;
                }
                j += 1;
            }
            if j < cs.len() {
                proof {
                    let c = choose|c: int| 0 <= c < cv.len() && cv[c].0 == pat@;
                    if c < j {
                        assert(cv[c].0 != pat@);
                    } else if c > j {
                        assert(cv[j as int].0 != cv[c].0);
                    }
                }
                let old_c = &cs[j];
                let ts = &p.timestamp;
                let first = if !ts.as_str().is_empty() && (str_lt(ts, &old_c.first_seen) || old_c.first_seen.as_str().is_empty()) {
                    ts.clone()
                } else {
                    old_c.first_seen.clone()
                };
                let last = if !ts.as_str().is_empty() && str_lt(&old_c.last_seen, ts) {
                    ts.clone()
                } else {
                    old_c.last_seen.clone()
                };
                let nc = ErrorCluster {
                    pattern: pat,
                    count: old_c.count + 1,
                    first_seen: first,
                    last_seen: last,
                    sample: old_c.sample.clone(),
                    level: old_c.level.clone(),
                };
                cs.set(j, nc);
                proof {
                    assert(cluster_views(cs@) =~= cluster_step(cv, ps[i as int]));
                    assert forall|a: int, b: int| 0 <= a < b < cs@.len() implies #[trigger] cluster_views(cs@)[a].0 != #[trigger] cluster_views(cs@)[b].0 by {
                        assert(cluster_views(cs@)[a].0 == cv[a].0 && cluster_views(cs@)[b].0 == cv[b].0);
                    }
                }
            } else {
                let nc = ErrorCluster {
                    pattern: pat,
                    count: 1,
                    first_seen: p.timestamp.clone(),
                    last_seen: p.timestamp.clone(),
                    sample: p.raw.clone(),
                    level: p.level.clone(),
                };
                cs.push(nc);
                proof {
                    assert(cluster_views(cs@) =~= cluster_step(cv, ps[i as int]));
                    assert forall|a: int, b: int| 0 <= a < b < cs@.len() implies #[trigger] cluster_views(cs@)[a].0 != #[trigger] cluster_views(cs@)[b].0 by {
                        if b == cs@.len() - 1 {
                            assert(cluster_views(cs@)[a] == cv[a]);
                        } else {
                            assert(cluster_views(cs@)[a] == cv[a] && cluster_views(cs@)[b] == cv[b]);
                        }
                    }
                }
            }
        }
        i += 1;
    }
    cs
}

/// Ranks clusters by decreasing count, ties in first-seen order.
fn rank_clusters(v: Vec<ErrorCluster>) -> (r: Vec<ErrorCluster>)
    ensures
        cluster_views(r@) == sort_desc(cluster_views(v@), |c: (Seq<char>, nat, Seq<char>, Seq<char>, Seq<char>, Seq<char>)| cluster_count(c)),
{
    let ghost key = |c: (Seq<char>, nat, Seq<char>, Seq<char>, Seq<char>, Seq<char>)| cluster_count(c);
    let ghost cv = cluster_views(v@);
    let mut out: Vec<ErrorCluster> = Vec::new();
    let mut i: usize = 0;
    assert(cluster_views(out@) =~= sort_desc(cv.take(0), key));
    while i < v.len()
        invariant
            cv == cluster_views(v@),
            i <= v.len(),
            cluster_views(out@) == sort_desc(cv.take(i as int), key),
            ranked_desc(cluster_views(out@), key),
            key == (|c: (Seq<char>, nat, Seq<char>, Seq<char>, Seq<char>, Seq<char>)| cluster_count(c)),
        decreases v.len() - i,
    {
        let x = &v[i];
        let ghost t = cluster_views(out@);
        let mut j: usize = 0;
        while j < out.len()
            invariant
                t == cluster_views(out@),
                j <= out.len(),
                forall|a: int| 0 <= a < j ==> key(#[trigger] t[a]) >= x.count,
                key == (|c: (Seq<char>, nat, Seq<char>, Seq<char>, Seq<char>, Seq<char>)| cluster_count(c)),
            ensures
                j <= out.len(),
                forall|a: int| 0 <= a < j ==> key(#[trigger] t[a]) >= x.count,
                j < out.len() ==> key(t[j as int]) < x.count,
            decreases out.len() - j,
        {
            if out[j].count < x.count {
                break;
            }
            j += 1;
        }
        proof {
            assert(cv[i as int] == (x.pattern@, x.count as nat, x.first_seen@, x.last_seen@, x.sample@, x.level@));
            lemma_insert_desc_at(t, cv[i as int], key, j as int);
            assert(cv.take(i + 1).drop_last() =~= cv.take(i as int));
        }
        let copy = ErrorCluster {
            pattern: x.pattern.clone(),
            count: x.count,
            first_seen: x.first_seen.clone(),
            last_seen: x.last_seen.clone(),
            sample: x.sample.clone(),
            level: x.level.clone(),
        };
        out.insert(j, copy);
        proof {
            assert(cluster_views(out@) =~= t.insert(j as int, cv[i as int]));
        }
        i += 1;
    }
    assert(cv.take(v.len() as int) =~= cv);
    out
}

// ── The analysis ───────────────────────────────────────────────────────

/// The outcome of analysing a batch of log lines.
#[derive(Clone, Debug)]
pub struct LogAnalysisResult {
    pub total_lines: usize,
    /// Lines that yielded a level or a timestamp.
    pub parsed_lines: usize,
    /// Lines per level, in order of first appearance.
    pub levels: Vec<(String, usize)>,
    /// The 50 largest clusters of error and warning lines.
    pub error_clusters: Vec<ErrorCluster>,
    pub timeline: Vec<TimelineBucket>,
    /// The 10 most frequent sources.
    pub top_sources: Vec<(String, usize)>,
    pub format_detected: String,
}

/// The non-blank lines parsed in the given format.
pub open spec fn parse_all(lines: Seq<Seq<char>>, fmt: Seq<char>) -> Seq<(Seq<char>, Seq<char>, Seq<char>, Seq<char>, Seq<char>)> {
    nonblank(lines).map_values(|l: Seq<char>| line_spec(l, fmt))
}

/// Parsed lines that yielded a level or a timestamp, among the first `n`.
pub open spec fn structured_count(ps: Seq<(Seq<char>, Seq<char>, Seq<char>, Seq<char>, Seq<char>)>, n: int) -> nat
    decreases n,
{
    if n <= 0 {
        0
    } else if ps[n - 1].1.len() > 0 || ps[n - 1].0.len() > 0 {
        structured_count(ps, n - 1) + 1
    } else {
        structured_count(ps, n - 1)
    }
}

/// At most the first `n` of `s`.
pub open spec fn first_n<T>(s: Seq<T>, n: nat) -> Seq<T> {
    if s.len() <= n {
        s
    } else {
        s.take(n as int)
    }
}

/// What the analysis reports for parsed lines, besides the counts of lines.
pub open spec fn levels_of(ps: Seq<(Seq<char>, Seq<char>, Seq<char>, Seq<char>, Seq<char>)>) -> Seq<Seq<char>> {
    ps.map_values(|p: (Seq<char>, Seq<char>, Seq<char>, Seq<char>, Seq<char>)| p.1)
}

pub open spec fn sources_of(ps: Seq<(Seq<char>, Seq<char>, Seq<char>, Seq<char>, Seq<char>)>) -> Seq<Seq<char>> {
    ps.map_values(|p: (Seq<char>, Seq<char>, Seq<char>, Seq<char>, Seq<char>)| p.2)
}

/// The analysis of parsed lines matches the spec in every field.
pub open spec fn analysis_matches(
    r: LogAnalysisResult,
    total: nat,
    ps: Seq<(Seq<char>, Seq<char>, Seq<char>, Seq<char>, Seq<char>)>,
    fmt: Seq<char>,
    bm: nat,
) -> bool {
    &&& r.total_lines == total
    &&& r.parsed_lines == structured_count(ps, ps.len() as int)
    &&& tally_views(r.levels@) == tally(levels_of(ps))
    &&& cluster_views(r.error_clusters@) == first_n(
        sort_desc(clusters_upto(ps, ps.len() as int), |c: (Seq<char>, nat, Seq<char>, Seq<char>, Seq<char>, Seq<char>)| cluster_count(c)),
        50,
    )
    &&& bucket_views(r.timeline@) == timeline_spec(ps, bm)
    &&& key_sorted(bucket_views(r.timeline@))
    &&& entries_map(bucket_views(r.timeline@)) == bucket_counts(ps, bm, ps.len() as int)
    &&& tally_views(r.top_sources@) == first_n(sort_desc(tally(sources_of(ps)), |e: (Seq<char>, nat)| tally_count(e)), 10)
    &&& r.format_detected@ == fmt
}

/// Levels, sources, clusters and timeline of already parsed lines.
pub fn analyze_parsed(total_lines: usize, parsed: &Vec<ParsedLine>, format: String, bucket_minutes: usize) -> (r: LogAnalysisResult)
    requires
        bucket_minutes >= 1,
        forall|i: int| 0 <= i < parsed.len() ==> bucketable(#[trigger] parsed@[i].timestamp@, bucket_minutes as nat),
    ensures
        analysis_matches(r, total_lines as nat, parsed_views(parsed@), format@, bucket_minutes as nat),
{
    let ghost ps = parsed_views(parsed@);
    let mut structured: usize = 0;
    let mut levels: Vec<String> = Vec::new();
    let mut sources: Vec<String> = Vec::new();
    let mut i: usize = 0;
    while i < parsed.len()
        invariant
            ps == parsed_views(parsed@),
            i <= parsed.len(),
            structured == structured_count(ps, i as int),
            structured <= i,
            crate::text::views(levels@) == levels_of(ps.take(i as int)),
            crate::text::views(sources@) == sources_of(ps.take(i as int)),
        decreases parsed.len() - i,
    {
        let p = &parsed[i];
        assert(ps[i as int] == p@);
        if !p.level.as_str().is_empty() || !p.timestamp.as_str().is_empty() {
            structured += 1;
        }
        let ghost lv = crate::text::views(levels@);
        let ghost sv = crate::text::views(sources@);
        levels.push(p.level.clone());
        sources.push(p.source.clone());
        assert(crate::text::views(levels@) =~= lv.push(p.level@));
        assert(crate::text::views(sources@) =~= sv.push(p.source@));
        assert(levels_of(ps.take(i + 1)) =~= levels_of(ps.take(i as int)).push(p.level@));
        assert(sources_of(ps.take(i + 1)) =~= sources_of(ps.take(i as int)).push(p.source@));
        i += 1;
    }
    assert(ps.take(parsed.len() as int) =~= ps);
    let level_counts = count_keys(&levels, true);
    let source_counts = count_keys(&sources, true);
    let mut top_sources = rank_counts(source_counts);
    let ghost ranked_sources = tally_views(top_sources@);
    top_sources.truncate(10);
    assert(tally_views(top_sources@) =~= first_n(ranked_sources, 10));
    let clusters = cluster_errors(parsed);
    let mut ranked = rank_clusters(clusters);
    let ghost ranked_v = cluster_views(ranked@);
    ranked.truncate(50);
    assert(cluster_views(ranked@) =~= first_n(ranked_v, 50));
    let timeline = build_timeline(parsed, bucket_minutes);
    LogAnalysisResult {
        total_lines,
        parsed_lines: structured,
        levels: level_counts,
        error_clusters: ranked,
        timeline,
        top_sources,
        format_detected: format,
    }
}

/// Analyses log lines: detects the format, parses every non-blank line,
/// and reports levels, sources, error clusters and a timeline with buckets
/// of `bucket_minutes`. `None` when a timestamp of 16 bytes or more cannot
/// be cut at byte 13 (or 14 and 16, for buckets under an hour) on a
/// character boundary.
pub fn analyze_lines(lines: &Vec<String>, bucket_minutes: usize) -> (r: Option<LogAnalysisResult>)
    requires
        bucket_minutes >= 1,
    ensures
        lines.len() == 0 ==> (r matches Some(a) && a.total_lines == 0 && a.parsed_lines == 0 && a.levels@.len() == 0
            && a.error_clusters@.len() == 0 && a.timeline@.len() == 0 && a.top_sources@.len() == 0
            && a.format_detected@ == "empty"@),
        lines.len() > 0 ==> ({
            let fmt = format_spec(crate::text::views(lines@));
            let ps = parse_all(crate::text::views(lines@), fmt);
            &&& (r is None <==> exists|i: int| 0 <= i < ps.len() && !bucketable(#[trigger] ps[i].0, bucket_minutes as nat))
            &&& (r matches Some(a) ==> analysis_matches(a, lines.len() as nat, ps, fmt, bucket_minutes as nat))
        }),
{
    if lines.len() == 0 {
        return Some(LogAnalysisResult {
            total_lines: 0,
            parsed_lines: 0,
            levels: Vec::new(),
            error_clusters: Vec::new(),
            timeline: Vec::new(),
            top_sources: Vec::new(),
            format_detected: String::from_str("empty"),
        });
    }
    let format = detect_format(lines);
    let ghost ls = crate::text::views(lines@);
    let ghost fmt = format@;
    let mut parsed: Vec<ParsedLine> = Vec::new();
    let mut ok = true;
    let mut i: usize = 0;
    assert(parsed_views(parsed@) =~= nonblank(ls.take(0)).map_values(|l: Seq<char>| line_spec(l, fmt)));
    while i < lines.len()
        invariant
            ls == crate::text::views(lines@),
            fmt == format@,
            bucket_minutes >= 1,
            i <= lines.len(),
            parsed_views(parsed@) == nonblank(ls.take(i as int)).map_values(|l: Seq<char>| line_spec(l, fmt)),
            ok == forall|j: int| 0 <= j < parsed@.len() ==> bucketable(#[trigger] parsed@[j].timestamp@, bucket_minutes as nat),
        decreases lines.len() - i,
    {
        let ghost pre = ls.take(i as int);
        assert(ls.take(i + 1).drop_last() =~= pre);
        assert(ls.take(i + 1).last() == lines@[i as int]@);
        let ghost before = parsed@;
        if !blank(&lines[i]) {
            let p = parse_line(lines[i].as_str(), format.as_str());
            let t = p.timestamp.as_str();
            let b = t.as_bytes();
            let fits = if b.len() >= 16 {
                t.is_char_boundary(13) && (bucket_minutes >= 60 || (t.is_char_boundary(14) && t.is_char_boundary(16)))
            } else {
                true
            };
            assert(fits == bucketable(p.timestamp@, bucket_minutes as nat));
            parsed.push(p);
            proof {
                assert(parsed_views(parsed@) =~= parsed_views(before).push(line_spec(lines@[i as int]@, fmt)));
                assert(nonblank(ls.take(i + 1)) == nonblank(pre).push(lines@[i as int]@));
                assert(nonblank(ls.take(i + 1)).map_values(|l: Seq<char>| line_spec(l, fmt))
                    =~= nonblank(pre).map_values(|l: Seq<char>| line_spec(l, fmt)).push(line_spec(lines@[i as int]@, fmt)));
                if ok && fits {
                    assert forall|j: int| 0 <= j < parsed@.len() implies bucketable(#[trigger] parsed@[j].timestamp@, bucket_minutes as nat) by {
                        if j < before.len() {
                            assert(parsed@[j] == before[j]);
                        }
                    }
                }
                if !fits {
                    assert(!bucketable(parsed@[before.len() as int].timestamp@, bucket_minutes as nat));
                }
                if !ok {
                    let j = choose|j: int| 0 <= j < before.len() && !bucketable(#[trigger] before[j].timestamp@, bucket_minutes as nat);
                    assert(parsed@[j] == before[j]);
                }
            }
            ok = ok && fits;
        } else {
            assert(nonblank(ls.take(i + 1)) == nonblank(pre));
        }
        i += 1;
    }
    assert(ls.take(lines.len() as int) =~= ls);
    let ghost ps = parse_all(ls, fmt);
    assert(parsed_views(parsed@) == ps);
    proof {
        assert forall|j: int| 0 <= j < ps.len() implies ps[j].0 == parsed@[j].timestamp@ by {
            assert(parsed_views(parsed@)[j] == parsed@[j]@);
        }
    }
    if !ok {
        proof {
            let j = choose|j: int| 0 <= j < parsed@.len() && !bucketable(#[trigger] parsed@[j].timestamp@, bucket_minutes as nat);
            assert(ps[j].0 == parsed@[j].timestamp@);
        }
        return None;
    }
    proof {
        assert forall|j: int| 0 <= j < ps.len() implies bucketable(#[trigger] ps[j].0, bucket_minutes as nat) by {
            assert(ps[j].0 == parsed@[j].timestamp@);
        }
    }
    Some(analyze_parsed(lines.len(), &parsed, format, bucket_minutes))
}

/// The analysis the UI asks for: `bucket_minutes` defaults to an hour and
/// is held between 1 and 1440.
pub fn analyze_log_patterns(lines: &Vec<String>, bucket_minutes: Option<usize>) -> (r: Option<LogAnalysisResult>)
    ensures
        ({
            let bm = match bucket_minutes {
                Some(b) => if b < 1 { 1 } else if b > 1440 { 1440 } else { b },
                None => 60,
            };
            lines.len() > 0 ==> ({
                let fmt = format_spec(crate::text::views(lines@));
                let ps = parse_all(crate::text::views(lines@), fmt);
                &&& (r is None <==> exists|i: int| 0 <= i < ps.len() && !bucketable(#[trigger] ps[i].0, bm as nat))
                &&& (r matches Some(a) ==> analysis_matches(a, lines.len() as nat, ps, fmt, bm as nat))
            })
        }),
        lines.len() == 0 ==> r is Some,
{
    let bm: usize = match bucket_minutes {
        Some(b) => if b < 1 { 1 } else if b > 1440 { 1440 } else { b },
        None => 60,
    };
    analyze_lines(lines, bm)
}


// ── Laws ───────────────────────────────────────────────────────────────

/// The summed counts of clusters.
pub open spec fn counts_sum(cs: Seq<(Seq<char>, nat, Seq<char>, Seq<char>, Seq<char>, Seq<char>)>) -> nat
    decreases cs.len(),
{
    if cs.len() == 0 {
        0
    } else {
        counts_sum(cs.drop_last()) + cs.last().1
    }
}

/// The number of error and warning lines among the first `n` parsed lines.
pub open spec fn clustered_lines(ps: Seq<(Seq<char>, Seq<char>, Seq<char>, Seq<char>, Seq<char>)>, n: int) -> nat
    decreases n,
{
    if n <= 0 {
        0
    } else {
        clustered_lines(ps, n - 1) + if clustered_level(ps[n - 1].1) { 1nat } else { 0nat }
    }
}

proof fn lemma_counts_sum_update(
    cs: Seq<(Seq<char>, nat, Seq<char>, Seq<char>, Seq<char>, Seq<char>)>,
    i: int,
    v: (Seq<char>, nat, Seq<char>, Seq<char>, Seq<char>, Seq<char>),
)
    requires
        0 <= i < cs.len(),
    ensures
        counts_sum(cs.update(i, v)) + cs[i].1 == counts_sum(cs) + v.1,
    decreases cs.len(),
{
    let u = cs.update(i, v);
    if i == cs.len() - 1 {
        assert(u.drop_last() =~= cs.drop_last());
    } else {
        lemma_counts_sum_update(cs.drop_last(), i, v);
        assert(u.drop_last() =~= cs.drop_last().update(i, v));
    }
}

/// Taking the first entries of a ranked list keeps it ranked and at most
/// that long.
proof fn lemma_first_n_ranked<T>(s: Seq<T>, n: nat, key: spec_fn(T) -> nat)
    requires
        ranked_desc(s, key),
    ensures
        ranked_desc(first_n(s, n), key),
        first_n(s, n).len() <= n,
{
    let f = first_n(s, n);
    assert forall|a: int, b: int| 0 <= a < b < f.len() implies key(#[trigger] f[a]) >= key(#[trigger] f[b]) by {
        assert(f[a] == s[a] && f[b] == s[b]);
    }
}

/// The number of lines that yielded a level or a timestamp is at most
/// the number of lines.
proof fn lemma_structured_bound(ps: Seq<(Seq<char>, Seq<char>, Seq<char>, Seq<char>, Seq<char>)>, n: int)
    requires
        0 <= n,
    ensures
        structured_count(ps, n) <= n,
    decreases n,
{
    if n > 0 {
        lemma_structured_bound(ps, n - 1);
    }
}

/// What an analysis reports is bounded and ranked: at most as many parsed
/// lines as lines, at most 10 sources and 50 clusters, each list by
/// decreasing count, and the timeline's buckets in strictly increasing
/// order.
pub proof fn law_analysis_is_bounded_and_ranked(
    r: LogAnalysisResult,
    total: nat,
    ps: Seq<(Seq<char>, Seq<char>, Seq<char>, Seq<char>, Seq<char>)>,
    fmt: Seq<char>,
    bm: nat,
)
    requires
        analysis_matches(r, total, ps, fmt, bm),
    ensures
        r.parsed_lines <= ps.len(),
        r.top_sources@.len() <= 10,
        r.error_clusters@.len() <= 50,
        ranked_desc(tally_views(r.top_sources@), |e: (Seq<char>, nat)| tally_count(e)),
        ranked_desc(
            cluster_views(r.error_clusters@),
            |c: (Seq<char>, nat, Seq<char>, Seq<char>, Seq<char>, Seq<char>)| cluster_count(c),
        ),
        key_sorted(bucket_views(r.timeline@)),
{
    lemma_structured_bound(ps, ps.len() as int);
    let tk = |e: (Seq<char>, nat)| tally_count(e);
    let ck = |c: (Seq<char>, nat, Seq<char>, Seq<char>, Seq<char>, Seq<char>)| cluster_count(c);
    lemma_sort_desc_ranked(tally(sources_of(ps)), tk);
    lemma_first_n_ranked(sort_desc(tally(sources_of(ps)), tk), 10, tk);
    lemma_sort_desc_ranked(clusters_upto(ps, ps.len() as int), ck);
    lemma_first_n_ranked(sort_desc(clusters_upto(ps, ps.len() as int), ck), 50, ck);
    assert(tally_views(r.top_sources@).len() == r.top_sources@.len());
    assert(cluster_views(r.error_clusters@).len() == r.error_clusters@.len());
}

/// The error clusters account for every error and warning line: their
/// counts add up to the number of such lines.
pub proof fn law_clusters_count_every_error_line(ps: Seq<(Seq<char>, Seq<char>, Seq<char>, Seq<char>, Seq<char>)>, n: int)
    requires
        0 <= n <= ps.len(),
    ensures
        counts_sum(clusters_upto(ps, n)) == clustered_lines(ps, n),
    decreases n,
{
    if n > 0 {
        law_clusters_count_every_error_line(ps, n - 1);
        if clustered_level(ps[n - 1].1) {
            let cs = clusters_upto(ps, n - 1);
            let p = ps[n - 1];
            let pat = pattern_spec(p.3);
            if exists|i: int| 0 <= i < cs.len() && cs[i].0 == pat {
                let i = choose|i: int| 0 <= i < cs.len() && cs[i].0 == pat;
                let c = cs[i];
                let ts = p.0;
                lemma_counts_sum_update(cs, i, (
                    pat,
                    c.1 + 1,
                    if ts.len() > 0 && (lex_lt(ts, c.2) || c.2.len() == 0) { ts } else { c.2 },
                    if ts.len() > 0 && lex_lt(c.3, ts) { ts } else { c.3 },
                    c.4,
                    c.5,
                ));
            } else {
                let x = (pat, 1nat, p.0, p.0, p.4, p.1);
                assert(cs.push(x).drop_last() =~= cs);
            }
        }
    }
}


/// The summed counts of a tally.
pub open spec fn tally_total(t: Seq<(Seq<char>, nat)>) -> nat
    decreases t.len(),
{
    if t.len() == 0 {
        0
    } else {
        tally_total(t.drop_last()) + t.last().1
    }
}

/// The number of non-empty keys.
pub open spec fn nonempty_count(keys: Seq<Seq<char>>) -> nat
    decreases keys.len(),
{
    if keys.len() == 0 {
        0
    } else {
        nonempty_count(keys.drop_last()) + if keys.last().len() > 0 { 1nat } else { 0nat }
    }
}

/// The summed line counts of timeline buckets.
pub open spec fn bucket_total(s: Seq<(Seq<char>, (nat, nat, nat))>) -> nat
    decreases s.len(),
{
    if s.len() == 0 {
        0
    } else {
        bucket_total(s.drop_last()) + s.last().1.2
    }
}

/// The number of lines with a timestamp among the first `n` parsed lines.
pub open spec fn timestamped_lines(ps: Seq<(Seq<char>, Seq<char>, Seq<char>, Seq<char>, Seq<char>)>, n: int) -> nat
    decreases n,
{
    if n <= 0 {
        0
    } else {
        timestamped_lines(ps, n - 1) + if ps[n - 1].0.len() > 0 { 1nat } else { 0nat }
    }
}

proof fn lemma_tally_total_update(t: Seq<(Seq<char>, nat)>, i: int, v: (Seq<char>, nat))
    requires
        0 <= i < t.len(),
    ensures
        tally_total(t.update(i, v)) + t[i].1 == tally_total(t) + v.1,
    decreases t.len(),
{
    let u = t.update(i, v);
    if i == t.len() - 1 {
        assert(u.drop_last() =~= t.drop_last());
    } else {
        lemma_tally_total_update(t.drop_last(), i, v);
        assert(u.drop_last() =~= t.drop_last().update(i, v));
    }
}

/// A tally of non-empty keys counts each of them once.
proof fn lemma_tally_total(keys: Seq<Seq<char>>)
    ensures
        tally_total(tally(keys)) == nonempty_count(keys),
    decreases keys.len(),
{
    if keys.len() > 0 {
        lemma_tally_total(keys.drop_last());
        let t = tally_keys(keys.drop_last(), true);
        let k = keys.last();
        if k.len() == 0 {
        } else if exists|i: int| 0 <= i < t.len() && t[i].0 == k {
            let i = choose|i: int| 0 <= i < t.len() && t[i].0 == k;
            lemma_tally_total_update(t, i, (k, t[i].1 + 1));
        } else {
            assert(t.push((k, 1nat)).drop_last() =~= t);
        }
    }
}

/// A line with a level yielded a level or a timestamp.
proof fn lemma_levels_within_structured(ps: Seq<(Seq<char>, Seq<char>, Seq<char>, Seq<char>, Seq<char>)>, n: int)
    requires
        0 <= n <= ps.len(),
    ensures
        nonempty_count(levels_of(ps.take(n))) <= structured_count(ps, n),
    decreases n,
{
    if n > 0 {
        lemma_levels_within_structured(ps, n - 1);
        assert(levels_of(ps.take(n)).drop_last() =~= levels_of(ps.take(n - 1)));
        assert(levels_of(ps.take(n)).last() == ps[n - 1].1);
    }
}

/// Dropping one bucket takes its line count off the total.
proof fn lemma_bucket_total_remove(s: Seq<(Seq<char>, (nat, nat, nat))>, i: int)
    requires
        0 <= i < s.len(),
    ensures
        bucket_total(s) == bucket_total(s.remove(i)) + s[i].1.2,
    decreases s.len(),
{
    if i == s.len() - 1 {
        assert(s.remove(i) =~= s.drop_last());
    } else {
        lemma_bucket_total_remove(s.drop_last(), i);
        assert(s.remove(i).drop_last() =~= s.drop_last().remove(i));
        assert(s.remove(i).last() == s.last());
    }
}

/// Any listing of the bucket counts of the first `n` lines adds up to the
/// number of those lines with a timestamp.
proof fn lemma_bucket_total_counts(
    ps: Seq<(Seq<char>, Seq<char>, Seq<char>, Seq<char>, Seq<char>)>,
    bm: nat,
    n: int,
    s: Seq<(Seq<char>, (nat, nat, nat))>,
)
    requires
        0 <= n <= ps.len(),
        distinct_keys(s),
        entries_map(s) == bucket_counts(ps, bm, n),
    ensures
        bucket_total(s) == timestamped_lines(ps, n),
    decreases n,
{
    if n == 0 {
        lemma_entries_len(s);
        assert(entries_map(s).dom() =~= Set::<Seq<char>>::empty());
    } else {
        let m0 = bucket_counts(ps, bm, n - 1);
        let ts = ps[n - 1].0;
        match bucket_key(ts, bm) {
            None => {
                lemma_bucket_total_counts(ps, bm, n - 1, s);
            },
            Some(k) => {
                assert(ts.len() > 0);
                let v = bump(if m0.dom().contains(k) { m0[k] } else { (0, 0, 0) }, ps[n - 1].1);
                assert(entries_map(s) == m0.insert(k, v));
                lemma_entries_dom(s, k);
                let i = choose|i: int| 0 <= i < s.len() && #[trigger] s[i].0 == k;
                lemma_entries_value(s, i);
                lemma_bucket_total_remove(s, i);
                if m0.dom().contains(k) {
                    let t = s.update(i, (k, m0[k]));
                    lemma_entries_update(s, i, m0[k]);
                    assert(entries_map(t) =~= m0);
                    lemma_bucket_total_counts(ps, bm, n - 1, t);
                    lemma_bucket_total_remove(t, i);
                    assert(t.remove(i) =~= s.remove(i));
                } else {
                    let t = s.remove(i);
                    assert(distinct_keys(t)) by {
                        assert forall|a: int, b: int| 0 <= a < b < t.len() implies #[trigger] t[a].0 != #[trigger] t[b].0 by {
                            let a2 = if a < i { a } else { a + 1 };
                            let b2 = if b < i { b } else { b + 1 };
                            assert(t[a] == s[a2] && t[b] == s[b2]);
                        }
                    }
                    assert(!entries_map(t).dom().contains(k)) by {
                        lemma_entries_dom(t, k);
                        if entries_map(t).dom().contains(k) {
                            let j = choose|j: int| 0 <= j < t.len() && #[trigger] t[j].0 == k;
                            let j2 = if j < i { j } else { j + 1 };
                            assert(t[j] == s[j2]);
                        }
                    }
                    assert(t.insert(i, s[i]) =~= s);
                    lemma_entries_insert_new(t, i, s[i]);
                    let et = entries_map(t);
                    assert(et.insert(k, s[i].1) == m0.insert(k, v));
                    assert forall|x: Seq<char>| #[trigger] et.dom().contains(x) <==> m0.dom().contains(x) by {
                        if x != k {
                            assert(et.insert(k, s[i].1).dom().contains(x) == et.dom().contains(x));
                            assert(m0.insert(k, v).dom().contains(x) == m0.dom().contains(x));
                        }
                    }
                    assert forall|x: Seq<char>| #[trigger] et.dom().contains(x) implies et[x] == m0[x] by {
                        assert(et.insert(k, s[i].1)[x] == et[x]);
                        assert(m0.insert(k, v)[x] == m0[x]);
                    }
                    assert(et =~= m0);
                    lemma_bucket_total_counts(ps, bm, n - 1, t);
                }
            },
        }
    }
}

/// The counts of an analysis account for every line: the level counts add
/// up to the number of lines with a level, which is at most the number of
/// lines that yielded a level or a timestamp, and the timeline's line
/// counts add up to the number of lines with a timestamp.
pub proof fn law_counts_cover_the_parsed_lines(
    r: LogAnalysisResult,
    total: nat,
    ps: Seq<(Seq<char>, Seq<char>, Seq<char>, Seq<char>, Seq<char>)>,
    fmt: Seq<char>,
    bm: nat,
)
    requires
        analysis_matches(r, total, ps, fmt, bm),
    ensures
        tally_total(tally_views(r.levels@)) == nonempty_count(levels_of(ps)),
        nonempty_count(levels_of(ps)) <= r.parsed_lines,
        bucket_total(bucket_views(r.timeline@)) == timestamped_lines(ps, ps.len() as int),
{
    lemma_tally_total(levels_of(ps));
    lemma_levels_within_structured(ps, ps.len() as int);
    assert(ps.take(ps.len() as int) =~= ps);
    let bv = bucket_views(r.timeline@);
    assert(distinct_keys(bv));
    lemma_bucket_total_counts(ps, bm, ps.len() as int, bv);
}


/// Level detection by keyword, case ignored: a text naming FATAL,
/// CRITICAL or PANIC is CRITICAL; otherwise one naming ERROR, FAIL or
/// EXCEPTION is ERROR; otherwise WARN gives WARNING, DEBUG or TRACE gives
/// DEBUG, INFO gives INFO; a text naming none of these has no level.
pub proof fn law_level_follows_keywords(text: Seq<char>)
    ensures
        ({
            let u = unicode_upper(text);
            let critical = contains(u, "FATAL"@) || contains(u, "CRITICAL"@) || contains(u, "PANIC"@);
            let error = contains(u, "ERROR"@) || contains(u, "FAIL"@) || contains(u, "EXCEPTION"@);
            let warn = contains(u, "WARN"@);
            let debug = contains(u, "DEBUG"@) || contains(u, "TRACE"@);
            let info = contains(u, "INFO"@);
            &&& critical ==> level_from_text(text) == "CRITICAL"@
            &&& !critical && error ==> level_from_text(text) == "ERROR"@
            &&& !critical && !error && warn ==> level_from_text(text) == "WARNING"@
            &&& !critical && !error && !warn && debug ==> level_from_text(text) == "DEBUG"@
            &&& !critical && !error && !warn && !debug && info ==> level_from_text(text) == "INFO"@
            &&& !critical && !error && !warn && !debug && !info ==> level_from_text(text).len() == 0
        }),
{
}

} // verus!
