//! File operations of the assistant, apart from the file system itself:
//! the first checks on a raw path, the numbered window `readlines` shows
//! of a file's text, and the order of a directory listing.
use vstd::prelude::*;
use crate::text::{append, ascii_lower, chars_of, contains, dec, decimal, has_prefix, has_sub, join, join_strings, lex_le, lex_leq, starts_with, string_of, to_ascii_lowercase, to_lowercase, unicode_lower, views, push_char};
use crate::keyed::lex_lt;

verus! {

// ── Raw paths ──────────────────────────────────────────────────────────

/// The refusal of a verbatim or device path.
pub const VERBATIM_REFUSAL: &'static str = "Path bloqueado: prefijos verbatim '\\\\?\\' o '\\\\.\\' no permitidos.";
/// The refusal of a path with `..`.
pub const TRAVERSAL_REFUSAL: &'static str = "Path traversal bloqueado: '..' no permitido.";

/// Why a raw path is refused before it is resolved: a `\\?\` or `\\.\`
/// prefix (ignoring ASCII case), or `..` anywhere.
pub open spec fn raw_path_refusal(raw: Seq<char>) -> Option<Seq<char>> {
    if starts_with(ascii_lower(raw), "\\\\?\\"@) || starts_with(ascii_lower(raw), "\\\\.\\"@) {
        Some(VERBATIM_REFUSAL@)
    } else if contains(raw, ".."@) {
        Some(TRAVERSAL_REFUSAL@)
    } else {
        None
    }
}

/// The checks on a raw path before it is resolved and canonicalized.
pub fn check_raw_path(raw: &str) -> (r: Result<(), String>)
    ensures
        match raw_path_refusal(raw@) {
            Some(m) => r matches Err(e) && e@ == m,
            None => r is Ok,
        },
{
    let lower = chars_of(to_ascii_lowercase(raw).as_str());
    if has_prefix(&lower, &chars_of("\\\\?\\")) || has_prefix(&lower, &chars_of("\\\\.\\")) {
        return Err(String::from_str(VERBATIM_REFUSAL));
    }
    if has_sub(&chars_of(raw), &chars_of("..")) {
        return Err(String::from_str(TRAVERSAL_REFUSAL));
    }
    Ok(())
}

// ── Line windows ───────────────────────────────────────────────────────

/// `s` right-aligned in `width` characters (what `{:>width}` prints).
pub open spec fn pad_left(s: Seq<char>, width: nat) -> Seq<char> {
    if s.len() >= width {
        s
    } else {
        Seq::new((width - s.len()) as nat, |i: int| ' ') + s
    }
}

/// `s` without its trailing `\n` and `\r` characters.
pub open spec fn strip_line_end(s: Seq<char>) -> Seq<char>
    decreases s.len(),
{
    if s.len() > 0 && (s.last() == '\n' || s.last() == '\r') {
        strip_line_end(s.drop_last())
    } else {
        s
    }
}

/// A numbered line: its number right-aligned in four columns, a bar, and
/// the line without its line break.
pub open spec fn numbered_line(n: nat, line: Seq<char>) -> Seq<char> {
    pad_left(decimal(n), 4) + "\u{2502} "@ + strip_line_end(line)
}

/// What `readlines` shows of a file of `lines` (as the file's rope cuts
/// them) from line `start` (one-based; 0 reads as 1), `count` lines: a
/// header and the numbered lines, or a note when `start` is past the end.
pub open spec fn line_window_text(lines: Seq<Seq<char>>, start: nat, count: nat) -> Seq<char> {
    let total = lines.len();
    let s: nat = if start == 0 { 0 } else { (start - 1) as nat };
    let e: nat = vstd::math::min((s + count) as int, total as int) as nat;
    if s >= total {
        "[Archivo tiene "@ + decimal(total) + " l\u{ed}neas, rango solicitado "@ + decimal(start) + " fuera de alcance]"@
    } else {
        "[L\u{ed}neas "@ + decimal(s + 1) + "-"@ + decimal(e) + " de "@ + decimal(total) + "]\n"@
            + join(Seq::new((e - s) as nat, |i: int| numbered_line((s + i + 1) as nat, lines[s + i])), "\n"@)
    }
}

fn pad4(n: usize) -> (r: String)
    ensures
        r@ == pad_left(decimal(n as nat), 4),
{
    let d = dec(n as u64);
    let dv = chars_of(d.as_str());
    if dv.len() >= 4 {
        return d;
    }
    let mut r = String::new();
    let mut k: usize = dv.len();
    while k < 4
        invariant
            dv.len() <= k <= 4,
            r@ == Seq::new((k - dv.len()) as nat, |i: int| ' '),
        decreases 4 - k,
    {
        push_char(&mut r, ' ');
        k += 1;
        assert(r@ =~= Seq::new((k - dv.len()) as nat, |i: int| ' '));
    }
    append(&mut r, d.as_str());
    r
}

fn strip_end(s: &str) -> (r: String)
    ensures
        r@ == strip_line_end(s@),
{
    let v = chars_of(s);
    let mut hi = v.len();
    assert(v@.subrange(0, hi as int) =~= v@);
    while hi > 0 && (v[hi - 1] == '\n' || v[hi - 1] == '\r')
        invariant
            hi <= v.len(),
            strip_line_end(v@) == strip_line_end(v@.subrange(0, hi as int)),
        decreases hi,
    {
        assert(v@.subrange(0, hi as int).drop_last() =~= v@.subrange(0, hi - 1));
        hi -= 1;
    }
    crate::text::string_of_range(&v, 0, hi)
}

/// The lines `ropey` cuts a text into: `Rope::from_str(text).lines()`,
/// each with its line break, the last one possibly empty.
pub uninterp spec fn rope_lines(text: Seq<char>) -> Seq<Seq<char>>;

/// `ropey::Rope::from_str` then `Rope::lines`, each line as a string.
#[verifier::external_body]
fn rope_line_split(text: &str) -> (v: Vec<String>)
    ensures
        views(v@) == rope_lines(text@),
{
    ropey::Rope::from_str(text).lines().map(|l| l.to_string()).collect()
}

/// The numbered window `readlines` shows of a file's text: its lines as
/// a rope cuts them, from line `start` (1-based), `count` of them.
pub fn file_line_window(content: &str, start: usize, count: usize) -> (r: String)
    requires
        (if start == 0 { 0 } else { start - 1 }) + count <= usize::MAX,
    ensures
        r@ == line_window_text(rope_lines(content@), start as nat, count as nat),
{
    let lines = rope_line_split(content);
    line_window(&lines, start, count)
}

/// The window of a file's lines that `readlines` shows.
pub fn line_window(lines: &Vec<String>, start: usize, count: usize) -> (r: String)
    requires
        (if start == 0 { 0 } else { start - 1 }) + count <= usize::MAX,
    ensures
        r@ == line_window_text(views(lines@), start as nat, count as nat),
{
    let ghost lv = views(lines@);
    let total = lines.len();
    let s: usize = if start == 0 { 0 } else { start - 1 };
    let e: usize = if s + count < total { s + count } else { total };
    if s >= total {
        let mut r = String::from_str("[Archivo tiene ");
        append(&mut r, dec(total as u64).as_str());
        append(&mut r, " l\u{ed}neas, rango solicitado ");
        append(&mut r, dec(start as u64).as_str());
        append(&mut r, " fuera de alcance]");
        return r;
    }
    let mut shown: Vec<String> = Vec::new();
    let mut i: usize = s;
    while i < e
        invariant
            s <= i <= e <= total,
            total == lines.len(),
            lv == views(lines@),
            views(shown@) == Seq::new((i - s) as nat, |k: int| numbered_line((s + k + 1) as nat, lv[s + k])),
        decreases e - i,
    {
        let mut line = pad4(i + 1);
        append(&mut line, "\u{2502} ");
        append(&mut line, strip_end(lines[i].as_str()).as_str());
        assert(lv[i as int] == lines@[i as int]@);
        let ghost before = views(shown@);
        shown.push(line);
        assert(views(shown@) =~= before.push(numbered_line((i + 1) as nat, lv[i as int])));
        assert(views(shown@) =~= Seq::new((i + 1 - s) as nat, |k: int| numbered_line((s + k + 1) as nat, lv[s + k])));
        i += 1;
    }
    let mut r = String::from_str("[L\u{ed}neas ");
    append(&mut r, dec((s + 1) as u64).as_str());
    append(&mut r, "-");
    append(&mut r, dec(e as u64).as_str());
    append(&mut r, " de ");
    append(&mut r, dec(total as u64).as_str());
    append(&mut r, "]\n");
    append(&mut r, join_strings(&shown, "\n").as_str());
    r
}

// ── Directory listings ─────────────────────────────────────────────────

/// One entry of a directory listing; `modified` is its local modification
/// time, already printed.
#[derive(Clone, Debug)]
pub struct DirEntryInfo {
    pub name: String,
    pub is_dir: bool,
    pub size: u64,
    pub modified: String,
}

/// An entry as plain values: name, whether a directory, size, time.
pub type DirEntryV = (Seq<char>, bool, nat, Seq<char>);

impl View for DirEntryInfo {
    type V = DirEntryV;

    open spec fn view(&self) -> DirEntryV {
        (self.name@, self.is_dir, self.size as nat, self.modified@)
    }
}

/// The views of a listing.
pub open spec fn entry_views(v: Seq<DirEntryInfo>) -> Seq<DirEntryV> {
    v.map_values(|e: DirEntryInfo| e@)
}

/// `a` is listed strictly before `b`: directories first, then by
/// lowercased name.
pub open spec fn listed_before(a: DirEntryV, b: DirEntryV) -> bool {
    (a.1 && !b.1) || (a.1 == b.1 && lex_lt(unicode_lower(a.0), unicode_lower(b.0)))
}

/// `x` placed after every trailing element of `s` it is not listed before
/// (one step of a stable sort).
pub open spec fn insert_entry(s: Seq<DirEntryV>, x: DirEntryV) -> Seq<DirEntryV>
    decreases s.len(),
{
    if s.len() == 0 {
        seq![x]
    } else if !listed_before(x, s.last()) {
        s.push(x)
    } else {
        insert_entry(s.drop_last(), x).push(s.last())
    }
}

/// The listing order: a stable sort, directories first, then by
/// lowercased name.
pub open spec fn listing_order(s: Seq<DirEntryV>) -> Seq<DirEntryV>
    decreases s.len(),
{
    if s.len() == 0 {
        Seq::empty()
    } else {
        insert_entry(listing_order(s.drop_last()), s.last())
    }
}

/// Number of trailing elements of `s` that `x` is listed before.
pub open spec fn after_tail(s: Seq<DirEntryV>, x: DirEntryV) -> nat
    decreases s.len(),
{
    if s.len() > 0 && listed_before(x, s.last()) {
        1 + after_tail(s.drop_last(), x)
    } else {
        0
    }
}

proof fn lemma_insert_entry(s: Seq<DirEntryV>, x: DirEntryV)
    ensures
        after_tail(s, x) <= s.len(),
        insert_entry(s, x) == s.take(s.len() - after_tail(s, x)) + seq![x] + s.skip(s.len() - after_tail(s, x)),
    decreases s.len(),
{
    if s.len() > 0 && listed_before(x, s.last()) {
        lemma_insert_entry(s.drop_last(), x);
        let p = s.len() - after_tail(s, x);
        assert(s.drop_last().take(p) =~= s.take(p));
        assert(s.drop_last().skip(p).push(s.last()) =~= s.skip(p));
        assert((s.take(p) + seq![x] + s.drop_last().skip(p)).push(s.last()) =~= s.take(p) + seq![x] + s.skip(p));
    } else {
        assert(s.take(s.len() as int) =~= s);
        assert(s.skip(s.len() as int) =~= Seq::<DirEntryV>::empty());
        assert(s.push(x) =~= s + seq![x]);
        if s.len() == 0 {
            assert(seq![x] =~= Seq::<DirEntryV>::empty() + seq![x] + Seq::<DirEntryV>::empty());
        }
    }
}

fn before(a: &DirEntryInfo, b: &DirEntryInfo) -> (r: bool)
    ensures
        r == listed_before(a@, b@),
{
    if a.is_dir && !b.is_dir {
        return true;
    }
    if a.is_dir != b.is_dir {
        return false;
    }
    let la = chars_of(to_lowercase(a.name.as_str()).as_str());
    let lb = chars_of(to_lowercase(b.name.as_str()).as_str());
    lex_leq(&la, &lb) && !crate::text::same(&la, &lb)
}

fn insert_listed(v: &mut Vec<DirEntryInfo>, x: DirEntryInfo)
    ensures
        entry_views(final(v)@) == insert_entry(entry_views(old(v)@), x@),
{
    let ghost s = entry_views(v@);
    let mut p = v.len();
    assert(s.take(p as int) =~= s);
    while p > 0 && before(&x, &v[p - 1])
        invariant
            p <= v.len(),
            s == entry_views(v@),
            after_tail(s, x@) == (v.len() - p) + after_tail(s.take(p as int), x@),
        decreases p,
    {
        assert(s.take(p as int).last() == v@[p - 1]@);
        assert(s.take(p as int).drop_last() =~= s.take(p - 1));
        p -= 1;
    }
    proof {
        if p > 0 {
            assert(s.take(p as int).last() == v@[p - 1]@);
        }
        assert(after_tail(s.take(p as int), x@) == 0);
        lemma_insert_entry(s, x@);
    }
    let ghost xv = x@;
    v.insert(p, x);
    assert(entry_views(v@) =~= s.take(p as int) + seq![xv] + s.skip(p as int));
}

/// A directory listing in the order it is shown: directories first, then
/// by lowercased name, ties in reading order.
pub fn sort_listing(entries: Vec<DirEntryInfo>) -> (r: Vec<DirEntryInfo>)
    ensures
        entry_views(r@) == listing_order(entry_views(entries@)),
{
    let ghost ev = entry_views(entries@);
    let mut out: Vec<DirEntryInfo> = Vec::new();
    let mut i: usize = 0;
    let rest = entries;
    assert(ev.take(0) =~= Seq::<DirEntryV>::empty());
    assert(entry_views(out@) =~= Seq::<DirEntryV>::empty());
    while i < rest.len()
        invariant
            i <= rest.len(),
            ev == entry_views(rest@),
            entry_views(out@) == listing_order(ev.take(i as int)),
        decreases rest.len() - i,
    {
        let x = DirEntryInfo {
            name: rest[i].name.clone(),
            is_dir: rest[i].is_dir,
            size: rest[i].size,
            modified: rest[i].modified.clone(),
        };
        assert(x@ == ev[i as int]);
        assert(ev.take(i + 1).drop_last() =~= ev.take(i as int));
        insert_listed(&mut out, x);
        i += 1;
    }
    assert(ev.take(rest.len() as int) =~= ev);
    out
}

// ── Laws ───────────────────────────────────────────────────────────────

/// A listing in order: no entry is listed before an entry ahead of it.
pub open spec fn in_listing_order(s: Seq<DirEntryV>) -> bool {
    forall|i: int, j: int| 0 <= i < j < s.len() ==> !listed_before(#[trigger] s[j], #[trigger] s[i])
}

proof fn lemma_before_asym(a: DirEntryV, b: DirEntryV)
    requires
        listed_before(a, b),
    ensures
        !listed_before(b, a),
{
    if a.1 == b.1 && lex_lt(unicode_lower(a.0), unicode_lower(b.0)) && lex_lt(unicode_lower(b.0), unicode_lower(a.0)) {
        crate::keyed::lemma_lex_antisym(unicode_lower(a.0), unicode_lower(b.0));
    }
}

proof fn lemma_before_split(a: DirEntryV, b: DirEntryV, c: DirEntryV)
    requires
        listed_before(a, c),
    ensures
        listed_before(a, b) || listed_before(b, c),
{
    let (la, lb, lc) = (unicode_lower(a.0), unicode_lower(b.0), unicode_lower(c.0));
    if a.1 == c.1 && b.1 == a.1 && lex_lt(la, lc) && !lex_lt(la, lb) && !lex_lt(lb, lc) {
        crate::keyed::lemma_lex_total(la, lb);
        crate::keyed::lemma_lex_total(lb, lc);
        if lex_le(lb, la) && lex_le(lc, lb) {
            crate::keyed::lemma_lex_trans(lc, lb, la);
            crate::keyed::lemma_lex_antisym(la, lc);
        } else if lb == la {
            assert(lex_lt(lb, lc));
        } else {
            assert(lc == lb);
        }
    }
}

proof fn lemma_after_tail_facts(s: Seq<DirEntryV>, x: DirEntryV)
    ensures
        after_tail(s, x) <= s.len(),
        forall|k: int| s.len() - after_tail(s, x) <= k < s.len() ==> listed_before(x, #[trigger] s[k]),
        s.len() - after_tail(s, x) > 0 ==> !listed_before(x, s[s.len() - after_tail(s, x) - 1]),
    decreases s.len(),
{
    if s.len() > 0 && listed_before(x, s.last()) {
        lemma_after_tail_facts(s.drop_last(), x);
        assert forall|k: int| s.len() - after_tail(s, x) <= k < s.len() implies listed_before(x, #[trigger] s[k]) by {
            if k < s.len() - 1 {
                assert(s[k] == s.drop_last()[k]);
            }
        }
        if s.len() - after_tail(s, x) > 0 {
            assert(s[s.len() - after_tail(s, x) - 1] == s.drop_last()[s.drop_last().len() - after_tail(s.drop_last(), x) - 1]);
        }
    }
}

proof fn lemma_insert_keeps_order(t: Seq<DirEntryV>, x: DirEntryV)
    requires
        in_listing_order(t),
    ensures
        in_listing_order(insert_entry(t, x)),
{
    lemma_insert_entry(t, x);
    lemma_after_tail_facts(t, x);
    let q = t.len() - after_tail(t, x);
    let r = insert_entry(t, x);
    assert(r.len() == t.len() + 1);
    assert forall|i: int, j: int| 0 <= i < j < r.len() implies !listed_before(#[trigger] r[j], #[trigger] r[i]) by {
        if j < q {
            assert(r[i] == t[i] && r[j] == t[j]);
        } else if j == q {
            assert(r[j] == x);
            assert(r[i] == t[i]);
            if listed_before(x, t[i]) {
                lemma_before_split(x, t[q - 1], t[i]);
                if i < q - 1 {
                    assert(!listed_before(t[q - 1], t[i]));
                }
            }
        } else if i == q {
            assert(r[i] == x);
            assert(r[j] == t[j - 1]);
            lemma_before_asym(x, t[j - 1]);
        } else if i < q {
            assert(r[i] == t[i] && r[j] == t[j - 1]);
        } else {
            assert(r[i] == t[i - 1] && r[j] == t[j - 1]);
        }
    }
}

/// A directory listing is shown in order: every directory before every
/// file, and names (lowercased) never descending within each kind.
pub proof fn law_listing_is_ordered(s: Seq<DirEntryV>)
    ensures
        in_listing_order(listing_order(s)),
        forall|i: int, j: int| 0 <= i < j < listing_order(s).len() && !(#[trigger] listing_order(s)[i]).1 ==> !(#[trigger] listing_order(s)[j]).1,
    decreases s.len(),
{
    if s.len() > 0 {
        law_listing_is_ordered(s.drop_last());
        lemma_insert_keeps_order(listing_order(s.drop_last()), s.last());
    }
    let r = listing_order(s);
    assert forall|i: int, j: int| 0 <= i < j < r.len() && !(#[trigger] r[i]).1 implies !(#[trigger] r[j]).1 by {
        assert(!listed_before(r[j], r[i]));
    }
}

// ── Directory cache keys ───────────────────────────────────────────────

/// The other spelling of a directory key: without its trailing separator
/// when it has one (`\\` or `/`), else with `sep` appended.
pub open spec fn alt_dir_key_spec(key: Seq<char>, sep: char) -> Seq<char> {
    if key.len() > 0 && (key.last() == '\\' || key.last() == '/') {
        key.drop_last()
    } else {
        key.push(sep)
    }
}

/// The other spelling of a directory key, so a cache entry is dropped
/// under both.
pub fn alt_dir_key(key: &str, sep: char) -> (r: String)
    ensures
        r@ == alt_dir_key_spec(key@, sep),
{
    let v = chars_of(key);
    if v.len() > 0 && (v[v.len() - 1] == '\\' || v[v.len() - 1] == '/') {
        crate::text::string_of_range(&v, 0, v.len() - 1)
    } else {
        let mut r = string_of(&v);
        push_char(&mut r, sep);
        r
    }
}

// ── Automatic backups ──────────────────────────────────────────────────

/// Automatic backups kept.
pub const BACKUPS_KEPT: usize = 7;

/// An automatic backup file: `lucy-auto-*.db`.
pub open spec fn is_auto_backup(name: Seq<char>) -> bool {
    starts_with(name, "lucy-auto-"@) && crate::text::ends_with(name, ".db"@)
}

/// `x` placed after every trailing element of `s` at least as new (one
/// step of a stable sort, newest first).
pub open spec fn insert_newest(s: Seq<(Seq<char>, nat)>, x: (Seq<char>, nat)) -> Seq<(Seq<char>, nat)>
    decreases s.len(),
{
    if s.len() == 0 {
        seq![x]
    } else if s.last().1 >= x.1 {
        s.push(x)
    } else {
        insert_newest(s.drop_last(), x).push(s.last())
    }
}

/// The automatic backups among `files` (name, modification time), newest
/// first, ties in listing order.
pub open spec fn backups_newest_first(files: Seq<(Seq<char>, nat)>) -> Seq<(Seq<char>, nat)>
    decreases files.len(),
{
    if files.len() == 0 {
        Seq::empty()
    } else if is_auto_backup(files.last().0) {
        insert_newest(backups_newest_first(files.drop_last()), files.last())
    } else {
        backups_newest_first(files.drop_last())
    }
}

/// The backups to delete: all but the seven newest.
pub open spec fn backups_to_prune_spec(files: Seq<(Seq<char>, nat)>) -> Seq<Seq<char>> {
    let b = backups_newest_first(files);
    if b.len() <= BACKUPS_KEPT {
        Seq::empty()
    } else {
        b.skip(BACKUPS_KEPT as int).map_values(|f: (Seq<char>, nat)| f.0)
    }
}

/// Number of trailing elements of `s` older than `t`.
pub open spec fn older_tail(s: Seq<(Seq<char>, nat)>, t: nat) -> nat
    decreases s.len(),
{
    if s.len() > 0 && s.last().1 < t {
        1 + older_tail(s.drop_last(), t)
    } else {
        0
    }
}

proof fn lemma_insert_newest(s: Seq<(Seq<char>, nat)>, x: (Seq<char>, nat))
    ensures
        older_tail(s, x.1) <= s.len(),
        insert_newest(s, x) == s.take(s.len() - older_tail(s, x.1)) + seq![x] + s.skip(s.len() - older_tail(s, x.1)),
    decreases s.len(),
{
    if s.len() > 0 && s.last().1 < x.1 {
        lemma_insert_newest(s.drop_last(), x);
        let p = s.len() - older_tail(s, x.1);
        assert(s.drop_last().take(p) =~= s.take(p));
        assert(s.drop_last().skip(p).push(s.last()) =~= s.skip(p));
        assert((s.take(p) + seq![x] + s.drop_last().skip(p)).push(s.last()) =~= s.take(p) + seq![x] + s.skip(p));
    } else {
        assert(s.take(s.len() as int) =~= s);
        assert(s.skip(s.len() as int) =~= Seq::<(Seq<char>, nat)>::empty());
        assert(s.push(x) =~= s + seq![x]);
        if s.len() == 0 {
            assert(seq![x] =~= Seq::<(Seq<char>, nat)>::empty() + seq![x] + Seq::<(Seq<char>, nat)>::empty());
        }
    }
}

/// The views of (name, time) pairs.
pub open spec fn file_times(v: Seq<(String, u64)>) -> Seq<(Seq<char>, nat)> {
    v.map_values(|f: (String, u64)| (f.0@, f.1 as nat))
}

/// The automatic backups to delete among the files of the backup folder
/// (each with its modification time): all but the seven newest.
pub fn backups_to_prune(files: &Vec<(String, u64)>) -> (r: Vec<String>)
    ensures
        views(r@) == backups_to_prune_spec(file_times(files@)),
{
    let ghost fv = file_times(files@);
    let mut sorted: Vec<(String, u64)> = Vec::new();
    let mut i: usize = 0;
    assert(file_times(sorted@) =~= backups_newest_first(fv.take(0)));
    while i < files.len()
        invariant
            i <= files.len(),
            fv == file_times(files@),
            file_times(sorted@) == backups_newest_first(fv.take(i as int)),
        decreases files.len() - i,
    {
        assert(fv.take(i + 1).drop_last() =~= fv.take(i as int));
        assert(fv.take(i + 1).last() == (files@[i as int].0@, files@[i as int].1 as nat));
        let name = chars_of(files[i].0.as_str());
        if has_prefix(&name, &chars_of("lucy-auto-")) && crate::text::has_suffix(&name, &chars_of(".db")) {
            let t = files[i].1;
            let ghost s = file_times(sorted@);
            let mut p = sorted.len();
            assert(s.take(p as int) =~= s);
            while p > 0 && sorted[p - 1].1 < t
                invariant
                    p <= sorted.len(),
                    s == file_times(sorted@),
                    older_tail(s, t as nat) == (sorted.len() - p) + older_tail(s.take(p as int), t as nat),
                decreases p,
            {
                assert(s.take(p as int).last() == s[p - 1]);
                assert(s.take(p as int).drop_last() =~= s.take(p - 1));
                p -= 1;
            }
            proof {
                if p > 0 {
                    assert(s.take(p as int).last() == s[p - 1]);
                }
                assert(older_tail(s.take(p as int), t as nat) == 0);
                lemma_insert_newest(s, (files@[i as int].0@, t as nat));
            }
            sorted.insert(p, (files[i].0.clone(), t));
            assert(file_times(sorted@) =~= s.take(p as int) + seq![(files@[i as int].0@, t as nat)] + s.skip(p as int));
        }
        i += 1;
    }
    assert(fv.take(files.len() as int) =~= fv);
    let ghost b = file_times(sorted@);
    let mut out: Vec<String> = Vec::new();
    if sorted.len() > BACKUPS_KEPT {
        let mut k: usize = BACKUPS_KEPT;
        assert(views(out@) =~= b.skip(BACKUPS_KEPT as int).take(0).map_values(|f: (Seq<char>, nat)| f.0));
        while k < sorted.len()
            invariant
                BACKUPS_KEPT <= k <= sorted.len(),
                b == file_times(sorted@),
                views(out@) == b.skip(BACKUPS_KEPT as int).take(k - BACKUPS_KEPT).map_values(|f: (Seq<char>, nat)| f.0),
            decreases sorted.len() - k,
        {
            let ghost before = views(out@);
            out.push(sorted[k].0.clone());
            assert(b[k as int].0 == sorted@[k as int].0@);
            assert(views(out@) =~= before.push(b[k as int].0));
            assert(b.skip(BACKUPS_KEPT as int).take(k + 1 - BACKUPS_KEPT)
                =~= b.skip(BACKUPS_KEPT as int).take(k - BACKUPS_KEPT).push(b[k as int]));
            assert(views(out@) =~= b.skip(BACKUPS_KEPT as int).take(k + 1 - BACKUPS_KEPT).map_values(|f: (Seq<char>, nat)| f.0));
            k += 1;
        }
        assert(b.skip(BACKUPS_KEPT as int).take(sorted.len() - BACKUPS_KEPT) =~= b.skip(BACKUPS_KEPT as int));
    } else {
        assert(views(out@) =~= Seq::<Seq<char>>::empty());
    }
    out
}

} // verus!
