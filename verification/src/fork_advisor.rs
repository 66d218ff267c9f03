//! Fork advice: a cheap syntactic scorer that tells whether a prompt holds
//! two or more independent branches worth investigating in parallel.
//!
//! Weights are in hundredths: a score of 65 or more advises a fork.
use vstd::prelude::*;
use vstd::utf8::*;
use crate::text::{unicode_lower, to_lowercase, chars_of, copy_str, append, string_of, views, trim, trim_chars, is_ascii_digit, eq_ignore_ascii_case, same, same_ignore_ascii_case, str_views, decimal, dec, join, has_char, has_chr};
use crate::regexes::{re_is_match, re_find, re_find_all, re_captures_all, all_group_views, regex_is_match, regex_find, regex_find_all, regex_captures_all};
use crate::embeddings::trim_end_all;
use crate::log_analysis::first_occurrence;

verus! {

/// A score at or above this (in hundredths) advises a fork.
pub const FORK_THRESHOLD_PCT: u32 = 65;

/// `[NO-FORK]`, `no-fork` or `serial-mode` anywhere.
pub const BYPASS_RE: &'static str = r"(\[no-fork\]|\bno-fork\b|\bserial-mode\b)";

/// An explicit request for parallel work.
pub const PARALLEL_RE: &'static str = r"\b(en paralelo|in parallel|simult[aá]neamente|simultaneously|concurrent(ly)?|mientras (revisa|analiza|verifica|chequea|investiga)|al mismo tiempo)\b";

/// Comparison verbs.
pub const COMPARE_RE: &'static str = r"\b(compara|comparar|compare|diff|differences?|diferencias? entre|contrasta|contrast|vs\.?|versus|sincroniza con)\b";

/// Two sysadmin verbs joined by `y` / `and`.
pub const CROSS_DOMAIN_RE: &'static str = r"\b(audita|revisa|analiza|investiga|verifica|chequea|monitorea|check|audit|analyze|inspect)\b[^.]{2,80}\b(y|and)\b[^.]{2,80}\b(audita|revisa|analiza|investiga|verifica|chequea|monitorea|check|audit|analyze|inspect|consulta|genera|crea|busca|limpia)\b";

/// Hostname-shaped tokens: PROD-AD-01, web-01, app2.example.com.
pub const HOSTNAME_RE: &'static str = r"\b([A-Za-z][A-Za-z0-9]*[-_][A-Za-z0-9-]{2,}[A-Za-z0-9]|[A-Za-z][A-Za-z0-9]+\d+(?:\.[A-Za-z0-9.-]+)?)\b";

/// Windows paths, Unix paths and URLs.
pub const PATH_RE: &'static str = r"((?:[A-Za-z]:[\\/])[\w\-. \\/]+|/(?:[A-Za-z0-9_\-.]+/)+[A-Za-z0-9_\-.]+|https?://[\w./\-?=&%#]+)";

/// Bulleted or numbered list lines.
pub const LIST_BULLET_RE: &'static str = r"(?m)^\s*([-*•]|\d+\.|\d+\))\s+(.+)$";

// ── Hostnames ──────────────────────────────────────────────────────────

/// Hostname-shaped words that are not hosts.
pub open spec fn stop_words() -> Seq<Seq<char>> {
    seq![
        "ipv4"@, "ipv6"@, "http1"@, "http2"@, "http3"@, "tls12"@, "tls13"@,
        "sql2019"@, "sql2022"@, "v1"@, "v2"@, "v3"@, "rfc1918"@, "utf8"@,
        "powershell"@, "windows10"@, "windows11"@, "lucy"@,
        "sysadmin"@, "log4j"@, "log4j2"@,
    ]
}

/// Holds an ASCII digit, a `-` or a `_`.
pub open spec fn has_digit_or_dash(s: Seq<char>) -> bool {
    exists|i: int| 0 <= i < s.len() && (is_ascii_digit(s[i]) || s[i] == '-' || s[i] == '_')
}

/// A match that counts as a host: four bytes or more, not a stop word
/// (lowercased), with a digit, dash or underscore.
pub open spec fn host_like(s: Seq<char>) -> bool {
    encode_utf8(s).len() >= 4 && !stop_words().contains(unicode_lower(s)) && has_digit_or_dash(s)
}

/// The lowercase forms of hosts.
pub open spec fn lowers(h: Seq<Seq<char>>) -> Seq<Seq<char>> {
    h.map_values(|x: Seq<char>| unicode_lower(x))
}

/// The hosts among the first `n` matches, each (by lowercase form) once.
pub open spec fn hosts_upto(ms: Seq<Seq<char>>, n: int) -> Seq<Seq<char>>
    decreases n,
{
    if n <= 0 {
        Seq::empty()
    } else {
        let h = hosts_upto(ms, n - 1);
        if host_like(ms[n - 1]) && !lowers(h).contains(unicode_lower(ms[n - 1])) {
            h.push(ms[n - 1])
        } else {
            h
        }
    }
}

/// The hosts named in a prompt.
pub open spec fn hostnames_spec(prompt: Seq<char>) -> Seq<Seq<char>> {
    hosts_upto(re_find_all(HOSTNAME_RE@, prompt), re_find_all(HOSTNAME_RE@, prompt).len() as int)
}

fn eq_lit(v: &Vec<char>, lit: &str) -> (b: bool)
    ensures
        b == (v@ == lit@),
{
    same(v, &chars_of(lit))
}

fn is_stop_word(w: &Vec<char>) -> (b: bool)
    ensures
        b == stop_words().contains(w@),
{
    let list: Vec<&str> = vec![
        "ipv4", "ipv6", "http1", "http2", "http3", "tls12", "tls13",
        "sql2019", "sql2022", "v1", "v2", "v3", "rfc1918", "utf8",
        "powershell", "windows10", "windows11", "lucy",
        "sysadmin", "log4j", "log4j2",
    ];
    assert(str_views(list@) =~= stop_words());
    let mut i: usize = 0;
    while i < list.len()
        invariant
            i <= list.len(),
            str_views(list@) == stop_words(),
            forall|j: int| 0 <= j < i ==> list@[j]@ != w@,
        decreases list.len() - i,
    {
        if eq_lit(w, list[i]) {
            assert(stop_words()[i as int] == w@);
            return true;
        }
        i += 1;
    }
    proof {
        if stop_words().contains(w@) {
            let j = choose|j: int| 0 <= j < stop_words().len() && stop_words()[j] == w@;
            assert(list@[j]@ == w@);
        }
    }
    false
}

fn digit_or_dash(v: &Vec<char>) -> (b: bool)
    ensures
        b == has_digit_or_dash(v@),
{
    let mut i: usize = 0;
    while i < v.len()
        invariant
            i <= v.len(),
            forall|j: int| 0 <= j < i ==> !(is_ascii_digit(v@[j]) || v@[j] == '-' || v@[j] == '_'),
        decreases v.len() - i,
    {
        let c = v[i];
        if ('0' <= c && c <= '9') || c == '-' || c == '_' {
            return true;
        }
        i += 1;
    }
    false
}

fn contains_string(v: &Vec<String>, s: &String) -> (b: bool)
    ensures
        b == views(v@).contains(s@),
{
    let mut i: usize = 0;
    while i < v.len()
        invariant
            i <= v.len(),
            forall|j: int| 0 <= j < i ==> #[trigger] v@[j]@ != s@,
        decreases v.len() - i,
    {
        if v[i] == *s {
            assert(views(v@)[i as int] == s@);
            return true;
        }
        i += 1;
    }
    proof {
        if views(v@).contains(s@) {
            let j = choose|j: int| 0 <= j < views(v@).len() && views(v@)[j] == s@;
            assert(v@[j]@ == s@);
        }
    }
    false
}

/// The hostname-shaped tokens of a prompt that look like real hosts, in
/// order, each once (case-insensitively).
pub fn extract_hostnames(prompt: &str) -> (hits: Vec<String>)
    ensures
        views(hits@) == hostnames_spec(prompt@),
{
    let ms = regex_find_all(HOSTNAME_RE, prompt);
    let ghost mv = views(ms@);
    let mut hits: Vec<String> = Vec::new();
    let mut seen: Vec<String> = Vec::new();
    let mut i: usize = 0;
    assert(views(hits@) =~= hosts_upto(mv, 0));
    assert(views(seen@) =~= lowers(views(hits@)));
    while i < ms.len()
        invariant
            mv == views(ms@),
            mv == re_find_all(HOSTNAME_RE@, prompt@),
            i <= ms.len(),
            views(hits@) == hosts_upto(mv, i as int),
            views(seen@) == lowers(views(hits@)),
        decreases ms.len() - i,
    {
        let s = &ms[i];
        assert(mv[i as int] == s@);
        let ghost before = views(hits@);
        if s.as_str().as_bytes().len() >= 4 {
            let lower = to_lowercase(s.as_str());
            let lv = chars_of(lower.as_str());
            if !is_stop_word(&lv) && digit_or_dash(&chars_of(s.as_str())) {
                if !contains_string(&seen, &lower) {
                    let ghost sb = views(seen@);
                    seen.push(lower);
                    hits.push(s.clone());
                    assert(views(hits@) =~= before.push(s@));
                    assert(views(seen@) =~= sb.push(unicode_lower(s@)));
                    assert(lowers(views(hits@)) =~= lowers(before).push(unicode_lower(s@)));
                }
            }
        }
        i += 1;
    }
    hits
}

// ── List items ─────────────────────────────────────────────────────────

/// The trimmed text of group 2 of each bullet match that is non-empty and
/// at most 80 bytes, among the first `n` matches.
pub open spec fn bullets_upto(cs: Seq<Seq<Option<Seq<char>>>>, n: int) -> Seq<Seq<char>>
    decreases n,
{
    if n <= 0 {
        Seq::empty()
    } else {
        let b = bullets_upto(cs, n - 1);
        let c = cs[n - 1];
        if 2 < c.len() && c[2] is Some && trim(c[2]->0).len() > 0 && encode_utf8(trim(c[2]->0)).len() <= 80 {
            b.push(trim(c[2]->0))
        } else {
            b
        }
    }
}

/// The pieces of `s[i..]` between commas and semicolons, `cur` being the
/// piece in progress.
pub open spec fn pieces_from(s: Seq<char>, i: int, cur: Seq<char>) -> Seq<Seq<char>>
    decreases s.len() - i,
{
    if i >= s.len() || i < 0 {
        seq![cur]
    } else if s[i] == ',' || s[i] == ';' {
        seq![cur] + pieces_from(s, i + 1, Seq::empty())
    } else {
        pieces_from(s, i + 1, cur.push(s[i]))
    }
}

/// A comma list piece cleaned: trimmed, trailing dots cut.
pub open spec fn clean_piece(p: Seq<char>) -> Seq<char> {
    trim_end_all(trim(p), "."@)
}

/// The cleaned pieces among the first `n` that are non-empty and at most
/// 60 bytes.
pub open spec fn items_upto(ps: Seq<Seq<char>>, n: int) -> Seq<Seq<char>>
    decreases n,
{
    if n <= 0 {
        Seq::empty()
    } else {
        let it = items_upto(ps, n - 1);
        let c = clean_piece(ps[n - 1]);
        if c.len() > 0 && encode_utf8(c).len() <= 60 {
            it.push(c)
        } else {
            it
        }
    }
}

/// The items a prompt lists: its bullet lines if it has any; else, when
/// the text after the first `:` splits (at `,` and `;`) into three or more
/// items, those; else none.
pub open spec fn list_items_spec(prompt: Seq<char>) -> Seq<Seq<char>> {
    let cs = re_captures_all(LIST_BULLET_RE@, prompt);
    let bullets = bullets_upto(cs, cs.len() as int);
    if bullets.len() > 0 {
        bullets
    } else {
        match first_occurrence(prompt, ":"@) {
            Some(pos) => {
                let ps = pieces_from(prompt.subrange(pos + 1, prompt.len() as int), 0, Seq::empty());
                let items = items_upto(ps, ps.len() as int);
                if items.len() >= 3 {
                    items
                } else {
                    Seq::empty()
                }
            },
            None => Seq::empty(),
        }
    }
}

fn pieces_of(s: &Vec<char>) -> (r: Vec<Vec<char>>)
    ensures
        crate::text::cviews(r@) == pieces_from(s@, 0, Seq::empty()),
{
    let mut r: Vec<Vec<char>> = Vec::new();
    let mut cur: Vec<char> = Vec::new();
    let mut i: usize = 0;
    assert(crate::text::cviews(r@) =~= Seq::<Seq<char>>::empty());
    assert(cur@ =~= Seq::<char>::empty());
    while i < s.len()
        invariant
            i <= s.len(),
            pieces_from(s@, 0, Seq::empty()) == crate::text::cviews(r@) + pieces_from(s@, i as int, cur@),
        decreases s.len() - i,
    {
        if s[i] == ',' || s[i] == ';' {
            let ghost before = r@;
            let ghost c = cur@;
            r.push(cur);
            cur = Vec::new();
            assert(crate::text::cviews(r@) =~= crate::text::cviews(before) + seq![c]);
            assert(cur@ =~= Seq::<char>::empty());
        } else {
            cur.push(s[i]);
        }
        i += 1;
    }
    let ghost before = r@;
    let ghost c = cur@;
    r.push(cur);
    assert(crate::text::cviews(r@) =~= crate::text::cviews(before) + seq![c]);
    r
}

/// The items a prompt enumerates, as bullet lines or as a comma list after
/// a colon.
pub fn extract_list_items(prompt: &str) -> (items: Vec<String>)
    ensures
        views(items@) == list_items_spec(prompt@),
{
    let cs = regex_captures_all(LIST_BULLET_RE, prompt);
    let ghost cv = all_group_views(cs@);
    let mut bullets: Vec<String> = Vec::new();
    let mut i: usize = 0;
    assert(views(bullets@) =~= bullets_upto(cv, 0));
    while i < cs.len()
        invariant
            cv == all_group_views(cs@),
            i <= cs.len(),
            views(bullets@) == bullets_upto(cv, i as int),
        decreases cs.len() - i,
    {
        let c = &cs[i];
        assert(cv[i as int] == crate::regexes::group_views(c@));
        let ghost before = views(bullets@);
        if 2 < c.len() {
            match &c[2] {
                Some(g) => {
                    let t = string_of(&trim_chars(&chars_of(g.as_str())));
                    if !t.as_str().is_empty() && t.as_str().as_bytes().len() <= 80 {
                        bullets.push(t);
                        assert(views(bullets@) =~= before.push(trim(g@)));
                    }
                },
                None => {},
            }
        }
        i += 1;
    }
    if bullets.len() > 0 {
        return bullets;
    }
    let pv = chars_of(prompt);
    let colon = chars_of(":");
    proof {
        reveal_strlit(":");
        reveal_strlit(".");
    }
    match crate::text::find_from(&pv, &colon, 0) {
        None => {
            assert(!(exists|i: int| crate::text::occurs_at(prompt@, ":"@, i)));
            Vec::new()
        },
        Some(pos) => {
            proof {
                let c = choose|i: int| crate::text::occurs_at(prompt@, ":"@, i) && forall|j: int| 0 <= j < i ==> !crate::text::occurs_at(prompt@, ":"@, j);
                if c < pos {
                    assert(!crate::text::occurs_at(prompt@, ":"@, c));
                }
                if c > pos {
                    assert(!crate::text::occurs_at(prompt@, ":"@, pos as int));
                }
                assert(first_occurrence(prompt@, ":"@) == Some(pos as int));
            }
            assert(crate::text::occurs_at(pv@, colon@, pos as int));
            assert(colon@.len() == 1);
            assert(pos + 1 <= pv@.len());
            assert(pv@.len() == pv.len());
            let mut tail: Vec<char> = Vec::new();
            let mut k = pos + 1;
            while k < pv.len()
                invariant
                    pos < k <= pv.len(),
                    tail@ == pv@.subrange(pos + 1, k as int),
                decreases pv.len() - k,
            {
                tail.push(pv[k]);
                k += 1;
                assert(tail@ =~= pv@.subrange(pos + 1, k as int));
            }
            let ps = pieces_of(&tail);
            let ghost psv = crate::text::cviews(ps@);
            let mut items: Vec<String> = Vec::new();
            let mut j: usize = 0;
            assert(views(items@) =~= items_upto(psv, 0));
            while j < ps.len()
                invariant
                    psv == crate::text::cviews(ps@),
                    j <= ps.len(),
                    views(items@) == items_upto(psv, j as int),
                decreases ps.len() - j,
            {
                assert(psv[j as int] == ps@[j as int]@);
                let t = trim_chars(&ps[j]);
                proof {
                    reveal_strlit(".");
                }
                let c = crate::embeddings::trim_end_of(&t, ".");
                let cs2 = string_of(&c);
                let ghost before = views(items@);
                if !cs2.as_str().is_empty() && cs2.as_str().as_bytes().len() <= 60 {
                    items.push(cs2);
                    assert(views(items@) =~= before.push(clean_piece(ps@[j as int]@)));
                }
                j += 1;
            }
            if items.len() >= 3 {
                items
            } else {
                Vec::new()
            }
        },
    }
}

// ── Paths ──────────────────────────────────────────────────────────────

/// The trimmed path matches among the first `n`, each once.
pub open spec fn paths_upto(ms: Seq<Seq<char>>, n: int) -> Seq<Seq<char>>
    decreases n,
{
    if n <= 0 {
        Seq::empty()
    } else {
        let p = paths_upto(ms, n - 1);
        if p.contains(trim(ms[n - 1])) {
            p
        } else {
            p.push(trim(ms[n - 1]))
        }
    }
}

/// The paths and URLs of a prompt, each once.
pub open spec fn paths_spec(prompt: Seq<char>) -> Seq<Seq<char>> {
    paths_upto(re_find_all(PATH_RE@, prompt), re_find_all(PATH_RE@, prompt).len() as int)
}

/// The paths and URLs a prompt mentions, in order, each once.
pub fn extract_paths(prompt: &str) -> (hits: Vec<String>)
    ensures
        views(hits@) == paths_spec(prompt@),
{
    let ms = regex_find_all(PATH_RE, prompt);
    let ghost mv = views(ms@);
    let mut hits: Vec<String> = Vec::new();
    let mut i: usize = 0;
    assert(views(hits@) =~= paths_upto(mv, 0));
    while i < ms.len()
        invariant
            mv == views(ms@),
            i <= ms.len(),
            views(hits@) == paths_upto(mv, i as int),
        decreases ms.len() - i,
    {
        assert(mv[i as int] == ms@[i as int]@);
        let t = string_of(&trim_chars(&chars_of(ms[i].as_str())));
        let ghost before = views(hits@);
        if !contains_string(&hits, &t) {
            hits.push(t);
            assert(views(hits@) =~= before.push(trim(mv[i as int])));
        }
        i += 1;
    }
    hits
}

// ── The advice ─────────────────────────────────────────────────────────

/// One detector that fired, its weight (hundredths) and what it saw.
#[derive(Clone, Debug)]
pub struct SignalHit {
    pub kind: String,
    pub weight_pct: u32,
    pub evidence: String,
}

/// The advice for one prompt: whether to fork, the score (hundredths),
/// the branches to fork into, and the detectors that fired.
#[derive(Clone, Debug)]
pub struct ForkAdvice {
    pub should_fork: bool,
    pub confidence_pct: u32,
    pub branches: Vec<String>,
    pub signals: Vec<SignalHit>,
}

/// (kind, weight, evidence) of each signal.
pub open spec fn signal_views(v: Seq<SignalHit>) -> Seq<(Seq<char>, nat, Seq<char>)> {
    v.map_values(|h: SignalHit| (h.kind@, h.weight_pct as nat, h.evidence@))
}

/// The first match of a pattern, or nothing.
pub open spec fn find_or_empty(pattern: Seq<char>, text: Seq<char>) -> Seq<char> {
    match re_find(pattern, text) {
        Some(m) => m,
        None => Seq::empty(),
    }
}

/// The items among the first `n` that match no host (ignoring ASCII case).
pub open spec fn not_hosts_upto(items: Seq<Seq<char>>, hosts: Seq<Seq<char>>, n: int) -> Seq<Seq<char>>
    decreases n,
{
    if n <= 0 {
        Seq::empty()
    } else {
        let r = not_hosts_upto(items, hosts, n - 1);
        if exists|h: int| 0 <= h < hosts.len() && eq_ignore_ascii_case(hosts[h], items[n - 1]) {
            r
        } else {
            r.push(items[n - 1])
        }
    }
}

/// `prefix` followed by each string.
pub open spec fn prefixed(prefix: Seq<char>, v: Seq<Seq<char>>) -> Seq<Seq<char>> {
    v.map_values(|x: Seq<char>| prefix + x)
}

/// At most the first `n` of `s`.
pub open spec fn at_most<T>(s: Seq<T>, n: nat) -> Seq<T> {
    if s.len() <= n {
        s
    } else {
        s.take(n as int)
    }
}

/// `s` when `c` holds, else nothing.
pub open spec fn when<T>(c: bool, s: Seq<T>) -> Seq<T> {
    if c {
        s
    } else {
        Seq::empty()
    }
}

/// The advice for a prompt (see the module documentation for the weights).
pub open spec fn advice_spec(prompt: Seq<char>) -> (bool, nat, Seq<Seq<char>>, Seq<(Seq<char>, nat, Seq<char>)>) {
    if trim(prompt).len() == 0 {
        (false, 0, Seq::empty(), Seq::empty())
    } else if re_is_match(BYPASS_RE@, unicode_lower(prompt)) {
        (false, 0, Seq::empty(), seq![("bypass"@, 0nat, "[NO-FORK] marker present"@)])
    } else {
        let lower = unicode_lower(prompt);
        let par = re_is_match(PARALLEL_RE@, lower);
        let hosts = hostnames_spec(prompt);
        let multi = hosts.len() >= 2;
        let items = list_items_spec(prompt);
        let news = not_hosts_upto(items, hosts, items.len() as int);
        let list = items.len() >= 3 && news.len() >= 3;
        let compares = re_is_match(COMPARE_RE@, lower);
        let cross = re_is_match(CROSS_DOMAIN_RE@, lower);
        let paths = paths_spec(prompt);
        let mp = paths.len() >= 2;
        let blen = encode_utf8(prompt).len();
        let structural = blen > 200 && has_char(prompt, '\n') && has_char(prompt, ':');
        let score: nat = (if par { 65nat } else { 0 }) + (if multi { 65nat } else { 0 }) + (if list { 65nat } else { 0 })
            + (if compares { 30nat } else { 0 }) + (if cross { 30nat } else { 0 }) + (if mp { 30nat } else { 0 })
            + (if structural { 10nat } else { 0 });
        let signals = when(par, seq![("explicit_parallel"@, 65nat, find_or_empty(PARALLEL_RE@, lower))])
            + when(multi, seq![("multi_host"@, 65nat, "hosts="@ + join(hosts, ","@))])
            + when(list, seq![("list"@, 65nat, "items="@ + decimal(news.len()))])
            + when(compares, seq![("compare"@, 30nat, find_or_empty(COMPARE_RE@, lower))])
            + when(cross, seq![("cross_domain"@, 30nat, find_or_empty(CROSS_DOMAIN_RE@, lower))])
            + when(mp, seq![("multi_path"@, 30nat, "paths="@ + decimal(paths.len()))])
            + when(structural, seq![("structural"@, 10nat, "len="@ + decimal(blen))]);
        let b1 = when(multi, prefixed("Host: "@, hosts));
        let b2 = if list && b1.len() == 0 { at_most(news, 5) } else { b1 };
        let b3 = if mp && b2.len() == 0 { prefixed("Path: "@, at_most(paths, 4)) } else { b2 };
        (score >= FORK_THRESHOLD_PCT, score, b3, signals)
    }
}

fn push_signal(v: &mut Vec<SignalHit>, kind: &str, weight: u32, evidence: String)
    ensures
        signal_views(final(v)@) == signal_views(old(v)@).push((kind@, weight as nat, evidence@)),
{
    v.push(SignalHit { kind: copy_str(kind), weight_pct: weight, evidence });
    assert(signal_views(v@) =~= signal_views(old(v)@).push((kind@, weight as nat, evidence@)));
}

fn find_text(pattern: &str, text: &str) -> (r: String)
    ensures
        r@ == find_or_empty(pattern@, text@),
{
    match regex_find(pattern, text) {
        Some(m) => m,
        None => String::new(),
    }
}

fn prefix_all(prefix: &str, v: &Vec<String>, n: usize) -> (r: Vec<String>)
    ensures
        views(r@) == prefixed(prefix@, at_most(views(v@), n as nat)),
{
    let end = if v.len() <= n { v.len() } else { n };
    let mut r: Vec<String> = Vec::new();
    let mut i: usize = 0;
    while i < end
        invariant
            end <= v.len(),
            end == (if v.len() <= n { v.len() } else { n }),
            i <= end,
            views(r@) == prefixed(prefix@, views(v@).take(i as int)),
        decreases end - i,
    {
        let mut s = copy_str(prefix);
        append(&mut s, v[i].as_str());
        let ghost before = views(r@);
        r.push(s);
        assert(views(r@) =~= before.push(prefix@ + v@[i as int]@));
        i += 1;
        assert(prefixed(prefix@, views(v@).take(i as int)) =~= prefixed(prefix@, views(v@).take(i - 1)).push(prefix@ + v@[i - 1]@));
    }
    assert(at_most(views(v@), n as nat) =~= views(v@).take(end as int));
    r
}

fn join_strings(v: &Vec<String>, sep: &str) -> (r: String)
    ensures
        r@ == join(views(v@), sep@),
{
    let mut r = String::new();
    let mut i: usize = 0;
    assert(views(v@).take(0) =~= Seq::<Seq<char>>::empty());
    while i < v.len()
        invariant
            i <= v.len(),
            r@ == join(views(v@).take(i as int), sep@),
        decreases v.len() - i,
    {
        let ghost t = views(v@).take(i + 1);
        assert(t.drop_last() =~= views(v@).take(i as int));
        assert(t.last() == v@[i as int]@);
        if i > 0 {
            append(&mut r, sep);
        } else {
            assert(r@ =~= Seq::<char>::empty());
        }
        append(&mut r, v[i].as_str());
        i += 1;
        if i == 1 {
            assert(r@ =~= join(views(v@).take(i as int), sep@));
        }
    }
    assert(views(v@).take(v.len() as int) =~= views(v@));
    r
}

fn matches_a_host(hosts: &Vec<String>, item: &String) -> (b: bool)
    ensures
        b == exists|h: int| 0 <= h < hosts@.len() && eq_ignore_ascii_case(hosts@[h]@, item@),
{
    let iv = chars_of(item.as_str());
    let mut i: usize = 0;
    while i < hosts.len()
        invariant
            i <= hosts.len(),
            iv@ == item@,
            forall|h: int| 0 <= h < i ==> !eq_ignore_ascii_case(hosts@[h]@, item@),
        decreases hosts.len() - i,
    {
        if same_ignore_ascii_case(&chars_of(hosts[i].as_str()), &iv) {
            return true;
        }
        i += 1;
    }
    false
}

/// The items that match no host.
fn items_not_hosts(items: &Vec<String>, hosts: &Vec<String>) -> (news: Vec<String>)
    ensures
        views(news@) == not_hosts_upto(views(items@), views(hosts@), items@.len() as int),
        news.len() <= items.len(),
{
    let mut news: Vec<String> = Vec::new();
    let mut k: usize = 0;
    while k < items.len()
        invariant
            k <= items.len(),
            views(news@) == not_hosts_upto(views(items@), views(hosts@), k as int),
            news.len() <= k,
        decreases items.len() - k,
    {
        let ghost before = views(news@);
        let hit = matches_a_host(hosts, &items[k]);
        proof {
            let hv = views(hosts@);
            let iv = views(items@);
            assert(iv[k as int] == items@[k as int]@);
            assert((exists|h: int| 0 <= h < hv.len() && eq_ignore_ascii_case(hv[h], iv[k as int]))
                == (exists|h: int| 0 <= h < hosts@.len() && eq_ignore_ascii_case(hosts@[h]@, items@[k as int]@))) by {
                if exists|h: int| 0 <= h < hosts@.len() && eq_ignore_ascii_case(hosts@[h]@, items@[k as int]@) {
                    let h = choose|h: int| 0 <= h < hosts@.len() && eq_ignore_ascii_case(hosts@[h]@, items@[k as int]@);
                    assert(hv[h] == hosts@[h]@);
                }
                if exists|h: int| 0 <= h < hv.len() && eq_ignore_ascii_case(hv[h], iv[k as int]) {
                    let h = choose|h: int| 0 <= h < hv.len() && eq_ignore_ascii_case(hv[h], iv[k as int]);
                    assert(hv[h] == hosts@[h]@);
                }
            }
        }
        if !hit {
            news.push(items[k].clone());
            assert(views(news@) =~= before.push(items@[k as int]@));
        }
        k += 1;
    }
    news
}

/// Scores a prompt for independent branches and advises whether to fork.
#[verifier::rlimit(100)]
pub fn advise(prompt: &str) -> (a: ForkAdvice)
    ensures
        (a.should_fork, a.confidence_pct as nat, views(a.branches@), signal_views(a.signals@)) == advice_spec(prompt@),
{
    let pv = chars_of(prompt);
    let (lo, hi) = crate::text::trim_bounds(&pv);
    if lo == hi {
        let signals: Vec<SignalHit> = Vec::new();
        let branches: Vec<String> = Vec::new();
        assert(signal_views(signals@) =~= Seq::<(Seq<char>, nat, Seq<char>)>::empty());
        assert(views(branches@) =~= Seq::<Seq<char>>::empty());
        return ForkAdvice { should_fork: false, confidence_pct: 0, branches, signals };
    }
    let lower = to_lowercase(prompt);
    if regex_is_match(BYPASS_RE, lower.as_str()) {
        let mut signals: Vec<SignalHit> = Vec::new();
        push_signal(&mut signals, "bypass", 0, String::from_str("[NO-FORK] marker present"));
        assert(signal_views(signals@) =~= seq![("bypass"@, 0nat, "[NO-FORK] marker present"@)]);
        let branches: Vec<String> = Vec::new();
        assert(views(branches@) =~= Seq::<Seq<char>>::empty());
        return ForkAdvice { should_fork: false, confidence_pct: 0, branches, signals };
    }
    let ghost lw = lower@;
    let mut score: u32 = 0;
    let mut signals: Vec<SignalHit> = Vec::new();
    let ghost s0 = signal_views(signals@);
    assert(s0 =~= Seq::<(Seq<char>, nat, Seq<char>)>::empty());

    let par = regex_is_match(PARALLEL_RE, lower.as_str());
    if par {
        score = score + 65;
        push_signal(&mut signals, "explicit_parallel", 65, find_text(PARALLEL_RE, lower.as_str()));
    }
    let ghost s1 = signal_views(signals@);
    assert(s1 =~= when(par, seq![("explicit_parallel"@, 65nat, find_or_empty(PARALLEL_RE@, lw))]));

    let hosts = extract_hostnames(prompt);
    let multi = hosts.len() >= 2;
    let mut branches: Vec<String> = Vec::new();
    if multi {
        score = score + 65;
        let mut ev = String::from_str("hosts=");
        append(&mut ev, join_strings(&hosts, ",").as_str());
        push_signal(&mut signals, "multi_host", 65, ev);
        branches = prefix_all("Host: ", &hosts, hosts.len());
        assert(at_most(views(hosts@), hosts.len() as nat) =~= views(hosts@));
    }
    let ghost s2 = signal_views(signals@);
    assert(s2 =~= s1 + when(multi, seq![("multi_host"@, 65nat, "hosts="@ + join(views(hosts@), ","@))]));
    let ghost b1 = views(branches@);
    assert(b1 =~= when(multi, prefixed("Host: "@, views(hosts@))));

    let items = extract_list_items(prompt);
    let news = items_not_hosts(&items, &hosts);
    let list = items.len() >= 3 && news.len() >= 3;
    if list {
        score = score + 65;
        let mut ev = String::from_str("items=");
        append(&mut ev, dec(news.len() as u64).as_str());
        push_signal(&mut signals, "list", 65, ev);
        if branches.len() == 0 {
            branches = prefix_all("", &news, 5);
            proof {
                reveal_strlit("");
                assert(prefixed(""@, at_most(views(news@), 5)) =~= at_most(views(news@), 5));
            }
        }
    }
    let ghost s3 = signal_views(signals@);
    assert(s3 =~= s2 + when(list, seq![("list"@, 65nat, "items="@ + decimal(views(news@).len()))]));
    let ghost b2 = views(branches@);

    let compares = regex_is_match(COMPARE_RE, lower.as_str());
    if compares {
        score = score + 30;
        push_signal(&mut signals, "compare", 30, find_text(COMPARE_RE, lower.as_str()));
    }
    let ghost s4 = signal_views(signals@);
    assert(s4 =~= s3 + when(compares, seq![("compare"@, 30nat, find_or_empty(COMPARE_RE@, lw))]));

    let cross = regex_is_match(CROSS_DOMAIN_RE, lower.as_str());
    if cross {
        score = score + 30;
        push_signal(&mut signals, "cross_domain", 30, find_text(CROSS_DOMAIN_RE, lower.as_str()));
    }
    let ghost s5 = signal_views(signals@);
    assert(s5 =~= s4 + when(cross, seq![("cross_domain"@, 30nat, find_or_empty(CROSS_DOMAIN_RE@, lw))]));

    let paths = extract_paths(prompt);
    let mp = paths.len() >= 2;
    if mp {
        score = score + 30;
        let mut ev = String::from_str("paths=");
        append(&mut ev, dec(paths.len() as u64).as_str());
        push_signal(&mut signals, "multi_path", 30, ev);
        if branches.len() == 0 {
            branches = prefix_all("Path: ", &paths, 4);
        }
    }
    let ghost s6 = signal_views(signals@);
    assert(s6 =~= s5 + when(mp, seq![("multi_path"@, 30nat, "paths="@ + decimal(views(paths@).len()))]));

    let blen = prompt.as_bytes().len();
    let structural = blen > 200 && has_chr(&pv, '\n') && has_chr(&pv, ':');
    if structural {
        score = score + 10;
        let mut ev = String::from_str("len=");
        append(&mut ev, dec(blen as u64).as_str());
        push_signal(&mut signals, "structural", 10, ev);
    }
    let ghost s7 = signal_views(signals@);
    assert(s7 =~= s6 + when(structural, seq![("structural"@, 10nat, "len="@ + decimal(blen as nat))]));
    proof {
        assert(trim(prompt@).len() != 0);
    }
    ForkAdvice { should_fork: score >= FORK_THRESHOLD_PCT, confidence_pct: score, branches, signals }
}


// ── Laws ───────────────────────────────────────────────────────────────

/// The summed weights of signals.
pub open spec fn weight_sum(s: Seq<(Seq<char>, nat, Seq<char>)>) -> nat
    decreases s.len(),
{
    if s.len() == 0 {
        0
    } else {
        weight_sum(s.drop_last()) + s.last().1
    }
}

proof fn lemma_weight_sum_concat(a: Seq<(Seq<char>, nat, Seq<char>)>, b: Seq<(Seq<char>, nat, Seq<char>)>)
    ensures
        weight_sum(a + b) == weight_sum(a) + weight_sum(b),
    decreases b.len(),
{
    if b.len() == 0 {
        assert(a + b =~= a);
    } else {
        lemma_weight_sum_concat(a, b.drop_last());
        assert((a + b).drop_last() =~= a + b.drop_last());
    }
}

proof fn lemma_weight_when(c: bool, x: (Seq<char>, nat, Seq<char>))
    ensures
        weight_sum(when(c, seq![x])) == if c { x.1 } else { 0 },
{
    let e = Seq::<(Seq<char>, nat, Seq<char>)>::empty();
    assert(weight_sum(e) == 0);
    if c {
        assert(seq![x].drop_last() =~= e);
        assert(seq![x].last() == x);
        assert(weight_sum(seq![x]) == weight_sum(seq![x].drop_last()) + x.1);
    } else {
        assert(when(c, seq![x]) == e);
    }
}

/// The score is the sum of the weights of the signals reported, and the
/// advice is to fork exactly when it reaches the threshold.
pub proof fn law_score_is_sum_of_signals(prompt: Seq<char>)
    ensures
        advice_spec(prompt).1 == weight_sum(advice_spec(prompt).3),
        advice_spec(prompt).0 <==> advice_spec(prompt).1 >= FORK_THRESHOLD_PCT,
{
    if trim(prompt).len() == 0 {
        assert(weight_sum(Seq::<(Seq<char>, nat, Seq<char>)>::empty()) == 0);
    } else if re_is_match(BYPASS_RE@, unicode_lower(prompt)) {
        lemma_weight_when(true, ("bypass"@, 0nat, "[NO-FORK] marker present"@));
    } else {
        let prompt_lower = unicode_lower(prompt);
        let par = re_is_match(PARALLEL_RE@, prompt_lower);
        let hosts = hostnames_spec(prompt);
        let multi = hosts.len() >= 2;
        let items = list_items_spec(prompt);
        let news = not_hosts_upto(items, hosts, items.len() as int);
        let list = items.len() >= 3 && news.len() >= 3;
        let compares = re_is_match(COMPARE_RE@, prompt_lower);
        let cross = re_is_match(CROSS_DOMAIN_RE@, prompt_lower);
        let paths = paths_spec(prompt);
        let mp = paths.len() >= 2;
        let blen = encode_utf8(prompt).len();
        let structural = blen > 200 && has_char(prompt, '\n') && has_char(prompt, ':');
        let s1 = when(par, seq![("explicit_parallel"@, 65nat, find_or_empty(PARALLEL_RE@, prompt_lower))]);
        let s2 = when(multi, seq![("multi_host"@, 65nat, "hosts="@ + join(hosts, ","@))]);
        let s3 = when(list, seq![("list"@, 65nat, "items="@ + decimal(news.len()))]);
        let s4 = when(compares, seq![("compare"@, 30nat, find_or_empty(COMPARE_RE@, prompt_lower))]);
        let s5 = when(cross, seq![("cross_domain"@, 30nat, find_or_empty(CROSS_DOMAIN_RE@, prompt_lower))]);
        let s6 = when(mp, seq![("multi_path"@, 30nat, "paths="@ + decimal(paths.len()))]);
        let s7 = when(structural, seq![("structural"@, 10nat, "len="@ + decimal(blen))]);
        lemma_weight_when(par, ("explicit_parallel"@, 65nat, find_or_empty(PARALLEL_RE@, prompt_lower)));
        lemma_weight_when(multi, ("multi_host"@, 65nat, "hosts="@ + join(hosts, ","@)));
        lemma_weight_when(list, ("list"@, 65nat, "items="@ + decimal(news.len())));
        lemma_weight_when(compares, ("compare"@, 30nat, find_or_empty(COMPARE_RE@, prompt_lower)));
        lemma_weight_when(cross, ("cross_domain"@, 30nat, find_or_empty(CROSS_DOMAIN_RE@, prompt_lower)));
        lemma_weight_when(mp, ("multi_path"@, 30nat, "paths="@ + decimal(paths.len())));
        lemma_weight_when(structural, ("structural"@, 10nat, "len="@ + decimal(blen)));
        lemma_weight_sum_concat(s1, s2);
        lemma_weight_sum_concat(s1 + s2, s3);
        lemma_weight_sum_concat(s1 + s2 + s3, s4);
        lemma_weight_sum_concat(s1 + s2 + s3 + s4, s5);
        lemma_weight_sum_concat(s1 + s2 + s3 + s4 + s5, s6);
        lemma_weight_sum_concat(s1 + s2 + s3 + s4 + s5 + s6, s7);
    }
}


/// Hosts keep their lowercase forms: the lowercase forms of the hosts
/// found among `n` matches grow as the matches do.
proof fn lemma_hosts_keep(ms: Seq<Seq<char>>, n: int, k: int)
    requires
        0 <= k < n <= ms.len(),
        lowers(hosts_upto(ms, k + 1)).contains(unicode_lower(ms[k])),
    ensures
        lowers(hosts_upto(ms, n)).contains(unicode_lower(ms[k])),
    decreases n,
{
    if n > k + 1 {
        lemma_hosts_keep(ms, n - 1, k);
        let h = hosts_upto(ms, n - 1);
        if host_like(ms[n - 1]) && !lowers(h).contains(unicode_lower(ms[n - 1])) {
            assert(lowers(h.push(ms[n - 1])) =~= lowers(h).push(unicode_lower(ms[n - 1])));
            let j = choose|j: int| 0 <= j < lowers(h).len() && lowers(h)[j] == unicode_lower(ms[k]);
            assert(lowers(h.push(ms[n - 1]))[j] == unicode_lower(ms[k]));
        }
    }
}

/// Every hostname-shaped match of four bytes or more that is not a stop
/// word and holds an ASCII digit, a `-` or a `_` is among the hosts found
/// (by its lowercase form).
pub proof fn law_marked_matches_are_hosts(prompt: Seq<char>, k: int)
    requires
        0 <= k < re_find_all(HOSTNAME_RE@, prompt).len(),
        ({
            let m = re_find_all(HOSTNAME_RE@, prompt)[k];
            &&& encode_utf8(m).len() >= 4
            &&& !stop_words().contains(unicode_lower(m))
            &&& exists|i: int| 0 <= i < m.len() && (('0' <= #[trigger] m[i] && m[i] <= '9') || m[i] == '-' || m[i] == '_')
        }),
    ensures
        lowers(hostnames_spec(prompt)).contains(unicode_lower(re_find_all(HOSTNAME_RE@, prompt)[k])),
{
    let ms = re_find_all(HOSTNAME_RE@, prompt);
    let h = hosts_upto(ms, k);
    assert(host_like(ms[k]));
    if !lowers(h).contains(unicode_lower(ms[k])) {
        assert(lowers(h.push(ms[k])) =~= lowers(h).push(unicode_lower(ms[k])));
        assert(lowers(h.push(ms[k]))[h.len() as int] == unicode_lower(ms[k]));
    }
    lemma_hosts_keep(ms, ms.len() as int, k);
}


/// Each host found among `n` matches is one of them, of four bytes or
/// more, not a stop word, and holds an ASCII digit, a `-` or a `_`.
proof fn lemma_hosts_are_marked_matches(ms: Seq<Seq<char>>, n: int)
    requires
        0 <= n <= ms.len(),
    ensures
        forall|j: int| 0 <= j < hosts_upto(ms, n).len() ==> {
            let m = #[trigger] hosts_upto(ms, n)[j];
            &&& ms.contains(m)
            &&& encode_utf8(m).len() >= 4
            &&& !stop_words().contains(unicode_lower(m))
            &&& exists|i: int| 0 <= i < m.len() && (('0' <= #[trigger] m[i] && m[i] <= '9') || m[i] == '-' || m[i] == '_')
        },
    decreases n,
{
    if n > 0 {
        lemma_hosts_are_marked_matches(ms, n - 1);
        let h = hosts_upto(ms, n - 1);
        assert forall|j: int| 0 <= j < hosts_upto(ms, n).len() implies {
            let m = #[trigger] hosts_upto(ms, n)[j];
            &&& ms.contains(m)
            &&& encode_utf8(m).len() >= 4
            &&& !stop_words().contains(unicode_lower(m))
            &&& exists|i: int| 0 <= i < m.len() && (('0' <= #[trigger] m[i] && m[i] <= '9') || m[i] == '-' || m[i] == '_')
        } by {
            if j < h.len() {
                assert(hosts_upto(ms, n)[j] == h[j]);
            } else {
                assert(hosts_upto(ms, n)[j] == ms[n - 1]);
                assert(ms[n - 1] == ms[n - 1]);
                let m = ms[n - 1];
                assert(has_digit_or_dash(m));
                let i = choose|i: int| 0 <= i < m.len() && (is_ascii_digit(m[i]) || m[i] == '-' || m[i] == '_');
                assert(('0' <= m[i] && m[i] <= '9') || m[i] == '-' || m[i] == '_');
            }
        }
    }
}

/// Every host found is a hostname-shaped match of the prompt of four
/// bytes or more that is not a stop word and holds an ASCII digit, a `-`
/// or a `_`.
pub proof fn law_hosts_are_marked_matches(prompt: Seq<char>, j: int)
    requires
        0 <= j < hostnames_spec(prompt).len(),
    ensures
        ({
            let m = hostnames_spec(prompt)[j];
            &&& re_find_all(HOSTNAME_RE@, prompt).contains(m)
            &&& encode_utf8(m).len() >= 4
            &&& !stop_words().contains(unicode_lower(m))
            &&& exists|i: int| 0 <= i < m.len() && (('0' <= #[trigger] m[i] && m[i] <= '9') || m[i] == '-' || m[i] == '_')
        }),
{
    let ms = re_find_all(HOSTNAME_RE@, prompt);
    lemma_hosts_are_marked_matches(ms, ms.len() as int);
    assert(hostnames_spec(prompt)[j] == hosts_upto(ms, ms.len() as int)[j]);
}


proof fn lemma_hosts_once(ms: Seq<Seq<char>>, n: int)
    requires
        0 <= n <= ms.len(),
    ensures
        forall|a: int, b: int| 0 <= a < b < hosts_upto(ms, n).len()
            ==> unicode_lower(#[trigger] hosts_upto(ms, n)[a]) != unicode_lower(#[trigger] hosts_upto(ms, n)[b]),
    decreases n,
{
    if n > 0 {
        lemma_hosts_once(ms, n - 1);
        let h = hosts_upto(ms, n - 1);
        let hn = hosts_upto(ms, n);
        if host_like(ms[n - 1]) && !lowers(h).contains(unicode_lower(ms[n - 1])) {
            assert forall|a: int, b: int| 0 <= a < b < hn.len() implies unicode_lower(#[trigger] hn[a]) != unicode_lower(#[trigger] hn[b]) by {
                assert(hn[a] == h[a]);
                if b == h.len() {
                    assert(lowers(h)[a] == unicode_lower(h[a]));
                } else {
                    assert(hn[b] == h[b]);
                }
            }
        }
    }
}

/// No host is found twice, case ignored.
pub proof fn law_each_host_once(prompt: Seq<char>, a: int, b: int)
    requires
        0 <= a < b < hostnames_spec(prompt).len(),
    ensures
        unicode_lower(hostnames_spec(prompt)[a]) != unicode_lower(hostnames_spec(prompt)[b]),
{
    let ms = re_find_all(HOSTNAME_RE@, prompt);
    lemma_hosts_once(ms, ms.len() as int);
}

} // verus!
