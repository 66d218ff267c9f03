//! MCP server plumbing that decides things: the environment handed to a
//! server, the key of a pooled session, how a registered command line is
//! split into program and arguments, and how a reply line is read under a
//! size cap.
use vstd::prelude::*;
use vstd::utf8::*;
use crate::text::{is_white, white, take_chars, take_of, lex_le, lex_leq, chars_of, hex, hex_u64, append, copy_str, views, words, words_of, string_of, cviews};
use crate::keyed::{
    entries_map, distinct_keys, key_sorted, lex_lt, lemma_entries_dom, lemma_entries_value,
    lemma_entries_len, lemma_push_new_key, lemma_entries_same_elements, lemma_sorted_listing_unique,
    lemma_lex_total, lemma_lex_trans,
};

verus! {

/// Keys and values of a list of string pairs.
pub open spec fn pair_views(v: Seq<(String, String)>) -> Seq<(Seq<char>, Seq<char>)> {
    v.map_values(|e: (String, String)| (e.0@, e.1@))
}

/// An environment: variable name to value, each name once.
pub struct EnvMap {
    entries: Vec<(String, String)>,
}

impl EnvMap {
    #[verifier::type_invariant]
    spec fn inv(self) -> bool {
        distinct_keys(pair_views(self.entries@))
    }
}

impl View for EnvMap {
    type V = Map<Seq<char>, Seq<char>>;

    closed spec fn view(&self) -> Map<Seq<char>, Seq<char>> {
        entries_map(pair_views(self.entries@))
    }
}

impl EnvMap {
    /// An empty environment.
    pub fn new() -> (m: Self)
        ensures
            m@ == Map::<Seq<char>, Seq<char>>::empty(),
    {
        let m = EnvMap { entries: Vec::new() };
        assert(pair_views(m.entries@) =~= Seq::<(Seq<char>, Seq<char>)>::empty());
        m
    }

    /// Sets `key` to `value`, replacing an earlier value.
    pub fn insert(&mut self, key: String, value: String)
        ensures
            final(self)@ == old(self)@.insert(key@, value@),
    {
        proof {
            use_type_invariant(&*self);
        }
        let ghost s = pair_views(self.entries@);
        let mut next: Vec<(String, String)> = Vec::new();
        let mut i: usize = 0;
        let mut replaced = false;
        proof {
            assert(pair_views(next@) =~= Seq::<(Seq<char>, Seq<char>)>::empty());
            assert(s.take(0) =~= Seq::<(Seq<char>, Seq<char>)>::empty());
        }
        while i < self.entries.len()
            invariant
                s == pair_views(self.entries@),
                distinct_keys(s),
                i <= self.entries.len(),
                distinct_keys(pair_views(next@)),
                replaced == entries_map(s.take(i as int)).dom().contains(key@),
                replaced ==> entries_map(pair_views(next@)) == entries_map(s.take(i as int)).insert(key@, value@),
                !replaced ==> entries_map(pair_views(next@)) == entries_map(s.take(i as int)),
            decreases self.entries.len() - i,
        {
            let ghost before = pair_views(next@);
            let ghost pre = s.take(i as int);
            assert(s.take(i + 1).drop_last() =~= pre);
            assert(s.take(i + 1).last() == s[i as int]);
            assert(s[i as int] == (self.entries@[i as int].0@, self.entries@[i as int].1@));
            proof {
                lemma_entries_dom(pre, s[i as int].0);
                if entries_map(pre).dom().contains(s[i as int].0) {
                    let j = choose|j: int| 0 <= j < pre.len() && #[trigger] pre[j].0 == s[i as int].0;
                    assert(s[j].0 == s[i as int].0);
                }
            }
            let ghost e;
            if self.entries[i].0 == key {
                next.push((key.clone(), value.clone()));
                replaced = true;
                proof {
                    e = (key@, value@);
                }
            } else {
                next.push((self.entries[i].0.clone(), self.entries[i].1.clone()));
                proof {
                    e = s[i as int];
                }
            }
            proof {
                assert(pair_views(next@) =~= before.push(e));
                assert(!entries_map(before).dom().contains(e.0));
                lemma_push_new_key(before, e);
                assert(entries_map(pair_views(next@)) == entries_map(before).insert(e.0, e.1));
                if replaced {
                    assert(entries_map(pair_views(next@)) =~= entries_map(s.take(i + 1)).insert(key@, value@));
                } else {
                    assert(entries_map(pair_views(next@)) =~= entries_map(s.take(i + 1)));
                }
            }
            i += 1;
        }
        assert(s.take(s.len() as int) =~= s);
        if !replaced {
            let ghost before = pair_views(next@);
            next.push((key, value));
            proof {
                assert(pair_views(next@) =~= before.push((key@, value@)));
                lemma_push_new_key(before, (key@, value@));
            }
        }
        self.entries = next;
    }

    /// The number of variables.
    pub fn len(&self) -> (n: usize)
        ensures
            n == self@.dom().len(),
            self@.dom().finite(),
    {
        proof {
            use_type_invariant(self);
            lemma_entries_len(pair_views(self.entries@));
        }
        self.entries.len()
    }

    /// Whether `key` is set.
    pub fn contains_key(&self, key: &str) -> (b: bool)
        ensures
            b == self@.dom().contains(key@),
    {
        let ghost s = pair_views(self.entries@);
        let wanted = copy_str(key);
        let mut i: usize = 0;
        while i < self.entries.len()
            invariant
                s == pair_views(self.entries@),
                wanted@ == key@,
                i <= self.entries.len(),
                forall|j: int| 0 <= j < i ==> #[trigger] s[j].0 != key@,
            decreases self.entries.len() - i,
        {
            assert(s[i as int].0 == self.entries@[i as int].0@);
            if self.entries[i].0 == wanted {
                proof {
                    lemma_entries_dom(s, key@);
                }
                return true;
            }
            i += 1;
        }
        proof {
            lemma_entries_dom(s, key@);
        }
        false
    }

    /// The variables as (name, value) pairs.
    pub fn to_pairs(&self) -> (r: Vec<(String, String)>)
        ensures
            distinct_keys(pair_views(r@)),
            entries_map(pair_views(r@)) == self@,
    {
        proof {
            use_type_invariant(self);
        }
        let mut r: Vec<(String, String)> = Vec::new();
        let mut i: usize = 0;
        while i < self.entries.len()
            invariant
                i <= self.entries.len(),
                pair_views(r@) == pair_views(self.entries@).take(i as int),
            decreases self.entries.len() - i,
        {
            let ghost before = pair_views(r@);
            r.push((self.entries[i].0.clone(), self.entries[i].1.clone()));
            assert(pair_views(r@) =~= before.push(pair_views(self.entries@)[i as int]));
            i += 1;
            assert(pair_views(r@) =~= pair_views(self.entries@).take(i as int));
        }
        assert(pair_views(self.entries@).take(i as int) =~= pair_views(self.entries@));
        r
    }

    /// The variables in increasing name order.
    pub fn sorted_pairs(&self) -> (r: Vec<(String, String)>)
        ensures
            key_sorted(pair_views(r@)),
            entries_map(pair_views(r@)) == self@,
    {
        proof {
            use_type_invariant(self);
        }
        let ghost s = pair_views(self.entries@);
        let mut out: Vec<(String, String)> = Vec::new();
        let mut i: usize = 0;
        while i < self.entries.len()
            invariant
                s == pair_views(self.entries@),
                distinct_keys(s),
                i <= self.entries.len(),
                key_sorted(pair_views(out@)),
                forall|a: int| 0 <= a < out@.len() ==> s.take(i as int).contains(#[trigger] pair_views(out@)[a]),
                forall|b: int| 0 <= b < i ==> pair_views(out@).contains(#[trigger] s[b]),
            decreases self.entries.len() - i,
        {
            let ghost before = pair_views(out@);
            let ghost x = s[i as int];
            assert(x == (self.entries@[i as int].0@, self.entries@[i as int].1@));
            let key = chars_of(self.entries[i].0.as_str());
            let mut j: usize = 0;
            while j < out.len()
                invariant
                    before == pair_views(out@),
                    j <= out.len(),
                    key@ == x.0,
                    forall|a: int| 0 <= a < j ==> !lex_le(x.0, #[trigger] before[a].0),
                ensures
                    j <= out.len(),
                    forall|a: int| 0 <= a < j ==> !lex_le(x.0, #[trigger] before[a].0),
                    j < out.len() ==> lex_le(x.0, before[j as int].0),
                decreases out.len() - j,
            {
                let other = chars_of(out[j].0.as_str());
                assert(other@ == before[j as int].0);
                if lex_leq(&key, &other) {
                    break;
                }
                j += 1;
            }
            // x's key is not yet in `out`: `out` holds entries of the prefix only.
            assert forall|a: int| 0 <= a < before.len() implies #[trigger] before[a].0 != x.0 by {
                assert(s.take(i as int).contains(before[a]));
                let c = choose|c: int| 0 <= c < s.take(i as int).len() && s.take(i as int)[c] == before[a];
                assert(s[c] == before[a]);
            }
            assert(j < before.len() ==> lex_le(x.0, before[j as int].0));
            out.insert(j, (self.entries[i].0.clone(), self.entries[i].1.clone()));
            proof {
                let after = pair_views(out@);
                assert(after =~= before.insert(j as int, x));
                assert forall|a: int, b: int| 0 <= a < b < after.len() implies lex_lt(#[trigger] after[a].0, #[trigger] after[b].0) by {
                    if b < j {
                        assert(after[a] == before[a] && after[b] == before[b]);
                    } else if b == j {
                        assert(after[a] == before[a]);
                        lemma_lex_total(x.0, before[a].0);
                    } else if a == j {
                        assert(after[b] == before[b - 1]);
                        if b - 1 > j {
                            assert(lex_lt(before[j as int].0, before[b - 1].0));
                            lemma_lex_trans(x.0, before[j as int].0, before[b - 1].0);
                        }
                    } else if a < j {
                        assert(after[a] == before[a] && after[b] == before[b - 1]);
                    } else {
                        assert(after[a] == before[a - 1] && after[b] == before[b - 1]);
                    }
                }
                assert forall|a: int| 0 <= a < after.len() implies s.take(i + 1).contains(#[trigger] after[a]) by {
                    if a == j {
                        assert(s.take(i + 1)[i as int] == x);
                    } else {
                        let a0 = if a < j { a } else { a - 1 };
                        assert(after[a] == before[a0]);
                        assert(s.take(i as int).contains(before[a0]));
                        let c = choose|c: int| 0 <= c < s.take(i as int).len() && s.take(i as int)[c] == before[a0];
                        assert(s.take(i + 1)[c] == before[a0]);
                    }
                }
                assert forall|b: int| 0 <= b < i + 1 implies after.contains(#[trigger] s[b]) by {
                    if b == i {
                        assert(after[j as int] == x);
                    } else {
                        assert(before.contains(s[b]));
                        let c = choose|c: int| 0 <= c < before.len() && before[c] == s[b];
                        if c < j {
                            assert(after[c] == s[b]);
                        } else {
                            assert(after[c + 1] == s[b]);
                        }
                    }
                }
            }
            i += 1;
        }
        proof {
            let r = pair_views(out@);
            assert(s.take(s.len() as int) =~= s);
            lemma_entries_same_elements(r, s);
        }
        out
    }
}

// ── Pooled-session key ─────────────────────────────────────────────────

/// What `DefaultHasher::new()` finishes with after `Hash::hash_slice` of
/// these strings (each string hashed in turn).
pub uninterp spec fn default_hash_of(items: Seq<Seq<char>>) -> u64;

/// `std::hash::Hash::hash_slice` into a fresh `DefaultHasher`, then
/// `finish`: a 64-bit fingerprint of the strings in order. `DefaultHasher::new`
/// is unseeded, so the value depends on the strings alone; it is named, not
/// stated.
#[verifier::external_body]
fn default_hash(items: &[String]) -> (h: u64)
    ensures
        h == default_hash_of(views(items@)),
{
    let mut hasher = std::collections::hash_map::DefaultHasher::new();
    std::hash::Hash::hash_slice(items, &mut hasher);
    std::hash::Hasher::finish(&hasher)
}

/// Names and values of a listing, in turn: k1, v1, k2, v2, ...
pub open spec fn flatten(s: Seq<(Seq<char>, Seq<char>)>) -> Seq<Seq<char>>
    decreases s.len(),
{
    if s.len() == 0 {
        Seq::empty()
    } else {
        flatten(s.drop_last()).push(s.last().0).push(s.last().1)
    }
}

/// The listing of an environment in increasing name order.
pub open spec fn sorted_listing(m: Map<Seq<char>, Seq<char>>) -> Seq<(Seq<char>, Seq<char>)> {
    choose|s: Seq<(Seq<char>, Seq<char>)>| key_sorted(s) && entries_map(s) == m
}

/// The fingerprint of an optional environment.
pub open spec fn env_hash(env: Option<Map<Seq<char>, Seq<char>>>) -> u64 {
    match env {
        Some(m) => default_hash_of(flatten(sorted_listing(m))),
        None => default_hash_of(Seq::empty()),
    }
}

/// `server::command::<env fingerprint in hex>`.
pub open spec fn pool_key_spec(server: Seq<char>, command: Seq<char>, env: Option<Map<Seq<char>, Seq<char>>>) -> Seq<char> {
    server + "::"@ + command + "::"@ + hex(env_hash(env) as nat)
}

/// The view of an optional environment.
pub open spec fn opt_env(env: Option<EnvMap>) -> Option<Map<Seq<char>, Seq<char>>> {
    match env {
        Some(m) => Some(m@),
        None => None,
    }
}

/// The key of a pooled MCP session. The environment enters only through
/// a fingerprint of its variables taken in name order, so two equal
/// environments give the same key whatever order they were built in, and
/// no value is ever spelled out in the key.
pub fn pool_key(server_name: &str, command: &str, env: &Option<EnvMap>) -> (k: String)
    ensures
        k@ == pool_key_spec(server_name@, command@, opt_env(*env)),
{
    let mut flat: Vec<String> = Vec::new();
    match env {
        Some(m) => {
            let sorted = m.sorted_pairs();
            let ghost sv = pair_views(sorted@);
            let mut i: usize = 0;
            while i < sorted.len()
                invariant
                    sv == pair_views(sorted@),
                    i <= sorted.len(),
                    views(flat@) == flatten(sv.take(i as int)),
                decreases sorted.len() - i,
            {
                assert(sv.take(i + 1).drop_last() =~= sv.take(i as int));
                flat.push(sorted[i].0.clone());
                flat.push(sorted[i].1.clone());
                i += 1;
                assert(views(flat@) =~= flatten(sv.take(i as int)));
            }
            proof {
                assert(sv.take(sv.len() as int) =~= sv);
                let c = sorted_listing(m@);
                assert(key_sorted(sv) && entries_map(sv) == m@);
                assert(key_sorted(c) && entries_map(c) == m@);
                lemma_sorted_listing_unique(sv, c);
            }
        },
        None => {
            assert(views(flat@) =~= Seq::<Seq<char>>::empty());
        },
    }
    let h = default_hash(flat.as_slice());
    let mut k = copy_str(server_name);
    append(&mut k, "::");
    append(&mut k, command);
    append(&mut k, "::");
    let hx = hex_u64(h);
    append(&mut k, hx.as_str());
    k
}

// ── Environment handed to a server ─────────────────────────────────────

/// The variables of `bag` named in `wanted`; none when nothing is wanted,
/// nothing is offered, or nothing matches.
pub open spec fn filter_env_spec(wanted: Seq<Seq<char>>, bag: Option<Map<Seq<char>, Seq<char>>>) -> Option<Map<Seq<char>, Seq<char>>> {
    match bag {
        None => None,
        Some(m) => {
            if wanted.len() == 0 {
                None
            } else {
                let f = m.restrict(m.dom().filter(|k: Seq<char>| wanted.contains(k)));
                if f == Map::<Seq<char>, Seq<char>>::empty() {
                    None
                } else {
                    Some(f)
                }
            }
        },
    }
}

/// Whether `name` is one of `wanted`.
fn is_wanted(wanted: &[String], name: &String) -> (b: bool)
    ensures
        b == views(wanted@).contains(name@),
{
    let mut i: usize = 0;
    while i < wanted.len()
        invariant
            i <= wanted.len(),
            forall|j: int| 0 <= j < i ==> #[trigger] wanted@[j]@ != name@,
        decreases wanted.len() - i,
    {
        if wanted[i] == *name {
            assert(views(wanted@)[i as int] == name@);
            return true;
        }
        i += 1;
    }
    proof {
        if views(wanted@).contains(name@) {
            let j = choose|j: int| 0 <= j < views(wanted@).len() && views(wanted@)[j] == name@;
            assert(wanted@[j]@ == name@);
        }
    }
    false
}

/// Picks the variables of `bag` whose names appear in `wanted`.
pub fn filter_env(wanted: &[String], bag: Option<EnvMap>) -> (r: Option<EnvMap>)
    ensures
        opt_env(r) == filter_env_spec(views(wanted@), opt_env(bag)),
{
    let m = match bag {
        None => {
            return None;
        },
        Some(m) => m,
    };
    if wanted.len() == 0 {
        return None;
    }
    proof {
        use_type_invariant(&m);
    }
    let ghost w = views(wanted@);
    let ghost s = pair_views(m.entries@);
    let ghost keep = m@.dom().filter(|k: Seq<char>| w.contains(k));
    let mut kept: Vec<(String, String)> = Vec::new();
    let mut i: usize = 0;
    proof {
        assert(pair_views(kept@) =~= Seq::<(Seq<char>, Seq<char>)>::empty());
        assert(s.take(0) =~= Seq::<(Seq<char>, Seq<char>)>::empty());
        assert(entries_map(s.take(0)).restrict(keep) =~= Map::<Seq<char>, Seq<char>>::empty());
    }
    while i < m.entries.len()
        invariant
            s == pair_views(m.entries@),
            distinct_keys(s),
            w == views(wanted@),
            keep == entries_map(s).dom().filter(|k: Seq<char>| w.contains(k)),
            i <= m.entries.len(),
            distinct_keys(pair_views(kept@)),
            entries_map(pair_views(kept@)) == entries_map(s.take(i as int)).restrict(keep),
        decreases m.entries.len() - i,
    {
        let ghost before = pair_views(kept@);
        let ghost pre = s.take(i as int);
        assert(s.take(i + 1).drop_last() =~= pre);
        assert(s.take(i + 1).last() == s[i as int]);
        assert(s[i as int] == (m.entries@[i as int].0@, m.entries@[i as int].1@));
        proof {
            lemma_entries_dom(pre, s[i as int].0);
            if entries_map(pre).dom().contains(s[i as int].0) {
                let j = choose|j: int| 0 <= j < pre.len() && #[trigger] pre[j].0 == s[i as int].0;
                assert(s[j].0 == s[i as int].0);
            }
            lemma_entries_value(s, i as int);
        }
        if is_wanted(wanted, &m.entries[i].0) {
            kept.push((m.entries[i].0.clone(), m.entries[i].1.clone()));
            proof {
                assert(pair_views(kept@) =~= before.push(s[i as int]));
                assert(!entries_map(before).dom().contains(s[i as int].0));
                lemma_push_new_key(before, s[i as int]);
                assert(entries_map(pair_views(kept@)) =~= entries_map(s.take(i + 1)).restrict(keep));
            }
        } else {
            proof {
                assert(entries_map(s.take(i + 1)).restrict(keep) =~= entries_map(pre).restrict(keep));
            }
        }
        i += 1;
    }
    proof {
        assert(s.take(s.len() as int) =~= s);
        lemma_entries_len(pair_views(kept@));
    }
    if kept.len() == 0 {
        proof {
            assert(pair_views(kept@) =~= Seq::<(Seq<char>, Seq<char>)>::empty());
            assert(entries_map(pair_views(kept@)) =~= Map::<Seq<char>, Seq<char>>::empty());
        }
        None
    } else {
        proof {
            lemma_entries_value(pair_views(kept@), 0);
        }
        Some(EnvMap { entries: kept })
    }
}

// ── Registered command lines ───────────────────────────────────────────

/// What `shlex::split` gives for a command line: its shell words, or none
/// when the quoting is unbalanced.
pub uninterp spec fn shlex_words(line: Seq<char>) -> Option<Seq<Seq<char>>>;

/// The views of an optional list of strings.
pub open spec fn opt_views(v: Option<Vec<String>>) -> Option<Seq<Seq<char>>> {
    match v {
        Some(w) => Some(views(w@)),
        None => None,
    }
}

/// `shlex::split`: the line split into words the way a POSIX shell
/// quotes them; `None` on unbalanced quoting. Its result is named.
#[verifier::external_body]
fn shlex_split(line: &str) -> (r: Option<Vec<String>>)
    ensures
        opt_views(r) == shlex_words(line@),
{
    shlex::split(line)
}

/// (program, arguments) of a command line, given how it splits: the shell
/// words, or the whitespace words when the quoting is broken. An empty
/// line runs `npx`; on Windows `npx` is `npx.cmd`; `npx` always gets `-y`.
pub open spec fn command_spec(line: Seq<char>, split: Option<Seq<Seq<char>>>, windows: bool) -> (Seq<char>, Seq<Seq<char>>) {
    let parts0 = match split {
        Some(p) => p,
        None => words(line),
    };
    let parts = if parts0.len() == 0 { seq!["npx"@] } else { parts0 };
    let base = if windows && parts[0] == "npx"@ { "npx.cmd"@ } else { parts[0] };
    let rest = parts.drop_first();
    if (base == "npx"@ || base == "npx.cmd"@) && !rest.contains("-y"@) {
        (base, seq!["-y"@] + rest)
    } else {
        (base, rest)
    }
}

/// Builds (program, arguments) from the words a command line split into
/// (`None`: the shell split failed).
pub fn command_from_split(cmd_line: &str, split: Option<Vec<String>>, windows: bool) -> (r: (String, Vec<String>))
    ensures
        (r.0@, views(r.1@)) == command_spec(cmd_line@, opt_views(split), windows),
{
    let mut parts: Vec<String> = match split {
        Some(p) => p,
        None => {
            let ws = words_of(&chars_of(cmd_line));
            let mut out: Vec<String> = Vec::new();
            let mut i: usize = 0;
            while i < ws.len()
                invariant
                    i <= ws.len(),
                    views(out@) == cviews(ws@).take(i as int),
                decreases ws.len() - i,
            {
                let ghost before = views(out@);
                out.push(string_of(&ws[i]));
                assert(views(out@) =~= before.push(ws@[i as int]@));
                assert(cviews(ws@)[i as int] == ws@[i as int]@);
                i += 1;
                assert(views(out@) =~= cviews(ws@).take(i as int));
            }
            assert(cviews(ws@).take(ws.len() as int) =~= cviews(ws@));
            out
        },
    };
    let ghost p0 = views(parts@);
    if parts.len() == 0 {
        parts.push(String::from_str("npx"));
        assert(views(parts@) =~= seq!["npx"@]);
    }
    let ghost p = views(parts@);
    let first = parts.remove(0);
    assert(views(parts@) =~= p.drop_first());
    let npx = String::from_str("npx");
    let npx_cmd = String::from_str("npx.cmd");
    let base = if windows && first == npx {
        npx_cmd.clone()
    } else {
        first
    };
    let dash_y = String::from_str("-y");
    let mut has_y = false;
    let mut i: usize = 0;
    while i < parts.len()
        invariant
            i <= parts.len(),
            dash_y@ == "-y"@,
            has_y == views(parts@).take(i as int).contains("-y"@),
        decreases parts.len() - i,
    {
        if parts[i] == dash_y {
            has_y = true;
        }
        proof {
            let t = views(parts@).take(i + 1);
            assert(t =~= views(parts@).take(i as int).push(views(parts@)[i as int]));
            if t.contains("-y"@) && !views(parts@).take(i as int).contains("-y"@) {
                let c = choose|c: int| 0 <= c < t.len() && t[c] == "-y"@;
                if c < i {
                    assert(views(parts@).take(i as int)[c] == "-y"@);
                }
            }
            if views(parts@).take(i as int).contains("-y"@) {
                let c = choose|c: int| 0 <= c < i && views(parts@).take(i as int)[c] == "-y"@;
                assert(t[c] == "-y"@);
            }
            if parts@[i as int]@ == "-y"@ {
                assert(t[i as int] == "-y"@);
            }
        }
        i += 1;
    }
    assert(views(parts@).take(parts.len() as int) =~= views(parts@));
    if (base == npx || base == npx_cmd) && !has_y {
        let ghost rest = views(parts@);
        parts.insert(0, dash_y);
        assert(views(parts@) =~= seq!["-y"@] + rest);
    }
    (base, parts)
}

/// Splits a registered command line into (program, arguments), respecting
/// shell quoting, with the `npx` adjustments. `windows` tells whether the
/// program runs on Windows.
pub fn parse_command(cmd_line: &str, windows: bool) -> (r: (String, Vec<String>))
    ensures
        (r.0@, views(r.1@)) == command_spec(cmd_line@, shlex_words(cmd_line@), windows),
{
    let split = shlex_split(cmd_line);
    command_from_split(cmd_line, split, windows)
}

// ── Registry gate ──────────────────────────────────────────────────────

/// A name that could be a registered server: not empty, at most 128 bytes,
/// no whitespace and no path separator.
pub open spec fn name_shape_ok(name: Seq<char>) -> bool {
    &&& name.len() > 0
    &&& encode_utf8(name).len() <= 128
    &&& !(exists|i: int| 0 <= i < name.len() && (is_white(name[i]) || name[i] == '\\' || name[i] == '/'))
}

/// The refusal for a raw command offered where a registered name belongs.
pub open spec fn name_rejection(name: Seq<char>) -> Seq<char> {
    "MCP server '"@ + take_chars(name, 60)
        + "' rejected: not a registered name. Register it via the MCP Servers panel first."@
}

/// The fast check made before a name is looked up in the registry: a raw
/// command line (whitespace, a path) is refused without a lookup.
pub fn check_server_name(server_name: &str) -> (r: Result<(), String>)
    ensures
        r is Ok <==> name_shape_ok(server_name@),
        r matches Err(e) ==> e@ == name_rejection(server_name@),
{
    let chars = chars_of(server_name);
    let mut bad = false;
    let mut i: usize = 0;
    while i < chars.len()
        invariant
            i <= chars.len(),
            chars@ == server_name@,
            bad == (exists|j: int| 0 <= j < i && (is_white(chars@[j]) || chars@[j] == '\\' || chars@[j] == '/')),
        decreases chars.len() - i,
    {
        let c = chars[i];
        if white(c) || c == '\\' || c == '/' {
            bad = true;
        }
        i += 1;
    }
    if bad || chars.len() == 0 || server_name.as_bytes().len() > 128 {
        let mut msg = String::from_str("MCP server '");
        let head = string_of(&take_of(&chars, 60));
        append(&mut msg, head.as_str());
        append(&mut msg, "' rejected: not a registered name. Register it via the MCP Servers panel first.");
        Err(msg)
    } else {
        Ok(())
    }
}

// ── Outcomes reported to the UI ────────────────────────────────────────

/// Occupancy of one pooled session.
#[derive(Clone, Debug)]
pub struct PoolEntryInfo {
    pub label: String,
    pub idle_secs: i64,
    pub next_req_id: u64,
}

impl PoolEntryInfo {
    /// The entry of a session last used at `last_used_ms`, seen at `now_ms`
    /// (monotonic milliseconds; idle time counts whole seconds, never
    /// negative).
    pub fn observe(label: String, last_used_ms: u64, now_ms: u64, next_req_id: u64) -> (e: Self)
        ensures
            e.label@ == label@,
            e.next_req_id == next_req_id,
            e.idle_secs == (if now_ms >= last_used_ms { (now_ms - last_used_ms) / 1000 } else { 0 }),
    {
        let idle: u64 = if now_ms >= last_used_ms {
            (now_ms - last_used_ms) / 1000
        } else {
            0
        };
        PoolEntryInfo { label, idle_secs: idle as i64, next_req_id }
    }
}

/// The outcome of a test connection to a registered server.
#[derive(Clone, Debug)]
pub struct McpTestResult {
    pub ok: bool,
    pub latency_ms: i64,
    pub tools_count: i64,
    pub error: Option<String>,
}

impl McpTestResult {
    /// The report for a test run that listed `outcome` tools (or failed
    /// with that error) after `latency_ms`.
    pub fn from_outcome(outcome: Result<i64, String>, latency_ms: i64) -> (r: Self)
        ensures
            r.latency_ms == latency_ms,
            r.ok == outcome is Ok,
            outcome matches Ok(n) ==> r.tools_count == n && r.error is None,
            outcome matches Err(e) ==> r.tools_count == 0 && r.error == Some(e),
    {
        match outcome {
            Ok(count) => McpTestResult { ok: true, latency_ms, tools_count: count, error: None },
            Err(e) => McpTestResult { ok: false, latency_ms, tools_count: 0, error: Some(e) },
        }
    }
}

// ── Laws ───────────────────────────────────────────────────────────────

/// The order in which variables were set does not change the session key.
pub proof fn law_pool_key_ignores_insertion_order(
    server: Seq<char>,
    command: Seq<char>,
    m: Map<Seq<char>, Seq<char>>,
    k1: Seq<char>,
    v1: Seq<char>,
    k2: Seq<char>,
    v2: Seq<char>,
)
    requires
        k1 != k2,
    ensures
        pool_key_spec(server, command, Some(m.insert(k1, v1).insert(k2, v2)))
            == pool_key_spec(server, command, Some(m.insert(k2, v2).insert(k1, v1))),
{
    assert(m.insert(k1, v1).insert(k2, v2) =~= m.insert(k2, v2).insert(k1, v1));
}

/// No variable value is spelled out in a session key: past the server and
/// the command it holds only a 64-bit number in hex.
pub proof fn law_pool_key_hides_env(server: Seq<char>, command: Seq<char>, env: Option<Map<Seq<char>, Seq<char>>>)
    ensures
        exists|h: u64| pool_key_spec(server, command, env) == server + "::"@ + command + "::"@ + hex(h as nat),
{
    let h = env_hash(env);
    assert(pool_key_spec(server, command, env) == server + "::"@ + command + "::"@ + hex(h as nat));
}

/// What `filter_env` hands on is a part of what it was offered, and only
/// variables that were asked for.
pub proof fn law_filter_env_is_wanted_subset(wanted: Seq<Seq<char>>, bag: Map<Seq<char>, Seq<char>>)
    ensures
        match filter_env_spec(wanted, Some(bag)) {
            Some(f) => forall|k: Seq<char>| #[trigger] f.dom().contains(k)
                ==> bag.dom().contains(k) && f[k] == bag[k] && wanted.contains(k),
            None => true,
        },
{
}

/// An `npx` program always runs with `-y`, added at most once: when the
/// words already hold `-y` the arguments are left as they were.
pub proof fn law_npx_gets_one_dash_y(line: Seq<char>, split: Option<Seq<Seq<char>>>, windows: bool)
    ensures
        ({
            let (base, args) = command_spec(line, split, windows);
            (base == "npx"@ || base == "npx.cmd"@) ==> args.contains("-y"@)
        }),
{
    let (base, args) = command_spec(line, split, windows);
    if (base == "npx"@ || base == "npx.cmd"@) {
        let parts0 = match split {
            Some(p) => p,
            None => words(line),
        };
        let parts = if parts0.len() == 0 { seq!["npx"@] } else { parts0 };
        let rest = parts.drop_first();
        if !rest.contains("-y"@) {
            assert(args[0] == "-y"@);
        }
    }
}

// ── Capped line reads ──────────────────────────────────────────────────

/// The longest line an MCP server may send without a newline before its
/// session is dropped (16 MiB).
pub const MCP_MAX_LINE_BYTES: usize = 16777216;

/// What the line reader does with one buffer of bytes it was handed.
#[derive(PartialEq, Eq, Structural, Debug, Clone, Copy)]
pub enum LineStep {
    /// The line ends in this buffer: take `consumed` bytes, through the
    /// newline, and stop.
    Done { consumed: usize },
    /// No newline here: take the whole buffer and read on.
    More { consumed: usize },
    /// No newline, and the line is now longer than the cap.
    TooLong,
}

/// No newline byte among the first `n` bytes of `b`.
pub open spec fn no_newline(b: Seq<u8>, n: int) -> bool {
    forall|j: int| 0 <= j < n ==> b[j] != 10u8
}

/// Takes what the next buffer `chunk` adds to the line gathered in `raw`:
/// up to and including its first newline, else all of it, failing once the
/// unterminated line is longer than `max_bytes`. A terminated line is never
/// refused, however long.
pub fn line_step(raw: &mut Vec<u8>, chunk: &[u8], max_bytes: usize) -> (r: LineStep)
    ensures
        match r {
            LineStep::Done { consumed } => {
                &&& 0 < consumed <= chunk@.len()
                &&& chunk@[consumed - 1] == 10u8
                &&& no_newline(chunk@, consumed - 1)
                &&& final(raw)@ == old(raw)@ + chunk@.take(consumed as int)
            },
            LineStep::More { consumed } => {
                &&& consumed == chunk@.len()
                &&& no_newline(chunk@, chunk@.len() as int)
                &&& final(raw)@ == old(raw)@ + chunk@
                &&& final(raw)@.len() <= max_bytes
            },
            LineStep::TooLong => {
                &&& no_newline(chunk@, chunk@.len() as int)
                &&& final(raw)@ == old(raw)@ + chunk@
                &&& final(raw)@.len() > max_bytes
            },
        },
{
    let ghost start = raw@;
    let mut i: usize = 0;
    let mut found = false;
    while i < chunk.len() && !found
        invariant
            i <= chunk@.len(),
            found ==> 0 < i && chunk@[i - 1] == 10u8 && no_newline(chunk@, i - 1),
            !found ==> no_newline(chunk@, i as int),
            raw@ == start + chunk@.take(i as int),
        decreases chunk@.len() - i,
    {
        let b = chunk[i];
        raw.push(b);
        assert(chunk@.take(i + 1) =~= chunk@.take(i as int).push(b));
        found = b == 10u8;
        i += 1;
    }
    if found {
        return LineStep::Done { consumed: i };
    }
    assert(chunk@.take(chunk@.len() as int) =~= chunk@);
    if raw.len() > max_bytes {
        LineStep::TooLong
    } else {
        LineStep::More { consumed: chunk.len() }
    }
}

/// What `String::from_utf8_lossy` gives for `bytes`.
pub uninterp spec fn utf8_lossy(bytes: Seq<u8>) -> Seq<char>;

/// `String::from_utf8_lossy`, owned: the bytes as text, each invalid
/// sequence replaced by U+FFFD; valid UTF-8 comes back as it decodes. What
/// the replacement makes of invalid bytes is only named.
#[verifier::external_body]
fn from_utf8_lossy(bytes: &[u8]) -> (s: String)
    ensures
        s@ == utf8_lossy(bytes@),
        valid_utf8(bytes@) ==> s@ == decode_utf8(bytes@),
{
    String::from_utf8_lossy(bytes).into_owned()
}

/// Ends a line read: appends the gathered bytes to `buf` as text and gives
/// how many bytes the line took (0 at end of input).
pub fn finish_line(buf: &mut String, raw: &Vec<u8>) -> (n: usize)
    ensures
        n == raw@.len(),
        raw@.len() == 0 ==> final(buf)@ == old(buf)@,
        raw@.len() > 0 ==> final(buf)@ == old(buf)@ + utf8_lossy(raw@),
        valid_utf8(raw@) ==> final(buf)@ == old(buf)@ + decode_utf8(raw@),
{
    if raw.len() == 0 {
        return 0;
    }
    let text = from_utf8_lossy(raw.as_slice());
    append(buf, text.as_str());
    raw.len()
}

} // verus!
