//! Tiered memory: how long core facts stay fresh, how text is tokenised for
//! similarity, and how the core block injected into the prompt is written.
use vstd::prelude::*;
use vstd::utf8::*;
use crate::keyed::{lex_lt, lemma_lex_antisym, lemma_lex_total, lemma_lex_trans};
use crate::text::{decimal, dec, append, lex_le, lex_leq, unicode_lower, unicode_alnum, is_alphanumeric, to_lowercase, chars_of, same, string_of, views};

verus! {

/// At most this many memories are drawn in the graph view.
pub const GRAPH_MAX_NODES: usize = 250;

/// At most this many edges are drawn in the graph view.
pub const GRAPH_MAX_EDGES: usize = 1500;

// ── Decay half-life ────────────────────────────────────────────────────

/// Half-life in days of facts in a section, by its lowercased name.
pub open spec fn half_life_for(lowered: Seq<char>) -> u64 {
    if lowered == "identity"@ || lowered == "user_facts"@ || lowered == "user"@ {
        365
    } else if lowered == "preference"@ || lowered == "preferences"@ || lowered == "preferencia"@ {
        180
    } else if lowered == "host"@ || lowered == "hosts"@ || lowered == "environment"@ {
        90
    } else if lowered == "context"@ || lowered == "project"@ || lowered == "current"@ {
        60
    } else if lowered == "rules"@ {
        730
    } else {
        120
    }
}

fn is(v: &Vec<char>, lit: &str) -> (b: bool)
    ensures
        b == (v@ == lit@),
{
    same(v, &chars_of(lit))
}

/// Per-section half-life in days (the name is compared after Unicode
/// lowercasing; unknown sections get four months).
pub fn decay_half_life_days(section: &str) -> (d: u64)
    ensures
        d == half_life_for(unicode_lower(section@)),
{
    let lowered = to_lowercase(section);
    let s = chars_of(lowered.as_str());
    if is(&s, "identity") || is(&s, "user_facts") || is(&s, "user") {
        365
    } else if is(&s, "preference") || is(&s, "preferences") || is(&s, "preferencia") {
        180
    } else if is(&s, "host") || is(&s, "hosts") || is(&s, "environment") {
        90
    } else if is(&s, "context") || is(&s, "project") || is(&s, "current") {
        60
    } else if is(&s, "rules") {
        730
    } else {
        120
    }
}

// ── Similarity tokens ──────────────────────────────────────────────────

/// The maximal runs of alphanumeric characters of `s[i..]`, `cur` being
/// the run in progress.
pub open spec fn runs_from(s: Seq<char>, i: int, cur: Seq<char>) -> Seq<Seq<char>>
    decreases s.len() - i,
{
    if i >= s.len() || i < 0 {
        if cur.len() > 0 {
            seq![cur]
        } else {
            Seq::empty()
        }
    } else if !unicode_alnum(s[i]) {
        if cur.len() > 0 {
            seq![cur] + runs_from(s, i + 1, Seq::empty())
        } else {
            runs_from(s, i + 1, cur)
        }
    } else {
        runs_from(s, i + 1, cur.push(s[i]))
    }
}

/// The similarity tokens of `s`: the alphanumeric runs of its lowercase
/// form that are at least three characters long.
pub open spec fn similarity_tokens(s: Seq<char>) -> Set<Seq<char>> {
    runs_from(unicode_lower(s), 0, Seq::empty()).to_set().filter(|w: Seq<char>| w.len() >= 3)
}

/// A set of tokens.
pub struct TokenSet {
    items: Vec<String>,
}

impl View for TokenSet {
    type V = Set<Seq<char>>;

    closed spec fn view(&self) -> Set<Seq<char>> {
        views(self.items@).to_set()
    }
}

impl TokenSet {
    /// No token is held twice.
    pub closed spec fn wf(&self) -> bool {
        views(self.items@).no_duplicates()
    }

    /// Whether `w` is one of the tokens.
    pub fn contains(&self, w: &str) -> (b: bool)
        ensures
            b == self@.contains(w@),
    {
        let target = chars_of(w);
        let mut i: usize = 0;
        while i < self.items.len()
            invariant
                i <= self.items.len(),
                target@ == w@,
                forall|j: int| 0 <= j < i ==> #[trigger] self.items@[j]@ != w@,
            decreases self.items.len() - i,
        {
            let item = chars_of(self.items[i].as_str());
            if same(&item, &target) {
                assert(views(self.items@)[i as int] == w@);
                return true;
            }
            i += 1;
        }
        proof {
            if views(self.items@).contains(w@) {
                let j = choose|j: int| 0 <= j < views(self.items@).len() && views(self.items@)[j] == w@;
                assert(self.items@[j]@ == w@);
            }
        }
        false
    }

    /// Adds `w` unless it is already there.
    fn add(&mut self, w: String)
        requires
            old(self).wf(),
        ensures
            final(self)@ == old(self)@.insert(w@),
            final(self).wf(),
    {
        if !self.contains(w.as_str()) {
            let ghost before = views(self.items@);
            self.items.push(w);
            proof {
                assert(views(self.items@) =~= before.push(w@));
                assert(!before.contains(w@));
                assert forall|i: int, j: int| 0 <= i < views(self.items@).len() && 0 <= j < views(self.items@).len() && i != j
                    implies views(self.items@)[i] != views(self.items@)[j] by {
                    if i < before.len() && j < before.len() {
                        assert(views(self.items@)[i] == before[i]);
                        assert(views(self.items@)[j] == before[j]);
                    } else if i == before.len() {
                        assert(views(self.items@)[j] == before[j]);
                        assert(before.contains(before[j]));
                    } else {
                        assert(views(self.items@)[i] == before[i]);
                        assert(before.contains(before[i]));
                    }
                }
                assert(views(self.items@) =~= before.push(w@));
                assert(views(self.items@).to_set() =~= before.to_set().insert(w@)) by {
                    assert forall|x: Seq<char>| views(self.items@).to_set().contains(x) <==> before.to_set().insert(w@).contains(x) by {
                        if views(self.items@).contains(x) && x != w@ {
                            let j = choose|j: int| 0 <= j < views(self.items@).len() && views(self.items@)[j] == x;
                            assert(before[j] == x);
                        }
                        if before.contains(x) {
                            let j = choose|j: int| 0 <= j < before.len() && before[j] == x;
                            assert(views(self.items@)[j] == x);
                        }
                        if x == w@ {
                            assert(views(self.items@)[before.len() as int] == x);
                        }
                    }
                }
            }
        }
    }
}

/// The elements of `s` that `o` holds, in order.
pub open spec fn common(s: Seq<Seq<char>>, o: Set<Seq<char>>) -> Seq<Seq<char>>
    decreases s.len(),
{
    if s.len() == 0 {
        Seq::empty()
    } else if o.contains(s.last()) {
        common(s.drop_last(), o).push(s.last())
    } else {
        common(s.drop_last(), o)
    }
}

proof fn lemma_seq_push_to_set(s: Seq<Seq<char>>, x: Seq<char>)
    ensures
        s.push(x).to_set() == s.to_set().insert(x),
{
    assert forall|y: Seq<char>| s.push(x).to_set().contains(y) <==> s.to_set().insert(x).contains(y) by {
        if s.push(x).contains(y) && y != x {
            let j = choose|j: int| 0 <= j < s.push(x).len() && s.push(x)[j] == y;
            assert(s[j] == y);
        }
        if s.contains(y) {
            let j = choose|j: int| 0 <= j < s.len() && s[j] == y;
            assert(s.push(x)[j] == y);
        }
        if y == x {
            assert(s.push(x)[s.len() as int] == y);
        }
    }
    assert(s.push(x).to_set() =~= s.to_set().insert(x));
}

proof fn lemma_common(s: Seq<Seq<char>>, o: Set<Seq<char>>)
    requires
        s.no_duplicates(),
    ensures
        common(s, o).no_duplicates(),
        common(s, o).to_set() == s.to_set().intersect(o),
    decreases s.len(),
{
    if s.len() == 0 {
        assert(common(s, o).to_set() =~= s.to_set().intersect(o));
    } else {
        let d = s.drop_last();
        let x = s.last();
        assert(d.no_duplicates()) by {
            assert forall|i: int, j: int| 0 <= i < d.len() && 0 <= j < d.len() && i != j implies d[i] != d[j] by {
                assert(d[i] == s[i] && d[j] == s[j]);
            }
        }
        lemma_common(d, o);
        assert(s =~= d.push(x));
        lemma_seq_push_to_set(d, x);
        assert(!d.contains(x)) by {
            if d.contains(x) {
                let j = choose|j: int| 0 <= j < d.len() && d[j] == x;
                assert(s[j] == s[s.len() - 1]);
            }
        }
        let c = common(d, o);
        if o.contains(x) {
            lemma_seq_push_to_set(c, x);
            assert(!c.contains(x)) by {
                if c.contains(x) {
                    assert(c.to_set().contains(x));
                }
            }
            assert forall|i: int, j: int| 0 <= i < c.push(x).len() && 0 <= j < c.push(x).len() && i != j
                implies c.push(x)[i] != c.push(x)[j] by {
                if i < c.len() && j < c.len() {
                    assert(c.push(x)[i] == c[i] && c.push(x)[j] == c[j]);
                } else if i == c.len() {
                    assert(c.push(x)[j] == c[j]);
                    assert(c.contains(c[j]));
                } else {
                    assert(c.push(x)[i] == c[i]);
                    assert(c.contains(c[i]));
                }
            }
            assert(common(s, o).to_set() =~= s.to_set().intersect(o));
        } else {
            assert(common(s, o).to_set() =~= s.to_set().intersect(o));
        }
    }
}

impl TokenSet {
    /// How many tokens the set holds.
    pub fn len(&self) -> (n: usize)
        requires
            self.wf(),
        ensures
            n == self@.len(),
    {
        proof {
            views(self.items@).unique_seq_to_set();
        }
        self.items.len()
    }

    /// The sizes of the intersection and of the union of two token sets
    /// (what Jaccard similarity divides).
    pub fn overlap(&self, other: &TokenSet) -> (r: (usize, usize))
        requires
            self.wf(),
            other.wf(),
            self@.len() + other@.len() <= usize::MAX,
        ensures
            r.0 == self@.intersect(other@).len(),
            r.1 == self@.union(other@).len(),
    {
        let ghost sv = views(self.items@);
        let mut inter: usize = 0;
        let mut i: usize = 0;
        assert(sv.take(0) =~= Seq::<Seq<char>>::empty());
        while i < self.items.len()
            invariant
                i <= self.items.len(),
                sv == views(self.items@),
                inter <= i,
                inter == common(sv.take(i as int), other@).len(),
            decreases self.items.len() - i,
        {
            assert(sv.take(i + 1).drop_last() =~= sv.take(i as int));
            assert(sv.take(i + 1).last() == self.items@[i as int]@);
            if other.contains(self.items[i].as_str()) {
                inter += 1;
            }
            i += 1;
        }
        proof {
            assert(sv.take(sv.len() as int) =~= sv);
            lemma_common(sv, other@);
            common(sv, other@).unique_seq_to_set();
            sv.unique_seq_to_set();
            views(other.items@).unique_seq_to_set();
            vstd::set_lib::lemma_set_intersect_union_lens(self@, other@);
            vstd::set_lib::lemma_len_intersect(self@, other@);
        }
        let a = self.len();
        let b = other.len();
        (inter, (a - inter) + b)
    }

    /// The set of the given words, each lowercased (how tags are compared).
    pub fn lowered_words(words: &Vec<String>) -> (t: TokenSet)
        ensures
            t.wf(),
            t@ == views(words@).map_values(|w: Seq<char>| unicode_lower(w)).to_set(),
    {
        let ghost lw = views(words@).map_values(|w: Seq<char>| unicode_lower(w));
        let mut t = TokenSet { items: Vec::new() };
        assert(views(t.items@) =~= Seq::<Seq<char>>::empty());
        assert(lw.take(0).to_set() =~= Set::<Seq<char>>::empty());
        let mut i: usize = 0;
        while i < words.len()
            invariant
                i <= words.len(),
                lw == views(words@).map_values(|w: Seq<char>| unicode_lower(w)),
                t.wf(),
                t@ == lw.take(i as int).to_set(),
            decreases words.len() - i,
        {
            let w = to_lowercase(words[i].as_str());
            assert(lw[i as int] == w@);
            t.add(w);
            proof {
                assert(lw.take(i + 1) =~= lw.take(i as int).push(w@));
                lemma_seq_push_to_set(lw.take(i as int), w@);
            }
            i += 1;
        }
        assert(lw.take(words.len() as int) =~= lw);
        t
    }
}

/// Tokenises a text for similarity scoring: lowercased, split at every
/// non-alphanumeric character, words shorter than three characters dropped.
pub fn tokens_for_similarity(s: &str) -> (t: TokenSet)
    ensures
        t@ == similarity_tokens(s@),
        t.wf(),
{
    let lowered = to_lowercase(s);
    let c = chars_of(lowered.as_str());
    let ghost l = c@;
    let mut t = TokenSet { items: Vec::new() };
    assert(views(t.items@) =~= Seq::<Seq<char>>::empty());
    assert(t@ =~= Set::<Seq<char>>::empty());
    assert(t.wf());
    let mut cur: Vec<char> = Vec::new();
    let mut i: usize = 0;
    assert(cur@ =~= Seq::<char>::empty());
    assert(t@.union(runs_from(l, 0, cur@).to_set().filter(|w: Seq<char>| w.len() >= 3))
        =~= runs_from(l, 0, Seq::empty()).to_set().filter(|w: Seq<char>| w.len() >= 3));
    while i < c.len()
        invariant
            l == c@,
            i <= c.len(),
            t.wf(),
            // tokens found so far, together with what the rest yields, make the whole
            t@.union(runs_from(l, i as int, cur@).to_set().filter(|w: Seq<char>| w.len() >= 3))
                == runs_from(l, 0, Seq::empty()).to_set().filter(|w: Seq<char>| w.len() >= 3),
        decreases c.len() - i,
    {
        let ch = c[i];
        if !is_alphanumeric(ch) {
            if cur.len() > 0 {
                let word = string_of(&cur);
                let ghost before = t@;
                if cur.len() >= 3 {
                    t.add(word);
                }
                proof {
                    let rest = runs_from(l, i + 1, Seq::empty());
                    assert(runs_from(l, i as int, cur@) == seq![cur@] + rest);
                    assert((seq![cur@] + rest).to_set() =~= rest.to_set().insert(cur@)) by {
                        assert forall|x: Seq<char>| (seq![cur@] + rest).to_set().contains(x) <==> rest.to_set().insert(cur@).contains(x) by {
                            let q = seq![cur@] + rest;
                            if q.contains(x) && x != cur@ {
                                let j = choose|j: int| 0 <= j < q.len() && q[j] == x;
                                assert(rest[j - 1] == x);
                            }
                            if rest.contains(x) {
                                let j = choose|j: int| 0 <= j < rest.len() && rest[j] == x;
                                assert(q[j + 1] == x);
                            }
                            if x == cur@ {
                                assert(q[0] == x);
                            }
                        }
                    }
                    assert(t@.union(rest.to_set().filter(|w: Seq<char>| w.len() >= 3))
                        =~= before.union(runs_from(l, i as int, cur@).to_set().filter(|w: Seq<char>| w.len() >= 3)));
                }
                cur = Vec::new();
            } else {
                assert(cur@ =~= Seq::<char>::empty());
                assert(l[i as int] == ch);
                assert(runs_from(l, i as int, cur@) == runs_from(l, i + 1, Seq::<char>::empty()));
            }
        } else {
            let ghost before = cur@;
            cur.push(ch);
            assert(runs_from(l, i as int, before) == runs_from(l, i + 1, cur@));
        }
        i += 1;
    }
    if cur.len() > 0 {
        let word = string_of(&cur);
        let ghost before = t@;
        if cur.len() >= 3 {
            t.add(word);
        }
        proof {
            assert(runs_from(l, i as int, cur@) == seq![cur@]);
            assert(seq![cur@].to_set() =~= Set::<Seq<char>>::empty().insert(cur@)) by {
                assert forall|x: Seq<char>| seq![cur@].to_set().contains(x) <==> x == cur@ by {
                    if x == cur@ {
                        assert(seq![cur@][0] == x);
                    }
                }
            }
            assert(t@ =~= before.union(runs_from(l, i as int, cur@).to_set().filter(|w: Seq<char>| w.len() >= 3)));
        }
    } else {
        proof {
            assert(runs_from(l, i as int, cur@) =~= Seq::<Seq<char>>::empty());
            assert(runs_from(l, i as int, cur@).to_set() =~= Set::<Seq<char>>::empty());
            assert(t@ =~= t@.union(runs_from(l, i as int, cur@).to_set().filter(|w: Seq<char>| w.len() >= 3)));
        }
    }
    t
}

// ── Core memory block ─────────────────────────────────────────────────

/// How a core fact has aged (by its decay score: fresh at 0.7 and above,
/// aging from 0.3, stale below).
#[derive(Clone, Copy, Debug, PartialEq, Eq)]
pub enum DecayTier {
    Fresh,
    Aging,
    Stale,
}

impl DecayTier {
    /// The one-word label the memory panel shows.
    pub fn label(&self) -> (l: &'static str)
        ensures
            l@ == (match *self {
                DecayTier::Fresh => "fresh"@,
                DecayTier::Aging => "aging"@,
                DecayTier::Stale => "stale"@,
            }),
    {
        match self {
            DecayTier::Fresh => "fresh",
            DecayTier::Aging => "aging",
            DecayTier::Stale => "stale",
        }
    }
}

/// A core fact as read for the prompt block.
#[derive(Clone, Debug)]
pub struct CoreFact {
    pub section: String,
    pub key: String,
    pub value: String,
    pub tier: DecayTier,
}

/// (section, key, value, tier) of each fact.
pub open spec fn fact_views(v: Seq<CoreFact>) -> Seq<(Seq<char>, Seq<char>, Seq<char>, DecayTier)> {
    v.map_values(|f: CoreFact| (f.section@, f.key@, f.value@, f.tier))
}

/// The sections that hold a fact that is not stale, among the first `n`.
pub open spec fn live_sections(r: Seq<(Seq<char>, Seq<char>, Seq<char>, DecayTier)>, n: int) -> Set<Seq<char>> {
    Set::new(|sec: Seq<char>| exists|i: int| 0 <= i < n && #[trigger] r[i].3 != DecayTier::Stale && r[i].0 == sec)
}

/// The number of stale facts among the first `n`.
pub open spec fn stale_count(r: Seq<(Seq<char>, Seq<char>, Seq<char>, DecayTier)>, n: int) -> nat
    decreases n,
{
    if n <= 0 {
        0
    } else if r[n - 1].3 == DecayTier::Stale {
        stale_count(r, n - 1) + 1
    } else {
        stale_count(r, n - 1)
    }
}

/// Strings in strictly increasing order.
pub open spec fn strictly_sorted(l: Seq<Seq<char>>) -> bool {
    forall|i: int, j: int| 0 <= i < j < l.len() ==> lex_lt(#[trigger] l[i], #[trigger] l[j])
}

/// The sections with live facts, in increasing order.
pub open spec fn sorted_sections(r: Seq<(Seq<char>, Seq<char>, Seq<char>, DecayTier)>) -> Seq<Seq<char>> {
    choose|l: Seq<Seq<char>>| strictly_sorted(l) && l.to_set() == live_sections(r, r.len() as int)
}

/// One fact's line.
pub open spec fn fact_line(f: (Seq<char>, Seq<char>, Seq<char>, DecayTier)) -> Seq<char> {
    "  "@ + f.1 + " = "@ + f.2 + (if f.3 == DecayTier::Aging { " [~aging~]"@ } else { Seq::empty() }) + "\n"@
}

/// The lines of the live facts of section `sec` among the first `n`.
pub open spec fn section_lines(r: Seq<(Seq<char>, Seq<char>, Seq<char>, DecayTier)>, sec: Seq<char>, n: int) -> Seq<char>
    decreases n,
{
    if n <= 0 {
        Seq::empty()
    } else if r[n - 1].3 != DecayTier::Stale && r[n - 1].0 == sec {
        section_lines(r, sec, n - 1) + fact_line(r[n - 1])
    } else {
        section_lines(r, sec, n - 1)
    }
}

/// The blocks of the first `k` sections of `secs`.
pub open spec fn section_blocks(r: Seq<(Seq<char>, Seq<char>, Seq<char>, DecayTier)>, secs: Seq<Seq<char>>, k: int) -> Seq<char>
    decreases k,
{
    if k <= 0 {
        Seq::empty()
    } else {
        section_blocks(r, secs, k - 1) + "["@ + secs[k - 1] + "]\n"@ + section_lines(r, secs[k - 1], r.len() as int)
    }
}

/// The note on facts left out as stale.
pub open spec fn stale_note(n: nat) -> Seq<char> {
    if n == 0 {
        Seq::empty()
    } else {
        "(Note: "@ + decimal(n) + " additional fact"@ + (if n == 1 { Seq::empty() } else { "s"@ })
            + " were filtered as stale. If relevant, ask the user to confirm.)\n"@
    }
}

/// The block written when every fact is stale.
pub open spec fn all_stale_block(n: nat) -> Seq<char> {
    "--- CORE MEMORY ---\n(No fresh facts available \u{2014} "@ + decimal(n)
        + " stale entries were filtered. If the user references personal info, ask them to confirm rather than assuming defaults.)\n--- END CORE MEMORY ---"@
}

/// The core memory block: nothing when there are no facts; else the live
/// facts grouped by section (sections in order, facts in the order given),
/// aging ones marked, stale ones left out and counted.
pub open spec fn core_block(r: Seq<(Seq<char>, Seq<char>, Seq<char>, DecayTier)>) -> Seq<char> {
    if r.len() == 0 {
        Seq::empty()
    } else if live_sections(r, r.len() as int) == Set::<Seq<char>>::empty() {
        all_stale_block(stale_count(r, r.len() as int))
    } else {
        "--- CORE MEMORY (always-on facts) ---\n"@ + section_blocks(r, sorted_sections(r), sorted_sections(r).len() as int)
            + stale_note(stale_count(r, r.len() as int)) + "--- END CORE MEMORY ---"@
    }
}

/// Two strictly sorted lists of the same strings are the same list.
pub proof fn lemma_sorted_strings_unique(a: Seq<Seq<char>>, b: Seq<Seq<char>>)
    requires
        strictly_sorted(a),
        strictly_sorted(b),
        a.to_set() == b.to_set(),
    ensures
        a == b,
    decreases a.len(),
{
    if a.len() == 0 {
        if b.len() > 0 {
            assert(b.to_set().contains(b[0]));
        }
        assert(a =~= b);
    } else if b.len() == 0 {
        assert(a.to_set().contains(a[0]));
    } else {
        assert(a.to_set().contains(a[0]));
        assert(b.to_set().contains(b[0]));
        let j = choose|j: int| 0 <= j < b.len() && b[j] == a[0];
        let i = choose|i: int| 0 <= i < a.len() && a[i] == b[0];
        if i > 0 && j > 0 {
            assert(lex_lt(a[0], a[i]));
            assert(lex_lt(b[0], b[j]));
            lemma_lex_antisym(a[0], b[0]);
        }
        assert(a[0] == b[0]);
        let a1 = a.drop_first();
        let b1 = b.drop_first();
        assert(strictly_sorted(a1)) by {
            assert forall|x: int, y: int| 0 <= x < y < a1.len() implies lex_lt(#[trigger] a1[x], #[trigger] a1[y]) by {
                assert(a1[x] == a[x + 1] && a1[y] == a[y + 1]);
            }
        }
        assert(strictly_sorted(b1)) by {
            assert forall|x: int, y: int| 0 <= x < y < b1.len() implies lex_lt(#[trigger] b1[x], #[trigger] b1[y]) by {
                assert(b1[x] == b[x + 1] && b1[y] == b[y + 1]);
            }
        }
        assert(a1.to_set() =~= b1.to_set()) by {
            assert forall|x: Seq<char>| a1.to_set().contains(x) <==> b1.to_set().contains(x) by {
                if a1.contains(x) {
                    let p = choose|p: int| 0 <= p < a1.len() && a1[p] == x;
                    assert(a[p + 1] == x);
                    assert(lex_lt(a[0], a[p + 1]));
                    assert(a.to_set().contains(x));
                    assert(b.contains(x));
                    let q = choose|q: int| 0 <= q < b.len() && b[q] == x;
                    assert(q != 0);
                    assert(b1[q - 1] == x);
                }
                if b1.contains(x) {
                    let p = choose|p: int| 0 <= p < b1.len() && b1[p] == x;
                    assert(b[p + 1] == x);
                    assert(lex_lt(b[0], b[p + 1]));
                    assert(b.to_set().contains(x));
                    assert(a.contains(x));
                    let q = choose|q: int| 0 <= q < a.len() && a[q] == x;
                    assert(q != 0);
                    assert(a1[q - 1] == x);
                }
            }
        }
        lemma_sorted_strings_unique(a1, b1);
        assert(a =~= b) by {
            assert forall|x: int| 0 <= x < a.len() implies a[x] == b[x] by {
                if x > 0 {
                    assert(a1[x - 1] == a[x] && b1[x - 1] == b[x]);
                }
            }
        }
    }
}

/// Inserts `x` into the strictly sorted `v`, unless it is there already.
fn insert_sorted(v: &mut Vec<String>, x: &String)
    requires
        strictly_sorted(views(old(v)@)),
    ensures
        strictly_sorted(views(final(v)@)),
        views(final(v)@).to_set() == views(old(v)@).to_set().insert(x@),
{
    let ghost before = views(v@);
    let key = chars_of(x.as_str());
    let mut j: usize = 0;
    while j < v.len()
        invariant
            before == views(v@),
            j <= v.len(),
            key@ == x@,
            forall|a: int| 0 <= a < j ==> !lex_le(x@, #[trigger] before[a]),
        ensures
            j <= v.len(),
            forall|a: int| 0 <= a < j ==> !lex_le(x@, #[trigger] before[a]),
            j < v.len() ==> lex_le(x@, before[j as int]),
        decreases v.len() - j,
    {
        let other = chars_of(v[j].as_str());
        assert(other@ == before[j as int]);
        if lex_leq(&key, &other) {
            break;
        }
        j += 1;
    }
    if j < v.len() && v[j] == *x {
        assert(before[j as int] == x@);
        assert(before.to_set().insert(x@) =~= before.to_set());
        return;
    }
    v.insert(j, x.clone());
    proof {
        let after = views(v@);
        assert(after =~= before.insert(j as int, x@));
        assert forall|a: int, b: int| 0 <= a < b < after.len() implies lex_lt(#[trigger] after[a], #[trigger] after[b]) by {
            if b < j {
                assert(after[a] == before[a] && after[b] == before[b]);
            } else if b == j {
                assert(after[a] == before[a]);
                lemma_lex_total(x@, before[a]);
            } else if a == j {
                assert(after[b] == before[b - 1]);
                assert(before[j as int] != x@);
                if b - 1 > j {
                    assert(lex_lt(before[j as int], before[b - 1]));
                    lemma_lex_trans(x@, before[j as int], before[b - 1]);
                    if x@ == before[b - 1] {
                        lemma_lex_antisym(x@, before[j as int]);
                    }
                }
            } else if a < j {
                assert(after[a] == before[a] && after[b] == before[b - 1]);
            } else {
                assert(after[a] == before[a - 1] && after[b] == before[b - 1]);
            }
        }
        assert forall|y: Seq<char>| after.to_set().contains(y) <==> before.to_set().insert(x@).contains(y) by {
            if after.contains(y) {
                let c = choose|c: int| 0 <= c < after.len() && after[c] == y;
                if c < j {
                    assert(before[c] == y);
                } else if c > j {
                    assert(before[c - 1] == y);
                }
            }
            if before.contains(y) {
                let c = choose|c: int| 0 <= c < before.len() && before[c] == y;
                if c < j {
                    assert(after[c] == y);
                } else {
                    assert(after[c + 1] == y);
                }
            }
            if y == x@ {
                assert(after[j as int] == y);
            }
        }
        assert(after.to_set() =~= before.to_set().insert(x@));
    }
}

/// Writes the core memory block injected into the system prompt.
pub fn render_core_sync(facts: &Vec<CoreFact>) -> (out: String)
    ensures
        out@ == core_block(fact_views(facts@)),
{
    let ghost r = fact_views(facts@);
    if facts.len() == 0 {
        return String::new();
    }
    let mut secs: Vec<String> = Vec::new();
    let mut stale: usize = 0;
    let mut i: usize = 0;
    proof {
        assert(views(secs@) =~= Seq::<Seq<char>>::empty());
        assert(views(secs@).to_set() =~= live_sections(r, 0));
    }
    while i < facts.len()
        invariant
            r == fact_views(facts@),
            i <= facts.len(),
            strictly_sorted(views(secs@)),
            views(secs@).to_set() == live_sections(r, i as int),
            stale == stale_count(r, i as int),
            stale <= i,
        decreases facts.len() - i,
    {
        assert(r[i as int] == (facts@[i as int].section@, facts@[i as int].key@, facts@[i as int].value@, facts@[i as int].tier));
        match facts[i].tier {
            DecayTier::Stale => {
                stale += 1;
                assert(live_sections(r, i + 1) =~= live_sections(r, i as int));
            },
            _ => {
                insert_sorted(&mut secs, &facts[i].section);
                proof {
                    assert(r[i as int].3 != DecayTier::Stale);
                    assert forall|sec: Seq<char>| live_sections(r, i + 1).contains(sec) <==> live_sections(r, i as int).insert(r[i as int].0).contains(sec) by {
                        if live_sections(r, i + 1).contains(sec) && sec != r[i as int].0 {
                            let w = choose|w: int| 0 <= w < i + 1 && #[trigger] r[w].3 != DecayTier::Stale && r[w].0 == sec;
                            assert(w < i);
                        }
                        if live_sections(r, i as int).contains(sec) {
                            let w = choose|w: int| 0 <= w < i && #[trigger] r[w].3 != DecayTier::Stale && r[w].0 == sec;
                            assert(0 <= w < i + 1);
                        }
                    }
                    assert(live_sections(r, i + 1) =~= live_sections(r, i as int).insert(r[i as int].0));
                }
            },
        }
        i += 1;
    }
    if secs.len() == 0 {
        assert(views(secs@) =~= Seq::<Seq<char>>::empty());
        assert(live_sections(r, r.len() as int) =~= Set::<Seq<char>>::empty());
        let mut out = String::from_str("--- CORE MEMORY ---\n(No fresh facts available \u{2014} ");
        append(&mut out, dec(stale as u64).as_str());
        append(&mut out, " stale entries were filtered. If the user references personal info, ask them to confirm rather than assuming defaults.)\n--- END CORE MEMORY ---");
        return out;
    }
    proof {
        assert(views(secs@).to_set().contains(views(secs@)[0]));
        assert(live_sections(r, r.len() as int) != Set::<Seq<char>>::empty());
        let c = sorted_sections(r);
        assert(strictly_sorted(c) && c.to_set() == live_sections(r, r.len() as int));
        lemma_sorted_strings_unique(views(secs@), c);
    }
    let mut out = String::from_str("--- CORE MEMORY (always-on facts) ---\n");
    let ghost head = out@;
    let mut k: usize = 0;
    while k < secs.len()
        invariant
            r == fact_views(facts@),
            k <= secs.len(),
            out@ == head + section_blocks(r, views(secs@), k as int),
        decreases secs.len() - k,
    {
        let sec = &secs[k];
        append(&mut out, "[");
        append(&mut out, sec.as_str());
        append(&mut out, "]\n");
        let ghost mid = out@;
        let mut j: usize = 0;
        while j < facts.len()
            invariant
                r == fact_views(facts@),
                j <= facts.len(),
                out@ == mid + section_lines(r, sec@, j as int),
            decreases facts.len() - j,
        {
            let f = &facts[j];
            assert(r[j as int] == (f.section@, f.key@, f.value@, f.tier));
            let live = match f.tier {
                DecayTier::Stale => false,
                _ => true,
            };
            if live && f.section == *sec {
                append(&mut out, "  ");
                append(&mut out, f.key.as_str());
                append(&mut out, " = ");
                append(&mut out, f.value.as_str());
                match f.tier {
                    DecayTier::Aging => append(&mut out, " [~aging~]"),
                    _ => {},
                }
                append(&mut out, "\n");
                assert(out@ =~= mid + section_lines(r, sec@, j as int + 1));
            }
            j += 1;
        }
        k += 1;
        assert(views(secs@)[k - 1] == sec@);
        assert(out@ =~= head + section_blocks(r, views(secs@), k as int));
    }
    if stale > 0 {
        append(&mut out, "(Note: ");
        append(&mut out, dec(stale as u64).as_str());
        append(&mut out, " additional fact");
        if stale != 1 {
            append(&mut out, "s");
        }
        append(&mut out, " were filtered as stale. If relevant, ask the user to confirm.)\n");
    }
    append(&mut out, "--- END CORE MEMORY ---");
    out
}

// ── Laws ───────────────────────────────────────────────────────────────

proof fn lemma_stale_edit_invisible(
    r: Seq<(Seq<char>, Seq<char>, Seq<char>, DecayTier)>,
    t: Seq<(Seq<char>, Seq<char>, Seq<char>, DecayTier)>,
    i: int,
    n: int,
)
    requires
        0 <= i < r.len(),
        t.len() == r.len(),
        r[i].3 == DecayTier::Stale,
        t[i].3 == DecayTier::Stale,
        forall|j: int| 0 <= j < r.len() && j != i ==> t[j] == r[j],
        n <= r.len(),
    ensures
        stale_count(t, n) == stale_count(r, n),
        forall|sec: Seq<char>| section_lines(t, sec, n) == section_lines(r, sec, n),
        live_sections(t, n) == live_sections(r, n),
    decreases n,
{
    if n > 0 {
        lemma_stale_edit_invisible(r, t, i, n - 1);
        if n - 1 != i {
            assert(t[n - 1] == r[n - 1]);
        }
        assert forall|sec: Seq<char>| section_lines(t, sec, n) == section_lines(r, sec, n) by {
            assert(section_lines(t, sec, n - 1) == section_lines(r, sec, n - 1));
        }
    }
    assert forall|sec: Seq<char>| live_sections(t, n).contains(sec) <==> live_sections(r, n).contains(sec) by {
        if live_sections(t, n).contains(sec) {
            let w = choose|w: int| 0 <= w < n && #[trigger] t[w].3 != DecayTier::Stale && t[w].0 == sec;
            assert(w != i);
            assert(r[w] == t[w]);
        }
        if live_sections(r, n).contains(sec) {
            let w = choose|w: int| 0 <= w < n && #[trigger] r[w].3 != DecayTier::Stale && r[w].0 == sec;
            assert(w != i);
            assert(r[w] == t[w]);
        }
    }
    assert(live_sections(t, n) =~= live_sections(r, n));
}

proof fn lemma_blocks_follow_lines(
    r: Seq<(Seq<char>, Seq<char>, Seq<char>, DecayTier)>,
    t: Seq<(Seq<char>, Seq<char>, Seq<char>, DecayTier)>,
    secs: Seq<Seq<char>>,
    k: int,
)
    requires
        t.len() == r.len(),
        forall|sec: Seq<char>| section_lines(t, sec, t.len() as int) == section_lines(r, sec, r.len() as int),
    ensures
        section_blocks(t, secs, k) == section_blocks(r, secs, k),
    decreases k,
{
    if k > 0 {
        lemma_blocks_follow_lines(r, t, secs, k - 1);
        assert(section_lines(t, secs[k - 1], t.len() as int) == section_lines(r, secs[k - 1], r.len() as int));
    }
}

/// Stale facts never reach the prompt: rewriting the section, key or value
/// of a stale fact leaves the block exactly as it was (they only count
/// toward the note on filtered facts).
pub proof fn law_stale_facts_are_invisible(
    r: Seq<(Seq<char>, Seq<char>, Seq<char>, DecayTier)>,
    i: int,
    section: Seq<char>,
    key: Seq<char>,
    value: Seq<char>,
)
    requires
        0 <= i < r.len(),
        r[i].3 == DecayTier::Stale,
    ensures
        core_block(r.update(i, (section, key, value, DecayTier::Stale))) == core_block(r),
{
    let t = r.update(i, (section, key, value, DecayTier::Stale));
    lemma_stale_edit_invisible(r, t, i, r.len() as int);
    assert(sorted_sections(t) == sorted_sections(r));
    lemma_blocks_follow_lines(r, t, sorted_sections(r), sorted_sections(r).len() as int);
}

/// With a fact that is not stale, the block is framed by its header and
/// footer, and it notes the stale facts exactly when there are some.
pub proof fn law_block_is_framed(r: Seq<(Seq<char>, Seq<char>, Seq<char>, DecayTier)>, i: int)
    requires
        0 <= i < r.len(),
        r[i].3 != DecayTier::Stale,
    ensures
        crate::text::starts_with(core_block(r), "--- CORE MEMORY (always-on facts) ---\n"@),
        crate::text::ends_with(core_block(r), "--- END CORE MEMORY ---"@),
        (stale_note(stale_count(r, r.len() as int)).len() > 0) == (stale_count(r, r.len() as int) > 0),
{
    assert(live_sections(r, r.len() as int).contains(r[i].0));
    let h = "--- CORE MEMORY (always-on facts) ---\n"@;
    let f = "--- END CORE MEMORY ---"@;
    let mid = section_blocks(r, sorted_sections(r), sorted_sections(r).len() as int) + stale_note(
        stale_count(r, r.len() as int),
    );
    assert(core_block(r) == h + mid + f);
    assert((h + mid + f).subrange(0, h.len() as int) =~= h);
    assert((h + mid + f).subrange((h + mid + f).len() - f.len(), (h + mid + f).len() as int) =~= f);
    reveal_strlit("(Note: ");
}

/// The block mentions no fact at all exactly when there are none: with at
/// least one fact it is never empty.
pub proof fn law_block_empty_only_without_facts(r: Seq<(Seq<char>, Seq<char>, Seq<char>, DecayTier)>)
    ensures
        (core_block(r).len() == 0) <==> (r.len() == 0),
{
    if r.len() > 0 {
        if live_sections(r, r.len() as int) == Set::<Seq<char>>::empty() {
            assert(all_stale_block(stale_count(r, r.len() as int)).len() > 0);
        } else {
            reveal_strlit("--- END CORE MEMORY ---");
        }
    }
}


/// Reading on from `i` with `cur` = `s[a..i]` inside an alphanumeric run
/// `s[a..b]` that ends at `b`, the run is one of the runs found.
proof fn lemma_run_found(s: Seq<char>, a: int, b: int, i: int, cur: Seq<char>)
    requires
        0 <= a <= i <= b <= s.len(),
        a < b,
        cur == s.subrange(a, i),
        forall|k: int| a <= k < b ==> unicode_alnum(#[trigger] s[k]),
        b == s.len() || !unicode_alnum(s[b]),
    ensures
        runs_from(s, i, cur).contains(s.subrange(a, b)),
    decreases b - i,
{
    if i == b {
        assert(cur.len() > 0);
        if b == s.len() {
            assert(runs_from(s, i, cur) == seq![cur]);
            assert(seq![cur][0] == cur);
        } else {
            let q = seq![cur] + runs_from(s, i + 1, Seq::empty());
            assert(runs_from(s, i, cur) == q);
            assert(q[0] == cur);
        }
    } else {
        assert(unicode_alnum(s[i]));
        assert(cur.push(s[i]) =~= s.subrange(a, i + 1));
        lemma_run_found(s, a, b, i + 1, cur.push(s[i]));
    }
}

/// What the runs from `a` (just after a separator) yield, the runs from
/// any earlier point yield too.
proof fn lemma_runs_from_earlier(s: Seq<char>, j: int, a: int, cur: Seq<char>, x: Seq<char>)
    requires
        0 <= j < a <= s.len(),
        !unicode_alnum(s[a - 1]),
        runs_from(s, a, Seq::empty()).contains(x),
    ensures
        runs_from(s, j, cur).contains(x),
    decreases a - j,
{
    let r = runs_from(s, a, Seq::empty());
    let w = choose|w: int| 0 <= w < r.len() && r[w] == x;
    if j == a - 1 {
        if cur.len() > 0 {
            let q = seq![cur] + r;
            assert(runs_from(s, j, cur) == q);
            assert(q[w + 1] == x);
        } else {
            assert(cur =~= Seq::<char>::empty());
        }
    } else if !unicode_alnum(s[j]) {
        lemma_runs_from_earlier(s, j + 1, a, Seq::empty(), x);
        if cur.len() > 0 {
            let r1 = runs_from(s, j + 1, Seq::empty());
            let q = seq![cur] + r1;
            let w1 = choose|w1: int| 0 <= w1 < r1.len() && r1[w1] == x;
            assert(q[w1 + 1] == x);
        } else {
            assert(cur =~= Seq::<char>::empty());
        }
    } else {
        lemma_runs_from_earlier(s, j + 1, a, cur.push(s[j]), x);
    }
}

/// Every maximal run of alphanumeric characters (digits included) of the
/// lowercased text that is three characters or longer is a similarity
/// token.
pub proof fn law_alphanumeric_runs_are_tokens(s: Seq<char>, a: int, b: int)
    requires
        0 <= a,
        a + 3 <= b <= unicode_lower(s).len(),
        forall|k: int| a <= k < b ==> unicode_alnum(#[trigger] unicode_lower(s)[k]),
        a == 0 || !unicode_alnum(unicode_lower(s)[a - 1]),
        b == unicode_lower(s).len() || !unicode_alnum(unicode_lower(s)[b]),
    ensures
        similarity_tokens(s).contains(unicode_lower(s).subrange(a, b)),
{
    let l = unicode_lower(s);
    let x = l.subrange(a, b);
    assert(Seq::<char>::empty() =~= l.subrange(a, a));
    lemma_run_found(l, a, b, a, Seq::empty());
    if a > 0 {
        lemma_runs_from_earlier(l, 0, a, Seq::empty(), x);
    }
    assert(runs_from(l, 0, Seq::empty()).to_set().contains(x));
}


/// The runs found are made of alphanumeric characters only.
proof fn lemma_runs_alnum(s: Seq<char>, i: int, cur: Seq<char>)
    requires
        forall|k: int| 0 <= k < cur.len() ==> unicode_alnum(#[trigger] cur[k]),
    ensures
        forall|w: int, k: int| 0 <= w < runs_from(s, i, cur).len() && 0 <= k < runs_from(s, i, cur)[w].len()
            ==> unicode_alnum(#[trigger] runs_from(s, i, cur)[w][k]),
    decreases s.len() - i,
{
    let r = runs_from(s, i, cur);
    if i >= s.len() || i < 0 {
        assert forall|w: int, k: int| 0 <= w < r.len() && 0 <= k < r[w].len() implies unicode_alnum(#[trigger] r[w][k]) by {
            assert(r == seq![cur]);
            assert(r[w] == cur);
        }
    } else if unicode_alnum(s[i]) == false {
        lemma_runs_alnum(s, i + 1, Seq::empty());
        let r1 = runs_from(s, i + 1, Seq::empty());
        if cur.len() == 0 {
            assert(cur =~= Seq::<char>::empty());
            assert(r == r1);
        } else {
            assert(r == seq![cur] + r1);
            assert forall|w: int, k: int| 0 <= w < r.len() && 0 <= k < r[w].len() implies unicode_alnum(#[trigger] r[w][k]) by {
                if w > 0 {
                    assert(r[w] == r1[w - 1]);
                } else {
                    assert(r[w] == cur);
                }
            }
        }
    } else {
        let c2 = cur.push(s[i]);
        assert forall|k: int| 0 <= k < c2.len() implies unicode_alnum(#[trigger] c2[k]) by {
            if k < cur.len() {
                assert(c2[k] == cur[k]);
            }
        }
        lemma_runs_alnum(s, i + 1, c2);
        assert(r == runs_from(s, i + 1, c2));
    }
}

/// Every similarity token is three characters or longer and made of
/// alphanumeric characters only.
pub proof fn law_tokens_are_alphanumeric_words(s: Seq<char>, w: Seq<char>)
    requires
        similarity_tokens(s).contains(w),
    ensures
        w.len() >= 3,
        forall|k: int| 0 <= k < w.len() ==> unicode_alnum(#[trigger] w[k]),
{
    let r = runs_from(unicode_lower(s), 0, Seq::empty());
    lemma_runs_alnum(unicode_lower(s), 0, Seq::empty());
    assert(r.to_set().contains(w));
    let j = choose|j: int| 0 <= j < r.len() && r[j] == w;
    assert forall|k: int| 0 <= k < w.len() implies unicode_alnum(#[trigger] w[k]) by {
        assert(r[j][k] == w[k]);
    }
}

} // verus!
