//! Embedding bookkeeping: the cache key of a (text, model) pair, the
//! bounded cache itself, the Ollama base URL, and the warning about stored
//! vectors of another dimension.
use vstd::prelude::*;
use vstd::utf8::*;
use crate::text::{decimal, dec, append, chars_of, string_of_range, ends_with, matches_at};
use std::collections::{HashMap, VecDeque};

verus! {

// ── Cache key (FNV-1a, 64 bit) ─────────────────────────────────────────

pub const FNV_OFFSET: u64 = 0xcbf29ce484222325;
pub const FNV_PRIME: u64 = 0x100000001b3;

/// One FNV-1a step: xor the byte in, multiply by the prime modulo 2^64.
pub open spec fn fnv_step(h: u64, b: u8) -> u64 {
    (((h ^ (b as u64)) as nat * FNV_PRIME as nat) % 0x1_0000_0000_0000_0000nat) as u64
}

/// FNV-1a over `bytes`, starting from `h`.
pub open spec fn fnv(h: u64, bytes: Seq<u8>) -> u64
    decreases bytes.len(),
{
    if bytes.len() == 0 {
        h
    } else {
        fnv_step(fnv(h, bytes.drop_last()), bytes.last())
    }
}

/// The cache key: FNV-1a over the text's bytes, `|`, and the model name's
/// bytes when there is one.
pub open spec fn embed_key_spec(text: Seq<char>, model: Option<Seq<char>>) -> u64 {
    let h = fnv_step(fnv(FNV_OFFSET, encode_utf8(text)), 124u8);
    match model {
        Some(m) => fnv(h, encode_utf8(m)),
        None => h,
    }
}

fn fnv_bytes(h: u64, bytes: &[u8]) -> (r: u64)
    ensures
        r == fnv(h, bytes@),
{
    let mut acc = h;
    let mut i: usize = 0;
    while i < bytes.len()
        invariant
            i <= bytes.len(),
            acc == fnv(h, bytes@.take(i as int)),
        decreases bytes.len() - i,
    {
        assert(bytes@.take(i + 1).drop_last() =~= bytes@.take(i as int));
        acc = (acc ^ (bytes[i] as u64)).wrapping_mul(FNV_PRIME);
        i += 1;
    }
    assert(bytes@.take(bytes.len() as int) =~= bytes@);
    acc
}

/// The key under which an embedding of `text` by `model` is cached.
pub fn _embed_key(text: &str, model: Option<&str>) -> (k: u64)
    ensures
        k == embed_key_spec(text@, match model { Some(m) => Some(m@), None => None }),
{
    let h = fnv_bytes(FNV_OFFSET, text.as_bytes());
    let h = (h ^ 124u64).wrapping_mul(FNV_PRIME);
    match model {
        Some(m) => fnv_bytes(h, m.as_bytes()),
        None => h,
    }
}

// ── Dimension warning ──────────────────────────────────────────────────

/// The warning logged when a search skipped stored vectors whose dimension
/// differs from the query's.
pub open spec fn dim_warning_text(skipped: nat, total: nat, query_dim: nat) -> Seq<char> {
    "semantic_search: "@ + decimal(skipped) + "/"@ + decimal(total)
        + " stored embeddings have a dimension \u{2260} "@ + decimal(query_dim)
        + " (embedding model changed?). They are invisible to recall until re-embedded \u{2014} run backfill_embeddings."@
}

/// `None` when nothing was skipped, else the warning naming the counts.
pub fn dim_mismatch_warning(skipped: usize, total: usize, query_dim: usize) -> (w: Option<String>)
    ensures
        skipped == 0 ==> w is None,
        skipped != 0 ==> w is Some && w->0@ == dim_warning_text(skipped as nat, total as nat, query_dim as nat),
{
    if skipped == 0 {
        return None;
    }
    let mut s = String::from_str("semantic_search: ");
    append(&mut s, dec(skipped as u64).as_str());
    append(&mut s, "/");
    append(&mut s, dec(total as u64).as_str());
    append(&mut s, " stored embeddings have a dimension \u{2260} ");
    append(&mut s, dec(query_dim as u64).as_str());
    append(&mut s, " (embedding model changed?). They are invisible to recall until re-embedded \u{2014} run backfill_embeddings.");
    Some(s)
}

// ── Ollama base URL ────────────────────────────────────────────────────

/// `s` with every trailing repetition of `p` removed (what
/// `str::trim_end_matches` does with a non-empty pattern).
pub open spec fn trim_end_all(s: Seq<char>, p: Seq<char>) -> Seq<char>
    decreases s.len(),
{
    if p.len() > 0 && s.len() >= p.len() && ends_with(s, p) {
        trim_end_all(s.subrange(0, s.len() - p.len()), p)
    } else {
        s
    }
}

/// Where Ollama is reached: the stored endpoint with any trailing `/`,
/// `/v1/chat/completions`, `/api/chat`, `/v1`, `/api` (in that order) cut
/// off, or the local default when nothing is stored.
pub open spec fn ollama_base_spec(stored: Option<Seq<char>>) -> Seq<char> {
    match stored {
        Some(s) => trim_end_all(
            trim_end_all(
                trim_end_all(
                    trim_end_all(trim_end_all(trim_end_all(s, "/"@), "/v1/chat/completions"@), "/api/chat"@),
                    "/v1"@,
                ),
                "/api"@,
            ),
            "/"@,
        ),
        None => "http://localhost:11434"@,
    }
}

/// Removes every trailing repetition of `p` from `s`.
pub(crate) fn trim_end_of(s: &Vec<char>, p: &str) -> (r: Vec<char>)
    requires
        p@.len() > 0,
    ensures
        r@ == trim_end_all(s@, p@),
{
    let pc = chars_of(p);
    let mut end: usize = s.len();
    assert(s@.subrange(0, end as int) =~= s@);
    while end >= pc.len() && matches_at(s, &pc, end - pc.len())
        invariant
            end <= s.len(),
            pc@ == p@,
            p@.len() > 0,
            trim_end_all(s@.subrange(0, end as int), p@) == trim_end_all(s@, p@),
        decreases end,
    {
        let ghost cur = s@.subrange(0, end as int);
        assert(cur.subrange(cur.len() - p@.len(), cur.len() as int) =~= s@.subrange(end - p@.len(), end as int));
        end = end - pc.len();
        assert(cur.subrange(0, cur.len() - p@.len()) =~= s@.subrange(0, end as int));
    }
    proof {
        let cur = s@.subrange(0, end as int);
        if end >= p@.len() {
            assert(cur.subrange(cur.len() - p@.len(), cur.len() as int) =~= s@.subrange(end - p@.len(), end as int));
        }
    }
    let mut r: Vec<char> = Vec::new();
    let mut i: usize = 0;
    while i < end
        invariant
            i <= end <= s.len(),
            r@ == s@.subrange(0, i as int),
        decreases end - i,
    {
        r.push(s[i]);
        i += 1;
        assert(r@ =~= s@.subrange(0, i as int));
    }
    r
}

/// The Ollama base URL from the stored endpoint, if any.
pub fn ollama_base_from(stored: Option<&str>) -> (b: String)
    ensures
        b@ == ollama_base_spec(match stored { Some(s) => Some(s@), None => None }),
{
    match stored {
        None => String::from_str("http://localhost:11434"),
        Some(s) => {
            proof {
                reveal_strlit("/");
                reveal_strlit("/v1/chat/completions");
                reveal_strlit("/api/chat");
                reveal_strlit("/v1");
                reveal_strlit("/api");
            }
            let v = chars_of(s);
            let v = trim_end_of(&v, "/");
            let v = trim_end_of(&v, "/v1/chat/completions");
            let v = trim_end_of(&v, "/api/chat");
            let v = trim_end_of(&v, "/v1");
            let v = trim_end_of(&v, "/api");
            let v = trim_end_of(&v, "/");
            assert(v@.subrange(0, v@.len() as int) =~= v@);
            string_of_range(&v, 0, v.len())
        },
    }
}

// ── Bounded embedding cache ────────────────────────────────────────────

/// At most this many embeddings are cached.
pub const EMBED_CACHE_MAX: usize = 1024;

/// The value cached under `key` in a list of (key, value), oldest first.
pub open spec fn cache_lookup<V>(s: Seq<(u64, V)>, key: u64) -> Option<V>
    decreases s.len(),
{
    if s.len() == 0 {
        None
    } else if s.last().0 == key {
        Some(s.last().1)
    } else {
        cache_lookup(s.drop_last(), key)
    }
}

/// Keys occur once.
pub open spec fn cache_keys_distinct<V>(s: Seq<(u64, V)>) -> bool {
    forall|i: int, j: int| 0 <= i < j < s.len() ==> #[trigger] s[i].0 != #[trigger] s[j].0
}

/// The entries after storing `value` under `key`: a known key keeps its
/// place and takes the new value; a new key goes last, and when that makes
/// one too many the oldest entry is dropped.
pub open spec fn cache_put<V>(s: Seq<(u64, V)>, key: u64, value: V) -> Seq<(u64, V)> {
    if exists|i: int| 0 <= i < s.len() && s[i].0 == key {
        let i = choose|i: int| 0 <= i < s.len() && s[i].0 == key;
        s.update(i, (key, value))
    } else if s.len() + 1 > EMBED_CACHE_MAX {
        s.push((key, value)).drop_first()
    } else {
        s.push((key, value))
    }
}

/// Embeddings cached by key, evicted first in first out: the values by
/// key, and the keys in the order they were first stored.
pub struct EmbedCache<V> {
    map: HashMap<u64, V>,
    order: VecDeque<u64>,
}

/// The cached (key, value) pairs of a map, in the given key order.
pub open spec fn ordered_pairs<V>(order: Seq<u64>, m: Map<u64, V>) -> Seq<(u64, V)> {
    order.map_values(|k: u64| (k, m[k]))
}

impl<V> EmbedCache<V> {
    #[verifier::type_invariant]
    spec fn inv(self) -> bool {
        &&& self.order@.no_duplicates()
        &&& self.order@.len() <= EMBED_CACHE_MAX
        &&& forall|k: u64| #[trigger] self.map@.contains_key(k) <==> self.order@.contains(k)
    }

    /// The cached (key, value) pairs, oldest first.
    pub closed spec fn contents(&self) -> Seq<(u64, V)> {
        ordered_pairs(self.order@, self.map@)
    }

    /// An empty cache.
    pub fn new() -> (c: Self)
        ensures
            c.contents() == Seq::<(u64, V)>::empty(),
    {
        let c = EmbedCache { map: HashMap::new(), order: VecDeque::new() };
        assert(c.contents() =~= Seq::<(u64, V)>::empty());
        c
    }

    /// The value cached under `key`.
    pub fn get(&self, key: u64) -> (r: Option<&V>)
        ensures
            match r {
                Some(v) => cache_lookup(self.contents(), key) == Some(*v),
                None => cache_lookup(self.contents(), key) is None,
            },
    {
        proof {
            use_type_invariant(self);
            lemma_ordered_distinct(self.order@, self.map@);
            lemma_cache_lookup(self.contents(), key);
            if self.map@.contains_key(key) {
                let i = choose|i: int| 0 <= i < self.order@.len() && self.order@[i] == key;
                assert(self.contents()[i].0 == key);
            } else {
                assert forall|i: int| 0 <= i < self.contents().len() implies #[trigger] self.contents()[i].0 != key by {
                    assert(self.contents()[i].0 == self.order@[i]);
                    assert(self.order@.contains(self.order@[i]));
                }
            }
        }
        self.map.get(&key)
    }

    /// Stores `value` under `key`.
    pub fn put(&mut self, key: u64, value: V)
        ensures
            final(self).contents() == cache_put(old(self).contents(), key, value),
            final(self).contents().len() <= EMBED_CACHE_MAX,
    {
        proof {
            use_type_invariant(&*self);
            lemma_ordered_distinct(self.order@, self.map@);
        }
        let ghost s = self.contents();
        let ghost o = self.order@;
        let ghost m0 = self.map@;
        let mut cur = EmbedCache::new();
        std::mem::swap(&mut cur, self);
        let EmbedCache { mut map, mut order } = cur;
        assert(order@ == o && map@ == m0);
        let known = map.contains_key(&key);
        map.insert(key, value);
        if known {
            proof {
                let i = choose|i: int| 0 <= i < o.len() && o[i] == key;
                assert(s[i].0 == key);
                assert(exists|j: int| 0 <= j < s.len() && s[j].0 == key);
                let c = choose|c: int| 0 <= c < s.len() && s[c].0 == key;
                assert(c == i) by {
                    if c != i {
                        assert(o[c] == key);
                    }
                }
                assert forall|k: u64| #[trigger] map@.contains_key(k) <==> order@.contains(k) by {
                    if k == key {
                        assert(o.contains(key));
                    }
                }
                assert(ordered_pairs(order@, map@) =~= s.update(i, (key, value))) by {
                    assert forall|j: int| 0 <= j < o.len() implies ordered_pairs(order@, map@)[j] == s.update(
                        i,
                        (key, value),
                    )[j] by {
                        if j != i {
                            assert(o[j] != key);
                        }
                    }
                }
            }
        } else {
            order.push_back(key);
            proof {
                assert forall|j: int| 0 <= j < s.len() implies #[trigger] s[j].0 != key by {
                    assert(s[j].0 == o[j]);
                    assert(o.contains(o[j]));
                }
                assert(ordered_pairs(order@, map@) =~= s.push((key, value))) by {
                    assert forall|j: int| 0 <= j < o.len() implies ordered_pairs(order@, map@)[j] == s.push((key, value))[j] by {
                        assert(o[j] != key) by {
                            assert(o.contains(o[j]));
                        }
                    }
                }
                assert(order@.no_duplicates()) by {
                    assert forall|a: int, b: int| 0 <= a < order@.len() && 0 <= b < order@.len() && a != b implies order@[a]
                        != order@[b] by {
                        if a == o.len() {
                            assert(o.contains(o[b]));
                        } else if b == o.len() {
                            assert(o.contains(o[a]));
                        }
                    }
                }
                assert forall|k: u64| #[trigger] map@.contains_key(k) <==> order@.contains(k) by {
                    if order@.contains(k) && k != key {
                        let j = choose|j: int| 0 <= j < order@.len() && order@[j] == k;
                        assert(o[j] == k);
                        assert(o.contains(k));
                    }
                    if m0.contains_key(k) {
                        let j = choose|j: int| 0 <= j < o.len() && o[j] == k;
                        assert(order@[j] == k);
                    }
                    if k == key {
                        assert(order@[o.len() as int] == key);
                    }
                }
            }
            if order.len() > EMBED_CACHE_MAX {
                let ghost before = order@;
                let ghost mb = map@;
                match order.pop_front() {
                    Some(old) => {
                        map.remove(&old);
                        proof {
                            assert(order@ =~= before.drop_first());
                            assert(ordered_pairs(order@, map@) =~= ordered_pairs(before, mb).drop_first()) by {
                                assert forall|j: int| 0 <= j < order@.len() implies ordered_pairs(order@, map@)[j]
                                    == ordered_pairs(before, mb).drop_first()[j] by {
                                    assert(order@[j] == before[j + 1]);
                                    assert(before[j + 1] != before[0]);
                                }
                            }
                            assert(order@.no_duplicates()) by {
                                assert forall|a: int, b: int| 0 <= a < order@.len() && 0 <= b < order@.len() && a != b
                                    implies order@[a] != order@[b] by {
                                    assert(order@[a] == before[a + 1] && order@[b] == before[b + 1]);
                                }
                            }
                            assert forall|k: u64| #[trigger] map@.contains_key(k) <==> order@.contains(k) by {
                                assert(mb.contains_key(k) <==> before.contains(k));
                                if order@.contains(k) {
                                    let j = choose|j: int| 0 <= j < order@.len() && order@[j] == k;
                                    assert(before[j + 1] == k);
                                    assert(before.contains(k));
                                    assert(k != old);
                                }
                                if map@.contains_key(k) {
                                    assert(before.contains(k));
                                    let j = choose|j: int| 0 <= j < before.len() && before[j] == k;
                                    assert(j != 0);
                                    assert(order@[j - 1] == k);
                                }
                            }
                        }
                    },
                    None => {},
                }
            }
        }
        let n = EmbedCache { map, order };
        *self = n;
    }

    /// The number of cached embeddings.
    pub fn len(&self) -> (n: usize)
        ensures
            n == self.contents().len(),
    {
        self.order.len()
    }
}

/// A key order without duplicates gives pairs with distinct keys.
proof fn lemma_ordered_distinct<V>(order: Seq<u64>, m: Map<u64, V>)
    requires
        order.no_duplicates(),
    ensures
        cache_keys_distinct(ordered_pairs(order, m)),
        ordered_pairs(order, m).len() == order.len(),
{
    let p = ordered_pairs(order, m);
    assert forall|i: int, j: int| 0 <= i < j < p.len() implies #[trigger] p[i].0 != #[trigger] p[j].0 by {
        assert(p[i].0 == order[i] && p[j].0 == order[j]);
    }
}

/// With distinct keys, the lookup finds the entry holding the key, and
/// nothing when no entry does.
pub proof fn lemma_cache_lookup<V>(s: Seq<(u64, V)>, key: u64)
    requires
        cache_keys_distinct(s),
    ensures
        forall|i: int| 0 <= i < s.len() && #[trigger] s[i].0 == key ==> cache_lookup(s, key) == Some(s[i].1),
        (forall|i: int| 0 <= i < s.len() ==> #[trigger] s[i].0 != key) ==> cache_lookup(s, key) is None,
    decreases s.len(),
{
    if s.len() > 0 {
        let t = s.drop_last();
        assert(cache_keys_distinct(t)) by {
            assert forall|a: int, b: int| 0 <= a < b < t.len() implies #[trigger] t[a].0 != #[trigger] t[b].0 by {
                assert(t[a] == s[a] && t[b] == s[b]);
            }
        }
        lemma_cache_lookup(t, key);
        assert forall|i: int| 0 <= i < s.len() && #[trigger] s[i].0 == key implies cache_lookup(s, key) == Some(s[i].1) by {
            if i < s.len() - 1 {
                assert(t[i] == s[i]);
                assert(s[i].0 != s[s.len() - 1].0);
            }
        }
        if forall|i: int| 0 <= i < s.len() ==> #[trigger] s[i].0 != key {
            assert forall|i: int| 0 <= i < t.len() implies #[trigger] t[i].0 != key by {
                assert(t[i] == s[i]);
            }
            assert(s[s.len() - 1].0 != key);
        }
    }
}

/// Right after storing a value, the cache hands that value back.
pub proof fn law_cache_put_then_get<V>(s: Seq<(u64, V)>, key: u64, value: V)
    requires
        cache_keys_distinct(s),
        s.len() <= EMBED_CACHE_MAX,
    ensures
        cache_lookup(cache_put(s, key, value), key) == Some(value),
        cache_put(s, key, value).len() <= EMBED_CACHE_MAX,
        cache_keys_distinct(cache_put(s, key, value)),
{
    let t = cache_put(s, key, value);
    if exists|i: int| 0 <= i < s.len() && s[i].0 == key {
        let i = choose|i: int| 0 <= i < s.len() && s[i].0 == key;
        assert forall|a: int, b: int| 0 <= a < b < t.len() implies #[trigger] t[a].0 != #[trigger] t[b].0 by {
            assert(t[a].0 == s[a].0 && t[b].0 == s[b].0);
        }
        assert(t[i].0 == key);
        lemma_cache_lookup(t, key);
    } else {
        let p = s.push((key, value));
        assert forall|a: int, b: int| 0 <= a < b < p.len() implies #[trigger] p[a].0 != #[trigger] p[b].0 by {
            if b == p.len() - 1 {
                assert(p[a] == s[a]);
            } else {
                assert(p[a] == s[a] && p[b] == s[b]);
            }
        }
        if p.len() > EMBED_CACHE_MAX {
            assert forall|a: int, b: int| 0 <= a < b < t.len() implies #[trigger] t[a].0 != #[trigger] t[b].0 by {
                assert(t[a] == p[a + 1] && t[b] == p[b + 1]);
            }
        }
        assert(t[t.len() - 1] == (key, value));
        lemma_cache_lookup(t, key);
    }
}

/// Storing a new key in a full cache evicts the oldest entry.
pub proof fn law_full_cache_evicts_oldest<V>(s: Seq<(u64, V)>, key: u64, value: V)
    requires
        cache_keys_distinct(s),
        s.len() == EMBED_CACHE_MAX,
        forall|i: int| 0 <= i < s.len() ==> #[trigger] s[i].0 != key,
    ensures
        cache_lookup(cache_put(s, key, value), s[0].0) is None,
        cache_put(s, key, value).len() == EMBED_CACHE_MAX,
{
    let t = cache_put(s, key, value);
    let p = s.push((key, value));
    law_cache_put_then_get(s, key, value);
    assert(t =~= p.drop_first());
    assert forall|i: int| 0 <= i < t.len() implies #[trigger] t[i].0 != s[0].0 by {
        assert(t[i] == p[i + 1]);
        if i + 1 < s.len() {
            assert(s[0].0 != s[i + 1].0);
        }
    }
    lemma_cache_lookup(t, s[0].0);
}

} // verus!
