//! Tool-run dedup: the same (session, tool, input) proposed twice within
//! five minutes is a loop, and the second run is refused.
//!
//! A slot is keyed by the SHA-256 of `session:tool:input[..500 chars]`.
//! The store is a list of (key, time acquired) with distinct keys; times are
//! milliseconds on a monotonic clock that the caller reads.
use vstd::prelude::*;
use vstd::utf8::*;
use crate::text::{take_chars, take_of, chars_of, string_of};
use crate::digest::{sha256_hex, sha256_hex_of, push_utf8, push_bytes};
use crate::keyed::{entries_map, distinct_keys, lemma_entries_dom, lemma_entries_value, lemma_entries_len};

verus! {

/// How long a tool-run signature blocks re-execution, in milliseconds.
pub const DEDUP_TTL_MS: u64 = 300_000;

/// Input characters folded into the key.
pub const INPUT_PREFIX: usize = 500;

/// The bytes that are hashed for a slot.
pub open spec fn key_material(session: Seq<char>, tool: Seq<char>, input: Seq<char>) -> Seq<u8> {
    encode_utf8(session) + seq![58u8] + encode_utf8(tool) + seq![58u8]
        + encode_utf8(take_chars(input, INPUT_PREFIX as nat))
}

/// The slot key: lowercase hex SHA-256 of the key material.
pub open spec fn dedup_key(session: Seq<char>, tool: Seq<char>, input: Seq<char>) -> Seq<char> {
    sha256_hex(key_material(session, tool, input))
}

/// The slot key for a tool call.
pub fn hash_key(session_id: &str, tool_name: &str, tool_input: &str) -> (k: String)
    ensures
        k@ == dedup_key(session_id@, tool_name@, tool_input@),
        k@.len() == 64,
{
    let chars = chars_of(tool_input);
    let head = string_of(&take_of(&chars, INPUT_PREFIX));
    let mut material: Vec<u8> = Vec::new();
    push_utf8(&mut material, session_id);
    push_bytes(&mut material, &[58u8]);
    push_utf8(&mut material, tool_name);
    push_bytes(&mut material, &[58u8]);
    push_utf8(&mut material, head.as_str());
    assert(material@ =~= key_material(session_id@, tool_name@, tool_input@));
    sha256_hex_of(material.as_slice())
}

/// What one acquire answers.
#[derive(Clone, Copy, Debug, PartialEq, Eq)]
pub struct DedupResult {
    /// True iff this is a fresh slot; false means the caller skips the run.
    pub acquired: bool,
    /// When not acquired: whole seconds since the slot was taken; else 0.
    pub prev_age_seconds: u64,
}

/// Age of a slot taken at `then`, seen at `now` (zero if `now` is earlier).
pub open spec fn age_ms(then: u64, now: u64) -> nat {
    if now >= then {
        (now - then) as nat
    } else {
        0
    }
}

/// A slot taken at `then` still blocks at `now`.
pub open spec fn is_live(then: u64, now: u64) -> bool {
    age_ms(then, now) < DEDUP_TTL_MS
}

/// The slots of `m` that are still live at `now`.
pub open spec fn live_at(m: Map<Seq<char>, u64>, now: u64) -> Map<Seq<char>, u64> {
    m.restrict(m.dom().filter(|k: Seq<char>| is_live(m[k], now)))
}

/// What an acquire of key `k` at `now` answers, given the held slots `m`.
pub open spec fn acquire_result(m: Map<Seq<char>, u64>, k: Seq<char>, now: u64) -> DedupResult {
    let live = live_at(m, now);
    if live.dom().contains(k) {
        DedupResult { acquired: false, prev_age_seconds: (age_ms(live[k], now) / 1000) as u64 }
    } else {
        DedupResult { acquired: true, prev_age_seconds: 0 }
    }
}

/// The slots held after an acquire of key `k` at `now`: the expired ones
/// are gone, and `k` is taken at `now` unless it was live.
pub open spec fn acquire_slots(m: Map<Seq<char>, u64>, k: Seq<char>, now: u64) -> Map<Seq<char>, u64> {
    let live = live_at(m, now);
    if live.dom().contains(k) {
        live
    } else {
        live.insert(k, now)
    }
}

/// The held slots: key to time acquired.
pub struct DedupStore {
    entries: Vec<(String, u64)>,
}

/// Key and time of each entry.
pub open spec fn entry_views(v: Seq<(String, u64)>) -> Seq<(Seq<char>, u64)> {
    v.map_values(|e: (String, u64)| (e.0@, e.1))
}

impl DedupStore {
    /// Keys and times held, in order.
    pub closed spec fn items(&self) -> Seq<(Seq<char>, u64)> {
        entry_views(self.entries@)
    }

    /// The held slots.
    pub open spec fn slots(&self) -> Map<Seq<char>, u64> {
        entries_map(self.items())
    }

    /// No key is held twice.
    pub open spec fn wf(&self) -> bool {
        distinct_keys(self.items())
    }

    /// An empty store.
    pub fn new() -> (s: Self)
        ensures
            s.wf(),
            s.slots() == Map::<Seq<char>, u64>::empty(),
    {
        let s = DedupStore { entries: Vec::new() };
        assert(s.items() =~= Seq::<(Seq<char>, u64)>::empty());
        s
    }

    /// Drops every slot that is no longer live at `now`.
    fn drop_expired(&mut self, now: u64)
        requires
            old(self).wf(),
        ensures
            final(self).wf(),
            final(self).slots() == live_at(old(self).slots(), now),
    {
        let ghost s = self.items();
        let mut kept: Vec<(String, u64)> = Vec::new();
        let mut i: usize = 0;
        proof {
            assert(entry_views(kept@) =~= Seq::<(Seq<char>, u64)>::empty());
            assert(s.take(0) =~= Seq::<(Seq<char>, u64)>::empty());
            assert(live_at(entries_map(s.take(0)), now) =~= Map::<Seq<char>, u64>::empty());
        }
        while i < self.entries.len()
            invariant
                s == self.items(),
                distinct_keys(s),
                i <= self.entries.len(),
                distinct_keys(entry_views(kept@)),
                entries_map(entry_views(kept@)) == live_at(entries_map(s.take(i as int)), now),
            decreases self.entries.len() - i,
        {
            let e = &self.entries[i];
            let then = e.1;
            let ghost before = entry_views(kept@);
            let ghost pre = s.take(i as int);
            assert(s.take(i + 1).drop_last() =~= pre);
            assert(s.take(i + 1).last() == s[i as int]);
            assert(s[i as int] == (self.entries@[i as int].0@, self.entries@[i as int].1));
            proof {
                lemma_entries_dom(pre, s[i as int].0);
                if entries_map(pre).dom().contains(s[i as int].0) {
                    let j = choose|j: int| 0 <= j < pre.len() && #[trigger] pre[j].0 == s[i as int].0;
                    assert(s[j].0 == s[i as int].0);
                }
            }
            let fresh = if now >= then {
                now - then < DEDUP_TTL_MS
            } else {
                true
            };
            if fresh {
                kept.push((e.0.clone(), then));
                proof {
                    let after = entry_views(kept@);
                    assert(after =~= before.push(s[i as int]));
                    assert(after.drop_last() =~= before);
                    assert(entries_map(after) == entries_map(before).insert(s[i as int].0, s[i as int].1));
                    assert(entries_map(s.take(i + 1)) == entries_map(pre).insert(s[i as int].0, s[i as int].1));
                    lemma_entries_dom(before, s[i as int].0);
                    assert forall|a: int, b: int| 0 <= a < b < after.len() implies #[trigger] after[a].0 != #[trigger] after[b].0 by {
                        if b == after.len() - 1 {
                            assert(after[a] == before[a]);
                            if after[a].0 == s[i as int].0 {
                                assert(entries_map(before).dom().contains(s[i as int].0));
                            }
                        } else {
                            assert(after[a] == before[a] && after[b] == before[b]);
                        }
                    }
                    assert(entries_map(after) =~= live_at(entries_map(s.take(i + 1)), now));
                }
            } else {
                proof {
                    assert(live_at(entries_map(s.take(i + 1)), now) =~= live_at(entries_map(pre), now));
                }
            }
            i += 1;
        }
        assert(s.take(s.len() as int) =~= s);
        self.entries = kept;
    }

    /// Atomic check-and-record: drops expired slots, then either reports
    /// the live slot for this call or takes a fresh one at `now`.
    pub fn dedup_acquire(&mut self, session_id: &str, tool_name: &str, tool_input: &str, now: u64) -> (r: DedupResult)
        requires
            old(self).wf(),
        ensures
            final(self).wf(),
            ({
                let k = dedup_key(session_id@, tool_name@, tool_input@);
                &&& r == acquire_result(old(self).slots(), k, now)
                &&& final(self).slots() == acquire_slots(old(self).slots(), k, now)
            }),
    {
        self.drop_expired(now);
        let key = hash_key(session_id, tool_name, tool_input);
        let ghost s = self.items();
        let mut i: usize = 0;
        while i < self.entries.len()
            invariant
                s == self.items(),
                distinct_keys(s),
                entries_map(s) == live_at(old(self).slots(), now),
                key@ == dedup_key(session_id@, tool_name@, tool_input@),
                i <= self.entries.len(),
                forall|j: int| 0 <= j < i ==> #[trigger] s[j].0 != key@,
            decreases self.entries.len() - i,
        {
            assert(s[i as int] == (self.entries@[i as int].0@, self.entries@[i as int].1));
            if self.entries[i].0 == key {
                let then = self.entries[i].1;
                proof {
                    lemma_entries_value(s, i as int);
                }
                let age: u64 = if now >= then {
                    now - then
                } else {
                    0
                };
                return DedupResult { acquired: false, prev_age_seconds: age / 1000 };
            }
            i += 1;
        }
        proof {
            lemma_entries_dom(s, key@);
        }
        let ghost k = key@;
        self.entries.push((key, now));
        proof {
            let after = self.items();
            assert(after =~= s.push((k, now)));
            assert(after.drop_last() =~= s);
            assert(entries_map(after) == entries_map(s).insert(k, now));
            assert forall|a: int, b: int| 0 <= a < b < after.len() implies #[trigger] after[a].0 != #[trigger] after[b].0 by {
                if b == after.len() - 1 {
                    assert(after[a] == s[a]);
                } else {
                    assert(after[a] == s[a] && after[b] == s[b]);
                }
            }
        }
        DedupResult { acquired: true, prev_age_seconds: 0 }
    }

    /// Explicit release, so that a failed call can be retried at once.
    /// Answers whether the slot was held.
    pub fn dedup_release(&mut self, session_id: &str, tool_name: &str, tool_input: &str) -> (found: bool)
        requires
            old(self).wf(),
        ensures
            final(self).wf(),
            found == old(self).slots().dom().contains(dedup_key(session_id@, tool_name@, tool_input@)),
            final(self).slots() == old(self).slots().remove(dedup_key(session_id@, tool_name@, tool_input@)),
    {
        let key = hash_key(session_id, tool_name, tool_input);
        let ghost s = self.items();
        let mut kept: Vec<(String, u64)> = Vec::new();
        let mut found = false;
        let mut i: usize = 0;
        proof {
            assert(entry_views(kept@) =~= Seq::<(Seq<char>, u64)>::empty());
            assert(s.take(0) =~= Seq::<(Seq<char>, u64)>::empty());
            assert(entries_map(s.take(0)).remove(key@) =~= Map::<Seq<char>, u64>::empty());
        }
        while i < self.entries.len()
            invariant
                s == self.items(),
                distinct_keys(s),
                i <= self.entries.len(),
                distinct_keys(entry_views(kept@)),
                entries_map(entry_views(kept@)) == entries_map(s.take(i as int)).remove(key@),
                found == entries_map(s.take(i as int)).dom().contains(key@),
            decreases self.entries.len() - i,
        {
            let ghost before = entry_views(kept@);
            let ghost pre = s.take(i as int);
            assert(s.take(i + 1).drop_last() =~= pre);
            assert(s.take(i + 1).last() == s[i as int]);
            assert(s[i as int] == (self.entries@[i as int].0@, self.entries@[i as int].1));
            proof {
                lemma_entries_dom(pre, s[i as int].0);
                if entries_map(pre).dom().contains(s[i as int].0) {
                    let j = choose|j: int| 0 <= j < pre.len() && #[trigger] pre[j].0 == s[i as int].0;
                    assert(s[j].0 == s[i as int].0);
                }
            }
            if self.entries[i].0 == key {
                found = true;
                proof {
                    assert(entries_map(s.take(i + 1)).remove(key@) =~= entries_map(pre).remove(key@));
                }
            } else {
                kept.push((self.entries[i].0.clone(), self.entries[i].1));
                proof {
                    let after = entry_views(kept@);
                    assert(after =~= before.push(s[i as int]));
                    assert(after.drop_last() =~= before);
                    assert(entries_map(after) == entries_map(before).insert(s[i as int].0, s[i as int].1));
                    assert(entries_map(s.take(i + 1)) == entries_map(pre).insert(s[i as int].0, s[i as int].1));
                    lemma_entries_dom(before, s[i as int].0);
                    assert forall|a: int, b: int| 0 <= a < b < after.len() implies #[trigger] after[a].0 != #[trigger] after[b].0 by {
                        if b == after.len() - 1 {
                            assert(after[a] == before[a]);
                            if after[a].0 == s[i as int].0 {
                                assert(entries_map(before).dom().contains(s[i as int].0));
                            }
                        } else {
                            assert(after[a] == before[a] && after[b] == before[b]);
                        }
                    }
                    assert(entries_map(after) =~= entries_map(s.take(i + 1)).remove(key@));
                }
            }
            i += 1;
        }
        assert(s.take(s.len() as int) =~= s);
        self.entries = kept;
        found
    }

    /// The number of held slots.
    pub fn dedup_stats(&self) -> (n: i64)
        requires
            self.wf(),
            self.slots().dom().len() <= i64::MAX,
        ensures
            n == self.slots().dom().len(),
    {
        proof {
            lemma_entries_len(self.items());
        }
        assert(self.items().len() == self.entries@.len());
        self.entries.len() as i64
    }
}

// ── Laws ───────────────────────────────────────────────────────────────

/// A call that took its slot at `t1` is refused when repeated at any `t2`
/// less than five minutes later, and the refusal reports the age.
pub proof fn law_repeat_within_ttl_is_refused(m: Map<Seq<char>, u64>, k: Seq<char>, t1: u64, t2: u64)
    requires
        acquire_result(m, k, t1).acquired,
        t1 <= t2,
        t2 - t1 < DEDUP_TTL_MS,
    ensures
        !acquire_result(acquire_slots(m, k, t1), k, t2).acquired,
        acquire_result(acquire_slots(m, k, t1), k, t2).prev_age_seconds == (t2 - t1) / 1000,
{
    let m1 = acquire_slots(m, k, t1);
    assert(m1.dom().contains(k) && m1[k] == t1);
    assert(live_at(m1, t2).dom().contains(k));
}

/// Once a slot is released, the same call acquires again at once.
pub proof fn law_release_allows_retry(m: Map<Seq<char>, u64>, k: Seq<char>, now: u64)
    ensures
        acquire_result(m.remove(k), k, now).acquired,
        acquire_slots(m.remove(k), k, now).dom().contains(k),
        acquire_slots(m.remove(k), k, now)[k] == now,
{
}

/// After an acquire, every slot held is live.
pub proof fn law_acquire_keeps_only_live_slots(m: Map<Seq<char>, u64>, k: Seq<char>, now: u64)
    ensures
        forall|j: Seq<char>| #[trigger] acquire_slots(m, k, now).dom().contains(j)
            ==> is_live(acquire_slots(m, k, now)[j], now),
{
}

/// Only the first 500 characters of the input count: two inputs that agree
/// on them give the same slot.
pub proof fn law_key_ignores_input_past_prefix(session: Seq<char>, tool: Seq<char>, a: Seq<char>, b: Seq<char>)
    requires
        take_chars(a, INPUT_PREFIX as nat) == take_chars(b, INPUT_PREFIX as nat),
    ensures
        dedup_key(session, tool, a) == dedup_key(session, tool, b),
{
}

} // verus!
