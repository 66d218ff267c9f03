//! The directory-listing cache: a `radix_trie::Trie` from directory path to
//! the listing taken there and when (milliseconds on a monotonic clock).
//! A listing is served for a minute; the cache is kept near 200 entries by
//! dropping expired listings first, then the oldest.
use vstd::prelude::*;
use radix_trie::TrieCommon;
use crate::file_ops::{alt_dir_key, alt_dir_key_spec, entry_views, DirEntryInfo, DirEntryV};

verus! {

#[verifier::external_type_specification]
#[verifier::external_body]
#[verifier::reject_recursive_types(K)]
#[verifier::reject_recursive_types(V)]
pub struct ExTrie<K, V>(radix_trie::Trie<K, V>);

/// How many listings the cache holds before it is trimmed.
pub const MAX_DIR_CACHE_ENTRIES: usize = 200;
/// How long a listing stays good, in milliseconds.
pub const DIR_CACHE_TTL_MS: u64 = 60000;

/// A cached listing and the moment it was taken.
pub struct DirCacheEntry {
    pub entries: Vec<DirEntryInfo>,
    pub stamp_ms: u64,
}

impl View for DirCacheEntry {
    type V = (Seq<DirEntryV>, u64);

    open spec fn view(&self) -> (Seq<DirEntryV>, u64) {
        (entry_views(self.entries@), self.stamp_ms)
    }
}

/// The cache itself: a trie from directory key to cached listing.
pub type DirCache = radix_trie::Trie<String, DirCacheEntry>;

/// A key of the cache with the stamp of its listing.
pub type KeyStamp = (String, u64);

/// What a cache trie holds: each key, with its listing and stamp.
pub uninterp spec fn cache_contents(t: DirCache) -> Map<Seq<char>, (Seq<DirEntryV>, u64)>;

/// `radix_trie::Trie::new`: an empty trie.
#[verifier::external_body]
fn trie_new() -> (t: DirCache)
    ensures
        cache_contents(t).dom() == Set::<Seq<char>>::empty(),
{
    radix_trie::Trie::new()
}

/// `TrieCommon::len`: the number of keys stored (the trie counts each
/// insert of a new key and each removal of a present one).
#[verifier::external_body]
fn trie_len(t: &DirCache) -> (n: usize)
    ensures
        n == cache_contents(*t).len(),
{
    t.len()
}

/// `Trie::get`: the value stored under `key`, if any.
#[verifier::external_body]
fn trie_get<'a>(t: &'a DirCache, key: &str) -> (r: Option<&'a DirCacheEntry>)
    ensures
        match r {
            Some(e) => cache_contents(*t).dom().contains(key@) && cache_contents(*t)[key@] == e@,
            None => !cache_contents(*t).dom().contains(key@),
        },
{
    t.get(key)
}

/// `Trie::insert`: `key` now maps to `value`, the other keys unchanged.
#[verifier::external_body]
fn trie_insert(t: &mut DirCache, key: String, value: DirCacheEntry)
    ensures
        cache_contents(*final(t)) == cache_contents(*old(t)).insert(key@, value@),
{
    t.insert(key, value);
}

/// `Trie::remove`: `key` is no longer stored, the other keys unchanged.
#[verifier::external_body]
fn trie_remove(t: &mut DirCache, key: &str)
    ensures
        cache_contents(*final(t)) == cache_contents(*old(t)).remove(key@),
{
    t.remove(key);
}

/// `TrieCommon::iter`, each key with its stamp: every stored key exactly
/// once, in the trie's own order (which is not stated).
#[verifier::external_body]
fn trie_stamps(t: &DirCache) -> (v: Vec<KeyStamp>)
    ensures
        v.len() == cache_contents(*t).len(),
        forall|i: int|
            0 <= i < v.len() ==> cache_contents(*t).dom().contains(#[trigger] v@[i].0@) && cache_contents(*t)[v@[i].0@].1
                == v@[i].1,
        forall|i: int, j: int| 0 <= i < j < v.len() ==> #[trigger] v@[i].0@ != #[trigger] v@[j].0@,
        forall|k: Seq<char>| #[trigger]
            cache_contents(*t).dom().contains(k) ==> exists|i: int| 0 <= i < v.len() && #[trigger] v@[i].0@ == k,
{
    t.iter().map(|(k, e)| (k.clone(), e.stamp_ms)).collect()
}

/// A map whose every key is the key of some item of `v` is finite.
proof fn lemma_covered_finite(c: Map<Seq<char>, (Seq<DirEntryV>, u64)>, v: Seq<KeyStamp>)
    requires
        forall|k: Seq<char>| #[trigger] c.dom().contains(k) ==> exists|i: int| 0 <= i < v.len() && #[trigger] v[i].0@ == k,
    ensures
        c.dom().finite(),
{
    let keys = v.map_values(|p: KeyStamp| p.0@);
    assert forall|k: Seq<char>| #[trigger] c.dom().contains(k) implies keys.to_set().contains(k) by {
        let i = choose|i: int| 0 <= i < v.len() && #[trigger] v[i].0@ == k;
        assert(keys[i] == k);
    }
    vstd::seq_lib::seq_to_set_is_finite(keys);
    vstd::set_lib::lemma_set_subset_finite(keys.to_set(), c.dom());
}

/// A listing stamped `stamp` has outlived the TTL at `now`.
pub open spec fn stale(stamp: u64, now: u64) -> bool {
    now > stamp + DIR_CACHE_TTL_MS
}

/// A listing stamped `stamp` may still be served at `now` (a stamp later
/// than `now` counts as just taken).
pub open spec fn servable(stamp: u64, now: u64) -> bool {
    now < stamp + DIR_CACHE_TTL_MS
}

/// The listings of `c` that have not outlived the TTL at `now`.
pub open spec fn unexpired(c: Map<Seq<char>, (Seq<DirEntryV>, u64)>, now: u64) -> Map<Seq<char>, (Seq<DirEntryV>, u64)> {
    c.restrict(c.dom().filter(|k: Seq<char>| !stale(c[k].1, now)))
}

/// `after` is a trim of `before` at `now`: the expired listings are gone;
/// of the rest, the oldest went until at most the cap remain, and nothing
/// else changed.
pub open spec fn trimmed(
    before: Map<Seq<char>, (Seq<DirEntryV>, u64)>,
    after: Map<Seq<char>, (Seq<DirEntryV>, u64)>,
    now: u64,
) -> bool {
    let live = unexpired(before, now);
    &&& forall|k: Seq<char>| #[trigger]
        after.dom().contains(k) ==> live.dom().contains(k) && after[k] == live[k]
    &&& after.len() == vstd::math::min(live.len() as int, MAX_DIR_CACHE_ENTRIES as int)
    &&& live.len() <= MAX_DIR_CACHE_ENTRIES ==> after == live
    &&& forall|r: Seq<char>, k: Seq<char>|
        live.dom().contains(r) && !after.dom().contains(r) && #[trigger] after.dom().contains(k) ==> #[trigger] live[r].1
            <= after[k].1
}

/// The position of the oldest stamp (the first such).
fn oldest(v: &Vec<KeyStamp>) -> (b: usize)
    requires
        v.len() > 0,
    ensures
        b < v.len(),
        forall|i: int| 0 <= i < v.len() ==> v@[b as int].1 <= #[trigger] v@[i].1,
{
    let mut b: usize = 0;
    let mut i: usize = 1;
    while i < v.len()
        invariant
            0 < i <= v.len(),
            b < i,
            forall|j: int| 0 <= j < i ==> v@[b as int].1 <= #[trigger] v@[j].1,
        decreases v.len() - i,
    {
        if v[i].1 < v[b].1 {
            b = i;
        }
        i += 1;
    }
    b
}

/// Drops the listings past their TTL, then, while more than the cap
/// remain, the oldest.
pub fn trim_dir_cache(cache: &mut DirCache, now_ms: u64)
    ensures
        trimmed(cache_contents(*old(cache)), cache_contents(*final(cache)), now_ms),
{
    let ghost before = cache_contents(*cache);
    let ghost live = unexpired(before, now_ms);
    let stamps = trie_stamps(cache);
    proof {
        lemma_covered_finite(before, stamps@);
    }
    let mut i: usize = 0;
    while i < stamps.len()
        invariant
            i <= stamps.len(),
            before.dom().finite(),
            stamps.len() == before.len(),
            live == unexpired(before, now_ms),
            forall|j: int|
                0 <= j < stamps.len() ==> before.dom().contains(#[trigger] stamps@[j].0@) && before[stamps@[j].0@].1
                    == stamps@[j].1,
            forall|j: int, l: int| 0 <= j < l < stamps.len() ==> #[trigger] stamps@[j].0@ != #[trigger] stamps@[l].0@,
            forall|k: Seq<char>| #[trigger]
                before.dom().contains(k) ==> exists|j: int| 0 <= j < stamps.len() && #[trigger] stamps@[j].0@ == k,
            forall|k: Seq<char>| #[trigger]
                cache_contents(*cache).dom().contains(k) <==> before.dom().contains(k) && !(exists|j: int|
                    0 <= j < i && #[trigger] stamps@[j].0@ == k && stale(stamps@[j].1, now_ms)),
            forall|k: Seq<char>| #[trigger]
                cache_contents(*cache).dom().contains(k) ==> cache_contents(*cache)[k] == before[k],
        decreases stamps.len() - i,
    {
        let ghost c0 = cache_contents(*cache);
        if now_ms > stamps[i].1 && now_ms - stamps[i].1 > DIR_CACHE_TTL_MS {
            trie_remove(cache, stamps[i].0.as_str());
        }
        assert forall|k: Seq<char>| #[trigger]
            cache_contents(*cache).dom().contains(k) <==> before.dom().contains(k) && !(exists|j: int|
                0 <= j < i + 1 && #[trigger] stamps@[j].0@ == k && stale(stamps@[j].1, now_ms)) by {
            if exists|j: int| 0 <= j < i + 1 && #[trigger] stamps@[j].0@ == k && stale(stamps@[j].1, now_ms) {
                let j = choose|j: int| 0 <= j < i + 1 && #[trigger] stamps@[j].0@ == k && stale(stamps@[j].1, now_ms);
                if j < i {
                    assert(!c0.dom().contains(k));
                }
            }
        }
        i += 1;
    }
    proof {
        assert forall|k: Seq<char>| #[trigger] cache_contents(*cache).dom().contains(k) <==> live.dom().contains(k) by {
            if before.dom().contains(k) {
                let j = choose|j: int| 0 <= j < stamps.len() && #[trigger] stamps@[j].0@ == k;
                assert(stamps@[j].1 == before[k].1);
                if cache_contents(*cache).dom().contains(k) {
                    assert(!stale(before[k].1, now_ms));
                }
            }
        }
        assert(cache_contents(*cache) =~= live);
        assert(live.dom().subset_of(before.dom()));
        vstd::set_lib::lemma_set_subset_finite(before.dom(), live.dom());
    }
    let n = trie_len(cache);
    if n > MAX_DIR_CACHE_ENTRIES {
        let mut excess: usize = n - MAX_DIR_CACHE_ENTRIES;
        while excess > 0
            invariant
                live == unexpired(before, now_ms),
                cache_contents(*cache).dom().finite(),
                cache_contents(*cache).len() == MAX_DIR_CACHE_ENTRIES + excess,
                live.len() > MAX_DIR_CACHE_ENTRIES,
                forall|k: Seq<char>| #[trigger]
                    cache_contents(*cache).dom().contains(k) ==> live.dom().contains(k) && cache_contents(*cache)[k]
                        == live[k],
                forall|r: Seq<char>, k: Seq<char>|
                    live.dom().contains(r) && !cache_contents(*cache).dom().contains(r) && #[trigger] cache_contents(
                        *cache,
                    ).dom().contains(k) ==> #[trigger] live[r].1 <= cache_contents(*cache)[k].1,
            decreases excess,
        {
            let ghost c0 = cache_contents(*cache);
            let now_stamps = trie_stamps(cache);
            proof {
                lemma_covered_finite(c0, now_stamps@);
            }
            let b = oldest(&now_stamps);
            let ghost m = now_stamps@[b as int].0@;
            proof {
                assert forall|k: Seq<char>| #[trigger] c0.dom().contains(k) implies c0[m].1 <= c0[k].1 by {
                    let j = choose|j: int| 0 <= j < now_stamps.len() && #[trigger] now_stamps@[j].0@ == k;
                    assert(now_stamps@[j].1 == c0[k].1);
                }
            }
            trie_remove(cache, now_stamps[b].0.as_str());
            proof {
                assert forall|r: Seq<char>, k: Seq<char>|
                    live.dom().contains(r) && !cache_contents(*cache).dom().contains(r) && #[trigger] cache_contents(
                        *cache,
                    ).dom().contains(k) implies #[trigger] live[r].1 <= cache_contents(*cache)[k].1 by {
                    if r == m {
                        assert(c0.dom().contains(k));
                    } else {
                        assert(!c0.dom().contains(r));
                        assert(c0.dom().contains(k));
                    }
                }
            }
            excess -= 1;
        }
    }
}


/// What a read of `key` at `now` is served from the cache: the listing,
/// while it is still good.
pub open spec fn served(c: Map<Seq<char>, (Seq<DirEntryV>, u64)>, key: Seq<char>, now: u64) -> Option<Seq<DirEntryV>> {
    if c.dom().contains(key) && servable(c[key].1, now) {
        Some(c[key].0)
    } else {
        None
    }
}

/// `after` is `before` once `listing` is stored under `key` at `now`: a
/// full cache is trimmed first.
pub open spec fn stored(
    before: Map<Seq<char>, (Seq<DirEntryV>, u64)>,
    after: Map<Seq<char>, (Seq<DirEntryV>, u64)>,
    key: Seq<char>,
    listing: Seq<DirEntryV>,
    now: u64,
) -> bool {
    if before.len() >= MAX_DIR_CACHE_ENTRIES {
        exists|mid: Map<Seq<char>, (Seq<DirEntryV>, u64)>|
            #[trigger] trimmed(before, mid, now) && after == mid.insert(key, (listing, now))
    } else {
        after == before.insert(key, (listing, now))
    }
}

/// An empty cache.
pub fn new_dir_cache() -> (c: DirCache)
    ensures
        cache_contents(c).dom() == Set::<Seq<char>>::empty(),
{
    trie_new()
}

/// A copy of one listed entry.
fn copy_entry(e: &DirEntryInfo) -> (r: DirEntryInfo)
    ensures
        r@ == e@,
{
    DirEntryInfo { name: e.name.clone(), is_dir: e.is_dir, size: e.size, modified: e.modified.clone() }
}

/// The listing cached under `key`, if it is still good at `now_ms`.
pub fn cached_listing(cache: &DirCache, key: &str, now_ms: u64) -> (r: Option<Vec<DirEntryInfo>>)
    ensures
        match r {
            Some(v) => served(cache_contents(*cache), key@, now_ms) == Some(entry_views(v@)),
            None => served(cache_contents(*cache), key@, now_ms) is None,
        },
{
    match trie_get(cache, key) {
        None => None,
        Some(e) => {
            if now_ms < e.stamp_ms || now_ms - e.stamp_ms < DIR_CACHE_TTL_MS {
                let mut out: Vec<DirEntryInfo> = Vec::new();
                let mut i: usize = 0;
                while i < e.entries.len()
                    invariant
                        i <= e.entries.len(),
                        entry_views(out@) == entry_views(e.entries@).take(i as int),
                    decreases e.entries.len() - i,
                {
                    let ghost prev = out@;
                    let c = copy_entry(&e.entries[i]);
                    out.push(c);
                    assert(entry_views(out@) =~= entry_views(prev).push(c@));
                    assert(entry_views(e.entries@).take(i + 1) =~= entry_views(e.entries@).take(i as int).push(
                        e.entries@[i as int]@,
                    ));
                    i += 1;
                }
                assert(entry_views(e.entries@).take(e.entries.len() as int) =~= entry_views(e.entries@));
                Some(out)
            } else {
                None
            }
        },
    }
}

/// Stores a fresh listing of `key` taken at `now_ms`, trimming a full
/// cache first.
pub fn store_listing(cache: &mut DirCache, key: String, entries: Vec<DirEntryInfo>, now_ms: u64)
    ensures
        stored(cache_contents(*old(cache)), cache_contents(*final(cache)), key@, entry_views(entries@), now_ms),
{
    let ghost before = cache_contents(*cache);
    let ghost k = key@;
    let ghost listing = entry_views(entries@);
    let n = trie_len(cache);
    if n >= MAX_DIR_CACHE_ENTRIES {
        trim_dir_cache(cache, now_ms);
        let ghost mid = cache_contents(*cache);
        trie_insert(cache, key, DirCacheEntry { entries, stamp_ms: now_ms });
        assert(trimmed(before, mid, now_ms));
        assert(cache_contents(*cache) == mid.insert(k, (listing, now_ms)));
    } else {
        trie_insert(cache, key, DirCacheEntry { entries, stamp_ms: now_ms });
    }
}

/// Drops the cached listing of a directory under both spellings of its
/// key (with and without the trailing separator `sep`).
pub fn invalidate_dir_cache(cache: &mut DirCache, dir_key: &str, sep: char)
    ensures
        cache_contents(*final(cache)) == cache_contents(*old(cache)).remove(dir_key@).remove(
            alt_dir_key_spec(dir_key@, sep),
        ),
{
    trie_remove(cache, dir_key);
    let alt = alt_dir_key(dir_key, sep);
    trie_remove(cache, alt.as_str());
}

// ── Laws ───────────────────────────────────────────────────────────────

/// A listing just stored is what a read of the same key is served for the
/// next minute.
pub proof fn law_read_after_store(
    before: Map<Seq<char>, (Seq<DirEntryV>, u64)>,
    after: Map<Seq<char>, (Seq<DirEntryV>, u64)>,
    key: Seq<char>,
    listing: Seq<DirEntryV>,
    now: u64,
    later: u64,
)
    requires
        stored(before, after, key, listing, now),
        now <= later,
        later < now + DIR_CACHE_TTL_MS,
    ensures
        served(after, key, later) == Some(listing),
{
    if before.len() >= MAX_DIR_CACHE_ENTRIES {
        let mid = choose|mid: Map<Seq<char>, (Seq<DirEntryV>, u64)>|
            #[trigger] trimmed(before, mid, now) && after == mid.insert(key, (listing, now));
        assert(after[key] == (listing, now));
    }
}

/// However listings are stored, the cache holds at most one listing over
/// its cap.
pub proof fn law_cache_stays_bounded(
    before: Map<Seq<char>, (Seq<DirEntryV>, u64)>,
    after: Map<Seq<char>, (Seq<DirEntryV>, u64)>,
    key: Seq<char>,
    listing: Seq<DirEntryV>,
    now: u64,
)
    requires
        before.dom().finite(),
        stored(before, after, key, listing, now),
    ensures
        after.len() <= MAX_DIR_CACHE_ENTRIES + 1,
{
    if before.len() >= MAX_DIR_CACHE_ENTRIES {
        let mid = choose|mid: Map<Seq<char>, (Seq<DirEntryV>, u64)>|
            #[trigger] trimmed(before, mid, now) && after == mid.insert(key, (listing, now));
        let live = unexpired(before, now);
        assert(live.dom().subset_of(before.dom()));
        vstd::set_lib::lemma_set_subset_finite(before.dom(), live.dom());
        assert(mid.dom().subset_of(live.dom()));
        vstd::set_lib::lemma_set_subset_finite(live.dom(), mid.dom());
        assert(after.dom() == mid.dom().insert(key));
    } else {
        assert(after.dom() == before.dom().insert(key));
    }
}

/// Once a directory's listing is invalidated, a read of either spelling
/// of its key misses the cache.
pub proof fn law_invalidated_listing_is_not_served(
    before: Map<Seq<char>, (Seq<DirEntryV>, u64)>,
    dir_key: Seq<char>,
    sep: char,
    now: u64,
)
    ensures
        served(before.remove(dir_key).remove(alt_dir_key_spec(dir_key, sep)), dir_key, now) is None,
        served(before.remove(dir_key).remove(alt_dir_key_spec(dir_key, sep)), alt_dir_key_spec(dir_key, sep), now) is None,
{
}

} // verus!
