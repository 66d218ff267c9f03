//! Inventory drift: what was added, removed or changed between a host's
//! trusted baseline inventory and the current one.
//!
//! Each category matches entries by a key (the first entry of a key wins):
//! software by name (case-insensitively), ports by number, services by
//! name, certificates by subject; scheduled entries match verbatim. Added
//! and removed entries are reported by their index in the current and the
//! baseline list.
use vstd::prelude::*;
use crate::text::{unicode_lower, to_lowercase, copy_str, append, chars_of, lex_le, lex_leq, views};
use crate::digest::{signed_decimal, signed_dec};
use crate::keyed::{entries_map, key_sorted, lex_lt, lemma_sorted_listing_unique, lemma_lex_total, lemma_lex_trans, lemma_lex_antisym};

verus! {

/// An entry that drifted: which one, which field, and its two values.
#[derive(Clone, Debug)]
pub struct DriftChange {
    pub identifier: String,
    pub field: String,
    pub from: String,
    pub to: String,
}

/// Added, removed and changed entries over all categories.
#[derive(Clone, Copy, Debug, PartialEq, Eq)]
pub struct DriftTotals {
    pub added: i64,
    pub removed: i64,
    pub changed: i64,
}

/// The drift of one category.
#[derive(Clone, Debug)]
pub struct CategoryDiff {
    pub name: String,
    /// Indices into the current list.
    pub added: Vec<usize>,
    /// Indices into the baseline list.
    pub removed: Vec<usize>,
    pub changed: Vec<DriftChange>,
}

/// (identifier, field, from, to).
pub open spec fn change_views(v: Seq<DriftChange>) -> Seq<(Seq<char>, Seq<char>, Seq<char>, Seq<char>)> {
    v.map_values(|c: DriftChange| (c.identifier@, c.field@, c.from@, c.to@))
}

/// The indices of a list.
pub open spec fn index_views(v: Seq<usize>) -> Seq<int> {
    v.map_values(|i: usize| i as int)
}

// ── Matching by key ────────────────────────────────────────────────────

/// Entry `i` is the first one with its key, and the key counts.
pub open spec fn first_with_key<K>(keys: Seq<K>, valid: spec_fn(K) -> bool, i: int) -> bool {
    0 <= i < keys.len() && valid(keys[i]) && forall|j: int| 0 <= j < i ==> keys[j] != keys[i]
}

/// Some entry has key `k`.
pub open spec fn key_present<K>(keys: Seq<K>, k: K) -> bool {
    exists|j: int| 0 <= j < keys.len() && keys[j] == k
}

/// The index of the first entry with key `k`.
pub open spec fn first_index<K>(keys: Seq<K>, k: K) -> int {
    choose|j: int| 0 <= j < keys.len() && keys[j] == k && forall|a: int| 0 <= a < j ==> keys[a] != k
}

/// When a key is present, its first index is where it first occurs.
pub proof fn lemma_first_index<K>(keys: Seq<K>, k: K)
    requires
        key_present(keys, k),
    ensures
        0 <= first_index(keys, k) < keys.len(),
        keys[first_index(keys, k)] == k,
        forall|a: int| 0 <= a < first_index(keys, k) ==> keys[a] != k,
    decreases keys.len(),
{
    let t = keys.drop_last();
    if key_present(t, k) {
        lemma_first_index(t, k);
        let m = first_index(t, k);
        assert(keys[m] == k);
        assert forall|a: int| 0 <= a < m implies keys[a] != k by {
            assert(keys[a] == t[a]);
        }
    } else {
        let m = keys.len() - 1;
        let w = choose|j: int| 0 <= j < keys.len() && keys[j] == k;
        if w < m {
            assert(t[w] == k);
        }
        assert(keys[m] == k);
        assert forall|a: int| 0 <= a < m implies keys[a] != k by {
            if keys[a] == k {
                assert(t[a] == k);
            }
        }
    }
}

/// Indices below `n` of the first entries of `cur` whose key `base` lacks.
pub open spec fn added_upto<K>(base: Seq<K>, cur: Seq<K>, valid: spec_fn(K) -> bool, n: int) -> Seq<int>
    decreases n,
{
    if n <= 0 {
        Seq::empty()
    } else if first_with_key(cur, valid, n - 1) && !key_present(base, cur[n - 1]) {
        added_upto(base, cur, valid, n - 1).push(n - 1)
    } else {
        added_upto(base, cur, valid, n - 1)
    }
}

/// The first entries of `cur` whose key `base` lacks, by index.
pub open spec fn added_indices<K>(base: Seq<K>, cur: Seq<K>, valid: spec_fn(K) -> bool) -> Seq<int> {
    added_upto(base, cur, valid, cur.len() as int)
}

/// The changes among the first `n` baseline entries: for each first entry
/// of a key that the current list also has, when the compared values
/// differ, (identifier of the current entry, field, old value, new value).
pub open spec fn changed_upto<K>(
    bk: Seq<K>,
    battr: Seq<Seq<char>>,
    ck: Seq<K>,
    cident: Seq<Seq<char>>,
    cattr: Seq<Seq<char>>,
    valid: spec_fn(K) -> bool,
    field: Seq<char>,
    n: int,
) -> Seq<(Seq<char>, Seq<char>, Seq<char>, Seq<char>)>
    decreases n,
{
    if n <= 0 {
        Seq::empty()
    } else {
        let prev = changed_upto(bk, battr, ck, cident, cattr, valid, field, n - 1);
        let i = n - 1;
        if first_with_key(bk, valid, i) && key_present(ck, bk[i]) {
            let j = first_index(ck, bk[i]);
            if battr[i] != cattr[j] {
                prev.push((cident[j], field, battr[i], cattr[j]))
            } else {
                prev
            }
        } else {
            prev
        }
    }
}

/// A non-empty name.
pub open spec fn named(k: Seq<char>) -> bool {
    k.len() > 0
}

/// Whether `keys[i]` is the first entry of its key (string keys).
fn is_first_str(keys: &Vec<String>, i: usize) -> (b: bool)
    requires
        i < keys.len(),
    ensures
        b == first_with_key(views(keys@), |k: Seq<char>| named(k), i as int),
{
    if keys[i].as_str().is_empty() {
        return false;
    }
    let mut j: usize = 0;
    while j < i
        invariant
            i < keys.len(),
            j <= i,
            forall|a: int| 0 <= a < j ==> keys@[a]@ != keys@[i as int]@,
        decreases i - j,
    {
        if keys[j] == keys[i] {
            assert(views(keys@)[j as int] == views(keys@)[i as int]);
            return false;
        }
        j += 1;
    }
    proof {
        assert forall|a: int| 0 <= a < i implies views(keys@)[a] != views(keys@)[i as int] by {
            assert(views(keys@)[a] == keys@[a]@);
        }
    }
    true
}

/// The index of the first entry with key `k`, if any (string keys).
fn find_str(keys: &Vec<String>, k: &String) -> (r: Option<usize>)
    ensures
        match r {
            Some(j) => key_present(views(keys@), k@) && j == first_index(views(keys@), k@) && j < keys.len(),
            None => !key_present(views(keys@), k@),
        },
{
    let ghost ks = views(keys@);
    let mut j: usize = 0;
    while j < keys.len()
        invariant
            ks == views(keys@),
            j <= keys.len(),
            forall|a: int| 0 <= a < j ==> ks[a] != k@,
        decreases keys.len() - j,
    {
        assert(ks[j as int] == keys@[j as int]@);
        if keys[j] == *k {
            proof {
                let c = first_index(ks, k@);
                assert(0 <= j < ks.len() && ks[j as int] == k@ && forall|a: int| 0 <= a < j ==> ks[a] != k@);
                if c != j {
                    if c < j {
                        assert(ks[c] != k@);
                    } else {
                        assert(ks[j as int] != k@);
                    }
                }
            }
            return Some(j);
        }
        j += 1;
    }
    None
}

/// The changes between entries of the same name (string keys).
#[verifier::rlimit(40)]
fn changes_by_name(
    field: &str,
    base_keys: &Vec<String>,
    base_attr: &Vec<String>,
    cur_keys: &Vec<String>,
    cur_ident: &Vec<String>,
    cur_attr: &Vec<String>,
) -> (changed: Vec<DriftChange>)
    requires
        base_attr.len() == base_keys.len(),
        cur_ident.len() == cur_keys.len(),
        cur_attr.len() == cur_keys.len(),
    ensures
        change_views(changed@) == changed_upto(
            views(base_keys@), views(base_attr@), views(cur_keys@), views(cur_ident@), views(cur_attr@),
            |k: Seq<char>| named(k), field@, base_keys.len() as int,
        ),
{
    let ghost valid = |k: Seq<char>| named(k);
    let ghost bk = views(base_keys@);
    let ghost ck = views(cur_keys@);
    let ghost ba = views(base_attr@);
    let ghost ci = views(cur_ident@);
    let ghost ca = views(cur_attr@);
    let mut changed: Vec<DriftChange> = Vec::new();
    let mut i: usize = 0;
    while i < base_keys.len()
        invariant
            bk == views(base_keys@),
            ck == views(cur_keys@),
            valid == (|k: Seq<char>| named(k)),
            base_attr.len() == base_keys.len(),
            cur_ident.len() == cur_keys.len(),
            cur_attr.len() == cur_keys.len(),
            i <= base_keys.len(),
            ba == views(base_attr@),
            ci == views(cur_ident@),
            ca == views(cur_attr@),
            change_views(changed@) == changed_upto(bk, ba, ck, ci, ca, valid, field@, i as int),
        decreases base_keys.len() - i,
    {
        let ghost before = change_views(changed@);
        let ghost prev = changed_upto(bk, ba, ck, ci, ca, valid, field@, i as int);
        assert(changed_upto(bk, ba, ck, ci, ca, valid, field@, i + 1) == (if first_with_key(bk, valid, i as int) && key_present(ck, bk[i as int]) {
            if ba[i as int] != ca[first_index(ck, bk[i as int])] {
                prev.push((ci[first_index(ck, bk[i as int])], field@, ba[i as int], ca[first_index(ck, bk[i as int])]))
            } else {
                prev
            }
        } else {
            prev
        }));
        if is_first_str(base_keys, i) {
            match find_str(cur_keys, &base_keys[i]) {
                Some(j) => {
                    assert(views(base_attr@)[i as int] == base_attr@[i as int]@);
                    assert(views(cur_attr@)[j as int] == cur_attr@[j as int]@);
                    assert(views(cur_ident@)[j as int] == cur_ident@[j as int]@);
                    if base_attr[i] != cur_attr[j] {
                        changed.push(DriftChange {
                            identifier: cur_ident[j].clone(),
                            field: copy_str(field),
                            from: base_attr[i].clone(),
                            to: cur_attr[j].clone(),
                        });
                        assert(change_views(changed@) =~= before.push((cur_ident@[j as int]@, field@, base_attr@[i as int]@, cur_attr@[j as int]@)));
                    }
                },
                None => {},
            }
        }
        i += 1;
    }
    changed
}

/// The drift of a category matched by name: `base` and `cur` give each
/// entry's key, identifier and compared value.
pub fn diff_by_name(
    name: &str,
    field: &str,
    base_keys: &Vec<String>,
    base_attr: &Vec<String>,
    cur_keys: &Vec<String>,
    cur_ident: &Vec<String>,
    cur_attr: &Vec<String>,
) -> (d: CategoryDiff)
    requires
        base_attr.len() == base_keys.len(),
        cur_ident.len() == cur_keys.len(),
        cur_attr.len() == cur_keys.len(),
    ensures
        d.name@ == name@,
        index_views(d.added@) == added_indices(views(base_keys@), views(cur_keys@), |k: Seq<char>| named(k)),
        index_views(d.removed@) == added_indices(views(cur_keys@), views(base_keys@), |k: Seq<char>| named(k)),
        change_views(d.changed@) == changed_upto(
            views(base_keys@), views(base_attr@), views(cur_keys@), views(cur_ident@), views(cur_attr@),
            |k: Seq<char>| named(k), field@, base_keys.len() as int,
        ),
{
    let ghost valid = |k: Seq<char>| named(k);
    let ghost bk = views(base_keys@);
    let ghost ck = views(cur_keys@);
    let mut added: Vec<usize> = Vec::new();
    let mut i: usize = 0;
    while i < cur_keys.len()
        invariant
            bk == views(base_keys@),
            ck == views(cur_keys@),
            valid == (|k: Seq<char>| named(k)),
            i <= cur_keys.len(),
            index_views(added@) == added_upto(bk, ck, valid, i as int),
        decreases cur_keys.len() - i,
    {
        let ghost before = index_views(added@);
        if is_first_str(cur_keys, i) {
            match find_str(base_keys, &cur_keys[i]) {
                None => {
                    added.push(i);
                    assert(index_views(added@) =~= before.push(i as int));
                },
                Some(_) => {},
            }
        }
        i += 1;
    }
    let mut removed: Vec<usize> = Vec::new();
    let mut i: usize = 0;
    while i < base_keys.len()
        invariant
            bk == views(base_keys@),
            ck == views(cur_keys@),
            valid == (|k: Seq<char>| named(k)),
            i <= base_keys.len(),
            index_views(removed@) == added_upto(ck, bk, valid, i as int),
        decreases base_keys.len() - i,
    {
        let ghost before = index_views(removed@);
        if is_first_str(base_keys, i) {
            match find_str(cur_keys, &base_keys[i]) {
                None => {
                    removed.push(i);
                    assert(index_views(removed@) =~= before.push(i as int));
                },
                Some(_) => {},
            }
        }
        i += 1;
    }
    let changed = changes_by_name(field, base_keys, base_attr, cur_keys, cur_ident, cur_attr);
    CategoryDiff { name: copy_str(name), added, removed, changed }
}

// ── Categories matched by name ─────────────────────────────────────────

/// The keys of software entries: names in Unicode lowercase.
pub open spec fn lowered(v: Seq<Seq<char>>) -> Seq<Seq<char>> {
    v.map_values(|n: Seq<char>| unicode_lower(n))
}

fn lower_all(v: &Vec<String>) -> (r: Vec<String>)
    ensures
        views(r@) == lowered(views(v@)),
        r.len() == v.len(),
{
    let mut r: Vec<String> = Vec::new();
    let mut i: usize = 0;
    while i < v.len()
        invariant
            i <= v.len(),
            views(r@) == lowered(views(v@)).take(i as int),
        decreases v.len() - i,
    {
        let ghost before = views(r@);
        r.push(to_lowercase(v[i].as_str()));
        assert(views(r@) =~= before.push(unicode_lower(v@[i as int]@)));
        i += 1;
        assert(views(r@) =~= lowered(views(v@)).take(i as int));
    }
    assert(lowered(views(v@)).take(v.len() as int) =~= lowered(views(v@)));
    r
}

/// Software drift: entries matched by lowercased name, `version` compared;
/// a changed entry is named as in the current inventory.
pub fn diff_software(base_names: &Vec<String>, base_versions: &Vec<String>, cur_names: &Vec<String>, cur_versions: &Vec<String>) -> (d: CategoryDiff)
    requires
        base_versions.len() == base_names.len(),
        cur_versions.len() == cur_names.len(),
    ensures
        d.name@ == "software"@,
        index_views(d.added@) == added_indices(lowered(views(base_names@)), lowered(views(cur_names@)), |k: Seq<char>| named(k)),
        index_views(d.removed@) == added_indices(lowered(views(cur_names@)), lowered(views(base_names@)), |k: Seq<char>| named(k)),
        change_views(d.changed@) == changed_upto(
            lowered(views(base_names@)), views(base_versions@), lowered(views(cur_names@)), views(cur_names@), views(cur_versions@),
            |k: Seq<char>| named(k), "version"@, base_names.len() as int,
        ),
{
    let bk = lower_all(base_names);
    let ck = lower_all(cur_names);
    diff_by_name("software", "version", &bk, base_versions, &ck, cur_names, cur_versions)
}

/// Service drift: entries matched by name, `status` compared.
pub fn diff_services(base_names: &Vec<String>, base_status: &Vec<String>, cur_names: &Vec<String>, cur_status: &Vec<String>) -> (d: CategoryDiff)
    requires
        base_status.len() == base_names.len(),
        cur_status.len() == cur_names.len(),
    ensures
        d.name@ == "services"@,
        index_views(d.added@) == added_indices(views(base_names@), views(cur_names@), |k: Seq<char>| named(k)),
        index_views(d.removed@) == added_indices(views(cur_names@), views(base_names@), |k: Seq<char>| named(k)),
        change_views(d.changed@) == changed_upto(
            views(base_names@), views(base_status@), views(cur_names@), views(cur_names@), views(cur_status@),
            |k: Seq<char>| named(k), "status"@, base_names.len() as int,
        ),
{
    diff_by_name("services", "status", base_names, base_status, cur_names, cur_names, cur_status)
}

/// Certificate drift: entries matched by subject, `expires` compared.
pub fn diff_certs(base_subjects: &Vec<String>, base_expires: &Vec<String>, cur_subjects: &Vec<String>, cur_expires: &Vec<String>) -> (d: CategoryDiff)
    requires
        base_expires.len() == base_subjects.len(),
        cur_expires.len() == cur_subjects.len(),
    ensures
        d.name@ == "certs"@,
        index_views(d.added@) == added_indices(views(base_subjects@), views(cur_subjects@), |k: Seq<char>| named(k)),
        index_views(d.removed@) == added_indices(views(cur_subjects@), views(base_subjects@), |k: Seq<char>| named(k)),
        change_views(d.changed@) == changed_upto(
            views(base_subjects@), views(base_expires@), views(cur_subjects@), views(cur_subjects@), views(cur_expires@),
            |k: Seq<char>| named(k), "expires"@, base_subjects.len() as int,
        ),
{
    diff_by_name("certs", "expires", base_subjects, base_expires, cur_subjects, cur_subjects, cur_expires)
}

// ── Scheduled entries ──────────────────────────────────────────────────

/// Indices below `n` of the non-empty entries of `cur` that `base` lacks
/// (every occurrence).
pub open spec fn unmatched_upto(base: Seq<Seq<char>>, cur: Seq<Seq<char>>, n: int) -> Seq<int>
    decreases n,
{
    if n <= 0 {
        Seq::empty()
    } else if cur[n - 1].len() > 0 && !key_present(base, cur[n - 1]) {
        unmatched_upto(base, cur, n - 1).push(n - 1)
    } else {
        unmatched_upto(base, cur, n - 1)
    }
}

fn unmatched(base: &Vec<String>, cur: &Vec<String>) -> (r: Vec<usize>)
    ensures
        index_views(r@) == unmatched_upto(views(base@), views(cur@), cur.len() as int),
{
    let mut r: Vec<usize> = Vec::new();
    let mut i: usize = 0;
    while i < cur.len()
        invariant
            i <= cur.len(),
            index_views(r@) == unmatched_upto(views(base@), views(cur@), i as int),
        decreases cur.len() - i,
    {
        let ghost before = index_views(r@);
        assert(views(cur@)[i as int] == cur@[i as int]@);
        if !cur[i].as_str().is_empty() {
            match find_str(base, &cur[i]) {
                None => {
                    r.push(i);
                    assert(index_views(r@) =~= before.push(i as int));
                },
                Some(_) => {},
            }
        }
        i += 1;
    }
    r
}

/// Scheduled-task drift: entries matched verbatim; every non-empty entry
/// missing on the other side is reported; nothing is "changed".
pub fn diff_scheduled(base: &Vec<String>, cur: &Vec<String>) -> (d: CategoryDiff)
    ensures
        d.name@ == "scheduled"@,
        index_views(d.added@) == unmatched_upto(views(base@), views(cur@), cur.len() as int),
        index_views(d.removed@) == unmatched_upto(views(cur@), views(base@), base.len() as int),
        d.changed@.len() == 0,
{
    CategoryDiff {
        name: String::from_str("scheduled"),
        added: unmatched(base, cur),
        removed: unmatched(cur, base),
        changed: Vec::new(),
    }
}

// ── Ports ──────────────────────────────────────────────────────────────

/// A port number that counts (a missing or non-integer port reads as -1).
pub open spec fn port_ok(k: i64) -> bool {
    k >= 0
}

/// How a port is named in a change: `port <n>`.
pub open spec fn port_ident(k: i64) -> Seq<char> {
    "port "@ + signed_decimal(k as int)
}

/// Indices in strictly increasing order of their port.
pub open spec fn by_port(s: Seq<int>, ports: Seq<i64>) -> bool {
    forall|a: int, b: int| 0 <= a < b < s.len() ==> ports[#[trigger] s[a]] < ports[#[trigger] s[b]]
}

/// The indices `idx` in increasing order of their port.
pub open spec fn sorted_by_port(idx: Seq<int>, ports: Seq<i64>) -> Seq<int> {
    choose|s: Seq<int>| by_port(s, ports) && s.to_set() == idx.to_set()
}

/// Changes in the order of `String`'s `Ord` on their identifiers.
pub open spec fn sorted_changes(c: Seq<(Seq<char>, Seq<char>, Seq<char>, Seq<char>)>) -> Seq<(Seq<char>, Seq<char>, Seq<char>, Seq<char>)> {
    choose|s: Seq<(Seq<char>, Seq<char>, Seq<char>, Seq<char>)>|
        key_sorted(keyed_changes(s)) && entries_map(keyed_changes(s)) == entries_map(keyed_changes(c))
}

/// A change keyed by its identifier.
pub open spec fn keyed_changes(c: Seq<(Seq<char>, Seq<char>, Seq<char>, Seq<char>)>) -> Seq<(Seq<char>, (Seq<char>, Seq<char>, Seq<char>))> {
    c.map_values(|x: (Seq<char>, Seq<char>, Seq<char>, Seq<char>)| (x.0, (x.1, x.2, x.3)))
}

/// Two lists of indices increasing by port, holding the same indices, are
/// the same list.
pub proof fn lemma_by_port_unique(a: Seq<int>, b: Seq<int>, ports: Seq<i64>)
    requires
        by_port(a, ports),
        by_port(b, ports),
        a.to_set() == b.to_set(),
    ensures
        a == b,
    decreases a.len(),
{
    if a.len() == 0 {
        if b.len() > 0 {
            assert(b.to_set().contains(b[0]));
        }
        assert(a =~= b);
    } else if b.len() == 0 {
        assert(a.to_set().contains(a[0]));
    } else {
        assert(a.to_set().contains(a[0]));
        assert(b.to_set().contains(b[0]));
        let j = choose|j: int| 0 <= j < b.len() && b[j] == a[0];
        let i = choose|i: int| 0 <= i < a.len() && a[i] == b[0];
        if i > 0 && j > 0 {
            assert(ports[a[0]] < ports[a[i]]);
            assert(ports[b[0]] < ports[b[j]]);
        }
        assert(a[0] == b[0]);
        let a1 = a.drop_first();
        let b1 = b.drop_first();
        assert(by_port(a1, ports)) by {
            assert forall|x: int, y: int| 0 <= x < y < a1.len() implies ports[#[trigger] a1[x]] < ports[#[trigger] a1[y]] by {
                assert(a1[x] == a[x + 1] && a1[y] == a[y + 1]);
            }
        }
        assert(by_port(b1, ports)) by {
            assert forall|x: int, y: int| 0 <= x < y < b1.len() implies ports[#[trigger] b1[x]] < ports[#[trigger] b1[y]] by {
                assert(b1[x] == b[x + 1] && b1[y] == b[y + 1]);
            }
        }
        assert(a1.to_set() =~= b1.to_set()) by {
            assert forall|x: int| a1.to_set().contains(x) <==> b1.to_set().contains(x) by {
                if a1.contains(x) {
                    let p = choose|p: int| 0 <= p < a1.len() && a1[p] == x;
                    assert(a[p + 1] == x);
                    assert(ports[a[0]] < ports[a[p + 1]]);
                    assert(a.to_set().contains(x));
                    assert(b.contains(x));
                    let q = choose|q: int| 0 <= q < b.len() && b[q] == x;
                    assert(q != 0);
                    assert(b1[q - 1] == x);
                }
                if b1.contains(x) {
                    let p = choose|p: int| 0 <= p < b1.len() && b1[p] == x;
                    assert(b[p + 1] == x);
                    assert(ports[b[0]] < ports[b[p + 1]]);
                    assert(b.to_set().contains(x));
                    assert(a.contains(x));
                    let q = choose|q: int| 0 <= q < a.len() && a[q] == x;
                    assert(q != 0);
                    assert(a1[q - 1] == x);
                }
            }
        }
        lemma_by_port_unique(a1, b1, ports);
        assert(a =~= b) by {
            assert forall|x: int| 0 <= x < a.len() implies a[x] == b[x] by {
                if x > 0 {
                    assert(a1[x - 1] == a[x] && b1[x - 1] == b[x]);
                }
            }
        }
    }
}

fn is_first_port(keys: &Vec<i64>, i: usize) -> (b: bool)
    requires
        i < keys.len(),
    ensures
        b == first_with_key(keys@, |k: i64| port_ok(k), i as int),
{
    if keys[i] < 0 {
        return false;
    }
    let mut j: usize = 0;
    while j < i
        invariant
            i < keys.len(),
            j <= i,
            forall|a: int| 0 <= a < j ==> keys@[a] != keys@[i as int],
        decreases i - j,
    {
        if keys[j] == keys[i] {
            return false;
        }
        j += 1;
    }
    true
}

fn find_port(keys: &Vec<i64>, k: i64) -> (r: Option<usize>)
    ensures
        match r {
            Some(j) => key_present(keys@, k) && j == first_index(keys@, k) && j < keys.len(),
            None => !key_present(keys@, k),
        },
{
    let mut j: usize = 0;
    while j < keys.len()
        invariant
            j <= keys.len(),
            forall|a: int| 0 <= a < j ==> keys@[a] != k,
        decreases keys.len() - j,
    {
        if keys[j] == k {
            proof {
                let c = first_index(keys@, k);
                assert(0 <= j < keys@.len() && keys@[j as int] == k && forall|a: int| 0 <= a < j ==> keys@[a] != k);
                if c != j {
                    if c < j {
                        assert(keys@[c] != k);
                    } else {
                        assert(keys@[j as int] != k);
                    }
                }
            }
            return Some(j);
        }
        j += 1;
    }
    None
}

/// Indices below `n` of the first entries of `cur` whose port `base` lacks.
fn new_ports(base: &Vec<i64>, cur: &Vec<i64>) -> (r: Vec<usize>)
    ensures
        index_views(r@) == added_indices(base@, cur@, |k: i64| port_ok(k)),
        forall|a: int| 0 <= a < r@.len() ==> (#[trigger] r@[a]) < cur.len(),
{
    let ghost valid = |k: i64| port_ok(k);
    let mut r: Vec<usize> = Vec::new();
    let mut i: usize = 0;
    while i < cur.len()
        invariant
            valid == (|k: i64| port_ok(k)),
            i <= cur.len(),
            index_views(r@) == added_upto(base@, cur@, valid, i as int),
            forall|a: int| 0 <= a < r@.len() ==> (#[trigger] r@[a]) < i,
        decreases cur.len() - i,
    {
        let ghost before = index_views(r@);
        if is_first_port(cur, i) {
            match find_port(base, cur[i]) {
                None => {
                    r.push(i);
                    assert(index_views(r@) =~= before.push(i as int));
                },
                Some(_) => {},
            }
        }
        i += 1;
    }
    r
}

/// Indices below `n` that point at distinct ports.
pub open spec fn distinct_port_indices(s: Seq<int>, cur: Seq<i64>, n: int) -> bool {
    &&& forall|a: int, b: int| 0 <= a < b < s.len() ==> cur[#[trigger] s[a]] != cur[#[trigger] s[b]]
    &&& forall|a: int| 0 <= a < s.len() ==> 0 <= #[trigger] s[a] < n
}

/// Entries picked as first of their port have distinct ports.
proof fn lemma_added_distinct_ports(base: Seq<i64>, cur: Seq<i64>, n: int)
    requires
        0 <= n <= cur.len(),
    ensures
        distinct_port_indices(added_upto(base, cur, |k: i64| port_ok(k), n), cur, n),
    decreases n,
{
    if n > 0 {
        lemma_added_distinct_ports(base, cur, n - 1);
        let prev = added_upto(base, cur, |k: i64| port_ok(k), n - 1);
        let s = added_upto(base, cur, |k: i64| port_ok(k), n);
        if s != prev {
            assert(s == prev.push(n - 1));
            assert forall|a: int, b: int| 0 <= a < b < s.len() implies cur[#[trigger] s[a]] != cur[#[trigger] s[b]] by {
                if b == s.len() - 1 {
                    assert(s[a] == prev[a]);
                    assert(first_with_key(cur, |k: i64| port_ok(k), n - 1));
                } else {
                    assert(s[a] == prev[a] && s[b] == prev[b]);
                }
            }
            assert forall|a: int| 0 <= a < s.len() implies 0 <= #[trigger] s[a] < n by {
                if a < prev.len() {
                    assert(s[a] == prev[a]);
                }
            }
        }
    }
}

/// Sorts indices by the port they point at (ports all distinct).
fn sort_by_port(idx: Vec<usize>, ports: &Vec<i64>) -> (r: Vec<usize>)
    requires
        forall|a: int| 0 <= a < idx@.len() ==> (#[trigger] idx@[a]) < ports.len(),
        forall|a: int, b: int| 0 <= a < b < idx@.len() ==> ports@[#[trigger] idx@[a] as int] != ports@[#[trigger] idx@[b] as int],
    ensures
        index_views(r@) == sorted_by_port(index_views(idx@), ports@),
{
    let ghost iv = index_views(idx@);
    let mut out: Vec<usize> = Vec::new();
    let mut i: usize = 0;
    while i < idx.len()
        invariant
            iv == index_views(idx@),
            i <= idx.len(),
            forall|a: int| 0 <= a < idx@.len() ==> (#[trigger] idx@[a]) < ports.len(),
            forall|a: int, b: int| 0 <= a < b < idx@.len() ==> ports@[#[trigger] idx@[a] as int] != ports@[#[trigger] idx@[b] as int],
            by_port(index_views(out@), ports@),
            index_views(out@).to_set() == iv.take(i as int).to_set(),
            forall|a: int| 0 <= a < out@.len() ==> (#[trigger] out@[a]) < ports.len(),
            forall|a: int| 0 <= a < out@.len() ==> iv.take(i as int).contains(#[trigger] index_views(out@)[a]),
        decreases idx.len() - i,
    {
        let x = idx[i];
        let px = ports[x];
        let ghost t = index_views(out@);
        let mut j: usize = 0;
        while j < out.len()
            invariant
                t == index_views(out@),
                j <= out.len(),
                x < ports.len(),
                px == ports@[x as int],
                forall|a: int| 0 <= a < out@.len() ==> (#[trigger] out@[a]) < ports.len(),
                forall|a: int| 0 <= a < j ==> ports@[#[trigger] t[a]] < px,
            ensures
                j <= out.len(),
                forall|a: int| 0 <= a < j ==> ports@[#[trigger] t[a]] < px,
                j < out.len() ==> ports@[t[j as int]] >= px,
            decreases out.len() - j,
        {
            if ports[out[j]] >= px {
                break;
            }
            j += 1;
        }
        proof {
            // x's port differs from every port already placed
            assert forall|a: int| 0 <= a < t.len() implies ports@[t[a]] != px by {
                assert(iv.take(i as int).contains(t[a]));
                let c = choose|c: int| 0 <= c < iv.take(i as int).len() && iv.take(i as int)[c] == t[a];
                assert(iv[c] == t[a]);
                assert(idx@[c] as int == t[a]);
                assert(ports@[idx@[c] as int] != ports@[idx@[i as int] as int]);
            }
        }
        out.insert(j, x);
        proof {
            let after = index_views(out@);
            assert(after =~= t.insert(j as int, x as int));
            assert forall|a: int, b: int| 0 <= a < b < after.len() implies ports@[#[trigger] after[a]] < ports@[#[trigger] after[b]] by {
                if b < j {
                    assert(after[a] == t[a] && after[b] == t[b]);
                } else if b == j {
                    assert(after[a] == t[a]);
                } else if a == j {
                    assert(after[b] == t[b - 1]);
                    assert(ports@[t[j as int]] != px);
                    if b - 1 > j {
                        assert(ports@[t[j as int]] < ports@[t[b - 1]]);
                    }
                } else if a < j {
                    assert(after[a] == t[a] && after[b] == t[b - 1]);
                } else {
                    assert(after[a] == t[a - 1] && after[b] == t[b - 1]);
                }
            }
            assert(iv.take(i + 1) =~= iv.take(i as int).push(x as int));
            assert forall|y: int| after.to_set().contains(y) <==> iv.take(i + 1).to_set().contains(y) by {
                if after.contains(y) {
                    let c = choose|c: int| 0 <= c < after.len() && after[c] == y;
                    if c < j {
                        assert(t[c] == y);
                        assert(t.to_set().contains(y));
                    } else if c > j {
                        assert(t[c - 1] == y);
                        assert(t.to_set().contains(y));
                    }
                    if y != x as int {
                        let tp = iv.take(i as int);
                        assert(tp.to_set().contains(y));
                        let d = choose|d: int| 0 <= d < tp.len() && tp[d] == y;
                        assert(iv.take(i + 1)[d] == y);
                    } else {
                        assert(iv.take(i + 1)[i as int] == y);
                    }
                }
                let ti = iv.take(i + 1);
                if ti.contains(y) {
                    let d = choose|d: int| 0 <= d < ti.len() && ti[d] == y;
                    if d == i {
                        assert(after[j as int] == y);
                    } else {
                        assert(iv.take(i as int)[d] == y);
                        assert(iv.take(i as int).to_set().contains(y));
                        assert(t.to_set().contains(y));
                        let c = choose|c: int| 0 <= c < t.len() && t[c] == y;
                        if c < j {
                            assert(after[c] == y);
                        } else {
                            assert(after[c + 1] == y);
                        }
                    }
                }
            }
            assert(after.to_set() =~= iv.take(i + 1).to_set());
            assert forall|a: int| 0 <= a < after.len() implies iv.take(i + 1).contains(#[trigger] after[a]) by {
                assert(after.to_set().contains(after[a]));
            }
        }
        i += 1;
    }
    proof {
        assert(iv.take(idx.len() as int) =~= iv);
        let c = sorted_by_port(iv, ports@);
        assert(by_port(index_views(out@), ports@) && index_views(out@).to_set() == iv.to_set());
        lemma_by_port_unique(index_views(out@), c, ports@);
    }
    out
}

/// Different ports are named differently.
pub proof fn lemma_port_ident_injective(a: i64, b: i64)
    requires
        a >= 0,
        b >= 0,
        port_ident(a) == port_ident(b),
    ensures
        a == b,
{
    let p = "port "@;
    assert(port_ident(a).subrange(p.len() as int, port_ident(a).len() as int) =~= crate::text::decimal(a as nat));
    assert(port_ident(b).subrange(p.len() as int, port_ident(b).len() as int) =~= crate::text::decimal(b as nat));
    crate::text::lemma_decimal_injective(a as nat, b as nat);
}

/// `port <n>` for each port.
pub open spec fn port_idents(ports: Seq<i64>) -> Seq<Seq<char>> {
    ports.map_values(|k: i64| port_ident(k))
}

/// The unsorted port changes.
pub open spec fn port_changes_spec(bk: Seq<i64>, bp: Seq<Seq<char>>, ck: Seq<i64>, cp: Seq<Seq<char>>, n: int) -> Seq<(Seq<char>, Seq<char>, Seq<char>, Seq<char>)> {
    changed_upto(bk, bp, ck, port_idents(ck), cp, |k: i64| port_ok(k), "process"@, n)
}

/// Each port change names a port that is first of its number in the
/// baseline.
proof fn lemma_port_changes_named(bk: Seq<i64>, bp: Seq<Seq<char>>, ck: Seq<i64>, cp: Seq<Seq<char>>, n: int)
    requires
        0 <= n <= bk.len(),
    ensures
        forall|a: int| 0 <= a < port_changes_spec(bk, bp, ck, cp, n).len() ==> exists|i: int|
            0 <= i < n && first_with_key(bk, |k: i64| port_ok(k), i) && #[trigger] port_changes_spec(bk, bp, ck, cp, n)[a].0 == port_ident(bk[i]),
    decreases n,
{
    if n > 0 {
        lemma_port_changes_named(bk, bp, ck, cp, n - 1);
        let prev = port_changes_spec(bk, bp, ck, cp, n - 1);
        let cur = port_changes_spec(bk, bp, ck, cp, n);
        let i = n - 1;
        assert forall|a: int| 0 <= a < cur.len() implies exists|i2: int|
            0 <= i2 < n && first_with_key(bk, |k: i64| port_ok(k), i2) && #[trigger] cur[a].0 == port_ident(bk[i2]) by {
            if a < prev.len() {
                assert(cur[a] == prev[a]);
                let w = choose|i2: int| 0 <= i2 < n - 1 && first_with_key(bk, |k: i64| port_ok(k), i2) && prev[a].0 == port_ident(bk[i2]);
                assert(0 <= w < n);
            } else {
                let j = first_index(ck, bk[i]);
                lemma_first_index(ck, bk[i]);
                assert(cur == prev.push((port_idents(ck)[j], "process"@, bp[i], cp[j])));
                assert(first_with_key(bk, |k: i64| port_ok(k), i));
                assert(cur[a].0 == port_ident(bk[i]));
            }
        }
    }
}

/// No two port changes share a name.
#[verifier::rlimit(30)]
proof fn lemma_port_changes_distinct(bk: Seq<i64>, bp: Seq<Seq<char>>, ck: Seq<i64>, cp: Seq<Seq<char>>, n: int)
    requires
        0 <= n <= bk.len(),
    ensures
        forall|a: int, b: int| 0 <= a < b < port_changes_spec(bk, bp, ck, cp, n).len()
            ==> #[trigger] port_changes_spec(bk, bp, ck, cp, n)[a].0 != #[trigger] port_changes_spec(bk, bp, ck, cp, n)[b].0,
    decreases n,
{
    if n > 0 {
        lemma_port_changes_distinct(bk, bp, ck, cp, n - 1);
        lemma_port_changes_named(bk, bp, ck, cp, n - 1);
        let prev = port_changes_spec(bk, bp, ck, cp, n - 1);
        let cur = port_changes_spec(bk, bp, ck, cp, n);
        let i = n - 1;
        if cur != prev {
            let j = first_index(ck, bk[i]);
            lemma_first_index(ck, bk[i]);
            assert(cur == prev.push((port_idents(ck)[j], "process"@, bp[i], cp[j])));
            assert(port_idents(ck)[j] == port_ident(bk[i]));
            assert forall|a: int, b: int| 0 <= a < b < cur.len() implies #[trigger] cur[a].0 != #[trigger] cur[b].0 by {
                if b == cur.len() - 1 {
                    assert(cur[a] == prev[a]);
                    let w = choose|i2: int| 0 <= i2 < n - 1 && first_with_key(bk, |k: i64| port_ok(k), i2) && prev[a].0 == port_ident(bk[i2]);
                    assert(first_with_key(bk, |k: i64| port_ok(k), i));
                    assert(bk[w] != bk[i]);
                    if cur[a].0 == cur[b].0 {
                        lemma_port_ident_injective(bk[w], bk[i]);
                    }
                } else {
                    assert(cur[a] == prev[a] && cur[b] == prev[b]);
                }
            }
        }
    }
}

/// Port changes in baseline order.
#[verifier::rlimit(40)]
fn port_changes(base_ports: &Vec<i64>, base_proc: &Vec<String>, cur_ports: &Vec<i64>, cur_proc: &Vec<String>) -> (changed: Vec<DriftChange>)
    requires
        base_proc.len() == base_ports.len(),
        cur_proc.len() == cur_ports.len(),
    ensures
        change_views(changed@) == port_changes_spec(base_ports@, views(base_proc@), cur_ports@, views(cur_proc@), base_ports.len() as int),
{
    let ghost valid = |k: i64| port_ok(k);
    let ghost bp = views(base_proc@);
    let ghost cp = views(cur_proc@);
    let ghost ci = port_idents(cur_ports@);
    let mut changed: Vec<DriftChange> = Vec::new();
    let mut i: usize = 0;
    while i < base_ports.len()
        invariant
            valid == (|k: i64| port_ok(k)),
            bp == views(base_proc@),
            cp == views(cur_proc@),
            ci == port_idents(cur_ports@),
            base_proc.len() == base_ports.len(),
            cur_proc.len() == cur_ports.len(),
            i <= base_ports.len(),
            change_views(changed@) == changed_upto(base_ports@, bp, cur_ports@, ci, cp, valid, "process"@, i as int),
        decreases base_ports.len() - i,
    {
        let ghost before = change_views(changed@);
        let ghost prev = changed_upto(base_ports@, bp, cur_ports@, ci, cp, valid, "process"@, i as int);
        if is_first_port(base_ports, i) {
            match find_port(cur_ports, base_ports[i]) {
                Some(j) => {
                    assert(bp[i as int] == base_proc@[i as int]@);
                    assert(cp[j as int] == cur_proc@[j as int]@);
                    if base_proc[i] != cur_proc[j] {
                        let mut ident = String::from_str("port ");
                        append(&mut ident, signed_dec(cur_ports[j]).as_str());
                        assert(ident@ == ci[j as int]);
                        changed.push(DriftChange {
                            identifier: ident,
                            field: String::from_str("process"),
                            from: base_proc[i].clone(),
                            to: cur_proc[j].clone(),
                        });
                        assert(change_views(changed@) =~= before.push((ci[j as int], "process"@, bp[i as int], cp[j as int])));
                    }
                },
                None => {},
            }
        }
        i += 1;
    }
    changed
}

/// Sorts changes by identifier (identifiers all distinct).
fn sort_changes(v: Vec<DriftChange>) -> (r: Vec<DriftChange>)
    requires
        forall|a: int, b: int| 0 <= a < b < v@.len() ==> #[trigger] change_views(v@)[a].0 != #[trigger] change_views(v@)[b].0,
    ensures
        change_views(r@) == sorted_changes(change_views(v@)),
{
    let ghost s = keyed_changes(change_views(v@));
    assert forall|a: int, b: int| 0 <= a < b < s.len() implies #[trigger] s[a].0 != #[trigger] s[b].0 by {
        assert(s[a].0 == change_views(v@)[a].0 && s[b].0 == change_views(v@)[b].0);
    }
    let mut out: Vec<DriftChange> = Vec::new();
    let mut i: usize = 0;
    while i < v.len()
        invariant
            s == keyed_changes(change_views(v@)),
            crate::keyed::distinct_keys(s),
            i <= v.len(),
            key_sorted(keyed_changes(change_views(out@))),
            forall|a: int| 0 <= a < out@.len() ==> s.take(i as int).contains(#[trigger] keyed_changes(change_views(out@))[a]),
            forall|b: int| 0 <= b < i ==> keyed_changes(change_views(out@)).contains(#[trigger] s[b]),
        decreases v.len() - i,
    {
        let ghost before = keyed_changes(change_views(out@));
        let ghost x = s[i as int];
        let x_ref = &v[i];
        assert(x == (x_ref.identifier@, (x_ref.field@, x_ref.from@, x_ref.to@)));
        let key = chars_of(x_ref.identifier.as_str());
        let mut j: usize = 0;
        while j < out.len()
            invariant
                before == keyed_changes(change_views(out@)),
                j <= out.len(),
                key@ == x.0,
                forall|a: int| 0 <= a < j ==> !lex_le(x.0, #[trigger] before[a].0),
            ensures
                j <= out.len(),
                forall|a: int| 0 <= a < j ==> !lex_le(x.0, #[trigger] before[a].0),
                j < out.len() ==> lex_le(x.0, before[j as int].0),
            decreases out.len() - j,
        {
            let other = chars_of(out[j].identifier.as_str());
            assert(other@ == before[j as int].0);
            if lex_leq(&key, &other) {
                break;
            }
            j += 1;
        }
        assert forall|a: int| 0 <= a < before.len() implies #[trigger] before[a].0 != x.0 by {
            assert(s.take(i as int).contains(before[a]));
            let c = choose|c: int| 0 <= c < s.take(i as int).len() && s.take(i as int)[c] == before[a];
            assert(s[c] == before[a]);
        }
        let copy = DriftChange {
            identifier: x_ref.identifier.clone(),
            field: x_ref.field.clone(),
            from: x_ref.from.clone(),
            to: x_ref.to.clone(),
        };
        out.insert(j, copy);
        proof {
            let after = keyed_changes(change_views(out@));
            assert(after =~= before.insert(j as int, x));
            assert forall|a: int, b: int| 0 <= a < b < after.len() implies lex_lt(#[trigger] after[a].0, #[trigger] after[b].0) by {
                if b < j {
                    assert(after[a] == before[a] && after[b] == before[b]);
                } else if b == j {
                    assert(after[a] == before[a]);
                    lemma_lex_total(x.0, before[a].0);
                } else if a == j {
                    assert(after[b] == before[b - 1]);
                    if b - 1 > j {
                        assert(lex_lt(before[j as int].0, before[b - 1].0));
                        lemma_lex_trans(x.0, before[j as int].0, before[b - 1].0);
                        if x.0 == before[b - 1].0 {
                            lemma_lex_antisym(x.0, before[j as int].0);
                        }
                    }
                } else if a < j {
                    assert(after[a] == before[a] && after[b] == before[b - 1]);
                } else {
                    assert(after[a] == before[a - 1] && after[b] == before[b - 1]);
                }
            }
            assert forall|a: int| 0 <= a < after.len() implies s.take(i + 1).contains(#[trigger] after[a]) by {
                if a == j {
                    assert(s.take(i + 1)[i as int] == x);
                } else {
                    let a0 = if a < j { a } else { a - 1 };
                    assert(after[a] == before[a0]);
                    let tp = s.take(i as int);
                    assert(tp.contains(before[a0]));
                    let c = choose|c: int| 0 <= c < tp.len() && tp[c] == before[a0];
                    assert(s.take(i + 1)[c] == before[a0]);
                }
            }
            assert forall|b: int| 0 <= b < i + 1 implies after.contains(#[trigger] s[b]) by {
                if b == i {
                    assert(after[j as int] == x);
                } else {
                    assert(before.contains(s[b]));
                    let c = choose|c: int| 0 <= c < before.len() && before[c] == s[b];
                    if c < j {
                        assert(after[c] == s[b]);
                    } else {
                        assert(after[c + 1] == s[b]);
                    }
                }
            }
        }
        i += 1;
    }
    proof {
        let r = keyed_changes(change_views(out@));
        assert(s.take(s.len() as int) =~= s);
        crate::keyed::lemma_entries_same_elements(r, s);
        let c = sorted_changes(change_views(v@));
        assert(key_sorted(r) && entries_map(r) == entries_map(s));
        assert(key_sorted(keyed_changes(c)) && entries_map(keyed_changes(c)) == entries_map(s));
        lemma_sorted_listing_unique(r, keyed_changes(c));
        assert(change_views(out@) =~= c) by {
            assert forall|a: int| 0 <= a < c.len() implies change_views(out@)[a] == c[a] by {
                assert(r[a] == keyed_changes(c)[a]);
            }
        }
    }
    out
}

/// Port drift: entries matched by port number (negative: no port),
/// `process` compared; added and removed in increasing port order, changes
/// in the order of their `port <n>` names.
pub fn diff_ports(base_ports: &Vec<i64>, base_proc: &Vec<String>, cur_ports: &Vec<i64>, cur_proc: &Vec<String>) -> (d: CategoryDiff)
    requires
        base_proc.len() == base_ports.len(),
        cur_proc.len() == cur_ports.len(),
    ensures
        d.name@ == "ports"@,
        index_views(d.added@) == sorted_by_port(added_indices(base_ports@, cur_ports@, |k: i64| port_ok(k)), cur_ports@),
        index_views(d.removed@) == sorted_by_port(added_indices(cur_ports@, base_ports@, |k: i64| port_ok(k)), base_ports@),
        change_views(d.changed@) == sorted_changes(
            port_changes_spec(base_ports@, views(base_proc@), cur_ports@, views(cur_proc@), base_ports.len() as int),
        ),
{
    let added = new_ports(base_ports, cur_ports);
    let removed = new_ports(cur_ports, base_ports);
    proof {
        lemma_added_distinct_ports(base_ports@, cur_ports@, cur_ports@.len() as int);
        lemma_added_distinct_ports(cur_ports@, base_ports@, base_ports@.len() as int);
        assert forall|a: int, b: int| 0 <= a < b < added@.len() implies cur_ports@[#[trigger] added@[a] as int] != cur_ports@[#[trigger] added@[b] as int] by {
            assert(index_views(added@)[a] == added@[a] as int && index_views(added@)[b] == added@[b] as int);
        }
        assert forall|a: int, b: int| 0 <= a < b < removed@.len() implies base_ports@[#[trigger] removed@[a] as int] != base_ports@[#[trigger] removed@[b] as int] by {
            assert(index_views(removed@)[a] == removed@[a] as int && index_views(removed@)[b] == removed@[b] as int);
        }
    }
    let added = sort_by_port(added, cur_ports);
    let removed = sort_by_port(removed, base_ports);
    let changed = port_changes(base_ports, base_proc, cur_ports, cur_proc);
    proof {
        lemma_port_changes_distinct(base_ports@, views(base_proc@), cur_ports@, views(cur_proc@), base_ports@.len() as int);
    }
    let changed = sort_changes(changed);
    CategoryDiff { name: String::from_str("ports"), added, removed, changed }
}

// ── Totals ─────────────────────────────────────────────────────────────

/// Sums of added, removed and changed entries of the first `n` categories.
pub open spec fn totals_upto(c: Seq<CategoryDiff>, n: int) -> (int, int, int)
    decreases n,
{
    if n <= 0 {
        (0, 0, 0)
    } else {
        let t = totals_upto(c, n - 1);
        (t.0 + c[n - 1].added@.len(), t.1 + c[n - 1].removed@.len(), t.2 + c[n - 1].changed@.len())
    }
}

proof fn lemma_totals_nonneg(c: Seq<CategoryDiff>, n: int)
    ensures
        0 <= totals_upto(c, n).0,
        0 <= totals_upto(c, n).1,
        0 <= totals_upto(c, n).2,
    decreases n,
{
    if n > 0 {
        lemma_totals_nonneg(c, n - 1);
    }
}

proof fn lemma_totals_monotone(c: Seq<CategoryDiff>, i: int, n: int)
    requires
        0 <= i <= n,
    ensures
        totals_upto(c, i).0 <= totals_upto(c, n).0,
        totals_upto(c, i).1 <= totals_upto(c, n).1,
        totals_upto(c, i).2 <= totals_upto(c, n).2,
    decreases n - i,
{
    if i < n {
        lemma_totals_monotone(c, i, n - 1);
    }
}

impl DriftTotals {
    /// The totals over the drift of every category.
    pub fn of(categories: &Vec<CategoryDiff>) -> (t: Self)
        requires
            totals_upto(categories@, categories@.len() as int).0 <= i64::MAX,
            totals_upto(categories@, categories@.len() as int).1 <= i64::MAX,
            totals_upto(categories@, categories@.len() as int).2 <= i64::MAX,
        ensures
            (t.added as int, t.removed as int, t.changed as int) == totals_upto(categories@, categories@.len() as int),
    {
        let mut t = DriftTotals { added: 0, removed: 0, changed: 0 };
        let mut i: usize = 0;
        while i < categories.len()
            invariant
                i <= categories.len(),
                (t.added as int, t.removed as int, t.changed as int) == totals_upto(categories@, i as int),
                totals_upto(categories@, categories@.len() as int).0 <= i64::MAX,
                totals_upto(categories@, categories@.len() as int).1 <= i64::MAX,
                totals_upto(categories@, categories@.len() as int).2 <= i64::MAX,
            decreases categories.len() - i,
        {
            proof {
                lemma_totals_monotone(categories@, i + 1, categories@.len() as int);
                lemma_totals_nonneg(categories@, i as int);
            }
            let c = &categories[i];
            assert(totals_upto(categories@, i + 1).0 == totals_upto(categories@, i as int).0 + c.added@.len());
            assert(totals_upto(categories@, i + 1).1 == totals_upto(categories@, i as int).1 + c.removed@.len());
            assert(totals_upto(categories@, i + 1).2 == totals_upto(categories@, i as int).2 + c.changed@.len());
            t.added = t.added + c.added.len() as i64;
            t.removed = t.removed + c.removed.len() as i64;
            t.changed = t.changed + c.changed.len() as i64;
            i += 1;
        }
        t
    }
}


// ── Laws ───────────────────────────────────────────────────────────────

proof fn lemma_self_added_none<K>(keys: Seq<K>, valid: spec_fn(K) -> bool, n: int)
    requires
        n <= keys.len(),
    ensures
        added_upto(keys, keys, valid, n) =~= Seq::<int>::empty(),
    decreases n,
{
    if n > 0 {
        lemma_self_added_none(keys, valid, n - 1);
        assert(keys[n - 1] == keys[n - 1]);
        assert(key_present(keys, keys[n - 1]));
    }
}

proof fn lemma_self_changed_none<K>(
    keys: Seq<K>,
    attr: Seq<Seq<char>>,
    ident: Seq<Seq<char>>,
    valid: spec_fn(K) -> bool,
    field: Seq<char>,
    n: int,
)
    requires
        n <= keys.len(),
    ensures
        changed_upto(keys, attr, keys, ident, attr, valid, field, n) =~= Seq::<(Seq<char>, Seq<char>, Seq<char>, Seq<char>)>::empty(),
    decreases n,
{
    if n > 0 {
        lemma_self_changed_none(keys, attr, ident, valid, field, n - 1);
        let i = n - 1;
        if first_with_key(keys, valid, i) {
            assert(key_present(keys, keys[i]));
            lemma_first_index(keys, keys[i]);
            let j = first_index(keys, keys[i]);
            if j < i {
                assert(keys[j] != keys[i]);
            }
            if j > i {
                assert(keys[i] != keys[i]);
            }
            assert(j == i);
        }
    }
}

proof fn lemma_self_unmatched_none(names: Seq<Seq<char>>, n: int)
    requires
        n <= names.len(),
    ensures
        unmatched_upto(names, names, n) =~= Seq::<int>::empty(),
    decreases n,
{
    if n > 0 {
        lemma_self_unmatched_none(names, n - 1);
        assert(names[n - 1] == names[n - 1]);
        assert(key_present(names, names[n - 1]));
    }
}

/// An inventory compared with itself has drifted nowhere: nothing added,
/// removed or changed, for entries matched by key and for entries
/// matched verbatim.
pub proof fn law_no_drift_against_itself<K>(
    keys: Seq<K>,
    attr: Seq<Seq<char>>,
    ident: Seq<Seq<char>>,
    valid: spec_fn(K) -> bool,
    field: Seq<char>,
    names: Seq<Seq<char>>,
)
    ensures
        added_indices(keys, keys, valid).len() == 0,
        changed_upto(keys, attr, keys, ident, attr, valid, field, keys.len() as int).len() == 0,
        unmatched_upto(names, names, names.len() as int).len() == 0,
{
    lemma_self_added_none(keys, valid, keys.len() as int);
    lemma_self_changed_none(keys, attr, ident, valid, field, keys.len() as int);
    lemma_self_unmatched_none(names, names.len() as int);
}

/// Key `k` of `cur` is among the first `n` entries reported as added.
pub open spec fn added_key_upto<K>(base: Seq<K>, cur: Seq<K>, valid: spec_fn(K) -> bool, n: int, k: K) -> bool {
    exists|t: int|
        0 <= t < added_upto(base, cur, valid, n).len() && cur[#[trigger] added_upto(base, cur, valid, n)[t]] == k
}

/// The reported entries among the first `n` are first entries of their
/// keys, below `n`, in increasing order.
proof fn lemma_added_shape<K>(base: Seq<K>, cur: Seq<K>, valid: spec_fn(K) -> bool, n: int)
    requires
        0 <= n <= cur.len(),
    ensures
        forall|t: int|
            0 <= t < added_upto(base, cur, valid, n).len() ==> {
                let a = #[trigger] added_upto(base, cur, valid, n)[t];
                &&& 0 <= a < n
                &&& first_with_key(cur, valid, a)
                &&& !key_present(base, cur[a])
            },
        forall|t: int, u: int|
            0 <= t < u < added_upto(base, cur, valid, n).len() ==> #[trigger] added_upto(base, cur, valid, n)[t]
                < #[trigger] added_upto(base, cur, valid, n)[u],
    decreases n,
{
    if n > 0 {
        lemma_added_shape(base, cur, valid, n - 1);
        let prev = added_upto(base, cur, valid, n - 1);
        let now = added_upto(base, cur, valid, n);
        if now.len() > prev.len() {
            assert forall|t: int| 0 <= t < prev.len() implies now[t] == prev[t] by {}
            assert(now[prev.len() as int] == n - 1);
        }
    }
}

/// The entries reported as added name exactly the valid keys that the
/// current list has and the baseline lacks, each key once (by its first
/// entry). The same holds of removed entries with the lists swapped.
pub proof fn law_added_are_the_new_keys<K>(base: Seq<K>, cur: Seq<K>, valid: spec_fn(K) -> bool, k: K)
    ensures
        added_key_upto(base, cur, valid, cur.len() as int, k) <==> (valid(k) && key_present(cur, k) && !key_present(
            base,
            k,
        )),
        forall|t: int, u: int|
            0 <= t < u < added_indices(base, cur, valid).len() ==> cur[#[trigger] added_indices(base, cur, valid)[t]]
                != cur[#[trigger] added_indices(base, cur, valid)[u]],
{
    let n = cur.len() as int;
    lemma_added_shape(base, cur, valid, n);
    let ad = added_upto(base, cur, valid, n);
    if added_key_upto(base, cur, valid, n, k) {
        let t = choose|t: int| 0 <= t < ad.len() && cur[#[trigger] ad[t]] == k;
        assert(first_with_key(cur, valid, ad[t]));
    }
    if valid(k) && key_present(cur, k) && !key_present(base, k) {
        lemma_first_index(cur, k);
        let f = first_index(cur, k);
        assert(first_with_key(cur, valid, f));
        lemma_added_contains(base, cur, valid, n, f);
        let t = choose|t: int| 0 <= t < ad.len() && #[trigger] ad[t] == f;
        assert(cur[ad[t]] == k);
    }
    assert forall|t: int, u: int| 0 <= t < u < ad.len() implies cur[#[trigger] ad[t]] != cur[#[trigger] ad[u]] by {
        assert(ad[t] < ad[u]);
        assert(first_with_key(cur, valid, ad[u]));
    }
}

/// A first entry below `n` whose key the baseline lacks is reported.
proof fn lemma_added_contains<K>(base: Seq<K>, cur: Seq<K>, valid: spec_fn(K) -> bool, n: int, f: int)
    requires
        0 <= f < n <= cur.len(),
        first_with_key(cur, valid, f),
        !key_present(base, cur[f]),
    ensures
        exists|t: int| 0 <= t < added_upto(base, cur, valid, n).len() && #[trigger] added_upto(base, cur, valid, n)[t] == f,
    decreases n,
{
    let prev = added_upto(base, cur, valid, n - 1);
    let now = added_upto(base, cur, valid, n);
    if f == n - 1 {
        assert(now[prev.len() as int] == f);
    } else {
        lemma_added_contains(base, cur, valid, n - 1, f);
        let t = choose|t: int| 0 <= t < prev.len() && #[trigger] prev[t] == f;
        assert(now[t] == prev[t]);
    }
}

/// The change recorded for key `k`: the current entry's identifier, the
/// field, and the first baseline and first current values.
pub open spec fn change_for<K>(
    bk: Seq<K>,
    battr: Seq<Seq<char>>,
    ck: Seq<K>,
    cident: Seq<Seq<char>>,
    cattr: Seq<Seq<char>>,
    field: Seq<char>,
    k: K,
) -> (Seq<char>, Seq<char>, Seq<char>, Seq<char>) {
    (cident[first_index(ck, k)], field, battr[first_index(bk, k)], cattr[first_index(ck, k)])
}

/// Key `k` is in both lists and its compared values differ.
pub open spec fn drifted<K>(bk: Seq<K>, battr: Seq<Seq<char>>, ck: Seq<K>, cattr: Seq<Seq<char>>, valid: spec_fn(K) -> bool, k: K) -> bool {
    valid(k) && key_present(bk, k) && key_present(ck, k) && battr[first_index(bk, k)] != cattr[first_index(ck, k)]
}

/// The first entry of its key is where `first_index` points.
proof fn lemma_first_is_first_index<K>(keys: Seq<K>, valid: spec_fn(K) -> bool, i: int)
    requires
        first_with_key(keys, valid, i),
    ensures
        key_present(keys, keys[i]),
        first_index(keys, keys[i]) == i,
{
    assert(keys[i] == keys[i]);
    lemma_first_index(keys, keys[i]);
    let f = first_index(keys, keys[i]);
    if f < i {
        assert(keys[f] != keys[i]);
    }
}

/// `c` is the change of a drifted key whose first baseline entry is
/// below `n`.
pub open spec fn change_of_drifted<K>(
    bk: Seq<K>,
    battr: Seq<Seq<char>>,
    ck: Seq<K>,
    cident: Seq<Seq<char>>,
    cattr: Seq<Seq<char>>,
    valid: spec_fn(K) -> bool,
    field: Seq<char>,
    n: int,
    c: (Seq<char>, Seq<char>, Seq<char>, Seq<char>),
) -> bool {
    exists|i: int|
        0 <= i < n && first_with_key(bk, valid, i) && drifted(bk, battr, ck, cattr, valid, bk[i]) && c == change_for(
            bk,
            battr,
            ck,
            cident,
            cattr,
            field,
            #[trigger] bk[i],
        )
}

/// One more baseline entry adds the change of its key when it is the
/// key's first entry and the key drifted.
proof fn lemma_changed_step<K>(
    bk: Seq<K>,
    battr: Seq<Seq<char>>,
    ck: Seq<K>,
    cident: Seq<Seq<char>>,
    cattr: Seq<Seq<char>>,
    valid: spec_fn(K) -> bool,
    field: Seq<char>,
    n: int,
)
    requires
        0 < n <= bk.len(),
        battr.len() == bk.len(),
    ensures
        changed_upto(bk, battr, ck, cident, cattr, valid, field, n) == (if first_with_key(bk, valid, n - 1) && drifted(
            bk,
            battr,
            ck,
            cattr,
            valid,
            bk[n - 1],
        ) {
            changed_upto(bk, battr, ck, cident, cattr, valid, field, n - 1).push(
                change_for(bk, battr, ck, cident, cattr, field, bk[n - 1]),
            )
        } else {
            changed_upto(bk, battr, ck, cident, cattr, valid, field, n - 1)
        }),
{
    if first_with_key(bk, valid, n - 1) {
        lemma_first_is_first_index(bk, valid, n - 1);
    }
}

/// Each change among the first `n` baseline entries is the change of a
/// drifted key whose first baseline entry is below `n`.
proof fn lemma_changes_are_drifted<K>(
    bk: Seq<K>,
    battr: Seq<Seq<char>>,
    ck: Seq<K>,
    cident: Seq<Seq<char>>,
    cattr: Seq<Seq<char>>,
    valid: spec_fn(K) -> bool,
    field: Seq<char>,
    n: int,
)
    requires
        0 <= n <= bk.len(),
        battr.len() == bk.len(),
    ensures
        forall|t: int|
            0 <= t < changed_upto(bk, battr, ck, cident, cattr, valid, field, n).len() ==> change_of_drifted(
                bk,
                battr,
                ck,
                cident,
                cattr,
                valid,
                field,
                n,
                #[trigger] changed_upto(bk, battr, ck, cident, cattr, valid, field, n)[t],
            ),
    decreases n,
{
    if n > 0 {
        lemma_changes_are_drifted(bk, battr, ck, cident, cattr, valid, field, n - 1);
        lemma_changed_step(bk, battr, ck, cident, cattr, valid, field, n);
        let prev = changed_upto(bk, battr, ck, cident, cattr, valid, field, n - 1);
        let now = changed_upto(bk, battr, ck, cident, cattr, valid, field, n);
        assert forall|t: int| 0 <= t < now.len() implies change_of_drifted(
            bk,
            battr,
            ck,
            cident,
            cattr,
            valid,
            field,
            n,
            #[trigger] now[t],
        ) by {
            if t < prev.len() {
                assert(now[t] == prev[t]);
                assert(change_of_drifted(bk, battr, ck, cident, cattr, valid, field, n - 1, prev[t]));
                let a = choose|a: int|
                    0 <= a < n - 1 && first_with_key(bk, valid, a) && drifted(bk, battr, ck, cattr, valid, bk[a]) && prev[t]
                        == change_for(bk, battr, ck, cident, cattr, field, #[trigger] bk[a]);
                assert(0 <= a < n);
            } else {
                assert(now[t] == change_for(bk, battr, ck, cident, cattr, field, bk[n - 1]));
            }
        }
    }
}

/// Every drifted key whose first baseline entry is below `n` has its
/// change among the first `n` baseline entries' changes.
#[verifier::rlimit(80)]
proof fn lemma_drifted_are_changes<K>(
    bk: Seq<K>,
    battr: Seq<Seq<char>>,
    ck: Seq<K>,
    cident: Seq<Seq<char>>,
    cattr: Seq<Seq<char>>,
    valid: spec_fn(K) -> bool,
    field: Seq<char>,
    n: int,
    a: int,
)
    requires
        0 <= a < n <= bk.len(),
        battr.len() == bk.len(),
        first_with_key(bk, valid, a),
        drifted(bk, battr, ck, cattr, valid, bk[a]),
    ensures
        exists|t: int|
            0 <= t < changed_upto(bk, battr, ck, cident, cattr, valid, field, n).len() && #[trigger] changed_upto(
                bk,
                battr,
                ck,
                cident,
                cattr,
                valid,
                field,
                n,
            )[t] == change_for(bk, battr, ck, cident, cattr, field, bk[a]),
    decreases n,
{
    let prev = changed_upto(bk, battr, ck, cident, cattr, valid, field, n - 1);
    let now = changed_upto(bk, battr, ck, cident, cattr, valid, field, n);
    let c = change_for(bk, battr, ck, cident, cattr, field, bk[a]);
    assert(now.len() >= prev.len() && forall|t: int| 0 <= t < prev.len() ==> now[t] == prev[t]) by {
        lemma_changed_step(bk, battr, ck, cident, cattr, valid, field, n);
    }
    if a < n - 1 {
        lemma_drifted_are_changes(bk, battr, ck, cident, cattr, valid, field, n - 1, a);
        let t = choose|t: int| 0 <= t < prev.len() && #[trigger] prev[t] == c;
        assert(now[t] == c);
    } else {
        assert(now == prev.push(c)) by {
            lemma_changed_step(bk, battr, ck, cident, cattr, valid, field, n);
        }
        assert(now[prev.len() as int] == c);
    }
}

/// The changes reported are exactly those of the keys in both lists
/// whose compared values (first entries) differ: each change is one such
/// key's, and each such key's change is reported.
pub proof fn law_changes_are_the_drifted_keys<K>(
    bk: Seq<K>,
    battr: Seq<Seq<char>>,
    ck: Seq<K>,
    cident: Seq<Seq<char>>,
    cattr: Seq<Seq<char>>,
    valid: spec_fn(K) -> bool,
    field: Seq<char>,
    k: K,
)
    requires
        battr.len() == bk.len(),
    ensures
        drifted(bk, battr, ck, cattr, valid, k) ==> changed_upto(bk, battr, ck, cident, cattr, valid, field, bk.len() as int).contains(
            change_for(bk, battr, ck, cident, cattr, field, k),
        ),
        forall|t: int|
            0 <= t < changed_upto(bk, battr, ck, cident, cattr, valid, field, bk.len() as int).len() ==> change_of_drifted(
                bk,
                battr,
                ck,
                cident,
                cattr,
                valid,
                field,
                bk.len() as int,
                #[trigger] changed_upto(bk, battr, ck, cident, cattr, valid, field, bk.len() as int)[t],
            ),
{
    lemma_changes_are_drifted(bk, battr, ck, cident, cattr, valid, field, bk.len() as int);
    if drifted(bk, battr, ck, cattr, valid, k) {
        lemma_first_index(bk, k);
        let f = first_index(bk, k);
        assert(first_with_key(bk, valid, f));
        assert(bk[f] == k);
        lemma_drifted_are_changes(bk, battr, ck, cident, cattr, valid, field, bk.len() as int, f);
        let t = choose|t: int|
            0 <= t < changed_upto(bk, battr, ck, cident, cattr, valid, field, bk.len() as int).len() && #[trigger] changed_upto(
                bk,
                battr,
                ck,
                cident,
                cattr,
                valid,
                field,
                bk.len() as int,
            )[t] == change_for(bk, battr, ck, cident, cattr, field, bk[f]);
        assert(changed_upto(bk, battr, ck, cident, cattr, valid, field, bk.len() as int)[t] == change_for(
            bk, battr, ck, cident, cattr, field, k));
    }
}

} // verus!
