//! Lists of (string key, value) pairs read as maps, and the order of
//! `String`'s `Ord` on their keys.
use vstd::prelude::*;
use crate::text::lex_le;

verus! {

/// The map that a list of (key, value) entries stands for (a later entry
/// for a key wins).
pub open spec fn entries_map<V>(s: Seq<(Seq<char>, V)>) -> Map<Seq<char>, V>
    decreases s.len(),
{
    if s.len() == 0 {
        Map::empty()
    } else {
        entries_map(s.drop_last()).insert(s.last().0, s.last().1)
    }
}

/// No key occurs twice.
pub open spec fn distinct_keys<V>(s: Seq<(Seq<char>, V)>) -> bool {
    forall|i: int, j: int| 0 <= i < j < s.len() ==> #[trigger] s[i].0 != #[trigger] s[j].0
}

/// The keys of `entries_map(s)` are those of `s`.
pub proof fn lemma_entries_dom<V>(s: Seq<(Seq<char>, V)>, k: Seq<char>)
    ensures
        entries_map(s).dom().contains(k) <==> exists|i: int| 0 <= i < s.len() && #[trigger] s[i].0 == k,
    decreases s.len(),
{
    if s.len() > 0 {
        lemma_entries_dom(s.drop_last(), k);
        if entries_map(s.drop_last()).dom().contains(k) {
            let i = choose|i: int| 0 <= i < s.drop_last().len() && #[trigger] s.drop_last()[i].0 == k;
            assert(s[i].0 == k);
        }
        if exists|i: int| 0 <= i < s.len() && #[trigger] s[i].0 == k {
            let i = choose|i: int| 0 <= i < s.len() && #[trigger] s[i].0 == k;
            if i < s.len() - 1 {
                assert(s.drop_last()[i].0 == k);
            }
        }
    }
}

/// With distinct keys, each entry is what the map holds for its key.
pub proof fn lemma_entries_value<V>(s: Seq<(Seq<char>, V)>, i: int)
    requires
        distinct_keys(s),
        0 <= i < s.len(),
    ensures
        entries_map(s).dom().contains(s[i].0),
        entries_map(s)[s[i].0] == s[i].1,
    decreases s.len(),
{
    if i < s.len() - 1 {
        lemma_entries_value(s.drop_last(), i);
        assert(s.drop_last()[i] == s[i]);
        assert(s[i].0 != s.last().0);
    }
}

/// A prefix of a list with distinct keys has distinct keys.
pub proof fn lemma_distinct_drop_last<V>(s: Seq<(Seq<char>, V)>)
    requires
        distinct_keys(s),
        s.len() > 0,
    ensures
        distinct_keys(s.drop_last()),
{
    let t = s.drop_last();
    assert forall|i: int, j: int| 0 <= i < j < t.len() implies #[trigger] t[i].0 != #[trigger] t[j].0 by {
        assert(t[i] == s[i] && t[j] == s[j]);
    }
}

/// The map is finite and, with distinct keys, has one key per entry.
pub proof fn lemma_entries_len<V>(s: Seq<(Seq<char>, V)>)
    requires
        distinct_keys(s),
    ensures
        entries_map(s).dom().finite(),
        entries_map(s).dom().len() == s.len(),
    decreases s.len(),
{
    if s.len() > 0 {
        let t = s.drop_last();
        lemma_distinct_drop_last(s);
        lemma_entries_len(t);
        lemma_entries_dom(t, s.last().0);
        if entries_map(t).dom().contains(s.last().0) {
            let i = choose|i: int| 0 <= i < t.len() && #[trigger] t[i].0 == s.last().0;
            assert(s[i].0 == s[s.len() - 1].0);
        }
    }
}

/// Appending an entry whose key is new keeps the keys distinct and adds it
/// to the map.
pub proof fn lemma_push_new_key<V>(s: Seq<(Seq<char>, V)>, e: (Seq<char>, V))
    requires
        distinct_keys(s),
        !entries_map(s).dom().contains(e.0),
    ensures
        distinct_keys(s.push(e)),
        entries_map(s.push(e)) == entries_map(s).insert(e.0, e.1),
{
    let t = s.push(e);
    assert(t.drop_last() =~= s);
    lemma_entries_dom(s, e.0);
    assert forall|a: int, b: int| 0 <= a < b < t.len() implies #[trigger] t[a].0 != #[trigger] t[b].0 by {
        if b == t.len() - 1 {
            assert(t[a] == s[a]);
        } else {
            assert(t[a] == s[a] && t[b] == s[b]);
        }
    }
}

/// Dropping the first entry removes its key from the map.
pub proof fn lemma_entries_drop_first<V>(s: Seq<(Seq<char>, V)>)
    requires
        distinct_keys(s),
        s.len() > 0,
    ensures
        distinct_keys(s.drop_first()),
        entries_map(s.drop_first()) == entries_map(s).remove(s[0].0),
    decreases s.len(),
{
    let t = s.drop_first();
    assert forall|i: int, j: int| 0 <= i < j < t.len() implies #[trigger] t[i].0 != #[trigger] t[j].0 by {
        assert(t[i] == s[i + 1] && t[j] == s[j + 1]);
    }
    if s.len() == 1 {
        assert(t =~= Seq::<(Seq<char>, V)>::empty());
        assert(s.drop_last() =~= Seq::<(Seq<char>, V)>::empty());
        assert(entries_map(t) =~= entries_map(s).remove(s[0].0));
    } else {
        let p = s.drop_last();
        lemma_distinct_drop_last(s);
        lemma_entries_drop_first(p);
        assert(t.drop_last() =~= p.drop_first());
        assert(t.last() == s.last());
        assert(p[0] == s[0]);
        assert(s.last().0 != s[0].0);
        assert(entries_map(t) =~= entries_map(s).remove(s[0].0));
    }
}

// ── The order of `String` keys ─────────────────────────────────────────

/// `a < b` in `String`'s order.
pub open spec fn lex_lt(a: Seq<char>, b: Seq<char>) -> bool {
    lex_le(a, b) && a != b
}

/// The order is antisymmetric.
pub proof fn lemma_lex_antisym(a: Seq<char>, b: Seq<char>)
    requires
        lex_le(a, b),
        lex_le(b, a),
    ensures
        a == b,
    decreases a.len(),
{
    if a.len() > 0 && b.len() > 0 {
        lemma_lex_antisym(a.drop_first(), b.drop_first());
        assert(a =~= seq![a[0]] + a.drop_first());
        assert(b =~= seq![b[0]] + b.drop_first());
    } else {
        assert(a.len() == 0 && b.len() == 0);
        assert(a =~= b);
    }
}

/// The order is total.
pub proof fn lemma_lex_total(a: Seq<char>, b: Seq<char>)
    ensures
        lex_le(a, b) || lex_le(b, a),
    decreases a.len(),
{
    if a.len() > 0 && b.len() > 0 && a[0] == b[0] {
        lemma_lex_total(a.drop_first(), b.drop_first());
    }
}

/// The order is transitive.
pub proof fn lemma_lex_trans(a: Seq<char>, b: Seq<char>, c: Seq<char>)
    requires
        lex_le(a, b),
        lex_le(b, c),
    ensures
        lex_le(a, c),
    decreases a.len(),
{
    if a.len() > 0 && b.len() > 0 && c.len() > 0 && a[0] == b[0] && b[0] == c[0] {
        lemma_lex_trans(a.drop_first(), b.drop_first(), c.drop_first());
    }
}

/// Entries in strictly increasing key order.
pub open spec fn key_sorted<V>(s: Seq<(Seq<char>, V)>) -> bool {
    forall|i: int, j: int| 0 <= i < j < s.len() ==> lex_lt(#[trigger] s[i].0, #[trigger] s[j].0)
}

/// Two key-sorted listings of the same map are the same listing.
pub proof fn lemma_sorted_listing_unique<V>(s: Seq<(Seq<char>, V)>, t: Seq<(Seq<char>, V)>)
    requires
        key_sorted(s),
        key_sorted(t),
        entries_map(s) == entries_map(t),
    ensures
        s == t,
    decreases s.len(),
{
    assert(distinct_keys(s));
    assert(distinct_keys(t));
    lemma_entries_len(s);
    lemma_entries_len(t);
    if s.len() > 0 {
        let k = s[0].0;
        let q = t[0].0;
        lemma_entries_value(s, 0);
        lemma_entries_value(t, 0);
        lemma_entries_dom(t, k);
        lemma_entries_dom(s, q);
        let j = choose|j: int| 0 <= j < t.len() && #[trigger] t[j].0 == k;
        let i = choose|i: int| 0 <= i < s.len() && #[trigger] s[i].0 == q;
        if i > 0 && j > 0 {
            assert(lex_lt(t[0].0, t[j].0));
            assert(lex_lt(s[0].0, s[i].0));
            lemma_lex_antisym(k, q);
        }
        assert(k == q);
        assert(s[0] == t[0]);
        lemma_entries_drop_first(s);
        lemma_entries_drop_first(t);
        let s1 = s.drop_first();
        let t1 = t.drop_first();
        assert(key_sorted(s1)) by {
            assert forall|a: int, b: int| 0 <= a < b < s1.len() implies lex_lt(#[trigger] s1[a].0, #[trigger] s1[b].0) by {
                assert(s1[a] == s[a + 1] && s1[b] == s[b + 1]);
            }
        }
        assert(key_sorted(t1)) by {
            assert forall|a: int, b: int| 0 <= a < b < t1.len() implies lex_lt(#[trigger] t1[a].0, #[trigger] t1[b].0) by {
                assert(t1[a] == t[a + 1] && t1[b] == t[b + 1]);
            }
        }
        lemma_sorted_listing_unique(s1, t1);
        assert(s =~= t) by {
            assert forall|a: int| 0 <= a < s.len() implies s[a] == t[a] by {
                if a > 0 {
                    assert(s1[a - 1] == s[a] && t1[a - 1] == t[a]);
                }
            }
        }
    } else {
        assert(t.len() == 0);
        assert(s =~= t);
    }
}

} // verus!

verus! {

/// Two lists with distinct keys and the same entries (in any order) stand
/// for the same map.
pub proof fn lemma_entries_same_elements<V>(s: Seq<(Seq<char>, V)>, t: Seq<(Seq<char>, V)>)
    requires
        distinct_keys(s),
        distinct_keys(t),
        forall|i: int| 0 <= i < s.len() ==> t.contains(#[trigger] s[i]),
        forall|j: int| 0 <= j < t.len() ==> s.contains(#[trigger] t[j]),
    ensures
        entries_map(s) == entries_map(t),
{
    assert forall|k: Seq<char>| entries_map(s).dom().contains(k) <==> entries_map(t).dom().contains(k) by {
        lemma_entries_dom(s, k);
        lemma_entries_dom(t, k);
        if entries_map(s).dom().contains(k) {
            let i = choose|i: int| 0 <= i < s.len() && #[trigger] s[i].0 == k;
            assert(t.contains(s[i]));
            let j = choose|j: int| 0 <= j < t.len() && t[j] == s[i];
            assert(t[j].0 == k);
        }
        if entries_map(t).dom().contains(k) {
            let j = choose|j: int| 0 <= j < t.len() && #[trigger] t[j].0 == k;
            assert(s.contains(t[j]));
            let i = choose|i: int| 0 <= i < s.len() && s[i] == t[j];
            assert(s[i].0 == k);
        }
    }
    assert forall|k: Seq<char>| #[trigger] entries_map(s).dom().contains(k) implies entries_map(s)[k] == entries_map(t)[k] by {
        lemma_entries_dom(s, k);
        let i = choose|i: int| 0 <= i < s.len() && #[trigger] s[i].0 == k;
        lemma_entries_value(s, i);
        assert(t.contains(s[i]));
        let j = choose|j: int| 0 <= j < t.len() && t[j] == s[i];
        lemma_entries_value(t, j);
    }
    assert(entries_map(s) =~= entries_map(t));
}

} // verus!

verus! {

/// Replacing the value of an entry changes just that key in the map.
pub proof fn lemma_entries_update<V>(s: Seq<(Seq<char>, V)>, j: int, v: V)
    requires
        distinct_keys(s),
        0 <= j < s.len(),
    ensures
        distinct_keys(s.update(j, (s[j].0, v))),
        entries_map(s.update(j, (s[j].0, v))) == entries_map(s).insert(s[j].0, v),
{
    let t = s.update(j, (s[j].0, v));
    assert forall|a: int, b: int| 0 <= a < b < t.len() implies #[trigger] t[a].0 != #[trigger] t[b].0 by {
        assert(t[a].0 == s[a].0 && t[b].0 == s[b].0);
    }
    assert forall|k: Seq<char>| entries_map(t).dom().contains(k) <==> entries_map(s).insert(s[j].0, v).dom().contains(k) by {
        lemma_entries_dom(s, k);
        lemma_entries_dom(t, k);
        if entries_map(t).dom().contains(k) {
            let i = choose|i: int| 0 <= i < t.len() && #[trigger] t[i].0 == k;
            assert(s[i].0 == k);
        }
        if entries_map(s).dom().contains(k) {
            let i = choose|i: int| 0 <= i < s.len() && #[trigger] s[i].0 == k;
            assert(t[i].0 == k);
        }
        if k == s[j].0 {
            assert(t[j].0 == k);
        }
    }
    assert forall|k: Seq<char>| #[trigger] entries_map(t).dom().contains(k) implies entries_map(t)[k] == entries_map(s).insert(s[j].0, v)[k] by {
        lemma_entries_dom(t, k);
        let i = choose|i: int| 0 <= i < t.len() && #[trigger] t[i].0 == k;
        lemma_entries_value(t, i);
        if i != j {
            lemma_entries_value(s, i);
            assert(s[i] == t[i]);
        }
    }
    assert(entries_map(t) =~= entries_map(s).insert(s[j].0, v));
}

/// Inserting an entry with a new key anywhere adds it to the map.
pub proof fn lemma_entries_insert_new<V>(s: Seq<(Seq<char>, V)>, j: int, e: (Seq<char>, V))
    requires
        distinct_keys(s),
        0 <= j <= s.len(),
        !entries_map(s).dom().contains(e.0),
    ensures
        distinct_keys(s.insert(j, e)),
        entries_map(s.insert(j, e)) == entries_map(s).insert(e.0, e.1),
{
    let t = s.insert(j, e);
    lemma_entries_dom(s, e.0);
    assert forall|a: int, b: int| 0 <= a < b < t.len() implies #[trigger] t[a].0 != #[trigger] t[b].0 by {
        if a == j {
            assert(t[b] == s[b - 1]);
        } else if b == j {
            assert(t[a] == s[a]);
        } else {
            let a0 = if a < j { a } else { a - 1 };
            let b0 = if b < j { b } else { b - 1 };
            assert(t[a] == s[a0] && t[b] == s[b0]);
        }
    }
    lemma_push_new_key(s, e);
    let p = s.push(e);
    assert forall|i: int| 0 <= i < t.len() implies p.contains(#[trigger] t[i]) by {
        if i == j {
            assert(p[s.len() as int] == t[i]);
        } else if i < j {
            assert(p[i] == t[i]);
        } else {
            assert(p[i - 1] == t[i]);
        }
    }
    assert forall|i: int| 0 <= i < p.len() implies t.contains(#[trigger] p[i]) by {
        if i == s.len() {
            assert(t[j] == p[i]);
        } else if i < j {
            assert(t[i] == p[i]);
        } else {
            assert(t[i + 1] == p[i]);
        }
    }
    lemma_entries_same_elements(t, p);
}

} // verus!
