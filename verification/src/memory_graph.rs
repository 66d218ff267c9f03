//! The memory graph and memory consolidation, apart from their similarity
//! scores: the nodes as drawn, the communities renumbered for the palette,
//! the most frequent tags, the per-kind edge counts, and the greedy
//! clustering of near-duplicate memories with the tag that retires them.
use vstd::prelude::*;
use crate::incident::{json_strings, json_string_list, parse_json_list, to_json_list};
use crate::log_analysis::{count_keys, rank_counts, tally_keys, tally_views, sort_desc, tally_count, first_n};
use crate::text::{chars_of, string_of_range, to_lowercase, unicode_lower, views, append, same};

verus! {

/// Characters of a memory shown when hovering its node.
pub const PREVIEW_CHARS: usize = 200;
/// Tags offered as filter pills.
pub const TOP_TAGS: usize = 12;

/// How many memories the graph draws: 150 unless asked, never more than
/// `GRAPH_MAX_NODES`.
pub fn graph_node_limit(limit: Option<u32>) -> (n: usize)
    ensures
        n == vstd::math::min(
            match limit {
                Some(l) => l as int,
                None => 150,
            },
            crate::memory::GRAPH_MAX_NODES as int,
        ),
{
    let l: u32 = match limit {
        Some(l) => l,
        None => 150,
    };
    if (l as u64) < (crate::memory::GRAPH_MAX_NODES as u64) {
        l as usize
    } else {
        crate::memory::GRAPH_MAX_NODES
    }
}

// ── Nodes ──────────────────────────────────────────────────────────────

/// A memory as drawn in the graph.
#[derive(Clone, Debug)]
pub struct MemoryNode {
    pub id: i64,
    pub title: String,
    pub importance: i64,
    pub access_count: i64,
    pub created_at: i64,
    pub tags: Vec<String>,
    /// The first 200 characters of the memory.
    pub preview: String,
    /// The node's community, or -1 when it has no edge.
    pub community: i32,
}

/// The tags a stored JSON list holds (none when it does not parse).
pub open spec fn stored_tags(json: Seq<char>) -> Seq<Seq<char>> {
    match json_strings(json) {
        Some(v) => v,
        None => Seq::empty(),
    }
}

/// The first `PREVIEW_CHARS` characters of `content`.
pub open spec fn preview_of(content: Seq<char>) -> Seq<char> {
    content.take(vstd::math::min(content.len() as int, PREVIEW_CHARS as int))
}

impl MemoryNode {
    /// The node of a stored memory, before communities are known.
    pub fn from_row(
        id: i64,
        title: String,
        content: &str,
        tags_json: &str,
        importance: i64,
        access_count: i64,
        created_at: i64,
    ) -> (n: Self)
        ensures
            n.id == id,
            n.title@ == title@,
            n.importance == importance,
            n.access_count == access_count,
            n.created_at == created_at,
            views(n.tags@) == stored_tags(tags_json@),
            n.preview@ == preview_of(content@),
            n.community == -1,
    {
        let tags = match parse_json_list(tags_json) {
            Some(v) => v,
            None => {
                let e: Vec<String> = Vec::new();
                assert(views(e@) =~= Seq::<Seq<char>>::empty());
                e
            },
        };
        let c = chars_of(content);
        let k = if c.len() < PREVIEW_CHARS { c.len() } else { PREVIEW_CHARS };
        let preview = string_of_range(&c, 0, k);
        assert(c@.subrange(0, k as int) =~= preview_of(content@));
        MemoryNode { id, title, importance, access_count, created_at, tags, preview, community: -1 }
    }
}

// ── Communities ────────────────────────────────────────────────────────

/// The communities of the connected nodes among the first `i`, each once,
/// in order of first appearance.
pub open spec fn seen_communities(comm: Seq<i64>, isolated: Seq<bool>, i: int) -> Seq<i64>
    decreases i,
{
    if i <= 0 {
        Seq::empty()
    } else {
        let s = seen_communities(comm, isolated, i - 1);
        if isolated[i - 1] || s.contains(comm[i - 1]) {
            s
        } else {
            s.push(comm[i - 1])
        }
    }
}

/// The index of the first `x` in `s` (its length when absent).
pub open spec fn position_of(s: Seq<i64>, x: i64) -> int
    decreases s.len(),
{
    if s.len() == 0 {
        0
    } else if s[0] == x {
        0
    } else {
        1 + position_of(s.drop_first(), x)
    }
}

/// The label of node `i`: -1 when it has no edge, else the rank of its
/// community in order of first appearance.
pub open spec fn community_label(comm: Seq<i64>, isolated: Seq<bool>, i: int) -> int {
    if isolated[i] {
        -1
    } else {
        position_of(seen_communities(comm, isolated, i + 1), comm[i])
    }
}

proof fn lemma_position_found(s: Seq<i64>, x: i64, j: int)
    requires
        0 <= j <= s.len(),
        forall|k: int| 0 <= k < j ==> s[k] != x,
        j < s.len() ==> s[j] == x,
    ensures
        position_of(s, x) == j,
    decreases j,
{
    if s.len() > 0 && j > 0 {
        lemma_position_found(s.drop_first(), x, j - 1);
    }
}

/// Renumbers communities for the palette: each connected node gets the
/// rank of its community among those seen so far (first appearance
/// first), an isolated node gets -1; also returns how many communities
/// there are.
pub fn community_labels(comm: &Vec<i64>, isolated: &Vec<bool>) -> (r: (Vec<i32>, i32))
    requires
        comm.len() == isolated.len(),
        comm.len() <= i32::MAX,
    ensures
        r.0@.len() == comm.len(),
        forall|i: int| 0 <= i < comm.len() ==> r.0@[i] as int == community_label(comm@, isolated@, i),
        r.1 as int == seen_communities(comm@, isolated@, comm.len() as int).len(),
{
    let mut seen: Vec<i64> = Vec::new();
    let mut labels: Vec<i32> = Vec::new();
    let mut i: usize = 0;
    while i < comm.len()
        invariant
            i <= comm.len(),
            comm.len() == isolated.len(),
            comm.len() <= i32::MAX,
            seen@ == seen_communities(comm@, isolated@, i as int),
            seen.len() <= i,
            labels@.len() == i,
            forall|k: int| 0 <= k < i ==> labels@[k] as int == community_label(comm@, isolated@, k),
        decreases comm.len() - i,
    {
        if isolated[i] {
            labels.push(-1);
            assert(seen_communities(comm@, isolated@, i + 1) == seen@);
        } else {
            let c = comm[i];
            let mut j: usize = 0;
            while j < seen.len()
                invariant
                    j <= seen.len(),
                    forall|k: int| 0 <= k < j ==> seen@[k] != c,
                ensures
                    j <= seen.len(),
                    forall|k: int| 0 <= k < j ==> seen@[k] != c,
                    j < seen.len() ==> seen@[j as int] == c,
                decreases seen.len() - j,
            {
                if seen[j] == c {
                    break;
                }
                j += 1;
            }
            let ghost before = seen@;
            if j == seen.len() {
                proof {
                    assert(!before.contains(c)) by {
                        if before.contains(c) {
                            let k = choose|k: int| 0 <= k < before.len() && before[k] == c;
                            assert(before[k] != c);
                        }
                    }
                }
                seen.push(c);
            } else {
                assert(before[j as int] == c);
                assert(before.contains(c));
            }
            proof {
                assert(seen@ == seen_communities(comm@, isolated@, i + 1));
                lemma_position_found(seen@, c, j as int);
            }
            labels.push(j as i32);
        }
        i += 1;
    }
    let n = seen.len() as i32;
    (labels, n)
}

// ── Tags and edges ─────────────────────────────────────────────────────

/// The tags of all nodes, lowercased, node after node.
pub open spec fn lowered_tags(tags: Seq<Seq<Seq<char>>>) -> Seq<Seq<char>>
    decreases tags.len(),
{
    if tags.len() == 0 {
        Seq::empty()
    } else {
        lowered_tags(tags.drop_last()) + tags.last().map_values(|t: Seq<char>| unicode_lower(t))
    }
}

/// The tags of each node.
pub open spec fn node_tags(nodes: Seq<MemoryNode>) -> Seq<Seq<Seq<char>>> {
    nodes.map_values(|n: MemoryNode| views(n.tags@))
}

/// The most frequent tags of the drawn nodes (lowercased), by decreasing
/// count, ties in order of first appearance, at most twelve.
pub open spec fn top_tags_spec(nodes: Seq<MemoryNode>) -> Seq<(Seq<char>, nat)> {
    first_n(
        sort_desc(tally_keys(lowered_tags(node_tags(nodes)), false), |e: (Seq<char>, nat)| tally_count(e)),
        TOP_TAGS as nat,
    )
}

/// The filter pills of the graph: its most frequent tags with their counts.
pub fn top_tags(nodes: &Vec<MemoryNode>) -> (r: Vec<(String, usize)>)
    ensures
        tally_views(r@) == top_tags_spec(nodes@),
{
    let ghost nt = node_tags(nodes@);
    let mut all: Vec<String> = Vec::new();
    let mut i: usize = 0;
    assert(views(all@) =~= lowered_tags(nt.take(0)));
    while i < nodes.len()
        invariant
            i <= nodes.len(),
            nt == node_tags(nodes@),
            views(all@) == lowered_tags(nt.take(i as int)),
        decreases nodes.len() - i,
    {
        let tags = &nodes[i].tags;
        let ghost start = views(all@);
        let mut k: usize = 0;
        while k < tags.len()
            invariant
                k <= tags.len(),
                views(all@) == start + views(tags@).take(k as int).map_values(|t: Seq<char>| unicode_lower(t)),
            decreases tags.len() - k,
        {
            let ghost before = views(all@);
            all.push(to_lowercase(tags[k].as_str()));
            assert(views(tags@).take(k + 1).map_values(|t: Seq<char>| unicode_lower(t))
                =~= views(tags@).take(k as int).map_values(|t: Seq<char>| unicode_lower(t)).push(unicode_lower(tags@[k as int]@)));
            assert(views(all@) =~= before.push(unicode_lower(tags@[k as int]@)));
            k += 1;
        }
        assert(views(tags@).take(tags.len() as int) =~= views(tags@));
        assert(nt.take(i + 1).drop_last() =~= nt.take(i as int));
        assert(nt.take(i + 1).last() == views(tags@));
        i += 1;
    }
    assert(nt.take(nodes.len() as int) =~= nt);
    let counts = count_keys(&all, false);
    let mut ranked = rank_counts(counts);
    if ranked.len() > TOP_TAGS {
        ranked.truncate(TOP_TAGS);
        assert(tally_views(ranked@) =~= top_tags_spec(nodes@));
    }
    ranked
}

/// How many of `kinds` equal `k`.
pub open spec fn count_kind(kinds: Seq<Seq<char>>, k: Seq<char>) -> nat
    decreases kinds.len(),
{
    if kinds.len() == 0 {
        0
    } else {
        count_kind(kinds.drop_last(), k) + if kinds.last() == k { 1nat } else { 0nat }
    }
}

/// The number of `tag`, `content` and `embedding` edges.
pub fn edge_kind_counts(kinds: &Vec<String>) -> (r: (usize, usize, usize))
    ensures
        r.0 == count_kind(views(kinds@), "tag"@),
        r.1 == count_kind(views(kinds@), "content"@),
        r.2 == count_kind(views(kinds@), "embedding"@),
{
    let ghost kv = views(kinds@);
    let tag = chars_of("tag");
    let content = chars_of("content");
    let embedding = chars_of("embedding");
    let mut t: usize = 0;
    let mut c: usize = 0;
    let mut e: usize = 0;
    let mut i: usize = 0;
    while i < kinds.len()
        invariant
            i <= kinds.len(),
            kv == views(kinds@),
            tag@ == "tag"@,
            content@ == "content"@,
            embedding@ == "embedding"@,
            t == count_kind(kv.take(i as int), "tag"@),
            c == count_kind(kv.take(i as int), "content"@),
            e == count_kind(kv.take(i as int), "embedding"@),
            t <= i,
            c <= i,
            e <= i,
        decreases kinds.len() - i,
    {
        let k = chars_of(kinds[i].as_str());
        assert(kv.take(i + 1).drop_last() =~= kv.take(i as int));
        assert(kv.take(i + 1).last() == k@);
        if same(&k, &tag) {
            t += 1;
        }
        if same(&k, &content) {
            c += 1;
        }
        if same(&k, &embedding) {
            e += 1;
        }
        i += 1;
    }
    assert(kv.take(kinds.len() as int) =~= kv);
    (t, c, e)
}

/// How many node pairs a graph of `n` nodes has.
pub fn max_edge_pairs(n: usize) -> (r: i64)
    requires
        n * (n - 1) <= i64::MAX,
    ensures
        r == n * (n - 1) / 2,
{
    if n == 0 {
        return 0;
    }
    assert(n <= i64::MAX) by (nonlinear_arith)
        requires
            n >= 1,
            n * (n - 1) <= i64::MAX,
            n <= usize::MAX,
    {
        if n > i64::MAX {
            assert(n - 1 >= 1);
            assert(n * (n - 1) >= n);
        }
    }
    let m = n as i64;
    assert(m * (m - 1) >= 0) by (nonlinear_arith)
        requires
            1 <= m,
    ;
    m * (m - 1) / 2
}

// ── Consolidation ──────────────────────────────────────────────────────

/// The memories `i` absorbs among `(i, j)`: not yet taken, and related
/// to `i`, in order.
pub open spec fn picks(rel: Seq<Seq<bool>>, taken: Seq<bool>, i: int, j: int) -> Seq<int>
    decreases j - i,
{
    if j <= i + 1 {
        Seq::empty()
    } else if !taken[j - 1] && rel[i][j - 1] {
        picks(rel, taken, i, j - 1).push(j - 1)
    } else {
        picks(rel, taken, i, j - 1)
    }
}

/// After seeding from memory `s`: `s` and every later memory related to
/// it are taken.
pub open spec fn taken_after(rel: Seq<Seq<bool>>, taken: Seq<bool>, s: int) -> Seq<bool> {
    Seq::new(taken.len(), |k: int| taken[k] || k == s || (k > s && rel[s][k]))
}

/// The greedy clustering after the first `i` memories (newest first): which
/// memories are taken, and the clusters so far, each a seed with the
/// memories it absorbed. A memory not yet taken seeds a cluster and
/// absorbs every later untaken memory related to it; a seed that absorbs
/// nothing makes no cluster.
pub open spec fn clustering(rel: Seq<Seq<bool>>, i: int) -> (Seq<bool>, Seq<(int, Seq<int>)>)
    decreases i,
{
    if i <= 0 {
        (Seq::new(rel.len(), |k: int| false), Seq::empty())
    } else {
        let (taken, cl) = clustering(rel, i - 1);
        let s = i - 1;
        if taken[s] {
            (taken, cl)
        } else {
            let p = picks(rel, taken, s, rel.len() as int);
            (taken_after(rel, taken, s), if p.len() > 0 { cl.push((s, p)) } else { cl })
        }
    }
}

/// The views of clusters.
pub open spec fn cluster_views(v: Seq<(usize, Vec<usize>)>) -> Seq<(int, Seq<int>)> {
    v.map_values(|c: (usize, Vec<usize>)| (c.0 as int, c.1@.map_values(|j: usize| j as int)))
}

/// Greedy clustering of memories, given which pairs are similar enough
/// (`related[i][j]` for `i < j`, memories newest first): the clusters, each
/// its seed and the memories merged into it.
pub fn greedy_clusters(related: &Vec<Vec<bool>>) -> (r: Vec<(usize, Vec<usize>)>)
    requires
        forall|i: int| 0 <= i < related@.len() ==> (#[trigger] related@[i])@.len() == related@.len(),
    ensures
        cluster_views(r@) == clustering(related@.map_values(|row: Vec<bool>| row@), related@.len() as int).1,
{
    let ghost rel = related@.map_values(|row: Vec<bool>| row@);
    let n = related.len();
    let mut taken: Vec<bool> = Vec::new();
    let mut k: usize = 0;
    while k < n
        invariant
            k <= n,
            taken@ == Seq::new(k as nat, |q: int| false),
        decreases n - k,
    {
        taken.push(false);
        assert(taken@ =~= Seq::new((k + 1) as nat, |q: int| false));
        k += 1;
    }
    let mut out: Vec<(usize, Vec<usize>)> = Vec::new();
    let mut i: usize = 0;
    assert(cluster_views(out@) =~= Seq::<(int, Seq<int>)>::empty());
    while i < n
        invariant
            i <= n,
            n == related@.len(),
            rel == related@.map_values(|row: Vec<bool>| row@),
            forall|q: int| 0 <= q < related@.len() ==> (#[trigger] related@[q])@.len() == related@.len(),
            taken@ == clustering(rel, i as int).0,
            cluster_views(out@) == clustering(rel, i as int).1,
            taken@.len() == n,
        decreases n - i,
    {
        if !taken[i] {
            let ghost before = taken@;
            let row = &related[i];
            assert(rel[i as int] == row@);
            taken.set(i, true);
            let mut merged: Vec<usize> = Vec::new();
            let mut j: usize = i + 1;
            assert(merged@.map_values(|x: usize| x as int) =~= picks(rel, before, i as int, j as int));
            while j < n
                invariant
                    i < j <= n,
                    n == related@.len(),
                    rel == related@.map_values(|row: Vec<bool>| row@),
                    row@ == rel[i as int],
                    row@.len() == n,
                    before.len() == n,
                    taken@.len() == n,
                    forall|q: int| 0 <= q < n ==> taken@[q] == (if q < j {
                        taken_after(rel, before, i as int)[q]
                    } else {
                        before[q]
                    }),
                    merged@.map_values(|x: usize| x as int) == picks(rel, before, i as int, j as int),
                decreases n - j,
            {
                if !taken[j] && row[j] {
                    merged.push(j);
                    assert(merged@.map_values(|x: usize| x as int) =~= picks(rel, before, i as int, j as int).push(j as int));
                }
                if row[j] {
                    taken.set(j, true);
                }
                j += 1;
            }
            assert(taken@ =~= taken_after(rel, before, i as int));
            if merged.len() > 0 {
                let ghost cv = cluster_views(out@);
                out.push((i, merged));
                assert(cluster_views(out@) =~= cv.push((i as int, picks(rel, before, i as int, n as int))));
            }
        }
        i += 1;
    }
    out
}

/// The tag that retires a memory merged into `canonical_id`.
pub open spec fn supersede_marker(canonical_id: i64) -> Seq<char> {
    "superseded_by:"@ + crate::digest::signed_decimal(canonical_id as int)
}

/// The stored tags of a merged memory with the marker of its canonical
/// memory added (once), as a JSON list.
pub open spec fn superseded_tags_spec(tags_json: Seq<char>, canonical_id: i64) -> Seq<char> {
    let tags = stored_tags(tags_json);
    json_string_list(if tags.contains(supersede_marker(canonical_id)) {
        tags
    } else {
        tags.push(supersede_marker(canonical_id))
    })
}

/// Adds the marker of the canonical memory to a merged memory's stored
/// tags, unless it is already there.
pub fn superseded_tags(tags_json: &str, canonical_id: i64) -> (r: String)
    ensures
        r@ == superseded_tags_spec(tags_json@, canonical_id),
{
    let mut tags = match parse_json_list(tags_json) {
        Some(v) => v,
        None => {
            let e: Vec<String> = Vec::new();
            assert(views(e@) =~= Seq::<Seq<char>>::empty());
            e
        },
    };
    let mut marker = String::from_str("superseded_by:");
    append(&mut marker, crate::digest::signed_dec(canonical_id).as_str());
    let mv = chars_of(marker.as_str());
    let ghost tv = views(tags@);
    let mut found = false;
    let mut i: usize = 0;
    while i < tags.len()
        invariant
            i <= tags.len(),
            tv == views(tags@),
            mv@ == supersede_marker(canonical_id),
            found == exists|q: int| 0 <= q < i && tv[q] == mv@,
        decreases tags.len() - i,
    {
        let is = same(&chars_of(tags[i].as_str()), &mv);
        assert(tv[i as int] == tags@[i as int]@);
        proof {
            if is {
                assert(tv[i as int] == mv@);
            } else {
                assert forall|q: int| 0 <= q < i + 1 && tv[q] == mv@ implies q < i by {
                    if q == i {
                        assert(tv[q] != mv@);
                    }
                }
            }
        }
        if is {
            found = true;
        }
        i += 1;
    }
    if !found {
        tags.push(marker);
        assert(views(tags@) =~= tv.push(mv@));
    }
    to_json_list(&tags)
}

// ── Laws ───────────────────────────────────────────────────────────────

/// Every memory a clustering names: each seed, then what it absorbed.
pub open spec fn cluster_members(cl: Seq<(int, Seq<int>)>) -> Seq<int>
    decreases cl.len(),
{
    if cl.len() == 0 {
        Seq::empty()
    } else {
        cluster_members(cl.drop_last()) + seq![cl.last().0] + cl.last().1
    }
}

proof fn lemma_picks(rel: Seq<Seq<bool>>, taken: Seq<bool>, i: int, j: int)
    ensures
        forall|q: int| 0 <= q < picks(rel, taken, i, j).len() ==> {
            let k = #[trigger] picks(rel, taken, i, j)[q];
            i < k < j && !taken[k] && rel[i][k]
        },
        forall|a: int, b: int| 0 <= a < b < picks(rel, taken, i, j).len() ==> picks(rel, taken, i, j)[a] < picks(rel, taken, i, j)[b],
    decreases j - i,
{
    if j > i + 1 {
        lemma_picks(rel, taken, i, j - 1);
        let p0 = picks(rel, taken, i, j - 1);
        let p = picks(rel, taken, i, j);
        if !taken[j - 1] && rel[i][j - 1] {
            assert(p == p0.push(j - 1));
            assert forall|q: int| 0 <= q < p.len() implies {
                let k = #[trigger] p[q];
                i < k < j && !taken[k] && rel[i][k]
            } by {
                if q < p0.len() {
                    assert(p[q] == p0[q]);
                }
            }
            assert forall|a: int, b: int| 0 <= a < b < p.len() implies p[a] < p[b] by {
                assert(p[a] == p0[a]);
                if b < p0.len() {
                    assert(p[b] == p0[b]);
                }
            }
        } else {
            assert(p == p0);
        }
    }
}

proof fn lemma_clustering(rel: Seq<Seq<bool>>, i: int)
    requires
        0 <= i <= rel.len(),
    ensures
        clustering(rel, i).0.len() == rel.len(),
        forall|q: int| 0 <= q < cluster_members(clustering(rel, i).1).len() ==> {
            let m = #[trigger] cluster_members(clustering(rel, i).1)[q];
            0 <= m < rel.len() && clustering(rel, i).0[m]
        },
        cluster_members(clustering(rel, i).1).no_duplicates(),
    decreases i,
{
    if i == 0 {
        assert(cluster_members(clustering(rel, i).1) =~= Seq::<int>::empty());
    } else {
        lemma_clustering(rel, i - 1);
        let (taken, cl) = clustering(rel, i - 1);
        let s = i - 1;
        let old_m = cluster_members(cl);
        if !taken[s] {
            let p = picks(rel, taken, s, rel.len() as int);
            lemma_picks(rel, taken, s, rel.len() as int);
            let t2 = taken_after(rel, taken, s);
            if p.len() > 0 {
                let cl2 = cl.push((s, p));
                assert(cl2.drop_last() =~= cl);
                let m2 = cluster_members(cl2);
                assert(m2 =~= old_m + seq![s] + p);
                assert forall|q: int| 0 <= q < m2.len() implies {
                    let m = #[trigger] m2[q];
                    0 <= m < rel.len() && t2[m]
                } by {
                    if q < old_m.len() {
                        assert(m2[q] == old_m[q]);
                    } else if q == old_m.len() {
                        assert(m2[q] == s);
                    } else {
                        assert(m2[q] == p[q - old_m.len() - 1]);
                    }
                }
                assert forall|a: int, b: int| 0 <= a < m2.len() && 0 <= b < m2.len() && a != b implies m2[a] != m2[b] by {
                    let la = old_m.len();
                    if a < la && b < la {
                        assert(m2[a] == old_m[a] && m2[b] == old_m[b]);
                    } else if a < la || b < la {
                        let (x, y) = if a < la { (a, b) } else { (b, a) };
                        assert(m2[x] == old_m[x]);
                        assert(taken[old_m[x]]);
                        if y == la {
                            assert(m2[y] == s);
                        } else {
                            assert(m2[y] == p[y - la - 1]);
                        }
                    } else if a == la || b == la {
                        let y = if a == la { b } else { a };
                        assert(m2[y] == p[y - la - 1]);
                    } else {
                        assert(m2[a] == p[a - la - 1] && m2[b] == p[b - la - 1]);
                        if a < b {
                            assert(p[a - la - 1] < p[b - la - 1]);
                        } else {
                            assert(p[b - la - 1] < p[a - la - 1]);
                        }
                    }
                }
            } else {
                assert forall|q: int| 0 <= q < old_m.len() implies {
                    let m = #[trigger] old_m[q];
                    0 <= m < rel.len() && t2[m]
                } by {
                    assert(taken[old_m[q]]);
                }
            }
        }
    }
}

proof fn lemma_position_in(s: Seq<i64>, x: i64)
    requires
        s.contains(x),
    ensures
        0 <= position_of(s, x) < s.len(),
        s[position_of(s, x)] == x,
    decreases s.len(),
{
    if s[0] != x {
        assert(s.drop_first().contains(x)) by {
            let j = choose|j: int| 0 <= j < s.len() && s[j] == x;
            assert(s.drop_first()[j - 1] == x);
        }
        lemma_position_in(s.drop_first(), x);
    }
}

proof fn lemma_position_prefix(s: Seq<i64>, m: int, x: i64)
    requires
        0 <= m <= s.len(),
        s.take(m).contains(x),
    ensures
        position_of(s, x) == position_of(s.take(m), x),
    decreases m,
{
    if s[0] != x {
        assert(s.take(m).drop_first() =~= s.drop_first().take(m - 1));
        assert(s.drop_first().take(m - 1).contains(x)) by {
            let j = choose|j: int| 0 <= j < m && s.take(m)[j] == x;
            assert(j > 0);
            assert(s.drop_first().take(m - 1)[j - 1] == x);
        }
        lemma_position_prefix(s.drop_first(), m - 1, x);
    }
}

proof fn lemma_seen_grows(comm: Seq<i64>, isolated: Seq<bool>, k: int, n: int)
    requires
        0 <= k <= n,
    ensures
        seen_communities(comm, isolated, k).len() <= seen_communities(comm, isolated, n).len(),
        seen_communities(comm, isolated, n).take(seen_communities(comm, isolated, k).len() as int)
            == seen_communities(comm, isolated, k),
    decreases n - k,
{
    if k < n {
        lemma_seen_grows(comm, isolated, k, n - 1);
        let a = seen_communities(comm, isolated, k);
        let b = seen_communities(comm, isolated, n - 1);
        let c = seen_communities(comm, isolated, n);
        if c != b {
            assert(c == b.push(comm[n - 1]));
            assert(c.take(a.len() as int) =~= b.take(a.len() as int));
        }
    } else {
        let a = seen_communities(comm, isolated, k);
        assert(a.take(a.len() as int) =~= a);
    }
}

proof fn lemma_seen_has(comm: Seq<i64>, isolated: Seq<bool>, i: int)
    requires
        0 <= i < comm.len(),
        i < isolated.len(),
        !isolated[i],
    ensures
        seen_communities(comm, isolated, i + 1).contains(comm[i]),
{
    let s = seen_communities(comm, isolated, i);
    if !s.contains(comm[i]) {
        assert(s.push(comm[i])[s.len() as int] == comm[i]);
    }
}

proof fn lemma_seen_distinct(comm: Seq<i64>, isolated: Seq<bool>, i: int)
    ensures
        seen_communities(comm, isolated, i).no_duplicates(),
    decreases i,
{
    if i > 0 {
        lemma_seen_distinct(comm, isolated, i - 1);
        let s = seen_communities(comm, isolated, i - 1);
        if !(isolated[i - 1] || s.contains(comm[i - 1])) {
            let t = s.push(comm[i - 1]);
            assert forall|a: int, b: int| 0 <= a < t.len() && 0 <= b < t.len() && a != b implies t[a] != t[b] by {
                if a < s.len() && b < s.len() {
                    assert(t[a] == s[a] && t[b] == s[b]);
                } else if a < s.len() {
                    assert(t[a] == s[a]);
                    assert(s.contains(s[a]));
                } else {
                    assert(t[b] == s[b]);
                    assert(s.contains(s[b]));
                }
            }
        }
    }
}

/// The palette numbering: a connected node's label is one of the
/// communities counted, and two connected nodes share a label exactly
/// when they share a community.
pub proof fn law_labels_follow_communities(comm: Seq<i64>, isolated: Seq<bool>, i: int, j: int)
    requires
        comm.len() == isolated.len(),
        0 <= i < comm.len(),
        0 <= j < comm.len(),
        !isolated[i],
        !isolated[j],
    ensures
        0 <= community_label(comm, isolated, i) < seen_communities(comm, isolated, comm.len() as int).len(),
        (community_label(comm, isolated, i) == community_label(comm, isolated, j)) <==> (comm[i] == comm[j]),
{
    let n = comm.len() as int;
    let all = seen_communities(comm, isolated, n);
    lemma_seen_distinct(comm, isolated, n);
    lemma_seen_has(comm, isolated, i);
    lemma_seen_has(comm, isolated, j);
    lemma_seen_grows(comm, isolated, i + 1, n);
    lemma_seen_grows(comm, isolated, j + 1, n);
    let si = seen_communities(comm, isolated, i + 1);
    let sj = seen_communities(comm, isolated, j + 1);
    assert(all.take(si.len() as int).contains(comm[i]));
    assert(all.take(sj.len() as int).contains(comm[j]));
    lemma_position_prefix(all, si.len() as int, comm[i]);
    lemma_position_prefix(all, sj.len() as int, comm[j]);
    assert(all.contains(comm[i])) by {
        let q = choose|q: int| 0 <= q < si.len() && si[q] == comm[i];
        assert(all[q] == comm[i]);
    }
    assert(all.contains(comm[j])) by {
        let q = choose|q: int| 0 <= q < sj.len() && sj[q] == comm[j];
        assert(all[q] == comm[j]);
    }
    lemma_position_in(all, comm[i]);
    lemma_position_in(all, comm[j]);
}

/// Consolidation merges no memory twice: across all clusters, every seed
/// and every merged memory is a different memory.
pub proof fn law_consolidation_takes_each_memory_once(rel: Seq<Seq<bool>>)
    ensures
        cluster_members(clustering(rel, rel.len() as int).1).no_duplicates(),
{
    lemma_clustering(rel, rel.len() as int);
}

} // verus!
