use lucy::memory::{tokens_for_similarity, TokenSet};
use lucy::memory_graph::{
    community_labels, edge_kind_counts, greedy_clusters, max_edge_pairs, superseded_tags, top_tags, MemoryNode,
};

#[test]
fn node_from_row_keeps_fields_and_cuts_preview() {
    let content = "x".repeat(250);
    let n = MemoryNode::from_row(7, "T".into(), &content, "[\"Ops\",\"db\"]", 5, 2, 100);
    assert_eq!(n.id, 7);
    assert_eq!(n.title, "T");
    assert_eq!(n.tags, vec!["Ops".to_string(), "db".to_string()]);
    assert_eq!(n.preview, "x".repeat(200));
    assert_eq!(n.community, -1);
    let bad = MemoryNode::from_row(8, "U".into(), "short é", "not json", 1, 0, 0);
    assert!(bad.tags.is_empty());
    assert_eq!(bad.preview, "short é");
}

#[test]
fn communities_are_renumbered_in_order() {
    let comm = vec![42, 7, 42, 99, 7];
    let isolated = vec![false, false, false, true, false];
    let (labels, count) = community_labels(&comm, &isolated);
    assert_eq!(labels, vec![0, 1, 0, -1, 1]);
    assert_eq!(count, 2);
    let (none, zero) = community_labels(&vec![], &vec![]);
    assert!(none.is_empty());
    assert_eq!(zero, 0);
}

fn node_with_tags(id: i64, tags: &[&str]) -> MemoryNode {
    let json = format!("[{}]", tags.iter().map(|t| format!("\"{}\"", t)).collect::<Vec<_>>().join(","));
    MemoryNode::from_row(id, "t".into(), "c", &json, 1, 0, 0)
}

#[test]
fn top_tags_count_lowercased_and_rank() {
    let nodes = vec![
        node_with_tags(1, &["DB", "ops"]),
        node_with_tags(2, &["db", "net"]),
        node_with_tags(3, &["Net", "db"]),
    ];
    assert_eq!(
        top_tags(&nodes),
        vec![("db".to_string(), 3), ("net".to_string(), 2), ("ops".to_string(), 1)]
    );
}

#[test]
fn top_tags_keep_twelve() {
    let tags: Vec<String> = (0..20).map(|i| format!("t{}", i)).collect();
    let refs: Vec<&str> = tags.iter().map(|s| s.as_str()).collect();
    let nodes = vec![node_with_tags(1, &refs)];
    let r = top_tags(&nodes);
    assert_eq!(r.len(), 12);
    assert_eq!(r[0], ("t0".to_string(), 1));
}

#[test]
fn edge_kinds_are_counted() {
    let kinds: Vec<String> = vec!["tag", "content", "tag", "embedding", "other"].into_iter().map(String::from).collect();
    assert_eq!(edge_kind_counts(&kinds), (2, 1, 1));
}

#[test]
fn pairs_of_nodes() {
    assert_eq!(max_edge_pairs(0), 0);
    assert_eq!(max_edge_pairs(1), 0);
    assert_eq!(max_edge_pairs(250), 31125);
}

#[test]
fn greedy_clustering_takes_each_memory_once() {
    // 0~1, 0~2, 1~3, 2~3: seed 0 absorbs 1 and 2; 3 is then a seed with nothing left.
    let n = 4;
    let mut rel = vec![vec![false; n]; n];
    for (a, b) in [(0, 1), (0, 2), (1, 3), (2, 3)] {
        rel[a][b] = true;
        rel[b][a] = true;
    }
    assert_eq!(greedy_clusters(&rel), vec![(0, vec![1, 2])]);
}

#[test]
fn greedy_clustering_later_seeds() {
    let n = 5;
    let mut rel = vec![vec![false; n]; n];
    rel[1][3] = true;
    rel[2][4] = true;
    rel[1][4] = true;
    assert_eq!(greedy_clusters(&rel), vec![(1, vec![3, 4])]);
    assert!(greedy_clusters(&vec![]).is_empty());
}

#[test]
fn supersede_marker_added_once() {
    assert_eq!(superseded_tags("[\"a\"]", 12), "[\"a\",\"superseded_by:12\"]");
    assert_eq!(superseded_tags("[\"superseded_by:12\"]", 12), "[\"superseded_by:12\"]");
    assert_eq!(superseded_tags("garbage", -3), "[\"superseded_by:-3\"]");
}

#[test]
fn token_overlap_counts() {
    let a = tokens_for_similarity("disk full on server alpha");
    let b = tokens_for_similarity("Server alpha DISK errors");
    assert_eq!(a.overlap(&b), (3, 5));
    assert_eq!(a.overlap(&a), (a.len(), a.len()));
    let e = tokens_for_similarity("");
    assert_eq!(e.overlap(&e), (0, 0));
    let tags = TokenSet::lowered_words(&vec!["Ops".to_string(), "ops".to_string(), "DB".to_string()]);
    assert_eq!(tags.len(), 2);
    assert!(tags.contains("db"));
}
