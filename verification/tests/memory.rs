use lucy::memory::{decay_half_life_days, render_core_sync, tokens_for_similarity, CoreFact, DecayTier, GRAPH_MAX_EDGES, GRAPH_MAX_NODES};

#[test]
fn graph_caps_are_renderable() {
    assert!(GRAPH_MAX_NODES <= 500, "Nodos > 500 hace que el force-layout JS se cuelgue");
    assert!(GRAPH_MAX_EDGES <= 5000, "Edges > 5000 produce un JSON > 300KB por IPC");
}

#[test]
fn tokens_filter_short_words() {
    let s = "El servidor de produccion corre IIS y nginx";
    let t = tokens_for_similarity(s);
    assert!(!t.contains("el"));
    assert!(!t.contains("de"));
    assert!(!t.contains("y"));
    assert!(t.contains("servidor"));
    assert!(t.contains("produccion"));
    assert!(t.contains("iis"));
    assert!(t.contains("nginx"));
}

#[test]
fn tokens_split_on_punctuation_and_count_characters() {
    let t = tokens_for_similarity("foo-bar, foo.BAZ ñu año");
    assert!(t.contains("foo") && t.contains("bar") && t.contains("baz"));
    // "ñu" is two characters (three bytes) long: too short.
    assert!(!t.contains("ñu"));
    assert!(t.contains("año"));
    assert!(!t.contains("foo-bar"));
}

#[test]
fn half_life_by_section() {
    assert_eq!(decay_half_life_days("Identity"), 365);
    assert_eq!(decay_half_life_days("preferencia"), 180);
    assert_eq!(decay_half_life_days("HOSTS"), 90);
    assert_eq!(decay_half_life_days("project"), 60);
    assert_eq!(decay_half_life_days("rules"), 730);
    assert_eq!(decay_half_life_days("misc"), 120);
}

fn fact(section: &str, key: &str, value: &str, tier: DecayTier) -> CoreFact {
    CoreFact { section: section.to_string(), key: key.to_string(), value: value.to_string(), tier }
}

#[test]
fn core_block_groups_by_section() {
    let facts = vec![
        fact("user_facts", "name", "Ana", DecayTier::Fresh),
        fact("host", "primary", "ROG", DecayTier::Aging),
        fact("user_facts", "city", "Lima", DecayTier::Stale),
        fact("host", "os", "Win11", DecayTier::Fresh),
    ];
    assert_eq!(
        render_core_sync(&facts),
        "--- CORE MEMORY (always-on facts) ---\n[host]\n  primary = ROG [~aging~]\n  os = Win11\n[user_facts]\n  name = Ana\n(Note: 1 additional fact were filtered as stale. If relevant, ask the user to confirm.)\n--- END CORE MEMORY ---"
    );
}

#[test]
fn core_block_edge_cases() {
    assert_eq!(render_core_sync(&Vec::new()), "");
    let stale = vec![fact("a", "k", "v", DecayTier::Stale), fact("b", "k", "v", DecayTier::Stale)];
    assert_eq!(
        render_core_sync(&stale),
        "--- CORE MEMORY ---\n(No fresh facts available — 2 stale entries were filtered. If the user references personal info, ask them to confirm rather than assuming defaults.)\n--- END CORE MEMORY ---"
    );
    let two_stale = vec![
        fact("a", "k", "v", DecayTier::Fresh),
        fact("a", "x", "y", DecayTier::Stale),
        fact("b", "x", "y", DecayTier::Stale),
    ];
    assert!(render_core_sync(&two_stale).contains("(Note: 2 additional facts were filtered"));
    assert_eq!(DecayTier::Aging.label(), "aging");
}
