use lucy::embeddings::{_embed_key, dim_mismatch_warning, ollama_base_from, EmbedCache, EMBED_CACHE_MAX};

#[test]
fn dim_warning_none_when_no_skips() {
    assert!(dim_mismatch_warning(0, 100, 768).is_none());
}

#[test]
fn dim_warning_reports_counts() {
    let msg = dim_mismatch_warning(7, 100, 768).expect("should warn");
    assert!(msg.contains("7/100"), "msg = {msg}");
    assert!(msg.contains("768"), "msg = {msg}");
    assert!(msg.contains("backfill_embeddings"), "msg = {msg}");
}

#[test]
fn dim_warning_exact_text() {
    assert_eq!(
        dim_mismatch_warning(1, 2, 3).unwrap(),
        "semantic_search: 1/2 stored embeddings have a dimension ≠ 3 (embedding model changed?). They are invisible to recall until re-embedded — run backfill_embeddings."
    );
}

#[test]
fn embed_key_is_deterministic_and_model_sensitive() {
    let a = _embed_key("hello world", Some("nomic-embed-text"));
    let b = _embed_key("hello world", Some("nomic-embed-text"));
    let c = _embed_key("hello world", Some("text-embedding-004"));
    let d = _embed_key("hello world", None);
    assert_eq!(a, b, "same (text, model) must hash identically");
    assert_ne!(a, c, "different model must change the key");
    assert_ne!(a, d, "Some(model) vs None must differ");
}

#[test]
fn embed_key_is_fnv1a() {
    // FNV-1a 64 of "a" is 0xaf63dc4c8601ec8c; the key then folds in '|'.
    let expected = (0xaf63dc4c8601ec8cu64 ^ b'|' as u64).wrapping_mul(0x100000001b3);
    assert_eq!(_embed_key("a", None), expected);
    // An empty model name adds nothing after '|'.
    assert_eq!(_embed_key("a", Some("")), expected);
}

#[test]
fn ollama_base_trims_api_suffixes() {
    assert_eq!(ollama_base_from(None), "http://localhost:11434");
    assert_eq!(ollama_base_from(Some("http://h:11434/v1/chat/completions")), "http://h:11434");
    assert_eq!(ollama_base_from(Some("http://h:11434/api/chat/")), "http://h:11434");
    assert_eq!(ollama_base_from(Some("http://h:11434/v1//")), "http://h:11434");
    assert_eq!(ollama_base_from(Some("http://h:11434/api")), "http://h:11434");
    assert_eq!(ollama_base_from(Some("http://h:11434")), "http://h:11434");
}

#[test]
fn cache_put_get_and_fifo_eviction() {
    let mut c: EmbedCache<u32> = EmbedCache::new();
    assert!(c.get(1).is_none());
    c.put(1, 10);
    c.put(1, 11);
    assert_eq!(c.get(1), Some(&11));
    assert_eq!(c.len(), 1);
    for k in 2..=(EMBED_CACHE_MAX as u64) {
        c.put(k, k as u32);
    }
    assert_eq!(c.len(), EMBED_CACHE_MAX);
    c.put(5000, 1);
    assert_eq!(c.len(), EMBED_CACHE_MAX);
    assert!(c.get(1).is_none(), "oldest entry evicted");
    assert_eq!(c.get(2), Some(&2));
    assert_eq!(c.get(5000), Some(&1));
}
