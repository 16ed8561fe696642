use brainmemory::memory::{ASSOCIATION_WIDTH, LONG_TERM_CAPACITY, TRAIL_CAPACITY, WORKING_CAPACITY};
use brainmemory::{BrainMemory, SearchHit};
use brainmemory::text::{contains_bytes, key_contains};
use serde_json::Value;

fn object(field: &str, v: Value) -> Value {
    let mut map = serde_json::Map::new();
    map.insert(field.to_string(), v);
    Value::Object(map)
}

fn score(hit: &SearchHit) -> f64 {
    1.0 - (hit.key_len as f64 - hit.query_len as f64) / hit.key_len as f64
}

fn keys(hits: &[SearchHit]) -> Vec<String> {
    hits.iter().map(|h| h.key.clone()).collect()
}

#[test]
fn test_store_and_retrieve() {
    let mut brain = BrainMemory::new();
    let value = object("test", Value::String("data".to_string()));

    brain.store("test_key", value.clone());
    let retrieved = brain.retrieve("test_key");

    assert!(retrieved.is_some());
    assert_eq!(retrieved.unwrap(), value);
}

#[test]
fn test_search() {
    let mut brain = BrainMemory::new();

    brain.store("test_key_1", object("id", Value::from(1)));
    brain.store("test_key_2", object("id", Value::from(2)));
    brain.store("other_key", object("id", Value::from(3)));

    let results = brain.search("test", 10);
    assert_eq!(results.len(), 2);
    // 1 - (10 - 4) / 10: the query covers four of the key's ten bytes
    assert!((score(&results[0]) - 0.4).abs() < 1e-12);
}

#[test]
fn test_memory_optimization() {
    let mut brain = BrainMemory::new();

    brain.store("old_key", object("old", Value::Bool(true)));
    assert_eq!(brain.get_stats().working_memory.entries, 1);
    assert_eq!(brain.get_stats().long_term_memory.entries, 0);

    brain.optimize_memory();
}

#[test]
fn round_trip_of_structured_values() {
    let mut brain = BrainMemory::new();
    let values = vec![
        Value::Null,
        Value::Bool(false),
        Value::from(-7),
        Value::String("x y".to_string()),
        Value::Array(vec![Value::from(1), Value::Null]),
        object("nested", object("deep", Value::from(2))),
    ];
    for (i, v) in values.iter().enumerate() {
        brain.store_at(&format!("k{}", i), v.clone(), i as u64);
    }
    for (i, v) in values.iter().enumerate() {
        assert_eq!(brain.retrieve(&format!("k{}", i)), Some(v.clone()));
    }
}

#[test]
fn retrieve_of_absent_key_is_none() {
    let mut brain = BrainMemory::new();
    assert_eq!(brain.retrieve("missing"), None);
    brain.store("present", Value::from(1));
    assert_eq!(brain.retrieve("missing"), None);
}

#[test]
fn overwrite_keeps_latest_value() {
    let mut brain = BrainMemory::new();
    brain.store_at("k", Value::from(1), 0);
    brain.store_at("k", Value::from(2), 1);
    assert_eq!(brain.retrieve("k"), Some(Value::from(2)));
    assert_eq!(brain.get_stats().working_memory.entries, 1);
    assert_eq!(brain.recent_keys(), vec!["k".to_string(), "k".to_string()]);
}

#[test]
fn trail_keeps_the_most_recent_thousand() {
    let mut brain = BrainMemory::new();
    let n: usize = TRAIL_CAPACITY + 250;
    for i in 0..n {
        brain.store_at(&format!("key_{}", i), Value::from(i as u64), 0);
    }
    let trail = brain.recent_keys();
    assert_eq!(trail.len(), 1000);
    for (pos, key) in trail.iter().enumerate() {
        assert_eq!(key, &format!("key_{}", n - 1 - pos));
    }
    assert_eq!(brain.get_stats().context_cache.size, 1000);
}

#[test]
fn search_respects_limit_and_substring() {
    let mut brain = BrainMemory::new();
    for k in ["alpha", "alphabet", "alp", "beta", "xalpx"] {
        brain.store(k, Value::Null);
    }
    let all = brain.search("alp", 10);
    assert_eq!(all.len(), 4);
    for h in &all {
        assert!(h.key.contains("alp"));
    }
    assert_eq!(all[0].key, "alp");
    let lens: Vec<usize> = all.iter().map(|h| h.key_len).collect();
    assert_eq!(lens, vec![3, 5, 5, 8]);
    let two = brain.search("alp", 2);
    assert_eq!(two.len(), 2);
    assert_eq!(two[0].key, "alp");
    assert!(two[1].key == "alpha" || two[1].key == "xalpx");
    assert_eq!(brain.search("alp", 0), Vec::<SearchHit>::new());
    assert_eq!(brain.search("zzz", 5), Vec::<SearchHit>::new());
}

#[test]
fn search_score_formula() {
    let mut brain = BrainMemory::new();
    brain.store("test_key_1", Value::Null);
    let hits = brain.search("test", 1);
    assert_eq!(hits.len(), 1);
    assert_eq!(hits[0].key_len, 10);
    assert_eq!(hits[0].query_len, 4);
    assert!((score(&hits[0]) - 0.4).abs() < 1e-12);
}

#[test]
fn search_counts_bytes_of_non_ascii_keys() {
    let mut brain = BrainMemory::new();
    brain.store("grüße", Value::Null);
    let hits = brain.search("ß", 5);
    assert_eq!(hits.len(), 1);
    assert_eq!(hits[0].key_len, 7);
    assert_eq!(hits[0].query_len, 2);
    assert_eq!(brain.search("x", 5).len(), 0);
}

#[test]
fn exact_match_scores_one() {
    let mut brain = BrainMemory::new();
    brain.store("prefix_k", Value::Null);
    brain.store("k", Value::Null);
    brain.store("k_suffix", Value::Null);
    let hits = brain.search("k", 1);
    assert_eq!(hits.len(), 1);
    assert_eq!(hits[0].key, "k");
    assert_eq!(score(&hits[0]), 1.0);
}

#[test]
fn search_ignores_long_term_tier() {
    let mut brain = BrainMemory::new();
    brain.store_at("cold", Value::Null, 0);
    brain.store_at("hot", Value::Null, 400_000);
    brain.optimize_memory_at(400_000);
    assert_eq!(keys(&brain.search("o", 10)), vec!["hot".to_string()]);
    assert_eq!(brain.retrieve("cold"), Some(Value::Null));
}

#[test]
fn association_starts_with_the_key() {
    let mut brain = BrainMemory::new();
    for k in ["a", "b", "c", "d", "e", "f"] {
        brain.store(k, Value::Null);
    }
    let assoc = brain.associations_of("f").unwrap();
    assert_eq!(assoc.len(), ASSOCIATION_WIDTH);
    assert_eq!(assoc, vec!["f", "e", "d", "c", "b"]);
    assert_eq!(brain.associations_of("a").unwrap(), vec!["a"]);
    assert_eq!(brain.associations_of("c").unwrap(), vec!["c", "b", "a"]);
    assert_eq!(brain.associations_of("zz"), None);
    let stats = brain.get_stats();
    assert_eq!(stats.associations.nodes, 6);
    assert_eq!(stats.associations.edges, 1 + 2 + 3 + 4 + 5 + 5);
}

#[test]
fn sweep_moves_only_stale_entries() {
    let mut brain = BrainMemory::new();
    brain.store_at("old", Value::from(1), 0);
    brain.store_at("edge", Value::from(2), 100);
    brain.store_at("new", Value::from(3), 200_000);
    brain.optimize_memory_at(300_100);
    let stats = brain.get_stats();
    assert_eq!(stats.working_memory.entries, 2);
    assert_eq!(stats.long_term_memory.entries, 1);
    assert_eq!(keys(&brain.search("old", 5)), Vec::<String>::new());
    assert_eq!(keys(&brain.search("edge", 5)), vec!["edge".to_string()]);
    brain.optimize_memory_at(300_101);
    assert_eq!(brain.get_stats().long_term_memory.entries, 2);
    assert_eq!(brain.retrieve("edge"), Some(Value::from(2)));
}

#[test]
fn sweep_ignores_entries_newer_than_now() {
    let mut brain = BrainMemory::new();
    brain.store_at("later", Value::Null, 1_000_000);
    brain.optimize_memory_at(0);
    assert_eq!(brain.get_stats().working_memory.entries, 1);
}

#[test]
fn restore_after_demotion_reads_new_value() {
    let mut brain = BrainMemory::new();
    brain.store_at("k", Value::from(1), 0);
    brain.optimize_memory_at(400_000);
    brain.store_at("k", Value::from(2), 400_000);
    assert_eq!(brain.retrieve("k"), Some(Value::from(2)));
    let stats = brain.get_stats();
    assert_eq!(stats.working_memory.entries, 1);
    assert_eq!(stats.long_term_memory.entries, 1);
}

#[test]
fn three_stores_scenario() {
    let mut brain = BrainMemory::new();
    brain.store("a", Value::String("1".to_string()));
    brain.store("b", Value::String("2".to_string()));
    brain.store("c", Value::String("3".to_string()));
    assert_eq!(brain.recent_keys(), vec!["c", "b", "a"]);
    assert_eq!(brain.retrieve("b"), Some(Value::String("2".to_string())));
    let hits = brain.search("b", 5);
    assert_eq!(keys(&hits), vec!["b".to_string()]);
    assert_eq!(score(&hits[0]), 1.0);
    let stats = brain.get_stats();
    assert_eq!(stats.working_memory.entries, 3);
    assert_eq!(stats.long_term_memory.entries, 0);
}

#[test]
fn inactivity_scenario() {
    let mut brain = BrainMemory::new();
    brain.store_at("idle", Value::String("v".to_string()), 0);
    brain.optimize_memory_at(301_000);
    let stats = brain.get_stats();
    assert_eq!(stats.working_memory.entries, 0);
    assert_eq!(stats.long_term_memory.entries, 1);
    assert_eq!(brain.retrieve("idle"), Some(Value::String("v".to_string())));
}

#[test]
fn stats_of_empty_store() {
    let brain = BrainMemory::new();
    let stats = brain.get_stats();
    assert_eq!(stats.working_memory.total, WORKING_CAPACITY);
    assert_eq!(stats.working_memory.total, 256 * 1024 * 1024);
    assert_eq!(stats.long_term_memory.total, LONG_TERM_CAPACITY);
    assert_eq!(stats.long_term_memory.total, 4 * 1024 * 1024 * 1024);
    assert_eq!(stats.working_memory.used, 0);
    assert_eq!(stats.context_cache.size, 0);
    assert_eq!(stats.context_cache.hits, 0);
    assert_eq!(stats.context_cache.misses, 0);
    assert_eq!(stats.associations.nodes, 0);
    assert_eq!(stats.associations.edges, 0);
}

#[test]
fn request_defaults() {
    assert_eq!(brainmemory::server::default_memory_type(), "general");
    assert_eq!(brainmemory::server::default_limit(), 10);
}

#[test]
fn substring_on_bytes() {
    assert!(contains_bytes(b"abcdef", b"cde"));
    assert!(contains_bytes(b"abc", b""));
    assert!(!contains_bytes(b"ab", b"abc"));
    assert!(!contains_bytes(b"abcdef", b"ce"));
    assert!(key_contains("test_key_1", "key"));
    assert!(!key_contains("other", "test"));
}

#[test]
fn sweep_at_clock_uses_latest_time_seen() {
    let mut brain = BrainMemory::new();
    brain.store_at("old", Value::from(1), 0);
    brain.store_at("new", Value::from(2), 400_000);
    brain.optimize_memory();
    let stats = brain.get_stats();
    assert_eq!(stats.working_memory.entries, 1);
    assert_eq!(stats.long_term_memory.entries, 1);
    assert_eq!(brain.retrieve("old"), Some(Value::from(1)));
}

#[test]
fn fresh_store_survives_sweep_at_clock() {
    let mut brain = BrainMemory::new();
    brain.store("k", Value::from(1));
    brain.optimize_memory();
    assert_eq!(brain.get_stats().working_memory.entries, 1);
    assert_eq!(brain.get_stats().long_term_memory.entries, 0);
}

#[test]
fn store_is_cloneable() {
    let mut brain = BrainMemory::new();
    brain.store("k", Value::from(1));
    let copy = brain.clone();
    brain.store("k", Value::from(2));
    assert_eq!(copy.retrieve("k"), Some(Value::from(1)));
    assert_eq!(brain.retrieve("k"), Some(Value::from(2)));
    assert!(!format!("{:?}", copy).is_empty());
}
