use tokimeki_quant_rust::event_pulse::{Aggregator, IngestedItem};
use tokimeki_quant_rust::event_pulse::text::{stop_words, tokenize};

fn item(text: &str, ts_ms: i64) -> IngestedItem {
    IngestedItem {
        text: text.into(),
        ts_ms,
    }
}

#[test]
fn trending_counts_most_frequent_token() {
    let mut agg = Aggregator::new(60_000);
    agg.ingest(&item("Rust rocks, Rust is fast", 0));
    agg.ingest(&item("rust everywhere", 10));
    let top = agg.trending(3);
    assert_eq!(top[0].0, "rust");
    assert_eq!(top[0].1, 3);
}

#[test]
fn eviction_drops_stale_tokens_outside_window() {
    let mut agg = Aggregator::new(1_000);
    agg.ingest(&item("ancient river kingdom", 0));
    agg.ingest(&item("digital protocol", 5_000));
    let top = agg.trending(10);
    assert!(top.iter().all(|(w, _)| w != "ancient"));
    assert!(top.iter().all(|(w, _)| w != "river"));
    assert!(top.iter().all(|(w, _)| w != "kingdom"));
}

#[test]
fn total_ingested_tracks_every_item() {
    let mut agg = Aggregator::new(60_000);
    for i in 0..5 {
        agg.ingest(&item("x", i));
    }
    assert_eq!(agg.total_ingested(), 5);
}

#[test]
fn stop_words_and_short_tokens_are_excluded() {
    let mut agg = Aggregator::new(60_000);
    agg.ingest(&item("the cat and a dog with fastcars", 0));
    let top = agg.trending(10);
    assert!(top.iter().all(|(w, _)| w != "the"));
    assert!(top.iter().all(|(w, _)| w != "and"));
    assert!(top.iter().all(|(w, _)| w != "a"));
    assert!(top.iter().any(|(w, _)| w == "fastcars"));
}

#[test]
fn trending_orders_by_count_then_word() {
    let mut agg = Aggregator::new(60_000);
    agg.ingest(&item("zeta beta beta alpha alpha gamma", 0));
    let top = agg.trending(10);
    let expected: Vec<(String, u64)> = vec![
        ("alpha".to_string(), 2),
        ("beta".to_string(), 2),
        ("gamma".to_string(), 1),
        ("zeta".to_string(), 1),
    ];
    assert_eq!(top, expected);
}

#[test]
fn trending_cuts_at_top_n() {
    let mut agg = Aggregator::new(60_000);
    agg.ingest(&item("one two three four five four", 0));
    assert_eq!(agg.trending(0), Vec::<(String, u64)>::new());
    let top = agg.trending(2);
    assert_eq!(top, vec![("four".to_string(), 2), ("five".to_string(), 1)]);
}

#[test]
fn trending_on_empty_window_is_empty() {
    let agg = Aggregator::new(1_000);
    assert!(agg.trending(5).is_empty());
    assert_eq!(agg.items_in_window(), 0);
    assert_eq!(agg.window_ms(), 1_000);
}

#[test]
fn item_exactly_at_cutoff_stays() {
    let mut agg = Aggregator::new(1_000);
    agg.ingest(&item("alpha", 0));
    agg.ingest(&item("beta", 1_000));
    assert_eq!(agg.items_in_window(), 2);
    agg.ingest(&item("gamma", 1_001));
    assert_eq!(agg.items_in_window(), 2);
    let top = agg.trending(10);
    assert_eq!(top, vec![("beta".to_string(), 1), ("gamma".to_string(), 1)]);
}

#[test]
fn eviction_decrements_counts_of_shared_words() {
    let mut agg = Aggregator::new(100);
    agg.ingest(&item("delta delta", 0));
    agg.ingest(&item("delta", 50));
    assert_eq!(agg.trending(1), vec![("delta".to_string(), 3)]);
    agg.ingest(&item("omega", 120));
    assert_eq!(
        agg.trending(5),
        vec![("delta".to_string(), 1), ("omega".to_string(), 1)]
    );
    assert_eq!(agg.total_ingested(), 3);
}

#[test]
fn tokenize_splits_lowercases_and_filters() {
    let sw = stop_words();
    let toks = tokenize("Hello, WORLD! the_cat ok naïve 日本語", &sw);
    assert_eq!(toks, vec!["hello", "world", "cat", "naïve", "日本語"]);
}

#[test]
fn tokenize_counts_bytes_for_length() {
    let sw = stop_words();
    // "éa" is three bytes long, "ab" only two.
    let toks = tokenize("ab éa", &sw);
    assert_eq!(toks, vec!["éa"]);
}

#[test]
fn tokenize_drops_every_stop_word() {
    let sw = stop_words();
    let toks = tokenize("THE and For https www", &sw);
    assert!(toks.is_empty());
}

#[test]
fn tokenize_filters_against_the_list_it_is_given() {
    let sw = vec!["rust".to_string()];
    let toks = tokenize("Rust and the borrow checker", &sw);
    assert_eq!(toks, vec!["and", "the", "borrow", "checker"]);
    let none: Vec<String> = Vec::new();
    assert_eq!(tokenize("the cat", &none), vec!["the", "cat"]);
}

#[test]
fn eviction_drops_every_stale_item_whatever_its_place() {
    let mut agg = Aggregator::new(1_000);
    agg.ingest(&item("future", 5_000));
    agg.ingest(&item("ancient", 0));
    agg.ingest(&item("present", 1_500));
    // Cutoff 500: "ancient" goes although "future" arrived before it.
    assert_eq!(agg.items_in_window(), 2);
    let top = agg.trending(10);
    assert_eq!(top, vec![("future".to_string(), 1), ("present".to_string(), 1)]);
}
