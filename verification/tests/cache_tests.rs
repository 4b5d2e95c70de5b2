use smart_vault::cache::{ArtifactKind, CacheIndex};

#[test]
fn mark_then_fresh_exact_time_only() {
    let mut cache = CacheIndex::new();
    cache.mark_embedding_processed("notes/a.md", 1000);
    assert!(cache.is_embedding_fresh("notes/a.md", 1000));
    assert!(!cache.is_embedding_fresh("notes/a.md", 1001));
    assert!(!cache.is_embedding_fresh("notes/a.md", 999));
    assert!(!cache.is_embedding_fresh("notes/b.md", 1000));
}

#[test]
fn absent_entry_is_never_fresh() {
    let cache = CacheIndex::new();
    assert!(!cache.is_embedding_fresh("nowhere.md", 0));
    assert!(!cache.is_keyword_fresh("nowhere.md", 42));
    assert!(!cache.is_suggestion_fresh("nowhere.md", 42));
}

#[test]
fn mark_processed_per_kind() {
    let mut cache = CacheIndex::new();
    cache.mark_processed(ArtifactKind::Keyword, "a.md", 7);
    assert!(cache.is_fresh(ArtifactKind::Keyword, "a.md", 7));
    assert!(!cache.is_fresh(ArtifactKind::Embedding, "a.md", 7));
    assert!(!cache.is_fresh(ArtifactKind::Suggestion, "a.md", 7));
}

#[test]
fn upsert_replaces_old_time() {
    let mut cache = CacheIndex::new();
    cache.mark_suggestion_processed("a.md", 5);
    cache.mark_suggestion_processed("a.md", 9);
    assert!(!cache.is_suggestion_fresh("a.md", 5));
    assert!(cache.is_suggestion_fresh("a.md", 9));
}

#[test]
fn invalidate_clears_mtimes_and_matching_insertions() {
    let mut cache = CacheIndex::new();
    cache.mark_embedding_processed("a.md", 1);
    cache.mark_keyword_processed("a.md", 2);
    cache.mark_suggestion_processed("a.md", 3);
    cache.mark_embedding_processed("b.md", 4);
    cache.cache_insertion("a.md", "Topic", "{\"spot\":1}");
    cache.cache_insertion("a.md", "Other", "{\"spot\":2}");
    cache.cache_insertion("b.md", "Topic", "{\"spot\":3}");
    cache.ignore_suggestion("a.md", "b.md", 100);

    // Three ledger entries plus two insertion entries for a.md.
    assert_eq!(cache.invalidate_file("a.md"), 5);

    assert!(!cache.is_embedding_fresh("a.md", 1));
    assert!(!cache.is_keyword_fresh("a.md", 2));
    assert!(!cache.is_suggestion_fresh("a.md", 3));
    assert!(cache.is_embedding_fresh("b.md", 4));
    assert!(cache.get_cached_insertion("a.md", "Topic").is_none());
    assert!(cache.get_cached_insertion("a.md", "Other").is_none());
    assert_eq!(
        cache.get_cached_insertion("b.md", "Topic").map(|s| s.as_str()),
        Some("{\"spot\":3}")
    );
    // Ignored suggestions are untouched by invalidation.
    assert!(cache.is_suggestion_ignored("a.md", "b.md"));
    // A second invalidation finds nothing left to remove.
    assert_eq!(cache.invalidate_file("a.md"), 0);
}

#[test]
fn invalidate_insertion_cache_reports_count() {
    let mut cache = CacheIndex::new();
    cache.cache_insertion("a.md", "One", "1");
    cache.cache_insertion("a.md", "Two", "2");
    cache.cache_insertion("c.md", "Three", "3");
    assert_eq!(cache.invalidate_insertion_cache_for_file("a.md"), 2);
    assert_eq!(cache.invalidate_insertion_cache_for_file("a.md"), 0);
    assert!(cache.get_cached_insertion("c.md", "Three").is_some());
}

#[test]
fn ignore_twice_same_as_once() {
    let mut once = CacheIndex::new();
    once.ignore_suggestion("a.md", "b.md", 50);
    let mut twice = CacheIndex::new();
    twice.ignore_suggestion("a.md", "b.md", 50);
    twice.ignore_suggestion("a.md", "b.md", 50);
    assert!(twice.is_suggestion_ignored("a.md", "b.md"));
    assert_eq!(once.get_ignored_suggestions().len(), 1);
    assert_eq!(twice.get_ignored_suggestions().len(), 1);
    let a = &once.get_ignored_suggestions()[0];
    let b = &twice.get_ignored_suggestions()[0];
    assert_eq!(a.source_file, b.source_file);
    assert_eq!(a.target_file, b.target_file);
    assert_eq!(a.timestamp, b.timestamp);
}

#[test]
fn unignore_missing_pair_is_noop() {
    let mut cache = CacheIndex::new();
    cache.ignore_suggestion("a.md", "b.md", 10);
    cache.unignore_suggestion("x.md", "y.md");
    assert!(cache.is_suggestion_ignored("a.md", "b.md"));
    assert_eq!(cache.get_ignored_suggestions().len(), 1);
}

#[test]
fn ignored_pair_is_directional() {
    let mut cache = CacheIndex::new();
    cache.ignore_suggestion("a.md", "b.md", 10);
    assert!(cache.is_suggestion_ignored("a.md", "b.md"));
    assert!(!cache.is_suggestion_ignored("b.md", "a.md"));
}

#[test]
fn ignored_listing_most_recent_first() {
    let mut cache = CacheIndex::new();
    cache.ignore_suggestion("a.md", "b.md", 10);
    cache.ignore_suggestion("c.md", "d.md", 30);
    cache.ignore_suggestion("e.md", "f.md", 20);
    let listing = cache.get_ignored_suggestions();
    assert_eq!(listing.len(), 3);
    assert_eq!(listing[0].timestamp, 30);
    assert_eq!(listing[1].timestamp, 20);
    assert_eq!(listing[2].timestamp, 10);
    assert_eq!(listing[0].source_file, "c.md");
    assert_eq!(listing[0].target_file, "d.md");
}

#[test]
fn clear_drops_everything() {
    let mut cache = CacheIndex::new();
    cache.mark_embedding_processed("a.md", 1);
    cache.ignore_suggestion("a.md", "b.md", 2);
    cache.cache_insertion("a.md", "T", "x");
    cache.clear();
    assert!(!cache.is_embedding_fresh("a.md", 1));
    assert!(!cache.is_suggestion_ignored("a.md", "b.md"));
    assert!(cache.get_cached_insertion("a.md", "T").is_none());
    assert_eq!(cache.get_ignored_suggestions().len(), 0);
}

#[test]
fn clear_ignored_and_insertions_separately() {
    let mut cache = CacheIndex::new();
    cache.ignore_suggestion("a.md", "b.md", 2);
    cache.cache_insertion("a.md", "T", "x");
    cache.clear_ignored_suggestions();
    assert!(!cache.is_suggestion_ignored("a.md", "b.md"));
    assert!(cache.get_cached_insertion("a.md", "T").is_some());
    cache.clear_insertion_cache();
    assert!(cache.get_cached_insertion("a.md", "T").is_none());
}
