use smart_vault::plan::FileInfo;
use smart_vault::vault::SmartVault;

fn vault_with_three_files() -> SmartVault {
    // A: embedding stale; B: everything fresh; C: only suggestions stale.
    let mut vault = SmartVault::new();
    vault.set_embedding("A.md".to_string(), vec![1, 0]);
    vault.set_embedding("B.md".to_string(), vec![0, 1]);
    vault.set_embedding("C.md".to_string(), vec![1, 1]);

    vault.cache_index.mark_embedding_processed("A.md", 5);  // file now at 10: stale
    vault.cache_index.mark_keyword_processed("A.md", 5);
    vault.cache_index.mark_suggestion_processed("A.md", 5);

    vault.cache_index.mark_embedding_processed("B.md", 20);
    vault.cache_index.mark_keyword_processed("B.md", 20);
    vault.cache_index.mark_suggestion_processed("B.md", 20);

    vault.cache_index.mark_embedding_processed("C.md", 30);
    vault.cache_index.mark_keyword_processed("C.md", 30);
    vault.cache_index.mark_suggestion_processed("C.md", 7);  // stale
    vault
}

fn listing() -> Vec<FileInfo> {
    vec![
        FileInfo { path: "A.md".to_string(), mtime: 10 },
        FileInfo { path: "B.md".to_string(), mtime: 20 },
        FileInfo { path: "C.md".to_string(), mtime: 30 },
    ]
}

#[test]
fn plan_scan_current_first_fresh_skipped() {
    let vault = vault_with_three_files();
    let files = listing();
    let plan = vault.plan_scan(&files, Some("A.md"), true);

    let paths: Vec<&str> = plan.to_process.iter().map(|f| f.path.as_str()).collect();
    assert_eq!(paths, vec!["A.md", "C.md"]);
    assert_eq!(plan.to_skip, vec!["B.md".to_string()]);
    assert_eq!(plan.current_file_index, Some(0));
}

#[test]
fn plan_scan_flags_follow_dependency_cascade() {
    let vault = vault_with_three_files();
    let files = listing();
    let plan = vault.plan_scan(&files, Some("A.md"), true);

    let a = &plan.to_process[0];
    assert!(a.needs_embedding);
    assert!(a.needs_keywords);  // keywords follow a stale embedding
    assert!(a.needs_suggestions);
    let c = &plan.to_process[1];
    assert!(!c.needs_embedding);
    assert!(!c.needs_keywords);
    assert!(c.needs_suggestions);
}

#[test]
fn plan_scan_without_suggestion_pass() {
    let vault = vault_with_three_files();
    let files = listing();
    // With the suggestion pass off, C needs nothing.
    let plan = vault.plan_scan(&files, None, false);
    let paths: Vec<&str> = plan.to_process.iter().map(|f| f.path.as_str()).collect();
    assert_eq!(paths, vec!["A.md"]);
    assert_eq!(plan.to_skip, vec!["B.md".to_string(), "C.md".to_string()]);
    assert_eq!(plan.current_file_index, None);
}

#[test]
fn plan_scan_orders_by_mtime_desc() {
    let mut vault = SmartVault::new();
    // No embeddings: everything needs work.
    let files = vec![
        FileInfo { path: "old.md".to_string(), mtime: 1 },
        FileInfo { path: "newest.md".to_string(), mtime: 9 },
        FileInfo { path: "mid.md".to_string(), mtime: 5 },
    ];
    let plan = vault.plan_scan(&files, None, false);
    let paths: Vec<&str> = plan.to_process.iter().map(|f| f.path.as_str()).collect();
    assert_eq!(paths, vec!["newest.md", "mid.md", "old.md"]);
    assert!(plan.to_skip.is_empty());
    assert_eq!(plan.current_file_index, None);
    vault.add_file("unused.md".to_string(), "x".to_string());
}

#[test]
fn missing_embedding_means_stale_even_with_fresh_mtime() {
    let mut vault = SmartVault::new();
    vault.cache_index.mark_embedding_processed("a.md", 10);
    // mtime ledger is fresh, but no vector is loaded.
    let files = vec![FileInfo { path: "a.md".to_string(), mtime: 10 }];
    let plan = vault.plan_scan(&files, None, false);
    assert_eq!(plan.to_process.len(), 1);
    assert!(plan.to_process[0].needs_embedding);
}

#[test]
fn count_files_needing_processing_counts_stale_embeddings() {
    let vault = vault_with_three_files();
    let files = listing();
    // Only A has a stale embedding.
    assert_eq!(vault.count_files_needing_processing(&files), 1);
}

#[test]
fn keyword_entry_carries_extraction_time() {
    let entry = smart_vault::vault::KeywordEntry {
        keywords: vec!["flow".to_string(), "vortex".to_string()],
        mtime: 77,
    };
    let mut vault = SmartVault::new();
    vault.set_keywords("a.md".to_string(), entry.keywords);
    vault.cache_index.mark_keyword_processed("a.md", entry.mtime);
    assert!(vault.cache_index.is_keyword_fresh("a.md", 77));
    assert_eq!(vault.get_keywords("a.md").unwrap().len(), 2);
}
