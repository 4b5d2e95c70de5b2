use smart_vault::similarity::cosine_similarity;
use smart_vault::vault::SmartVault;
use smart_vault::SCALE;

#[test]
fn cosine_of_vector_with_itself_is_one() {
    let v: Vec<i64> = vec![3, 4, 5];
    assert_eq!(cosine_similarity(&v, &v), SCALE);
}

#[test]
fn cosine_is_symmetric() {
    let a: Vec<i64> = vec![3, 1, 4];
    let b: Vec<i64> = vec![2, 7, 1];
    assert_eq!(cosine_similarity(&a, &b), cosine_similarity(&b, &a));
}

#[test]
fn cosine_degenerate_inputs_give_zero() {
    let empty: Vec<i64> = vec![];
    let a: Vec<i64> = vec![1, 2];
    let zero: Vec<i64> = vec![0, 0];
    assert_eq!(cosine_similarity(&empty, &empty), 0);
    assert_eq!(cosine_similarity(&a, &empty), 0);  // mismatched lengths
    assert_eq!(cosine_similarity(&a, &zero), 0);  // zero norm
}

#[test]
fn cosine_orthogonal_is_zero_and_opposite_is_negative() {
    let a: Vec<i64> = vec![1, 0];
    let b: Vec<i64> = vec![0, 1];
    assert_eq!(cosine_similarity(&a, &b), 0);
    let c: Vec<i64> = vec![-1, 0];
    assert_eq!(cosine_similarity(&a, &c), -SCALE);
}

#[test]
fn cosine_known_value() {
    // dot = 1, |a| = 1, |b| = isqrt(101) = 10, so the score is 1000/10.
    let a: Vec<i64> = vec![1, 0];
    let b: Vec<i64> = vec![1, 10];
    assert_eq!(cosine_similarity(&a, &b), 100);
}

#[test]
fn single_word_title_in_text_is_force_included() {
    // The candidate scores 0.10 against a 0.80 threshold, far below the bar,
    // but its title appears as a standalone word in the text.
    let mut vault = SmartVault::new();
    vault.set_embedding("notes/Turbulence.md".to_string(), vec![1, 10]);
    vault.add_file(
        "notes/Turbulence.md".to_string(),
        "Chaotic flow regimes.".to_string(),
    );
    let query: Vec<i64> = vec![1, 0];
    let out = vault.suggest_links_for_text(
        "The turbulence model breaks down",
        &query,
        800,
        "current.md",
        10,
    );
    assert_eq!(out.len(), 1);
    assert_eq!(out[0].title, "Turbulence");
    assert_eq!(out[0].path, "notes/Turbulence.md");
    // 0.10 base plus the 0.50 word-match boost.
    assert_eq!(out[0].similarity, 600);
    assert_eq!(out[0].context, "Chaotic flow regimes.");
}

#[test]
fn partial_word_is_not_a_word_match() {
    // "turb" occurs only inside "turbulence": no word boundary, no forcing.
    let mut vault = SmartVault::new();
    vault.set_embedding("turb.md".to_string(), vec![1, 10]);
    vault.add_file("turb.md".to_string(), "short".to_string());
    let query: Vec<i64> = vec![1, 0];
    let out = vault.suggest_links_for_text(
        "the turbulence model",
        &query,
        800,
        "current.md",
        10,
    );
    assert!(out.is_empty());
}

#[test]
fn multi_word_title_needs_verbatim_phrase() {
    let mut vault = SmartVault::new();
    vault.set_embedding("Strong Turbulence.md".to_string(), vec![1, 10]);
    vault.add_file("Strong Turbulence.md".to_string(), "content".to_string());
    let query: Vec<i64> = vec![1, 0];
    let hit = vault.suggest_links_for_text(
        "we observed strong turbulence today",
        &query,
        800,
        "current.md",
        10,
    );
    assert_eq!(hit.len(), 1);
    // 0.10 base plus the 0.30 phrase boost.
    assert_eq!(hit[0].similarity, 400);
    let miss = vault.suggest_links_for_text(
        "we observed strong winds and turbulence",
        &query,
        800,
        "current.md",
        10,
    );
    assert!(miss.is_empty());
}

#[test]
fn title_containment_boost_granted_once() {
    // Candidate "Strong Turbulence" vs current "Turbulence": one strict
    // containment direction holds, so exactly one +0.10 boost is added.
    let mut vault = SmartVault::new();
    vault.set_embedding("Strong Turbulence.md".to_string(), vec![1, 10]);
    vault.add_file("Strong Turbulence.md".to_string(), "content".to_string());
    let query: Vec<i64> = vec![1, 0];
    let out = vault.suggest_links_for_text(
        "nothing that names the candidate",
        &query,
        0,
        "Turbulence.md",
        10,
    );
    assert_eq!(out.len(), 1);
    // 0.10 base + 0.10 containment, and not 0.10 + 0.20.
    assert_eq!(out[0].similarity, 200);
}

#[test]
fn keyword_overlap_boost_capped() {
    let mut vault = SmartVault::new();
    vault.set_embedding("k.md".to_string(), vec![1, 10]);
    vault.add_file("k.md".to_string(), "content".to_string());
    vault.set_keywords(
        "k.md".to_string(),
        vec![
            "alpha".to_string(),
            "beta".to_string(),
            "gamma".to_string(),
            "delta".to_string(),
            "epsilon".to_string(),
        ],
    );
    let query: Vec<i64> = vec![1, 0];
    // All five keywords occur, but the boost is capped at 0.20.
    let out = vault.suggest_links_for_text(
        "alpha beta gamma delta epsilon",
        &query,
        0,
        "current.md",
        10,
    );
    assert_eq!(out.len(), 1);
    assert_eq!(out[0].similarity, 300);  // 100 base + 200 cap
}

#[test]
fn existing_link_marker_drops_candidate_even_when_forced() {
    let mut vault = SmartVault::new();
    vault.set_embedding("Turbulence.md".to_string(), vec![1, 10]);
    vault.add_file("Turbulence.md".to_string(), "content".to_string());
    let query: Vec<i64> = vec![1, 0];
    let out = vault.suggest_links_for_text(
        "turbulence is covered in [[Turbulence]] already",
        &query,
        0,
        "current.md",
        10,
    );
    assert!(out.is_empty());
}

#[test]
fn candidate_without_content_is_excluded() {
    let mut vault = SmartVault::new();
    vault.set_embedding("Turbulence.md".to_string(), vec![1, 10]);
    // No add_file: content was never loaded.
    let query: Vec<i64> = vec![1, 0];
    let out = vault.suggest_links_for_text("turbulence", &query, 0, "current.md", 10);
    assert!(out.is_empty());
}

#[test]
fn current_file_never_suggests_itself() {
    let mut vault = SmartVault::new();
    vault.set_embedding("self.md".to_string(), vec![1, 0]);
    vault.add_file("self.md".to_string(), "content".to_string());
    let query: Vec<i64> = vec![1, 0];
    let out = vault.suggest_links_for_text("self", &query, 0, "self.md", 10);
    assert!(out.is_empty());
}

#[test]
fn suggestions_sorted_and_truncated() {
    let mut vault = SmartVault::new();
    vault.set_embedding("close.md".to_string(), vec![10, 5]);
    vault.set_embedding("closer.md".to_string(), vec![10, 0]);
    vault.set_embedding("far.md".to_string(), vec![1, 10]);
    for p in ["close.md", "closer.md", "far.md"] {
        vault.add_file(p.to_string(), "body".to_string());
    }
    let query: Vec<i64> = vec![10, 0];
    let out = vault.suggest_links_for_text("unrelated text", &query, 0, "cur.md", 2);
    assert_eq!(out.len(), 2);
    assert_eq!(out[0].path, "closer.md");
    assert_eq!(out[1].path, "close.md");
    assert!(out[0].similarity >= out[1].similarity);
}

#[test]
fn context_joins_first_five_lines_and_truncates() {
    let mut vault = SmartVault::new();
    vault.set_embedding("doc.md".to_string(), vec![1, 0]);
    vault.add_file(
        "doc.md".to_string(),
        "one\ntwo\nthree\nfour\nfive\nsix".to_string(),
    );
    let query: Vec<i64> = vec![1, 0];
    let out = vault.suggest_links_for_text("whatever", &query, 0, "cur.md", 1);
    assert_eq!(out.len(), 1);
    assert_eq!(out[0].context, "one two three four five");

    let mut vault2 = SmartVault::new();
    vault2.set_embedding("long.md".to_string(), vec![1, 0]);
    let long_line = "x".repeat(150);
    vault2.add_file("long.md".to_string(), long_line.clone());
    let out2 = vault2.suggest_links_for_text("whatever", &query, 0, "cur.md", 1);
    assert_eq!(out2.len(), 1);
    let expected = format!("{}...", &long_line[..100]);
    assert_eq!(out2[0].context, expected);
}

#[test]
fn find_similar_filters_and_sorts() {
    let mut vault = SmartVault::new();
    vault.set_embedding("a.md".to_string(), vec![10, 0]);
    vault.set_embedding("b.md".to_string(), vec![10, 1]);
    vault.set_embedding("c.md".to_string(), vec![0, 10]);
    let query: Vec<i64> = vec![10, 0];
    let matches = vault.find_similar(&query, 500);
    let paths: Vec<&str> = matches.iter().map(|m| m.path.as_str()).collect();
    assert_eq!(paths, vec!["a.md", "b.md"]);
    assert_eq!(matches[0].score, 1000);
}

#[test]
fn find_similar_notes_excludes_self_and_truncates() {
    let mut vault = SmartVault::new();
    vault.set_embedding("q.md".to_string(), vec![10, 0]);
    vault.set_embedding("near.md".to_string(), vec![10, 1]);
    vault.set_embedding("far.md".to_string(), vec![0, 10]);
    let hits = vault.find_similar_notes("q.md", 1).expect("embedding is present");
    assert_eq!(hits.len(), 1);
    assert_eq!(hits[0].path, "near.md");
    assert!(vault.find_similar_notes("absent.md", 3).is_none());
}

#[test]
fn vault_store_roundtrip() {
    let mut vault = SmartVault::new();
    assert_eq!(vault.get_file_count(), 0);
    assert_eq!(vault.get_embedding_count(), 0);
    vault.add_file("a.md".to_string(), "hello".to_string());
    vault.set_embedding("a.md".to_string(), vec![1, 2, 3]);
    vault.set_keywords("a.md".to_string(), vec!["kw".to_string()]);
    assert_eq!(vault.get_file_count(), 1);
    assert_eq!(vault.get_embedding_count(), 1);
    assert!(vault.has_embedding("a.md"));
    assert!(!vault.has_embedding("b.md"));
    assert_eq!(vault.get_embedding("a.md").unwrap(), &vec![1i64, 2, 3]);
    assert_eq!(vault.get_keywords("a.md").unwrap(), &vec!["kw".to_string()]);
    assert!(vault.get_keywords("b.md").is_none());
}

#[test]
fn truncate_content_cuts_at_character_count() {
    let vault = SmartVault::new();
    assert_eq!(vault.truncate_content("hello", 10), "hello");
    assert_eq!(vault.truncate_content("hello", 3), "hel");
    assert_eq!(vault.truncate_content("", 3), "");
}
