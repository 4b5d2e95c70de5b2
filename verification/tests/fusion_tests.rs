use smart_vault::fusion::{fuse_rankings, rerank_suggestions, FusionError};
use smart_vault::parse::RankingItem;
use smart_vault::suggest::LinkSuggestion;

fn candidate(path: &str, title: &str, similarity: i64) -> LinkSuggestion {
    LinkSuggestion {
        path: path.to_string(),
        title: title.to_string(),
        similarity,
        context: String::new(),
    }
}

fn three_candidates() -> Vec<LinkSuggestion> {
    vec![
        candidate("a.md", "Alpha", 900),
        candidate("b.md", "Beta", 800),
        candidate("c.md", "Gamma", 700),
    ]
}

#[test]
fn partial_ranking_keeps_every_candidate() {
    // The reply covers candidates 1 and 3 of 3; candidate 2 must still come
    // out, without an external score, after the ranked ones.
    let cands = three_candidates();
    let reply = "Document 1: 8.5 - clearly related\nDocument 3: 9.5 - even better";
    let out = rerank_suggestions(&cands, reply).expect("reply parses");
    assert_eq!(out.len(), 3);
    assert_eq!(out[0].path, "c.md");
    assert_eq!(out[0].llm_score, Some(9500));
    assert_eq!(out[0].llm_reason.as_deref(), Some("even better"));
    assert_eq!(out[1].path, "a.md");
    assert_eq!(out[1].llm_score, Some(8500));
    assert_eq!(out[2].path, "b.md");
    assert_eq!(out[2].llm_score, None);
    assert_eq!(out[2].llm_reason, None);
    assert_eq!(out[2].similarity, 800);
}

#[test]
fn out_of_range_index_is_ignored() {
    let cands = three_candidates();
    let reply = "Document 7: 9.0 - no such candidate\nDocument 2: 5.0 - fine";
    let out = rerank_suggestions(&cands, reply).expect("reply parses");
    assert_eq!(out.len(), 3);
    assert_eq!(out[0].path, "b.md");
    assert_eq!(out[0].llm_score, Some(5000));
    // The other two keep only their similarity, ordered by it.
    assert_eq!(out[1].path, "a.md");
    assert_eq!(out[2].path, "c.md");
    assert_eq!(out[1].llm_score, None);
}

#[test]
fn alternative_line_shapes_parse() {
    let cands = three_candidates();
    let out = rerank_suggestions(&cands, "doc 2: 6.5 - shorthand label").expect("parses");
    assert_eq!(out[0].path, "b.md");
    assert_eq!(out[0].llm_score, Some(6500));

    let out2 = rerank_suggestions(&cands, "Source 1: 4 - bare integer score").expect("parses");
    assert_eq!(out2[0].path, "a.md");
    assert_eq!(out2[0].llm_score, Some(4000));

    let out3 = rerank_suggestions(&cands, "2. 7.25 - numbered form").expect("parses");
    assert_eq!(out3[0].path, "b.md");
    assert_eq!(out3[0].llm_score, Some(7250));
}

#[test]
fn score_without_reason_gets_standing_reason() {
    let cands = three_candidates();
    let out = rerank_suggestions(&cands, "Document 1: 3.5").expect("parses");
    assert_eq!(out[0].llm_score, Some(3500));
    assert_eq!(out[0].llm_reason.as_deref(), Some("Relevant"));
}

#[test]
fn json_array_fallback() {
    let cands = three_candidates();
    let reply = "here you go: [{\"index\": 2, \"score\": 9.5, \"reason\": \"strong\"}]";
    let out = rerank_suggestions(&cands, reply).expect("array parses");
    assert_eq!(out[0].path, "b.md");
    assert_eq!(out[0].llm_score, Some(9500));
    assert_eq!(out[0].llm_reason.as_deref(), Some("strong"));
}

#[test]
fn json_single_object_fallback() {
    let cands = three_candidates();
    let reply = "{\"index\": 3, \"score\": 2.0, \"reason\": \"meh\"}";
    let out = rerank_suggestions(&cands, reply).expect("object parses");
    assert_eq!(out[0].path, "c.md");
    assert_eq!(out[0].llm_score, Some(2000));
}

#[test]
fn json_wrapped_object_fallback() {
    let cands = three_candidates();
    let reply =
        "{\"candidates\": [{\"index\": 1, \"score\": 1.5, \"reason\": \"ok\"}, {\"index\": 2, \"score\": 8.0, \"reason\": \"yes\"}]}";
    let out = rerank_suggestions(&cands, reply).expect("wrapped object parses");
    assert_eq!(out[0].path, "b.md");
    assert_eq!(out[0].llm_score, Some(8000));
    assert_eq!(out[1].path, "a.md");
    assert_eq!(out[1].llm_score, Some(1500));

    let reply2 = "{\"indexes\": [{\"index\": 3, \"score\": 6.0, \"reason\": \"x\"}]}";
    let out2 = rerank_suggestions(&cands, reply2).expect("second field name parses");
    assert_eq!(out2[0].path, "c.md");
}

#[test]
fn garbage_reply_is_an_error() {
    let cands = three_candidates();
    match rerank_suggestions(&cands, "I cannot rank these, sorry!") {
        Ok(_) => panic!("garbage must not parse"),
        Err(e) => assert_eq!(e, FusionError::UnparsableResponse),
    }
}

#[test]
fn empty_candidates_need_no_reply() {
    let cands: Vec<LinkSuggestion> = Vec::new();
    let out = rerank_suggestions(&cands, "total nonsense").expect("empty input");
    assert!(out.is_empty());
}

#[test]
fn duplicate_index_first_wins() {
    let cands = three_candidates();
    let mut rankings: Vec<RankingItem> = Vec::new();
    rankings.push(RankingItem { index: 1, score: 5000, reason: "first".to_string() });
    rankings.push(RankingItem { index: 1, score: 9000, reason: "second".to_string() });
    let out = fuse_rankings(&cands, &rankings);
    assert_eq!(out.len(), 3);
    assert_eq!(out[0].path, "a.md");
    assert_eq!(out[0].llm_score, Some(5000));
    assert_eq!(out[0].llm_reason.as_deref(), Some("first"));
}

#[test]
fn unranked_tail_sorted_by_similarity() {
    let cands = three_candidates();
    let rankings: Vec<RankingItem> = Vec::new();
    let out = fuse_rankings(&cands, &rankings);
    assert_eq!(out.len(), 3);
    assert_eq!(out[0].path, "a.md");
    assert_eq!(out[1].path, "b.md");
    assert_eq!(out[2].path, "c.md");
    assert!(out.iter().all(|r| r.llm_score.is_none()));
}

#[test]
fn negative_and_starred_scores_parse() {
    let cands = three_candidates();
    let out = rerank_suggestions(&cands, "Document 2: **-1.5** - below zero").expect("parses");
    assert_eq!(out.iter().find(|r| r.path == "b.md").unwrap().llm_score, Some(-1500));
}

#[test]
fn fringe_number_forms_parse() {
    let cands = three_candidates();
    let out = rerank_suggestions(&cands, "Document 1: .5 - fraction only").expect("parses");
    assert_eq!(out[0].llm_score, Some(500));

    let out2 = rerank_suggestions(&cands, "Document 2: 8. - trailing dot").expect("parses");
    assert_eq!(out2[0].llm_score, Some(8000));

    let out3 = rerank_suggestions(&cands, "here: [{\"index\": 1, \"score\": .25, \"reason\": \"x\"}]")
        .expect("parses");
    assert_eq!(out3[0].llm_score, Some(250));

    // A lone dot is not a number.
    match rerank_suggestions(&cands, "Document 1: . - no digits") {
        Ok(_) => panic!("a bare dot must not parse as a score"),
        Err(e) => assert_eq!(e, FusionError::UnparsableResponse),
    }
}
