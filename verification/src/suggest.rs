//! The similarity engine: scores every stored document against a query
//! vector and the document text, applies the lexical boosts and the
//! mandatory-inclusion rule, drops already-linked candidates, and returns the
//! top suggestions.
use vstd::prelude::*;

use crate::similarity::{cosine_similarity, spec_cosine};
use crate::strutil::{
    chars_eq, chars_of, contains_chars, contains_seq, contains_word, contains_word_chars,
    extract_context, extract_title_from_path, is_single_word, lower_of, single_word,
    spec_context_of, spec_title_of, spec_trim, string_from_chars, to_lowercase, trim_chars,
};
use crate::vault::{vec_bounded, SmartVault};
use crate::SCALE;

verus! {

/// Boost for a single-word title found as a whole word in the text.
pub const WORD_MATCH_BOOST: i64 = 500;

/// Boost for a multi-word title found verbatim in the text.
pub const PHRASE_MATCH_BOOST: i64 = 300;

/// Boost per candidate keyword found in the text.
pub const KEYWORD_BOOST: i64 = 50;

/// Cap on the total keyword boost.
pub const KEYWORD_BOOST_CAP: i64 = 200;

/// Boost when one title strictly contains the other.
pub const TITLE_CONTAINMENT_BOOST: i64 = 100;

/// A similarity hit, path plus fixed-point score.
pub struct SimilarityMatch {
    pub path: String,
    pub score: i64,
}

/// The mathematical content of a similarity hit.
pub struct MatchModel {
    pub path: Seq<char>,
    pub score: int,
}

impl DeepView for SimilarityMatch {
    type V = MatchModel;

    open spec fn deep_view(&self) -> MatchModel {
        MatchModel { path: self.path@, score: self.score as int }
    }
}

/// A suggested cross-link.
pub struct LinkSuggestion {
    pub path: String,
    pub title: String,
    pub similarity: i64,
    pub context: String,
}

/// The mathematical content of a suggestion.
pub struct SuggestionModel {
    pub path: Seq<char>,
    pub title: Seq<char>,
    pub similarity: int,
    pub context: Seq<char>,
}

impl DeepView for LinkSuggestion {
    type V = SuggestionModel;

    open spec fn deep_view(&self) -> SuggestionModel {
        SuggestionModel {
            path: self.path@,
            title: self.title@,
            similarity: self.similarity as int,
            context: self.context@,
        }
    }
}

/// Number of characters a suggestion's context text may hold.
pub const CONTEXT_BUDGET: usize = 100;

/// Mandatory inclusion: a single-word title found as a whole word in the
/// lowercased text, or a multi-word title found verbatim in it.
pub open spec fn spec_force_included(path: Seq<char>, text: Seq<char>) -> bool {
    let tl = lower_of(spec_title_of(path));
    if single_word(tl) {
        contains_word(lower_of(text), spec_trim(tl))
    } else {
        contains_seq(lower_of(text), tl)
    }
}

/// The boost a mandatory inclusion carries.
pub open spec fn spec_force_boost(path: Seq<char>, text: Seq<char>) -> int {
    if !spec_force_included(path, text) {
        0
    } else if single_word(lower_of(spec_title_of(path))) {
        WORD_MATCH_BOOST as int
    } else {
        PHRASE_MATCH_BOOST as int
    }
}

/// How many of the candidate's keywords occur in the lowercased text.
pub open spec fn spec_kw_matches(kws: Seq<Seq<char>>, text: Seq<char>) -> nat
    decreases kws.len(),
{
    if kws.len() == 0 {
        0
    } else {
        spec_kw_matches(kws.drop_last(), text) + if contains_seq(
            lower_of(text),
            lower_of(kws.last()),
        ) {
            1nat
        } else {
            0nat
        }
    }
}

/// Keyword boost: `KEYWORD_BOOST` per match, capped.
pub open spec fn spec_kw_boost(count: nat) -> int {
    if count >= 4 {
        KEYWORD_BOOST_CAP as int
    } else {
        count * (KEYWORD_BOOST as int)
    }
}

/// Parent/child boost: one title strictly contained in the other, in either
/// direction.
pub open spec fn spec_title_boost(path: Seq<char>, current: Seq<char>) -> int {
    let tl = lower_of(spec_title_of(path));
    let cl = lower_of(spec_title_of(current));
    (if contains_seq(tl, cl) && tl != cl {
        TITLE_CONTAINMENT_BOOST as int
    } else {
        0int
    }) + (if contains_seq(cl, tl) && tl != cl {
        TITLE_CONTAINMENT_BOOST as int
    } else {
        0int
    })
}

impl SmartVault {
    /// A candidate's boosted score: cosine similarity plus the lexical
    /// boosts.
    pub open spec fn spec_score(
        &self,
        path: Seq<char>,
        query: Seq<i64>,
        text: Seq<char>,
        current: Seq<char>,
    ) -> int {
        spec_cosine(query, self.embeddings@[path]) + spec_force_boost(path, text) + (
        if self.keywords@.contains_key(path) {
            spec_kw_boost(spec_kw_matches(self.keywords@[path], text))
        } else {
            0int
        }) + spec_title_boost(path, current)
    }
}

/// The literal marker that links a note of this title.
pub open spec fn spec_link_pattern(title: Seq<char>) -> Seq<char> {
    seq!['[', '['] + title + seq![']', ']']
}

impl SmartVault {
    /// Whether a stored document enters the suggestion list: not the file
    /// being edited, forced in or above the effective threshold, its content
    /// loaded, and not already linked from the text.
    pub open spec fn spec_kept(
        &self,
        path: Seq<char>,
        query: Seq<i64>,
        text: Seq<char>,
        current: Seq<char>,
        threshold: int,
    ) -> bool {
        &&& path != current
        &&& (spec_force_included(path, text) || self.spec_score(path, query, text, current)
            > threshold * 850 / (SCALE as int))
        &&& self.file_contents@.contains_key(path)
        &&& !contains_seq(text, spec_link_pattern(spec_title_of(path)))
    }

    /// The suggestion built for a kept candidate.
    pub open spec fn spec_suggestion_for(
        &self,
        path: Seq<char>,
        query: Seq<i64>,
        text: Seq<char>,
        current: Seq<char>,
    ) -> SuggestionModel {
        SuggestionModel {
            path: path,
            title: spec_title_of(path),
            similarity: self.spec_score(path, query, text, current),
            context: spec_context_of(self.file_contents@[path], CONTEXT_BUDGET as int),
        }
    }

    /// The kept candidates of an embedding-store entry sequence, in store
    /// order.
    pub open spec fn spec_kept_suggestions(
        &self,
        entries: Seq<(Seq<char>, Seq<i64>)>,
        query: Seq<i64>,
        text: Seq<char>,
        current: Seq<char>,
        threshold: int,
    ) -> Seq<SuggestionModel>
        decreases entries.len(),
    {
        if entries.len() == 0 {
            Seq::empty()
        } else {
            let rest = self.spec_kept_suggestions(entries.drop_last(), query, text, current, threshold);
            if self.spec_kept(entries.last().0, query, text, current, threshold) {
                rest.push(self.spec_suggestion_for(entries.last().0, query, text, current))
            } else {
                rest
            }
        }
    }

    /// Scores one stored document and builds its suggestion when it is kept.
    #[verifier::rlimit(100)]
    fn evaluate_candidate(
        &self,
        path: &String,
        vector: &Vec<i64>,
        query_embedding: &Vec<i64>,
        text_chars: &Vec<char>,
        text_lower: &Vec<char>,
        current_title_lower: &Vec<char>,
        current: Ghost<Seq<char>>,
        threshold: i64,
        effective_threshold: i64,
    ) -> (r: Option<LinkSuggestion>)
        requires
            self.wf(),
            vec_bounded(query_embedding.deep_view()),
            self.embeddings@.contains_key(path@),
            self.embeddings@[path@] == vector.deep_view(),
            text_lower@ == lower_of(text_chars@),
            current_title_lower@ == lower_of(spec_title_of(current@)),
            path@ != current@,
            0 <= threshold <= SCALE,
            effective_threshold == threshold * 850 / (SCALE as int),
        ensures
            match r {
                Some(s) => self.spec_kept(
                    path@,
                    query_embedding.deep_view(),
                    text_chars@,
                    current@,
                    threshold as int,
                ) && s.deep_view() == self.spec_suggestion_for(
                    path@,
                    query_embedding.deep_view(),
                    text_chars@,
                    current@,
                ),
                None => !self.spec_kept(
                    path@,
                    query_embedding.deep_view(),
                    text_chars@,
                    current@,
                    threshold as int,
                ),
            },
    {
        let ghost query = query_embedding.deep_view();
        let ghost text = text_chars@;
        let base = cosine_similarity(query_embedding, vector);
        let path_chars = chars_of(path.as_str());
        let title_chars = extract_title_from_path(&path_chars);
        let title_string = string_from_chars(&title_chars);
        let title_lower_string = to_lowercase(title_string.as_str());
        let title_lower = chars_of(title_lower_string.as_str());
        let ghost p = path@;
        let mut score: i64 = base;
        let mut force: bool = false;
        if is_single_word(&title_lower) {
            let word = trim_chars(&title_lower);
            if contains_word_chars(text_lower, &word) {
                force = true;
                score = score + WORD_MATCH_BOOST;
            }
        } else {
            if contains_chars(text_lower, &title_lower) {
                force = true;
                score = score + PHRASE_MATCH_BOOST;
            }
        }
        proof {
            assert(force == spec_force_included(p, text));
            assert(score == spec_cosine(query, self.embeddings@[p]) + spec_force_boost(p, text));
        }
        // Keyword-overlap boost, capped.
        match self.keywords.get(path) {
            Some(kws) => {
                let count = count_keyword_matches(kws, text_lower, Ghost(text));
                if count > 0 {
                    let boost: i64 = if count >= 4 {
                        KEYWORD_BOOST_CAP
                    } else {
                        (count as i64) * KEYWORD_BOOST
                    };
                    proof {
                        assert(boost == spec_kw_boost(spec_kw_matches(self.keywords@[p], text)));
                    }
                    score = score + boost;
                }
            },
            None => {},
        }
        // Parent/child title-containment boost.
        if contains_chars(&title_lower, current_title_lower) && !chars_eq(
            &title_lower,
            current_title_lower,
        ) {
            score = score + TITLE_CONTAINMENT_BOOST;
        }
        if contains_chars(current_title_lower, &title_lower) && !chars_eq(
            &title_lower,
            current_title_lower,
        ) {
            score = score + TITLE_CONTAINMENT_BOOST;
        }
        proof {
            assert(score == self.spec_score(p, query, text, current@));
        }
        if force || score > effective_threshold {
            match self.file_contents.get(path) {
                Some(content) => {
                    let mut pattern: Vec<char> = Vec::new();
                    pattern.push('[');
                    pattern.push('[');
                    let mut t: usize = 0;
                    let tlen = title_chars.len();
                    while t < tlen
                        invariant
                            tlen == title_chars@.len(),
                            t <= tlen,
                            pattern@ =~= seq!['[', '['] + title_chars@.subrange(0, t as int),
                        decreases tlen - t,
                    {
                        pattern.push(title_chars[t]);
                        proof {
                            assert(pattern@ =~= seq!['[', '['] + title_chars@.subrange(0, t + 1));
                        }
                        t += 1;
                    }
                    pattern.push(']');
                    pattern.push(']');
                    proof {
                        assert(title_chars@.subrange(0, tlen as int) =~= title_chars@);
                        assert(pattern@ =~= spec_link_pattern(spec_title_of(p)));
                    }
                    if !contains_chars(text_chars, &pattern) {
                        let content_chars = chars_of(content.as_str());
                        let context_chars = extract_context(&content_chars, CONTEXT_BUDGET);
                        let suggestion = LinkSuggestion {
                            path: path.clone(),
                            title: title_string,
                            similarity: score,
                            context: string_from_chars(&context_chars),
                        };
                        proof {
                            assert(self.spec_kept(p, query, text, current@, threshold as int));
                            assert(suggestion.deep_view() == self.spec_suggestion_for(
                                p,
                                query,
                                text,
                                current@,
                            ));
                        }
                        Some(suggestion)
                    } else {
                        proof {
                            assert(!self.spec_kept(p, query, text, current@, threshold as int));
                        }
                        None
                    }
                },
                None => {
                    proof {
                        assert(!self.spec_kept(p, query, text, current@, threshold as int));
                    }
                    None
                },
            }
        } else {
            proof {
                assert(!self.spec_kept(p, query, text, current@, threshold as int));
            }
            None
        }
    }

    /// Ranks cross-link suggestions for a document: every stored document
    /// other than the one being edited is scored; kept candidates are
    /// returned sorted by descending score, cut to `top_k`.
    pub fn suggest_links_for_text(
        &self,
        text: &str,
        query_embedding: &Vec<i64>,
        threshold: i64,
        current_file_path: &str,
        top_k: usize,
    ) -> (r: Vec<LinkSuggestion>)
        requires
            self.wf(),
            vec_bounded(query_embedding.deep_view()),
            0 <= threshold <= SCALE,
        ensures
            exists|full: Seq<SuggestionModel>|
                {
                    &&& full.to_multiset() == self.spec_kept_suggestions(
                        self.embeddings.kv(),
                        query_embedding.deep_view(),
                        text@,
                        current_file_path@,
                        threshold as int,
                    ).to_multiset()
                    &&& (forall|i: int, j: int| 0 <= i < j < full.len()
                        ==> (#[trigger] full[i]).similarity >= (#[trigger] full[j]).similarity)
                    &&& r.deep_view() == full.subrange(
                        0,
                        if full.len() <= top_k {
                            full.len() as int
                        } else {
                            top_k as int
                        },
                    )
                },
    {
        let ghost query = query_embedding.deep_view();
        let text_chars = chars_of(text);
        let text_lower_string = to_lowercase(text);
        let text_lower = chars_of(text_lower_string.as_str());
        let current_owned = current_file_path.to_owned();
        let current_chars = chars_of(current_file_path);
        let current_title = extract_title_from_path(&current_chars);
        let current_title_string = string_from_chars(&current_title);
        let current_title_lower_string = to_lowercase(current_title_string.as_str());
        let current_title_lower = chars_of(current_title_lower_string.as_str());
        let effective_threshold: i64 = threshold * 850 / SCALE;
        let n = self.embeddings.num_entries();
        let mut kept: Vec<LinkSuggestion> = Vec::new();
        let mut i: usize = 0;
        while i < n
            invariant
                self.wf(),
                vec_bounded(query),
                query == query_embedding.deep_view(),
                n == self.embeddings.kv().len(),
                i <= n,
                text_chars@ == text@,
                text_lower@ == lower_of(text@),
                current_owned@ == current_file_path@,
                current_title_lower@ == lower_of(spec_title_of(current_file_path@)),
                0 <= threshold <= SCALE,
                effective_threshold == threshold * 850 / (SCALE as int),
                kept.deep_view() =~= self.spec_kept_suggestions(
                    self.embeddings.kv().subrange(0, i as int),
                    query,
                    text@,
                    current_file_path@,
                    threshold as int,
                ),
            decreases n - i,
        {
            let ghost pre = kept.deep_view();
            let ghost entries = self.embeddings.kv();
            proof {
                assert(entries.subrange(0, i + 1).drop_last() =~= entries.subrange(0, i as int));
                assert(entries.subrange(0, i + 1).last() == entries[i as int]);
            }
            let path = self.embeddings.key_at(i);
            if !path.eq(&current_owned) {
                let vector = self.embeddings.val_at(i);
                proof {
                    self.embeddings.lemma_view_index(i as int);
                }
                match self.evaluate_candidate(
                    path,
                    vector,
                    query_embedding,
                    &text_chars,
                    &text_lower,
                    &current_title_lower,
                    Ghost(current_file_path@),
                    threshold,
                    effective_threshold,
                ) {
                    Some(suggestion) => {
                        kept.push(suggestion);
                    },
                    None => {},
                }
            }
            proof {
                assert(kept.deep_view() =~= self.spec_kept_suggestions(
                    entries.subrange(0, i + 1),
                    query,
                    text@,
                    current_file_path@,
                    threshold as int,
                ));
            }
            i += 1;
        }
        proof {
            assert(self.embeddings.kv().subrange(0, n as int) =~= self.embeddings.kv());
        }
        let sorted = sort_suggestions_desc(kept);
        let ghost full = sorted.deep_view();
        let mut out = sorted;
        if out.len() > top_k {
            out.truncate(top_k);
        }
        proof {
            assert(out.deep_view() =~= full.subrange(
                0,
                if full.len() <= top_k {
                    full.len() as int
                } else {
                    top_k as int
                },
            ));
        }
        out
    }
}

/// The stored documents scoring at least `threshold` against the query.
pub open spec fn spec_matches_above(
    entries: Seq<(Seq<char>, Seq<i64>)>,
    query: Seq<i64>,
    threshold: int,
) -> Seq<MatchModel>
    decreases entries.len(),
{
    if entries.len() == 0 {
        Seq::empty()
    } else {
        let rest = spec_matches_above(entries.drop_last(), query, threshold);
        if spec_cosine(query, entries.last().1) >= threshold {
            rest.push(
                MatchModel {
                    path: entries.last().0,
                    score: spec_cosine(query, entries.last().1),
                },
            )
        } else {
            rest
        }
    }
}

/// Every stored document other than `exclude`, with its score against the
/// query.
pub open spec fn spec_similar_notes(
    entries: Seq<(Seq<char>, Seq<i64>)>,
    query: Seq<i64>,
    exclude: Seq<char>,
) -> Seq<MatchModel>
    decreases entries.len(),
{
    if entries.len() == 0 {
        Seq::empty()
    } else {
        let rest = spec_similar_notes(entries.drop_last(), query, exclude);
        if entries.last().0 != exclude {
            rest.push(
                MatchModel {
                    path: entries.last().0,
                    score: spec_cosine(query, entries.last().1),
                },
            )
        } else {
            rest
        }
    }
}

impl SmartVault {
    /// Every stored document whose similarity to the query vector reaches
    /// `threshold`, sorted by descending score.
    pub fn find_similar(&self, query_embedding: &Vec<i64>, threshold: i64) -> (r: Vec<
        SimilarityMatch,
    >)
        requires
            self.wf(),
            vec_bounded(query_embedding.deep_view()),
        ensures
            r.deep_view().to_multiset() == spec_matches_above(
                self.embeddings.kv(),
                query_embedding.deep_view(),
                threshold as int,
            ).to_multiset(),
            forall|i: int, j: int| 0 <= i < j < r.deep_view().len()
                ==> (#[trigger] r.deep_view()[i]).score >= (#[trigger] r.deep_view()[j]).score,
    {
        let ghost query = query_embedding.deep_view();
        let n = self.embeddings.num_entries();
        let mut found: Vec<SimilarityMatch> = Vec::new();
        let mut i: usize = 0;
        while i < n
            invariant
                self.wf(),
                vec_bounded(query),
                query == query_embedding.deep_view(),
                n == self.embeddings.kv().len(),
                i <= n,
                found.deep_view() =~= spec_matches_above(
                    self.embeddings.kv().subrange(0, i as int),
                    query,
                    threshold as int,
                ),
            decreases n - i,
        {
            let ghost entries = self.embeddings.kv();
            proof {
                assert(entries.subrange(0, i + 1).drop_last() =~= entries.subrange(0, i as int));
                assert(entries.subrange(0, i + 1).last() == entries[i as int]);
            }
            let path = self.embeddings.key_at(i);
            let vector = self.embeddings.val_at(i);
            proof {
                self.embeddings.lemma_view_index(i as int);
            }
            let score = cosine_similarity(query_embedding, vector);
            if score >= threshold {
                found.push(SimilarityMatch { path: path.clone(), score });
            }
            proof {
                assert(found.deep_view() =~= spec_matches_above(
                    entries.subrange(0, i + 1),
                    query,
                    threshold as int,
                ));
            }
            i += 1;
        }
        proof {
            assert(self.embeddings.kv().subrange(0, n as int) =~= self.embeddings.kv());
        }
        sort_matches_desc(found)
    }

    /// The documents most similar to the one at `path`, most similar first,
    /// cut to `top_k`; nothing when no embedding is stored for `path`.
    pub fn find_similar_notes(&self, path: &str, top_k: usize) -> (r: Option<Vec<SimilarityMatch>>)
        requires
            self.wf(),
        ensures
            match r {
                None => !self.embeddings@.contains_key(path@),
                Some(v) => self.embeddings@.contains_key(path@) && exists|full: Seq<MatchModel>|
                    {
                        &&& full.to_multiset() == spec_similar_notes(
                            self.embeddings.kv(),
                            self.embeddings@[path@],
                            path@,
                        ).to_multiset()
                        &&& (forall|i: int, j: int| 0 <= i < j < full.len()
                            ==> (#[trigger] full[i]).score >= (#[trigger] full[j]).score)
                        &&& v.deep_view() == full.subrange(
                            0,
                            if full.len() <= top_k {
                                full.len() as int
                            } else {
                                top_k as int
                            },
                        )
                    },
            },
    {
        let owned = path.to_owned();
        let query_ref = match self.embeddings.get(&owned) {
            Some(q) => q,
            None => {
                return None;
            },
        };
        let ghost query = self.embeddings@[path@];
        let n = self.embeddings.num_entries();
        let mut found: Vec<SimilarityMatch> = Vec::new();
        let mut i: usize = 0;
        while i < n
            invariant
                self.wf(),
                self.embeddings@.contains_key(path@),
                owned@ == path@,
                query == self.embeddings@[path@],
                vec_bounded(query),
                query_ref.deep_view() == query,
                n == self.embeddings.kv().len(),
                i <= n,
                found.deep_view() =~= spec_similar_notes(
                    self.embeddings.kv().subrange(0, i as int),
                    query,
                    path@,
                ),
            decreases n - i,
        {
            let ghost entries = self.embeddings.kv();
            proof {
                assert(entries.subrange(0, i + 1).drop_last() =~= entries.subrange(0, i as int));
                assert(entries.subrange(0, i + 1).last() == entries[i as int]);
            }
            let cand = self.embeddings.key_at(i);
            if !cand.eq(&owned) {
                let vector = self.embeddings.val_at(i);
                proof {
                    self.embeddings.lemma_view_index(i as int);
                }
                let score = cosine_similarity(query_ref, vector);
                found.push(SimilarityMatch { path: cand.clone(), score });
            }
            proof {
                assert(found.deep_view() =~= spec_similar_notes(
                    entries.subrange(0, i + 1),
                    query,
                    path@,
                ));
            }
            i += 1;
        }
        proof {
            assert(self.embeddings.kv().subrange(0, n as int) =~= self.embeddings.kv());
        }
        let sorted = sort_matches_desc(found);
        let ghost full = sorted.deep_view();
        let mut out = sorted;
        if out.len() > top_k {
            out.truncate(top_k);
        }
        proof {
            assert(out.deep_view() =~= full.subrange(
                0,
                if full.len() <= top_k {
                    full.len() as int
                } else {
                    top_k as int
                },
            ));
        }
        Some(out)
    }
}

/// Selection sort by descending score.
fn sort_matches_desc(input: Vec<SimilarityMatch>) -> (r: Vec<SimilarityMatch>)
    ensures
        r.deep_view().to_multiset() == input.deep_view().to_multiset(),
        r@.len() == input@.len(),
        forall|i: int, j: int| 0 <= i < j < r.deep_view().len()
            ==> (#[trigger] r.deep_view()[i]).score >= (#[trigger] r.deep_view()[j]).score,
{
    broadcast use vstd::seq_lib::group_to_multiset_ensures;
    broadcast use vstd::multiset::group_multiset_properties;

    let mut rest = input;
    let mut out: Vec<SimilarityMatch> = Vec::new();
    let ghost total = rest.deep_view().to_multiset();
    let ghost total_len = rest@.len();
    proof {
        assert(out.deep_view().to_multiset().len() == 0);
        vstd::multiset::lemma_multiset_empty_len(out.deep_view().to_multiset());
        assert(total =~= rest.deep_view().to_multiset().add(out.deep_view().to_multiset()));
    }
    while rest.len() > 0
        invariant
            total == rest.deep_view().to_multiset().add(out.deep_view().to_multiset()),
            total_len == rest@.len() + out@.len(),
            forall|i: int, j: int| 0 <= i < j < out.deep_view().len()
                ==> (#[trigger] out.deep_view()[i]).score
                >= (#[trigger] out.deep_view()[j]).score,
            forall|i: int| 0 <= i < rest@.len() ==> out@.len() > 0
                ==> out.deep_view()[out@.len() - 1].score
                >= (#[trigger] rest.deep_view()[i]).score,
        decreases rest@.len(),
    {
        let mut best: usize = 0;
        let mut i: usize = 1;
        while i < rest.len()
            invariant
                rest@.len() > 0,
                best < i <= rest@.len(),
                forall|j: int| 0 <= j < i ==> rest.deep_view()[best as int].score
                    >= (#[trigger] rest.deep_view()[j]).score,
            decreases rest@.len() - i,
        {
            if rest[i].score > rest[best].score {
                best = i;
            }
            i += 1;
        }
        let ghost rest_pre = rest.deep_view();
        let ghost out_pre = out.deep_view();
        let picked = rest.remove(best);
        out.push(picked);
        proof {
            assert(rest.deep_view() =~= rest_pre.remove(best as int));
            assert(out.deep_view() =~= out_pre.push(picked.deep_view()));
            assert(rest_pre[best as int] == picked.deep_view());
            vstd::seq_lib::to_multiset_remove(rest_pre, best as int);
            vstd::seq_lib::to_multiset_build(out_pre, picked.deep_view());
            vstd::seq_lib::to_multiset_contains(rest_pre, picked.deep_view());
            assert(rest_pre.contains(picked.deep_view()));
            assert(total =~= rest.deep_view().to_multiset().add(out.deep_view().to_multiset()));
        }
    }
    out
}


/// Counts how many keywords occur in the lowercased text.
fn count_keyword_matches(kws: &Vec<String>, text_lower: &Vec<char>, text: Ghost<Seq<char>>) -> (r:
    usize)
    requires
        text_lower@ == lower_of(text@),
    ensures
        r == spec_kw_matches(kws.deep_view(), text@),
        r <= kws@.len(),
{
    let n = kws.len();
    let mut count: usize = 0;
    let mut i: usize = 0;
    while i < n
        invariant
            text_lower@ == lower_of(text@),
            n == kws@.len(),
            i <= n,
            count == spec_kw_matches(kws.deep_view().subrange(0, i as int), text@),
            count <= i,
        decreases n - i,
    {
        proof {
            assert(kws.deep_view().subrange(0, i + 1).drop_last() =~= kws.deep_view().subrange(
                0,
                i as int,
            ));
            assert(kws.deep_view().subrange(0, i + 1).last() == kws.deep_view()[i as int]);
        }
        let kw_lower_string = to_lowercase(kws[i].as_str());
        let kw_lower = chars_of(kw_lower_string.as_str());
        if contains_chars(text_lower, &kw_lower) {
            count += 1;
        }
        i += 1;
    }
    proof {
        assert(kws.deep_view().subrange(0, n as int) =~= kws.deep_view());
    }
    count
}

/// Selection sort by descending boosted score.
fn sort_suggestions_desc(input: Vec<LinkSuggestion>) -> (r: Vec<LinkSuggestion>)
    ensures
        r.deep_view().to_multiset() == input.deep_view().to_multiset(),
        r@.len() == input@.len(),
        forall|i: int, j: int| 0 <= i < j < r.deep_view().len()
            ==> (#[trigger] r.deep_view()[i]).similarity
            >= (#[trigger] r.deep_view()[j]).similarity,
{
    broadcast use vstd::seq_lib::group_to_multiset_ensures;
    broadcast use vstd::multiset::group_multiset_properties;

    let mut rest = input;
    let mut out: Vec<LinkSuggestion> = Vec::new();
    let ghost total = rest.deep_view().to_multiset();
    let ghost total_len = rest@.len();
    proof {
        assert(out.deep_view().to_multiset().len() == 0);
        vstd::multiset::lemma_multiset_empty_len(out.deep_view().to_multiset());
        assert(total =~= rest.deep_view().to_multiset().add(out.deep_view().to_multiset()));
    }
    while rest.len() > 0
        invariant
            total == rest.deep_view().to_multiset().add(out.deep_view().to_multiset()),
            total_len == rest@.len() + out@.len(),
            forall|i: int, j: int| 0 <= i < j < out.deep_view().len()
                ==> (#[trigger] out.deep_view()[i]).similarity
                >= (#[trigger] out.deep_view()[j]).similarity,
            forall|i: int| 0 <= i < rest@.len() ==> out@.len() > 0
                ==> out.deep_view()[out@.len() - 1].similarity
                >= (#[trigger] rest.deep_view()[i]).similarity,
        decreases rest@.len(),
    {
        let mut best: usize = 0;
        let mut i: usize = 1;
        while i < rest.len()
            invariant
                rest@.len() > 0,
                best < i <= rest@.len(),
                forall|j: int| 0 <= j < i ==> rest.deep_view()[best as int].similarity
                    >= (#[trigger] rest.deep_view()[j]).similarity,
            decreases rest@.len() - i,
        {
            if rest[i].similarity > rest[best].similarity {
                best = i;
            }
            i += 1;
        }
        let ghost rest_pre = rest.deep_view();
        let ghost out_pre = out.deep_view();
        let picked = rest.remove(best);
        out.push(picked);
        proof {
            assert(rest.deep_view() =~= rest_pre.remove(best as int));
            assert(out.deep_view() =~= out_pre.push(picked.deep_view()));
            assert(rest_pre[best as int] == picked.deep_view());
            vstd::seq_lib::to_multiset_remove(rest_pre, best as int);
            vstd::seq_lib::to_multiset_build(out_pre, picked.deep_view());
            vstd::seq_lib::to_multiset_contains(rest_pre, picked.deep_view());
            assert(rest_pre.contains(picked.deep_view()));
            assert(total =~= rest.deep_view().to_multiset().add(out.deep_view().to_multiset()));
        }
    }
    out
}

/// Law: mutual containment of two texts forces them to be equal, so the
/// parent/child boost is granted at most once: it is `TITLE_CONTAINMENT_BOOST`
/// exactly when one lowercased title strictly contains the other, and zero
/// otherwise.
pub proof fn law_title_boost_once(path: Seq<char>, current: Seq<char>)
    ensures
        spec_title_boost(path, current) == if (contains_seq(
            lower_of(spec_title_of(path)),
            lower_of(spec_title_of(current)),
        ) || contains_seq(
            lower_of(spec_title_of(current)),
            lower_of(spec_title_of(path)),
        )) && lower_of(spec_title_of(path)) != lower_of(spec_title_of(current)) {
            TITLE_CONTAINMENT_BOOST as int
        } else {
            0int
        },
{
    let tl = lower_of(spec_title_of(path));
    let cl = lower_of(spec_title_of(current));
    if contains_seq(tl, cl) && contains_seq(cl, tl) {
        lemma_mutual_containment(tl, cl);
    }
}

/// Two sequences each containing the other are equal.
proof fn lemma_mutual_containment(a: Seq<char>, b: Seq<char>)
    requires
        contains_seq(a, b),
        contains_seq(b, a),
    ensures
        a == b,
{
    let i = choose|i: int| crate::strutil::occurs_at(a, b, i);
    let j = choose|j: int| crate::strutil::occurs_at(b, a, j);
    assert(b.len() <= a.len());
    assert(a.len() <= b.len());
    assert(i == 0);
    assert(a.subrange(0, a.len() as int) =~= a);
}

} // verus!
