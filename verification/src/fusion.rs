//! Rank fusion: merges the external relevance model's partial, loosely
//! structured ranking back into the full candidate list.  Every candidate is
//! preserved exactly once; externally ranked candidates come first by
//! descending external score, the rest follow by descending similarity.
use vstd::prelude::*;

use crate::json::{
    spec_extract_delimited, extract_delimited, parse_array_whole, parse_obj_whole, parse_wrapped,
    spec_parse_array_whole, spec_parse_obj_whole, spec_parse_wrapped,
};
use crate::parse::{parse_line_rankings, spec_line_rankings, RankingItem, RankingModel};
use crate::strutil::chars_of;
use crate::suggest::{LinkSuggestion, SuggestionModel};

verus! {

/// A candidate after fusion; the presence of the external pair is what
/// distinguishes "externally ranked" from "similarity-only".
pub struct RankedSuggestion {
    pub path: String,
    pub title: String,
    pub similarity: i64,
    pub llm_score: Option<i64>,
    pub llm_reason: Option<String>,
    pub context: String,
}

/// The mathematical content of a fused candidate.
pub struct RankedModel {
    pub path: Seq<char>,
    pub title: Seq<char>,
    pub similarity: int,
    pub llm_score: Option<int>,
    pub llm_reason: Option<Seq<char>>,
    pub context: Seq<char>,
}

impl DeepView for RankedSuggestion {
    type V = RankedModel;

    open spec fn deep_view(&self) -> RankedModel {
        RankedModel {
            path: self.path@,
            title: self.title@,
            similarity: self.similarity as int,
            llm_score: match self.llm_score {
                Some(v) => Some(v as int),
                None => None,
            },
            llm_reason: match self.llm_reason {
                Some(ref v) => Some(v@),
                None => None,
            },
            context: self.context@,
        }
    }
}

/// The first parsed ranking naming the 1-based candidate position `pos1`;
/// later duplicates are ignored.
pub open spec fn spec_first_match(rankings: Seq<RankingModel>, pos1: int) -> Option<RankingModel>
    decreases rankings.len(),
{
    if rankings.len() == 0 {
        None
    } else if rankings.first().index == pos1 {
        Some(rankings.first())
    } else {
        spec_first_match(rankings.drop_first(), pos1)
    }
}

/// A candidate with its external annotation, when one matched.
pub open spec fn spec_decorated(c: SuggestionModel, m: Option<RankingModel>) -> RankedModel {
    match m {
        Some(r) => RankedModel {
            path: c.path,
            title: c.title,
            similarity: c.similarity,
            llm_score: Some(r.score),
            llm_reason: Some(r.reason),
            context: c.context,
        },
        None => RankedModel {
            path: c.path,
            title: c.title,
            similarity: c.similarity,
            llm_score: None,
            llm_reason: None,
            context: c.context,
        },
    }
}

/// Every candidate, in input order, with the annotation of the first ranking
/// naming its 1-based position.
pub open spec fn spec_decorated_all(
    cands: Seq<SuggestionModel>,
    rankings: Seq<RankingModel>,
) -> Seq<RankedModel> {
    Seq::new(cands.len(), |i: int| spec_decorated(cands[i], spec_first_match(rankings, i + 1)))
}

/// Fusion order: externally ranked first by descending external score, then
/// the rest by descending similarity.
pub open spec fn rank_ge(a: RankedModel, b: RankedModel) -> bool {
    match (a.llm_score, b.llm_score) {
        (Some(x), Some(y)) => x >= y,
        (Some(x), None) => true,
        (None, Some(y)) => false,
        (None, None) => a.similarity >= b.similarity,
    }
}

proof fn lemma_rank_ge_total(a: RankedModel, b: RankedModel)
    ensures
        rank_ge(a, b) || rank_ge(b, a),
{
}

proof fn lemma_rank_ge_trans(a: RankedModel, b: RankedModel, c: RankedModel)
    requires
        rank_ge(a, b),
        rank_ge(b, c),
    ensures
        rank_ge(a, c),
{
}

/// Position of the first ranking naming `pos1`.
fn first_match(rankings: &Vec<RankingItem>, pos1: usize) -> (r: Option<usize>)
    ensures
        match r {
            Some(k) => k < rankings@.len() && spec_first_match(rankings.deep_view(), pos1 as int)
                == Some(rankings.deep_view()[k as int]),
            None => spec_first_match(rankings.deep_view(), pos1 as int) == None::<RankingModel>,
        },
{
    let n = rankings.len();
    proof {
        assert(rankings.deep_view().subrange(0, n as int) =~= rankings.deep_view());
    }
    let mut k: usize = 0;
    while k < n
        invariant
            n == rankings@.len(),
            k <= n,
            spec_first_match(rankings.deep_view(), pos1 as int) == spec_first_match(
                rankings.deep_view().subrange(k as int, n as int),
                pos1 as int,
            ),
        decreases n - k,
    {
        let ghost tail = rankings.deep_view().subrange(k as int, n as int);
        proof {
            assert(tail.len() > 0);
            assert(tail.first() == rankings.deep_view()[k as int]);
            assert(tail.drop_first() =~= rankings.deep_view().subrange(k + 1, n as int));
        }
        if rankings[k].index == pos1 {
            return Some(k);
        }
        k += 1;
    }
    proof {
        assert(rankings.deep_view().subrange(n as int, n as int).len() == 0);
    }
    None
}

/// Merges parsed rankings into the candidate list: every candidate is
/// preserved exactly once; a candidate named by a parsed ranking carries the
/// external score and reason, every other keeps only its similarity; ranked
/// candidates come first by descending external score, the rest follow by
/// descending similarity.  An index outside the candidate range is ignored.
pub fn fuse_rankings(candidates: &Vec<LinkSuggestion>, rankings: &Vec<RankingItem>) -> (r: Vec<
    RankedSuggestion,
>)
    ensures
        r@.len() == candidates@.len(),
        r.deep_view().to_multiset() == spec_decorated_all(
            candidates.deep_view(),
            rankings.deep_view(),
        ).to_multiset(),
        forall|i: int, j: int| 0 <= i < j < r.deep_view().len() ==> rank_ge(
            #[trigger] r.deep_view()[i],
            #[trigger] r.deep_view()[j],
        ),
{
    let n = candidates.len();
    let mut decorated: Vec<RankedSuggestion> = Vec::new();
    let mut i: usize = 0;
    while i < n
        invariant
            n == candidates@.len(),
            i <= n,
            decorated@.len() == i,
            decorated.deep_view() =~= spec_decorated_all(
                candidates.deep_view(),
                rankings.deep_view(),
            ).subrange(0, i as int),
        decreases n - i,
    {
        let cand = &candidates[i];
        let entry = match first_match(rankings, i + 1) {
            Some(k) => {
                let hit = &rankings[k];
                RankedSuggestion {
                    path: cand.path.clone(),
                    title: cand.title.clone(),
                    similarity: cand.similarity,
                    llm_score: Some(hit.score),
                    llm_reason: Some(hit.reason.clone()),
                    context: cand.context.clone(),
                }
            },
            None => RankedSuggestion {
                path: cand.path.clone(),
                title: cand.title.clone(),
                similarity: cand.similarity,
                llm_score: None,
                llm_reason: None,
                context: cand.context.clone(),
            },
        };
        proof {
            assert(candidates.deep_view()[i as int] == cand.deep_view());
            assert(entry.deep_view() == spec_decorated(
                candidates.deep_view()[i as int],
                spec_first_match(rankings.deep_view(), i + 1),
            ));
        }
        let ghost pre = decorated.deep_view();
        decorated.push(entry);
        proof {
            let full = spec_decorated_all(candidates.deep_view(), rankings.deep_view());
            assert(decorated@.len() == i + 1);
            assert(decorated.deep_view().len() == i + 1);
            assert(pre.len() == i);
            assert forall|j: int| 0 <= j < i + 1 implies decorated.deep_view()[j] == full.subrange(
                0,
                i + 1,
            )[j] by {
                if j < i {
                    assert(pre[j] == full.subrange(0, i as int)[j]);
                }
                assert(full[j] == spec_decorated(
                    candidates.deep_view()[j],
                    spec_first_match(rankings.deep_view(), j + 1),
                ));
            }
            assert(decorated.deep_view() =~= full.subrange(0, i + 1));
        }
        i += 1;
    }
    proof {
        assert(spec_decorated_all(candidates.deep_view(), rankings.deep_view()).subrange(
            0,
            n as int,
        ) =~= spec_decorated_all(candidates.deep_view(), rankings.deep_view()));
    }
    sort_ranked(decorated)
}

fn rank_ge_exec(a: &RankedSuggestion, b: &RankedSuggestion) -> (r: bool)
    ensures
        r == rank_ge(a.deep_view(), b.deep_view()),
{
    match (&a.llm_score, &b.llm_score) {
        (Some(x), Some(y)) => *x >= *y,
        (Some(_), None) => true,
        (None, Some(_)) => false,
        (None, None) => a.similarity >= b.similarity,
    }
}

/// Selection sort under the fusion order.
fn sort_ranked(input: Vec<RankedSuggestion>) -> (r: Vec<RankedSuggestion>)
    ensures
        r.deep_view().to_multiset() == input.deep_view().to_multiset(),
        r@.len() == input@.len(),
        forall|i: int, j: int| 0 <= i < j < r.deep_view().len() ==> rank_ge(
            #[trigger] r.deep_view()[i],
            #[trigger] r.deep_view()[j],
        ),
{
    broadcast use vstd::seq_lib::group_to_multiset_ensures;
    broadcast use vstd::multiset::group_multiset_properties;

    let mut rest = input;
    let mut out: Vec<RankedSuggestion> = Vec::new();
    let ghost total = rest.deep_view().to_multiset();
    let ghost total_len = rest@.len();
    proof {
        assert(out.deep_view().to_multiset().len() == 0);
        vstd::multiset::lemma_multiset_empty_len(out.deep_view().to_multiset());
        assert(total =~= rest.deep_view().to_multiset().add(out.deep_view().to_multiset()));
    }
    while rest.len() > 0
        invariant
            total == rest.deep_view().to_multiset().add(out.deep_view().to_multiset()),
            total_len == rest@.len() + out@.len(),
            forall|i: int, j: int| 0 <= i < j < out.deep_view().len() ==> rank_ge(
                #[trigger] out.deep_view()[i],
                #[trigger] out.deep_view()[j],
            ),
            forall|i: int| 0 <= i < rest@.len() ==> out@.len() > 0 ==> rank_ge(
                out.deep_view()[out@.len() - 1],
                #[trigger] rest.deep_view()[i],
            ),
        decreases rest@.len(),
    {
        let mut best: usize = 0;
        let mut i: usize = 1;
        while i < rest.len()
            invariant
                rest@.len() > 0,
                best < i <= rest@.len(),
                forall|j: int| 0 <= j < i ==> rank_ge(
                    rest.deep_view()[best as int],
                    #[trigger] rest.deep_view()[j],
                ),
            decreases rest@.len() - i,
        {
            if !rank_ge_exec(&rest[best], &rest[i]) {
                proof {
                    lemma_rank_ge_total(
                        rest.deep_view()[best as int],
                        rest.deep_view()[i as int],
                    );
                    assert forall|j: int| 0 <= j < i implies rank_ge(
                        rest.deep_view()[i as int],
                        #[trigger] rest.deep_view()[j],
                    ) by {
                        lemma_rank_ge_trans(
                            rest.deep_view()[i as int],
                            rest.deep_view()[best as int],
                            rest.deep_view()[j],
                        );
                    }
                }
                best = i;
            }
            i += 1;
        }
        let ghost rest_pre = rest.deep_view();
        let ghost out_pre = out.deep_view();
        let picked = rest.remove(best);
        out.push(picked);
        proof {
            assert(rest.deep_view() =~= rest_pre.remove(best as int));
            assert(out.deep_view() =~= out_pre.push(picked.deep_view()));
            assert(rest_pre[best as int] == picked.deep_view());
            vstd::seq_lib::to_multiset_remove(rest_pre, best as int);
            vstd::seq_lib::to_multiset_build(out_pre, picked.deep_view());
            vstd::seq_lib::to_multiset_contains(rest_pre, picked.deep_view());
            assert(rest_pre.contains(picked.deep_view()));
            assert(total =~= rest.deep_view().to_multiset().add(out.deep_view().to_multiset()));
        }
    }
    out
}

/// Why fusion produced no ranking.
#[derive(Debug, PartialEq, Eq, Structural, Clone, Copy)]
pub enum FusionError {
    /// No stage of the parsing cascade could read the reply.
    UnparsableResponse,
}

/// The whole parsing cascade: ranking lines first; then a structured array
/// in the bracketed slice of the reply; then a single structured record;
/// then an object wrapping the array under a known field name.  `None` when
/// every stage fails.
pub open spec fn spec_parse_cascade(s: Seq<char>) -> Option<Seq<RankingModel>> {
    let nl = spec_line_rankings(s);
    if nl.len() > 0 {
        Some(nl)
    } else {
        let arr = spec_extract_delimited(s, '[', ']');
        match spec_parse_array_whole(arr) {
            Some(items) => Some(items),
            None => {
                let obj = spec_extract_delimited(s, '{', '}');
                match spec_parse_obj_whole(obj) {
                    Some(item) => Some(seq![item]),
                    None => match spec_parse_wrapped(
                        obj,
                        seq!['c', 'a', 'n', 'd', 'i', 'd', 'a', 't', 'e', 's'],
                    ) {
                        Some(items) => Some(items),
                        None => match spec_parse_wrapped(
                            obj,
                            seq!['i', 'n', 'd', 'e', 'x', 'e', 's'],
                        ) {
                            Some(items) => Some(items),
                            None => None,
                        },
                    },
                }
            },
        }
    }
}

/// Runs the parsing cascade on a raw reply.
pub fn parse_response(response_text: &str) -> (r: Option<Vec<RankingItem>>)
    ensures
        match r {
            Some(items) => spec_parse_cascade(response_text@) == Some(items.deep_view()),
            None => spec_parse_cascade(response_text@) == None::<Seq<RankingModel>>,
        },
{
    let text = chars_of(response_text);
    let natural = parse_line_rankings(&text);
    if natural.len() > 0 {
        return Some(natural);
    }
    let arr = extract_delimited(&text, '[', ']');
    match parse_array_whole(&arr) {
        Some(items) => Some(items),
        None => {
            let obj = extract_delimited(&text, '{', '}');
            match parse_obj_whole(&obj) {
                Some(item) => {
                    let mut single: Vec<RankingItem> = Vec::new();
                    let ghost model = item.deep_view();
                    single.push(item);
                    proof {
                        assert(single.deep_view() =~= seq![model]);
                    }
                    Some(single)
                },
                None => {
                    let key_candidates: Vec<char> = vec![
                        'c',
                        'a',
                        'n',
                        'd',
                        'i',
                        'd',
                        'a',
                        't',
                        'e',
                        's',
                    ];
                    let key_indexes: Vec<char> = vec!['i', 'n', 'd', 'e', 'x', 'e', 's'];
                    proof {
                        assert(key_candidates@ =~= seq![
                            'c',
                            'a',
                            'n',
                            'd',
                            'i',
                            'd',
                            'a',
                            't',
                            'e',
                            's',
                        ]);
                        assert(key_indexes@ =~= seq!['i', 'n', 'd', 'e', 'x', 'e', 's']);
                    }
                    match parse_wrapped(&obj, &key_candidates) {
                        Some(items) => Some(items),
                        None => match parse_wrapped(&obj, &key_indexes) {
                            Some(items) => Some(items),
                            None => None,
                        },
                    }
                },
            }
        },
    }
}

/// Reranks candidates with the external model's raw reply.  An empty
/// candidate list needs no reply; otherwise an unreadable reply is an error
/// and the caller degrades to similarity-only ranking.
pub fn rerank_suggestions(candidates: &Vec<LinkSuggestion>, response_text: &str) -> (r: Result<
    Vec<RankedSuggestion>,
    FusionError,
>)
    ensures
        match r {
            Ok(out) => {
                &&& out@.len() == candidates@.len()
                &&& (candidates@.len() == 0 || exists|rankings: Seq<RankingModel>|
                    {
                        &&& spec_parse_cascade(response_text@) == Some(rankings)
                        &&& out.deep_view().to_multiset() == spec_decorated_all(
                            candidates.deep_view(),
                            rankings,
                        ).to_multiset()
                        &&& (forall|i: int, j: int| 0 <= i < j < out.deep_view().len()
                            ==> rank_ge(
                            #[trigger] out.deep_view()[i],
                            #[trigger] out.deep_view()[j],
                        ))
                    })
            },
            Err(e) => candidates@.len() > 0 && spec_parse_cascade(response_text@) == None::<
                Seq<RankingModel>,
            > && e == FusionError::UnparsableResponse,
        },
{
    if candidates.len() == 0 {
        return Ok(Vec::new());
    }
    match parse_response(response_text) {
        Some(rankings) => {
            let fused = fuse_rankings(candidates, &rankings);
            Ok(fused)
        },
        None => Err(FusionError::UnparsableResponse),
    }
}

/// Law: fusion loses and duplicates nothing.  The fused sequence has exactly
/// one entry per candidate, in 1-based position order before sorting: entry
/// `i` carries candidate `i`'s path, title, similarity and context; a
/// candidate matched by no parsed ranking keeps its similarity and carries
/// no external annotation.
pub proof fn law_fusion_preserves_candidates(
    cands: Seq<SuggestionModel>,
    rankings: Seq<RankingModel>,
)
    ensures
        spec_decorated_all(cands, rankings).len() == cands.len(),
        forall|i: int| 0 <= i < cands.len() ==> {
            let d = #[trigger] spec_decorated_all(cands, rankings)[i];
            d.path == cands[i].path && d.title == cands[i].title && d.similarity
                == cands[i].similarity && d.context == cands[i].context
        },
        forall|i: int| 0 <= i < cands.len() && spec_first_match(rankings, i + 1) is None
            ==> (#[trigger] spec_decorated_all(cands, rankings)[i]).llm_score is None,
{
}

} // verus!
