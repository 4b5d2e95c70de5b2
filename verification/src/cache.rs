//! Freshness cache: a per-path, per-artifact ledger of the modification time
//! each derived artifact (embedding, keywords, suggestions) was last computed
//! at, together with the ignored-suggestion and insertion-result sub-caches.
use vstd::prelude::*;

use crate::kvmap::{keys_with_other_first, KeyMap, PairKey};

verus! {

/// The three kinds of derived data tracked per document path.
#[derive(Clone, Copy, PartialEq, Eq, Structural, Debug)]
pub enum ArtifactKind {
    Embedding,
    Keyword,
    Suggestion,
}

/// An artifact recorded in `m` for `path` is fresh at `mtime` exactly when
/// the recorded time equals `mtime` bit for bit; an absent entry is never
/// fresh.
pub open spec fn fresh_in(m: Map<Seq<char>, u64>, path: Seq<char>, mtime: u64) -> bool {
    m.contains_key(path) && m[path] == mtime
}

/// Unified cache index tracking artifact modification times, ignored
/// suggestions and cached insertion decisions.
pub struct CacheIndex {
    /// Modification time each path's embedding was computed at.
    pub embedding_mtimes: KeyMap<String, u64>,
    /// Modification time each path's keywords were extracted at.
    pub keyword_mtimes: KeyMap<String, u64>,
    /// Modification time each path's suggestions were generated at.
    pub suggestion_mtimes: KeyMap<String, u64>,
    /// (source, target) pairs of dismissed suggestions, with the time of
    /// dismissal.  The pair is stored in the orientation it was given.
    pub ignored_suggestions: KeyMap<PairKey, u64>,
    /// (path, link title) keyed cache of opaque serialized insertion results.
    pub insertion_cache: KeyMap<PairKey, String>,
}

/// A dismissed suggestion, as returned by the listing operation.
pub struct IgnoredSuggestion {
    pub source_file: String,
    pub target_file: String,
    pub timestamp: u64,
}

impl View for IgnoredSuggestion {
    type V = ((Seq<char>, Seq<char>), u64);

    open spec fn view(&self) -> ((Seq<char>, Seq<char>), u64) {
        ((self.source_file@, self.target_file@), self.timestamp)
    }
}

impl DeepView for IgnoredSuggestion {
    type V = ((Seq<char>, Seq<char>), u64);

    open spec fn deep_view(&self) -> ((Seq<char>, Seq<char>), u64) {
        self@
    }
}

impl CacheIndex {
    pub open spec fn wf(&self) -> bool {
        &&& self.embedding_mtimes.wf()
        &&& self.keyword_mtimes.wf()
        &&& self.suggestion_mtimes.wf()
        &&& self.ignored_suggestions.wf()
        &&& self.insertion_cache.wf()
    }

    /// The modification-time ledger for one artifact kind.
    pub open spec fn mtimes_of(&self, kind: ArtifactKind) -> Map<Seq<char>, u64> {
        match kind {
            ArtifactKind::Embedding => self.embedding_mtimes@,
            ArtifactKind::Keyword => self.keyword_mtimes@,
            ArtifactKind::Suggestion => self.suggestion_mtimes@,
        }
    }

    pub fn new() -> (r: CacheIndex)
        ensures
            r.wf(),
            r.embedding_mtimes@ == Map::<Seq<char>, u64>::empty(),
            r.keyword_mtimes@ == Map::<Seq<char>, u64>::empty(),
            r.suggestion_mtimes@ == Map::<Seq<char>, u64>::empty(),
            r.ignored_suggestions@ == Map::<(Seq<char>, Seq<char>), u64>::empty(),
            r.insertion_cache@ == Map::<(Seq<char>, Seq<char>), Seq<char>>::empty(),
            r.ignored_suggestions.kv().len() == 0,
            r.insertion_cache.kv().len() == 0,
    {
        CacheIndex {
            embedding_mtimes: KeyMap::new(),
            keyword_mtimes: KeyMap::new(),
            suggestion_mtimes: KeyMap::new(),
            ignored_suggestions: KeyMap::new(),
            insertion_cache: KeyMap::new(),
        }
    }

    /// Exact-equality freshness test; an absent entry is never fresh.
    pub fn is_fresh(&self, kind: ArtifactKind, path: &str, current_mtime: u64) -> (r: bool)
        requires
            self.wf(),
        ensures
            r == fresh_in(self.mtimes_of(kind), path@, current_mtime),
    {
        let key = path.to_owned();
        let entry = match kind {
            ArtifactKind::Embedding => self.embedding_mtimes.get(&key),
            ArtifactKind::Keyword => self.keyword_mtimes.get(&key),
            ArtifactKind::Suggestion => self.suggestion_mtimes.get(&key),
        };
        match entry {
            Some(cached) => *cached == current_mtime,
            None => false,
        }
    }

    /// Records that the artifact of `kind` for `path` was computed against
    /// modification time `mtime` (upsert).
    pub fn mark_processed(&mut self, kind: ArtifactKind, path: &str, mtime: u64)
        requires
            old(self).wf(),
        ensures
            final(self).wf(),
            final(self).mtimes_of(kind) == old(self).mtimes_of(kind).insert(path@, mtime),
            kind != ArtifactKind::Embedding ==> final(self).embedding_mtimes == old(
                self,
            ).embedding_mtimes,
            kind != ArtifactKind::Keyword ==> final(self).keyword_mtimes == old(
                self,
            ).keyword_mtimes,
            kind != ArtifactKind::Suggestion ==> final(self).suggestion_mtimes == old(
                self,
            ).suggestion_mtimes,
            final(self).ignored_suggestions == old(self).ignored_suggestions,
            final(self).insertion_cache == old(self).insertion_cache,
    {
        let key = path.to_owned();
        match kind {
            ArtifactKind::Embedding => self.embedding_mtimes.insert(key, mtime),
            ArtifactKind::Keyword => self.keyword_mtimes.insert(key, mtime),
            ArtifactKind::Suggestion => self.suggestion_mtimes.insert(key, mtime),
        }
    }

    pub fn is_embedding_fresh(&self, path: &str, current_mtime: u64) -> (r: bool)
        requires
            self.wf(),
        ensures
            r == fresh_in(self.embedding_mtimes@, path@, current_mtime),
    {
        self.is_fresh(ArtifactKind::Embedding, path, current_mtime)
    }

    pub fn is_keyword_fresh(&self, path: &str, current_mtime: u64) -> (r: bool)
        requires
            self.wf(),
        ensures
            r == fresh_in(self.keyword_mtimes@, path@, current_mtime),
    {
        self.is_fresh(ArtifactKind::Keyword, path, current_mtime)
    }

    pub fn is_suggestion_fresh(&self, path: &str, current_mtime: u64) -> (r: bool)
        requires
            self.wf(),
        ensures
            r == fresh_in(self.suggestion_mtimes@, path@, current_mtime),
    {
        self.is_fresh(ArtifactKind::Suggestion, path, current_mtime)
    }

    pub fn mark_embedding_processed(&mut self, path: &str, mtime: u64)
        requires
            old(self).wf(),
        ensures
            final(self).wf(),
            final(self).embedding_mtimes@ == old(self).embedding_mtimes@.insert(path@, mtime),
            final(self).keyword_mtimes == old(self).keyword_mtimes,
            final(self).suggestion_mtimes == old(self).suggestion_mtimes,
            final(self).ignored_suggestions == old(self).ignored_suggestions,
            final(self).insertion_cache == old(self).insertion_cache,
    {
        self.mark_processed(ArtifactKind::Embedding, path, mtime)
    }

    pub fn mark_keyword_processed(&mut self, path: &str, mtime: u64)
        requires
            old(self).wf(),
        ensures
            final(self).wf(),
            final(self).keyword_mtimes@ == old(self).keyword_mtimes@.insert(path@, mtime),
            final(self).embedding_mtimes == old(self).embedding_mtimes,
            final(self).suggestion_mtimes == old(self).suggestion_mtimes,
            final(self).ignored_suggestions == old(self).ignored_suggestions,
            final(self).insertion_cache == old(self).insertion_cache,
    {
        self.mark_processed(ArtifactKind::Keyword, path, mtime)
    }

    pub fn mark_suggestion_processed(&mut self, path: &str, mtime: u64)
        requires
            old(self).wf(),
        ensures
            final(self).wf(),
            final(self).suggestion_mtimes@ == old(self).suggestion_mtimes@.insert(path@, mtime),
            final(self).embedding_mtimes == old(self).embedding_mtimes,
            final(self).keyword_mtimes == old(self).keyword_mtimes,
            final(self).ignored_suggestions == old(self).ignored_suggestions,
            final(self).insertion_cache == old(self).insertion_cache,
    {
        self.mark_processed(ArtifactKind::Suggestion, path, mtime)
    }

    /// How many entries invalidating `path` removes: one per ledger that
    /// held the path, plus the insertion-cache entries keyed by it.
    pub open spec fn spec_removed_count(pre: CacheIndex, post: CacheIndex, path: Seq<char>) -> int {
        (if pre.embedding_mtimes@.contains_key(path) {
            1int
        } else {
            0int
        }) + (if pre.keyword_mtimes@.contains_key(path) {
            1int
        } else {
            0int
        }) + (if pre.suggestion_mtimes@.contains_key(path) {
            1int
        } else {
            0int
        }) + pre.insertion_cache@.dom().len() - post.insertion_cache@.dom().len()
    }

    /// Drops `path` from all three modification-time ledgers and from every
    /// insertion-cache entry keyed by that path, and reports how many
    /// entries were removed (saturating at the machine limit).  Ignored
    /// suggestions are left alone.
    pub fn invalidate_file(&mut self, path: &str) -> (r: usize)
        requires
            old(self).wf(),
        ensures
            final(self).wf(),
            final(self).embedding_mtimes@ == old(self).embedding_mtimes@.remove(path@),
            final(self).keyword_mtimes@ == old(self).keyword_mtimes@.remove(path@),
            final(self).suggestion_mtimes@ == old(self).suggestion_mtimes@.remove(path@),
            final(self).insertion_cache@ == old(self).insertion_cache@.restrict(
                keys_with_other_first(path@),
            ),
            final(self).ignored_suggestions == old(self).ignored_suggestions,
            r == if CacheIndex::spec_removed_count(*old(self), *final(self), path@)
                <= usize::MAX {
                CacheIndex::spec_removed_count(*old(self), *final(self), path@)
            } else {
                usize::MAX as int
            },
    {
        let key = path.to_owned();
        let removed_embedding = self.embedding_mtimes.remove(&key);
        let removed_keyword = self.keyword_mtimes.remove(&key);
        let removed_suggestion = self.suggestion_mtimes.remove(&key);
        let removed_insertions = self.insertion_cache.remove_by_first(&key);
        let mut base: usize = 0;
        if removed_embedding {
            base += 1;
        }
        if removed_keyword {
            base += 1;
        }
        if removed_suggestion {
            base += 1;
        }
        if base <= usize::MAX - removed_insertions {
            base + removed_insertions
        } else {
            usize::MAX
        }
    }

    /// Clears every sub-cache.
    pub fn clear(&mut self)
        ensures
            final(self).wf(),
            final(self).embedding_mtimes@ == Map::<Seq<char>, u64>::empty(),
            final(self).keyword_mtimes@ == Map::<Seq<char>, u64>::empty(),
            final(self).suggestion_mtimes@ == Map::<Seq<char>, u64>::empty(),
            final(self).ignored_suggestions@ == Map::<(Seq<char>, Seq<char>), u64>::empty(),
            final(self).insertion_cache@ == Map::<(Seq<char>, Seq<char>), Seq<char>>::empty(),
    {
        self.embedding_mtimes.clear();
        self.keyword_mtimes.clear();
        self.suggestion_mtimes.clear();
        self.ignored_suggestions.clear();
        self.insertion_cache.clear();
    }

    /// A suggestion is ignored only under the orientation it was stored in.
    pub fn is_suggestion_ignored(&self, source_file: &str, target_file: &str) -> (r: bool)
        requires
            self.wf(),
        ensures
            r == self.ignored_suggestions@.contains_key((source_file@, target_file@)),
    {
        let key = PairKey { first: source_file.to_owned(), second: target_file.to_owned() };
        self.ignored_suggestions.contains_key(&key)
    }

    /// Dismisses the suggestion linking `source_file` to `target_file`,
    /// recording the caller-supplied time of dismissal.
    pub fn ignore_suggestion(&mut self, source_file: &str, target_file: &str, timestamp: u64)
        requires
            old(self).wf(),
        ensures
            final(self).wf(),
            final(self).ignored_suggestions@ == old(self).ignored_suggestions@.insert(
                (source_file@, target_file@),
                timestamp,
            ),
            final(self).embedding_mtimes == old(self).embedding_mtimes,
            final(self).keyword_mtimes == old(self).keyword_mtimes,
            final(self).suggestion_mtimes == old(self).suggestion_mtimes,
            final(self).insertion_cache == old(self).insertion_cache,
    {
        let key = PairKey { first: source_file.to_owned(), second: target_file.to_owned() };
        self.ignored_suggestions.insert(key, timestamp);
    }

    /// Re-enables a dismissed suggestion; a pair that was never dismissed is
    /// left alone (no error).
    pub fn unignore_suggestion(&mut self, source_file: &str, target_file: &str)
        requires
            old(self).wf(),
        ensures
            final(self).wf(),
            final(self).ignored_suggestions@ == old(self).ignored_suggestions@.remove(
                (source_file@, target_file@),
            ),
            final(self).embedding_mtimes == old(self).embedding_mtimes,
            final(self).keyword_mtimes == old(self).keyword_mtimes,
            final(self).suggestion_mtimes == old(self).suggestion_mtimes,
            final(self).insertion_cache == old(self).insertion_cache,
    {
        let key = PairKey { first: source_file.to_owned(), second: target_file.to_owned() };
        self.ignored_suggestions.remove(&key);
    }

    /// Lists every dismissed suggestion, most recently dismissed first.
    pub fn get_ignored_suggestions(&self) -> (r: Vec<IgnoredSuggestion>)
        requires
            self.wf(),
        ensures
            r.deep_view().to_multiset() == self.ignored_suggestions.kv().to_multiset(),
            forall|i: int, j: int| 0 <= i < j < r@.len()
                ==> #[trigger] r@[i].timestamp >= #[trigger] r@[j].timestamp,
    {
        let n = self.ignored_suggestions.num_entries();
        let mut flat: Vec<IgnoredSuggestion> = Vec::new();
        let mut i: usize = 0;
        while i < n
            invariant
                self.wf(),
                n == self.ignored_suggestions.kv().len(),
                i <= n,
                flat@.len() == i,
                flat.deep_view() =~= self.ignored_suggestions.kv().subrange(0, i as int),
            decreases n - i,
        {
            let key = self.ignored_suggestions.key_at(i);
            let ts = *self.ignored_suggestions.val_at(i);
            let entry = IgnoredSuggestion {
                source_file: key.first.clone(),
                target_file: key.second.clone(),
                timestamp: ts,
            };
            proof {
                assert(entry@ == self.ignored_suggestions.kv()[i as int]);
            }
            let ghost pre = flat.deep_view();
            flat.push(entry);
            proof {
                assert(flat@.len() == i + 1);
                assert(flat.deep_view().len() == i + 1);
                assert(pre.len() == i);
                assert forall|j: int| 0 <= j < i + 1 implies flat.deep_view()[j] == self
                    .ignored_suggestions.kv().subrange(0, i + 1)[j] by {
                    if j < i {
                        assert(pre[j] == self.ignored_suggestions.kv().subrange(0, i as int)[j]);
                    }
                }
                assert(flat.deep_view() =~= self.ignored_suggestions.kv().subrange(0, i + 1));
            }
            i += 1;
        }
        proof {
            assert(self.ignored_suggestions.kv().subrange(0, n as int) =~= self
                .ignored_suggestions.kv());
        }
        sort_ignored_desc(flat)
    }

    pub fn clear_ignored_suggestions(&mut self)
        requires
            old(self).wf(),
        ensures
            final(self).wf(),
            final(self).ignored_suggestions@ == Map::<(Seq<char>, Seq<char>), u64>::empty(),
            final(self).embedding_mtimes == old(self).embedding_mtimes,
            final(self).keyword_mtimes == old(self).keyword_mtimes,
            final(self).suggestion_mtimes == old(self).suggestion_mtimes,
            final(self).insertion_cache == old(self).insertion_cache,
    {
        self.ignored_suggestions.clear();
    }

    /// Looks up the memoized insertion decision for (`file_path`,
    /// `link_title`).
    pub fn get_cached_insertion(&self, file_path: &str, link_title: &str) -> (r: Option<&String>)
        requires
            self.wf(),
        ensures
            match r {
                Some(v) => self.insertion_cache@.contains_key((file_path@, link_title@))
                    && v@ == self.insertion_cache@[(file_path@, link_title@)],
                None => !self.insertion_cache@.contains_key((file_path@, link_title@)),
            },
    {
        let key = PairKey { first: file_path.to_owned(), second: link_title.to_owned() };
        self.insertion_cache.get(&key)
    }

    /// Memoizes an opaque serialized insertion decision (upsert).
    pub fn cache_insertion(&mut self, file_path: &str, link_title: &str, result_json: &str)
        requires
            old(self).wf(),
        ensures
            final(self).wf(),
            final(self).insertion_cache@ == old(self).insertion_cache@.insert(
                (file_path@, link_title@),
                result_json@,
            ),
            final(self).embedding_mtimes == old(self).embedding_mtimes,
            final(self).keyword_mtimes == old(self).keyword_mtimes,
            final(self).suggestion_mtimes == old(self).suggestion_mtimes,
            final(self).ignored_suggestions == old(self).ignored_suggestions,
    {
        let key = PairKey { first: file_path.to_owned(), second: link_title.to_owned() };
        self.insertion_cache.insert(key, result_json.to_owned());
    }

    /// Drops every insertion-cache entry keyed by `file_path` and returns how
    /// many were removed.
    pub fn invalidate_insertion_cache_for_file(&mut self, file_path: &str) -> (r: usize)
        requires
            old(self).wf(),
        ensures
            final(self).wf(),
            final(self).insertion_cache@ == old(self).insertion_cache@.restrict(
                keys_with_other_first(file_path@),
            ),
            r == old(self).insertion_cache@.dom().len() - final(self).insertion_cache@.dom().len(),
            final(self).embedding_mtimes == old(self).embedding_mtimes,
            final(self).keyword_mtimes == old(self).keyword_mtimes,
            final(self).suggestion_mtimes == old(self).suggestion_mtimes,
            final(self).ignored_suggestions == old(self).ignored_suggestions,
    {
        let key = file_path.to_owned();
        self.insertion_cache.remove_by_first(&key)
    }

    pub fn clear_insertion_cache(&mut self)
        requires
            old(self).wf(),
        ensures
            final(self).wf(),
            final(self).insertion_cache@ == Map::<(Seq<char>, Seq<char>), Seq<char>>::empty(),
            final(self).embedding_mtimes == old(self).embedding_mtimes,
            final(self).keyword_mtimes == old(self).keyword_mtimes,
            final(self).suggestion_mtimes == old(self).suggestion_mtimes,
            final(self).ignored_suggestions == old(self).ignored_suggestions,
    {
        self.insertion_cache.clear();
    }
}

/// Sorts dismissed suggestions by timestamp, most recent first, returning a
/// permutation of the input.
fn sort_ignored_desc(input: Vec<IgnoredSuggestion>) -> (r: Vec<IgnoredSuggestion>)
    ensures
        r.deep_view().to_multiset() == input.deep_view().to_multiset(),
        r@.len() == input@.len(),
        forall|i: int, j: int| 0 <= i < j < r@.len()
            ==> #[trigger] r@[i].timestamp >= #[trigger] r@[j].timestamp,
{
    broadcast use vstd::seq_lib::group_to_multiset_ensures;

    let mut rest = input;
    let mut out: Vec<IgnoredSuggestion> = Vec::new();
    let ghost total = rest.deep_view().to_multiset();
    let ghost total_len = rest@.len();
    while rest.len() > 0
        invariant
            total == rest.deep_view().to_multiset().add(out.deep_view().to_multiset()),
            total_len == rest@.len() + out@.len(),
            forall|i: int, j: int| 0 <= i < j < out@.len()
                ==> #[trigger] out@[i].timestamp >= #[trigger] out@[j].timestamp,
            forall|i: int| 0 <= i < rest@.len() ==> out@.len() > 0
                ==> out@[out@.len() - 1].timestamp >= #[trigger] rest@[i].timestamp,
        decreases rest@.len(),
    {
        // Pick the largest remaining timestamp.
        let mut best: usize = 0;
        let mut i: usize = 1;
        while i < rest.len()
            invariant
                rest@.len() > 0,
                best < i <= rest@.len(),
                forall|j: int| 0 <= j < i ==> rest@[best as int].timestamp
                    >= #[trigger] rest@[j].timestamp,
            decreases rest@.len() - i,
        {
            if rest[i].timestamp > rest[best].timestamp {
                best = i;
            }
            i += 1;
        }
        let ghost rest_pre = rest.deep_view();
        let ghost out_pre = out.deep_view();
        let picked = rest.remove(best);
        out.push(picked);
        proof {
            assert(rest.deep_view() =~= rest_pre.remove(best as int));
            assert(out.deep_view() =~= out_pre.push(picked.deep_view()));
            assert(rest_pre[best as int] == picked.deep_view());
            vstd::seq_lib::to_multiset_remove(rest_pre, best as int);
            vstd::seq_lib::to_multiset_build(out_pre, picked.deep_view());
            vstd::seq_lib::to_multiset_contains(rest_pre, picked.deep_view());
            assert(rest_pre.contains(picked.deep_view()));
            assert(rest_pre.to_multiset().count(picked.deep_view()) > 0);
            assert(total =~= rest.deep_view().to_multiset().add(out.deep_view().to_multiset()));
        }
    }
    out
}

/// Law: marking an artifact processed at time `t` makes it fresh at exactly
/// `t` and at no other time; in particular a later modification time is seen
/// as stale.
pub proof fn law_mark_then_fresh(m: Map<Seq<char>, u64>, path: Seq<char>, t: u64)
    ensures
        fresh_in(m.insert(path, t), path, t),
        forall|t2: u64| t2 != t ==> !fresh_in(m.insert(path, t), path, t2),
{
}

/// Law: invalidating a path leaves insertion-cache entries of every other
/// path untouched.
pub proof fn law_invalidate_preserves_other_paths(
    m: Map<(Seq<char>, Seq<char>), Seq<char>>,
    path: Seq<char>,
    k: (Seq<char>, Seq<char>),
)
    requires
        k.0 != path,
    ensures
        m.restrict(keys_with_other_first(path)).contains_key(k) == m.contains_key(k),
        m.contains_key(k) ==> m.restrict(keys_with_other_first(path))[k] == m[k],
{
}

/// Law: dismissing the same suggestion twice (with the same clock reading)
/// ends in the same state as dismissing it once.
pub proof fn law_ignore_idempotent(
    m: Map<(Seq<char>, Seq<char>), u64>,
    key: (Seq<char>, Seq<char>),
    timestamp: u64,
)
    ensures
        m.insert(key, timestamp).insert(key, timestamp) == m.insert(key, timestamp),
{
    assert(m.insert(key, timestamp).insert(key, timestamp) =~= m.insert(key, timestamp));
}

/// Law: re-enabling a suggestion that was never dismissed is a no-op, not an
/// error.
pub proof fn law_unignore_missing(
    m: Map<(Seq<char>, Seq<char>), u64>,
    key: (Seq<char>, Seq<char>),
)
    requires
        !m.contains_key(key),
    ensures
        m.remove(key) == m,
{
    assert(m.remove(key) =~= m);
}

} // verus!
