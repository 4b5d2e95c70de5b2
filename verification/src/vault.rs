//! Session-scoped aggregate owning the in-memory stores (embeddings, file
//! contents, keywords) and the freshness cache.
use vstd::prelude::*;

use crate::cache::CacheIndex;
use crate::kvmap::KeyMap;

verus! {

/// Largest magnitude a fixed-point embedding component may have.
pub const MAX_COMPONENT: i64 = 1048576;

/// Largest embedding dimension the similarity engine accepts.
pub const MAX_DIM: usize = 65536;

/// An embedding vector the similarity engine can score without overflow.
pub open spec fn vec_bounded(s: Seq<i64>) -> bool {
    &&& s.len() <= MAX_DIM
    &&& forall|i: int| 0 <= i < s.len() ==> -MAX_COMPONENT <= #[trigger] s[i] <= MAX_COMPONENT
}

/// One keyword-store record as it crosses the host boundary: a document's
/// extracted keywords together with the modification time they were
/// extracted at.
pub struct KeywordEntry {
    pub keywords: Vec<String>,
    pub mtime: u64,
}

/// One vault session: every store is owned by exactly one of these.
pub struct SmartVault {
    /// Document path -> fixed-point embedding vector.
    pub embeddings: KeyMap<String, Vec<i64>>,
    /// Document path -> raw document text.
    pub file_contents: KeyMap<String, String>,
    /// Document path -> extracted keywords.
    pub keywords: KeyMap<String, Vec<String>>,
    /// Freshness ledger and sub-caches.
    pub cache_index: CacheIndex,
}

impl SmartVault {
    pub open spec fn wf(&self) -> bool {
        &&& self.embeddings.wf()
        &&& self.file_contents.wf()
        &&& self.keywords.wf()
        &&& self.cache_index.wf()
        &&& forall|p: Seq<char>| self.embeddings@.contains_key(p) ==> vec_bounded(
            #[trigger] self.embeddings@[p],
        )
    }

    pub fn new() -> (r: SmartVault)
        ensures
            r.wf(),
            r.embeddings@ == Map::<Seq<char>, Seq<i64>>::empty(),
            r.file_contents@ == Map::<Seq<char>, Seq<char>>::empty(),
            r.keywords@ == Map::<Seq<char>, Seq<Seq<char>>>::empty(),
            r.cache_index.embedding_mtimes@ == Map::<Seq<char>, u64>::empty(),
            r.cache_index.keyword_mtimes@ == Map::<Seq<char>, u64>::empty(),
            r.cache_index.suggestion_mtimes@ == Map::<Seq<char>, u64>::empty(),
            r.cache_index.ignored_suggestions@ == Map::<(Seq<char>, Seq<char>), u64>::empty(),
            r.cache_index.insertion_cache@ == Map::<(Seq<char>, Seq<char>), Seq<char>>::empty(),
    {
        SmartVault {
            embeddings: KeyMap::new(),
            file_contents: KeyMap::new(),
            keywords: KeyMap::new(),
            cache_index: CacheIndex::new(),
        }
    }

    pub fn set_keywords(&mut self, path: String, keywords: Vec<String>)
        requires
            old(self).wf(),
        ensures
            final(self).wf(),
            final(self).keywords@ == old(self).keywords@.insert(path@, keywords.deep_view()),
            final(self).embeddings == old(self).embeddings,
            final(self).file_contents == old(self).file_contents,
            final(self).cache_index == old(self).cache_index,
    {
        self.keywords.insert(path, keywords);
    }

    pub fn get_keywords(&self, path: &str) -> (r: Option<&Vec<String>>)
        requires
            self.wf(),
        ensures
            match r {
                Some(v) => self.keywords@.contains_key(path@) && v.deep_view()
                    == self.keywords@[path@],
                None => !self.keywords@.contains_key(path@),
            },
    {
        self.keywords.get(&path.to_owned())
    }

    pub fn add_file(&mut self, path: String, content: String)
        requires
            old(self).wf(),
        ensures
            final(self).wf(),
            final(self).file_contents@ == old(self).file_contents@.insert(path@, content@),
            final(self).embeddings == old(self).embeddings,
            final(self).keywords == old(self).keywords,
            final(self).cache_index == old(self).cache_index,
    {
        self.file_contents.insert(path, content);
    }

    /// Stores a fixed-point embedding vector; the bound is what the cosine
    /// arithmetic needs to stay inside machine integers.
    pub fn set_embedding(&mut self, path: String, embedding: Vec<i64>)
        requires
            old(self).wf(),
            vec_bounded(embedding.deep_view()),
        ensures
            final(self).wf(),
            final(self).embeddings@ == old(self).embeddings@.insert(path@, embedding.deep_view()),
            final(self).file_contents == old(self).file_contents,
            final(self).keywords == old(self).keywords,
            final(self).cache_index == old(self).cache_index,
    {
        self.embeddings.insert(path, embedding);
    }

    pub fn get_file_count(&self) -> (r: usize)
        requires
            self.wf(),
        ensures
            r == self.file_contents@.dom().len(),
    {
        self.file_contents.len()
    }

    pub fn has_embedding(&self, path: &str) -> (r: bool)
        requires
            self.wf(),
        ensures
            r == self.embeddings@.contains_key(path@),
    {
        self.embeddings.contains_key(&path.to_owned())
    }

    pub fn get_embedding_count(&self) -> (r: usize)
        requires
            self.wf(),
        ensures
            r == self.embeddings@.dom().len(),
    {
        self.embeddings.len()
    }

    pub fn get_embedding(&self, path: &str) -> (r: Option<&Vec<i64>>)
        requires
            self.wf(),
        ensures
            match r {
                Some(v) => self.embeddings@.contains_key(path@) && v.deep_view()
                    == self.embeddings@[path@],
                None => !self.embeddings@.contains_key(path@),
            },
    {
        self.embeddings.get(&path.to_owned())
    }

    /// Shortens a document text to at most `max_length` characters.
    pub fn truncate_content(&self, content: &str, max_length: usize) -> (r: String)
        ensures
            r@ == content@.subrange(
                0,
                if content@.len() <= max_length {
                    content@.len() as int
                } else {
                    max_length as int
                },
            ),
    {
        let n = content.unicode_len();
        if n <= max_length {
            proof {
                assert(content@.subrange(0, content@.len() as int) =~= content@);
            }
            content.to_owned()
        } else {
            content.substring_char(0, max_length).to_owned()
        }
    }
}

} // verus!
