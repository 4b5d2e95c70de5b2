//! Scan planner: turns a listing of (path, modification time) pairs into a
//! priority-ordered work plan by consulting the freshness cache.
use vstd::prelude::*;

use crate::cache::fresh_in;
use crate::vault::SmartVault;

verus! {

/// One file of the vault listing handed in by the host.
pub struct FileInfo {
    pub path: String,
    /// Modification time in epoch milliseconds.
    pub mtime: u64,
}

/// A file that needs work, with one flag per stale artifact.
pub struct FileToProcess {
    pub path: String,
    pub mtime: u64,
    pub needs_embedding: bool,
    pub needs_keywords: bool,
    pub needs_suggestions: bool,
}

/// The planner's output: ordered work items, skipped paths, and the position
/// of the currently open file within the work list, if it is there.
pub struct ScanPlan {
    pub to_process: Vec<FileToProcess>,
    pub to_skip: Vec<String>,
    pub current_file_index: Option<usize>,
}

/// The currently open file, reduced to its character sequence.
pub open spec fn opt_path_model(o: Option<&str>) -> Option<Seq<char>> {
    match o {
        Some(s) => Some(s@),
        None => None,
    }
}

pub open spec fn is_current(item: FileToProcess, cur: Option<Seq<char>>) -> bool {
    match cur {
        Some(c) => item.path@ == c,
        None => false,
    }
}

/// Work-plan order: the current file sorts before everything else; among the
/// rest, larger (more recent) modification times sort first.
pub open spec fn plan_ge(cur: Option<Seq<char>>, a: FileToProcess, b: FileToProcess) -> bool {
    if is_current(a, cur) && !is_current(b, cur) {
        true
    } else if !is_current(a, cur) && is_current(b, cur) {
        false
    } else {
        a.mtime >= b.mtime
    }
}

impl SmartVault {
    /// The embedding must be recomputed when none is loaded or the recorded
    /// modification time differs from the file's.
    pub open spec fn spec_needs_embedding(&self, f: FileInfo) -> bool {
        !self.embeddings@.contains_key(f.path@) || !fresh_in(
            self.cache_index.embedding_mtimes@,
            f.path@,
            f.mtime,
        )
    }

    /// Keywords are stale whenever the embedding is: they are paired with it.
    pub open spec fn spec_needs_keywords(&self, f: FileInfo) -> bool {
        self.spec_needs_embedding(f) || !fresh_in(
            self.cache_index.keyword_mtimes@,
            f.path@,
            f.mtime,
        )
    }

    pub open spec fn spec_needs_suggestions(&self, f: FileInfo, check: bool) -> bool {
        check && (self.spec_needs_embedding(f) || !fresh_in(
            self.cache_index.suggestion_mtimes@,
            f.path@,
            f.mtime,
        ))
    }

    pub open spec fn spec_needs_work(&self, f: FileInfo, check: bool) -> bool {
        self.spec_needs_embedding(f) || self.spec_needs_keywords(f) || self.spec_needs_suggestions(
            f,
            check,
        )
    }

    pub open spec fn spec_work_item(&self, f: FileInfo, check: bool) -> FileToProcess {
        FileToProcess {
            path: f.path,
            mtime: f.mtime,
            needs_embedding: self.spec_needs_embedding(f),
            needs_keywords: self.spec_needs_keywords(f),
            needs_suggestions: self.spec_needs_suggestions(f, check),
        }
    }

    /// The files needing work, in listing order, each with its flags.
    pub open spec fn spec_work_items(&self, files: Seq<FileInfo>, check: bool) -> Seq<
        FileToProcess,
    >
        decreases files.len(),
    {
        if files.len() == 0 {
            Seq::empty()
        } else {
            let rest = self.spec_work_items(files.drop_last(), check);
            if self.spec_needs_work(files.last(), check) {
                rest.push(self.spec_work_item(files.last(), check))
            } else {
                rest
            }
        }
    }

    /// The paths of the files needing no work, in listing order.
    pub open spec fn spec_skipped(&self, files: Seq<FileInfo>, check: bool) -> Seq<String>
        decreases files.len(),
    {
        if files.len() == 0 {
            Seq::empty()
        } else {
            let rest = self.spec_skipped(files.drop_last(), check);
            if self.spec_needs_work(files.last(), check) {
                rest
            } else {
                rest.push(files.last().path)
            }
        }
    }

    /// How many files need a new embedding.
    pub open spec fn spec_count_needing(&self, files: Seq<FileInfo>) -> nat
        decreases files.len(),
    {
        if files.len() == 0 {
            0
        } else {
            self.spec_count_needing(files.drop_last()) + if self.spec_needs_embedding(
                files.last(),
            ) {
                1nat
            } else {
                0nat
            }
        }
    }

    fn needs_flags(&self, file: &FileInfo, check_suggestions: bool) -> (r: (bool, bool, bool))
        requires
            self.wf(),
        ensures
            r.0 == self.spec_needs_embedding(*file),
            r.1 == self.spec_needs_keywords(*file),
            r.2 == self.spec_needs_suggestions(*file, check_suggestions),
    {
        let has_embedding = self.embeddings.contains_key(&file.path);
        let embedding_fresh = self.cache_index.is_embedding_fresh(file.path.as_str(), file.mtime);
        let keyword_fresh = self.cache_index.is_keyword_fresh(file.path.as_str(), file.mtime);
        let suggestion_fresh = self.cache_index.is_suggestion_fresh(
            file.path.as_str(),
            file.mtime,
        );
        let needs_embedding = !has_embedding || !embedding_fresh;
        let needs_keywords = needs_embedding || !keyword_fresh;
        let needs_suggestions = check_suggestions && (needs_embedding || !suggestion_fresh);
        (needs_embedding, needs_keywords, needs_suggestions)
    }

    /// Plans a vault scan: classifies every listed file as needing work or
    /// not, orders the work list (current file first, then most recently
    /// modified first) and locates the current file within it.
    pub fn plan_scan(
        &self,
        files: &Vec<FileInfo>,
        current_file: Option<&str>,
        check_suggestions: bool,
    ) -> (r: ScanPlan)
        requires
            self.wf(),
        ensures
            r.to_process@.to_multiset() == self.spec_work_items(
                files@,
                check_suggestions,
            ).to_multiset(),
            r.to_skip@ == self.spec_skipped(files@, check_suggestions),
            forall|i: int, j: int| 0 <= i < j < r.to_process@.len() ==> plan_ge(
                opt_path_model(current_file),
                #[trigger] r.to_process@[i],
                #[trigger] r.to_process@[j],
            ),
            match r.current_file_index {
                Some(ix) => ix < r.to_process@.len() && is_current(
                    r.to_process@[ix as int],
                    opt_path_model(current_file),
                ) && forall|j: int| 0 <= j < ix ==> !is_current(
                    #[trigger] r.to_process@[j],
                    opt_path_model(current_file),
                ),
                None => forall|j: int| 0 <= j < r.to_process@.len() ==> !is_current(
                    #[trigger] r.to_process@[j],
                    opt_path_model(current_file),
                ),
            },
    {
        let ghost cur = opt_path_model(current_file);
        let n = files.len();
        let mut to_process: Vec<FileToProcess> = Vec::new();
        let mut to_skip: Vec<String> = Vec::new();
        let mut i: usize = 0;
        while i < n
            invariant
                self.wf(),
                n == files@.len(),
                i <= n,
                to_process@ =~= self.spec_work_items(files@.subrange(0, i as int), check_suggestions),
                to_skip@ =~= self.spec_skipped(files@.subrange(0, i as int), check_suggestions),
            decreases n - i,
        {
            let file = &files[i];
            let (needs_embedding, needs_keywords, needs_suggestions) = self.needs_flags(
                file,
                check_suggestions,
            );
            proof {
                assert(files@.subrange(0, i + 1).drop_last() =~= files@.subrange(0, i as int));
                assert(files@.subrange(0, i + 1).last() == files@[i as int]);
            }
            if needs_embedding || needs_keywords || needs_suggestions {
                to_process.push(
                    FileToProcess {
                        path: file.path.clone(),
                        mtime: file.mtime,
                        needs_embedding,
                        needs_keywords,
                        needs_suggestions,
                    },
                );
            } else {
                to_skip.push(file.path.clone());
            }
            i += 1;
        }
        proof {
            assert(files@.subrange(0, n as int) =~= files@);
        }
        let cur_owned: Option<String> = match current_file {
            Some(c) => Some(c.to_owned()),
            None => None,
        };
        let sorted = sort_plan_desc(to_process, &cur_owned, Ghost(cur));
        let current_file_index = find_current(&sorted, &cur_owned, Ghost(cur));
        ScanPlan { to_process: sorted, to_skip, current_file_index }
    }

    /// Quick pass: how many files would need a new embedding.
    pub fn count_files_needing_processing(&self, files: &Vec<FileInfo>) -> (r: usize)
        requires
            self.wf(),
        ensures
            r == self.spec_count_needing(files@),
    {
        let n = files.len();
        let mut count: usize = 0;
        let mut i: usize = 0;
        while i < n
            invariant
                self.wf(),
                n == files@.len(),
                i <= n,
                count == self.spec_count_needing(files@.subrange(0, i as int)),
                count <= i,
            decreases n - i,
        {
            let file = &files[i];
            let has_embedding = self.embeddings.contains_key(&file.path);
            let embedding_fresh = self.cache_index.is_embedding_fresh(
                file.path.as_str(),
                file.mtime,
            );
            proof {
                assert(files@.subrange(0, i + 1).drop_last() =~= files@.subrange(0, i as int));
                assert(files@.subrange(0, i + 1).last() == files@[i as int]);
            }
            if !has_embedding || !embedding_fresh {
                count += 1;
            }
            i += 1;
        }
        proof {
            assert(files@.subrange(0, n as int) =~= files@);
        }
        count
    }
}

/// True when `item` is the currently open file.
fn is_current_exec(
    item: &FileToProcess,
    cur: &Option<String>,
    model: Ghost<Option<Seq<char>>>,
) -> (r: bool)
    requires
        match (cur, model@) {
            (Some(c), Some(m)) => c@ == m,
            (None, None) => true,
            _ => false,
        },
    ensures
        r == is_current(*item, model@),
{
    match cur {
        Some(c) => item.path.eq(c),
        None => false,
    }
}

/// Selection sort under the work-plan order.
fn sort_plan_desc(
    input: Vec<FileToProcess>,
    cur: &Option<String>,
    model: Ghost<Option<Seq<char>>>,
) -> (r: Vec<FileToProcess>)
    requires
        match (cur, model@) {
            (Some(c), Some(m)) => c@ == m,
            (None, None) => true,
            _ => false,
        },
    ensures
        r@.to_multiset() == input@.to_multiset(),
        r@.len() == input@.len(),
        forall|i: int, j: int| 0 <= i < j < r@.len() ==> plan_ge(
            model@,
            #[trigger] r@[i],
            #[trigger] r@[j],
        ),
{
    broadcast use vstd::seq_lib::group_to_multiset_ensures;
    broadcast use vstd::multiset::group_multiset_properties;

    let mut rest = input;
    let mut out: Vec<FileToProcess> = Vec::new();
    let ghost total = rest@.to_multiset();
    let ghost total_len = rest@.len();
    proof {
        assert(out@.to_multiset().len() == 0);
        vstd::multiset::lemma_multiset_empty_len(out@.to_multiset());
        assert(total =~= rest@.to_multiset().add(out@.to_multiset()));
    }
    while rest.len() > 0
        invariant
            match (cur, model@) {
                (Some(c), Some(m)) => c@ == m,
                (None, None) => true,
                _ => false,
            },
            total == rest@.to_multiset().add(out@.to_multiset()),
            total_len == rest@.len() + out@.len(),
            forall|i: int, j: int| 0 <= i < j < out@.len() ==> plan_ge(
                model@,
                #[trigger] out@[i],
                #[trigger] out@[j],
            ),
            forall|i: int| 0 <= i < rest@.len() ==> out@.len() > 0 ==> plan_ge(
                model@,
                out@[out@.len() - 1],
                #[trigger] rest@[i],
            ),
        decreases rest@.len(),
    {
        let mut best: usize = 0;
        let mut i: usize = 1;
        while i < rest.len()
            invariant
                match (cur, model@) {
                    (Some(c), Some(m)) => c@ == m,
                    (None, None) => true,
                    _ => false,
                },
                rest@.len() > 0,
                best < i <= rest@.len(),
                forall|j: int| 0 <= j < i ==> plan_ge(
                    model@,
                    rest@[best as int],
                    #[trigger] rest@[j],
                ),
            decreases rest@.len() - i,
        {
            let cand_cur = is_current_exec(&rest[i], cur, model);
            let best_cur = is_current_exec(&rest[best], cur, model);
            let cand_wins = if cand_cur && !best_cur {
                true
            } else if !cand_cur && best_cur {
                false
            } else {
                rest[i].mtime > rest[best].mtime
            };
            if cand_wins {
                best = i;
            }
            i += 1;
        }
        let ghost rest_pre = rest@;
        let ghost out_pre = out@;
        let picked = rest.remove(best);
        out.push(picked);
        proof {
            assert(rest@ =~= rest_pre.remove(best as int));
            assert(out@ =~= out_pre.push(picked));
            vstd::seq_lib::to_multiset_remove(rest_pre, best as int);
            vstd::seq_lib::to_multiset_build(out_pre, picked);
            vstd::seq_lib::to_multiset_contains(rest_pre, picked);
            assert(rest_pre.contains(picked));
            assert(total =~= rest@.to_multiset().add(out@.to_multiset()));
        }
    }
    out
}

/// First position of the current file within the sorted work list.
fn find_current(
    items: &Vec<FileToProcess>,
    cur: &Option<String>,
    model: Ghost<Option<Seq<char>>>,
) -> (r: Option<usize>)
    requires
        match (cur, model@) {
            (Some(c), Some(m)) => c@ == m,
            (None, None) => true,
            _ => false,
        },
    ensures
        match r {
            Some(ix) => ix < items@.len() && is_current(items@[ix as int], model@) && forall|j: int|
                0 <= j < ix ==> !is_current(#[trigger] items@[j], model@),
            None => forall|j: int| 0 <= j < items@.len() ==> !is_current(
                #[trigger] items@[j],
                model@,
            ),
        },
{
    let n = items.len();
    let mut i: usize = 0;
    while i < n
        invariant
            match (cur, model@) {
                (Some(c), Some(m)) => c@ == m,
                (None, None) => true,
                _ => false,
            },
            n == items@.len(),
            i <= n,
            forall|j: int| 0 <= j < i ==> !is_current(#[trigger] items@[j], model@),
        decreases n - i,
    {
        if is_current_exec(&items[i], cur, model) {
            return Some(i);
        }
        i += 1;
    }
    None
}

} // verus!
