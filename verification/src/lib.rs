//! Core engine of a semantic note-linking assistant: a freshness cache over
//! per-path modification times, a scan planner, a similarity-based link
//! suggester, and a rank-fusion step that merges an external ranking back
//! into the candidate list.
use vstd::prelude::*;

pub mod cache;
pub mod codec;
pub mod embcodec;
pub mod fusion;
pub mod json;
pub mod kvmap;
pub mod parse;
pub mod plan;
pub mod similarity;
pub mod strutil;
pub mod suggest;
pub mod textcodec;
pub mod vault;

verus! {

/// Fixed-point scale used for similarity scores and thresholds: a score of
/// `SCALE` stands for 1.0.
pub const SCALE: i64 = 1000;

} // verus!
