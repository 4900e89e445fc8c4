//! Top-k evaluation kernel for ranked queries over a segmented
//! inverted index: a bounded score accumulator, an exhaustive baseline
//! scan, a pruning-aware callback scan proved equivalent to it, a
//! verifier for their traces, and the line-oriented command protocol
//! around them. Scores enter as order-preserving integer keys; the
//! index engine itself is an external collaborator.

use vstd::prelude::*;

pub mod heap;
pub mod evaluate;
pub mod trace;
pub mod dispatch;
pub mod tokenizer;

verus! {

/// Identifier of a document within one segment.
pub type DocId = u32;

/// Order-preserving integer key standing for a relevance score.
/// Higher keys mean better scores; callers that score with floating
/// point map their scores to keys through a monotone encoding before
/// handing them to this library.
pub type ScoreKey = u64;

/// One (document, score) candidate offered to an evaluator.
#[derive(Clone, Copy, PartialEq, Eq, Structural, Debug)]
pub struct Entry {
    pub doc: DocId,
    pub score: ScoreKey,
}

/// One observation recorded when an evaluator examines a candidate:
/// the document, the floor in effect before the examination (`None`
/// standing for negative infinity), and the candidate's score. Used
/// only for verification and debugging, never persisted.
#[derive(Clone, Copy, PartialEq, Eq, Structural, Debug)]
pub struct Checkpoint {
    pub doc: DocId,
    pub floor: Option<ScoreKey>,
    pub score: ScoreKey,
}

impl Entry {
    pub fn new(doc: DocId, score: ScoreKey) -> (e: Entry)
        ensures
            e.doc == doc,
            e.score == score,
    {
        Entry { doc, score }
    }
}

} // verus!
