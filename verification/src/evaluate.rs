use vstd::prelude::*;
use crate::{Checkpoint, DocId, Entry, ScoreKey};
use crate::heap::{
    above_floor, floor_le, floor_of, fold_offers, offer_once, BoundedScoreHeap,
    lemma_fold_offers_wf, lemma_offer_once_wf,
};

verus! {

/// The checkpoints an exhaustive scan records while offering `s` in
/// order: one per candidate that scores above the floor in effect when
/// it is examined, holding that floor.
pub open spec fn exhaustive_checkpoints(s: Seq<Entry>, k: nat) -> Seq<Checkpoint>
    decreases s.len(),
{
    if s.len() == 0 {
        Seq::empty()
    } else {
        let prev = exhaustive_checkpoints(s.drop_last(), k);
        let f = floor_of(fold_offers(s.drop_last(), k), k);
        let e = s.last();
        if above_floor(f, e.score) {
            prev.push(Checkpoint { doc: e.doc, floor: f, score: e.score })
        } else {
            prev
        }
    }
}

/// The checkpoints a pruning traversal records: one per callback
/// invocation, holding the floor in effect before the call.
pub open spec fn pruning_checkpoints(s: Seq<Entry>, k: nat) -> Seq<Checkpoint>
    decreases s.len(),
{
    if s.len() == 0 {
        Seq::empty()
    } else {
        pruning_checkpoints(s.drop_last(), k).push(Checkpoint {
            doc: s.last().doc,
            floor: floor_of(fold_offers(s.drop_last(), k), k),
            score: s.last().score,
        })
    }
}

/// Full scan of one segment: every candidate is examined in order, and
/// every candidate scoring above the current floor is recorded and
/// offered to the heap. This evaluator is the ground truth.
pub struct ExhaustiveEvaluator {
    heap: BoundedScoreHeap,
    checkpoints: Vec<Checkpoint>,
    seen: Ghost<Seq<Entry>>,
}

impl ExhaustiveEvaluator {
    /// The candidates examined so far, in examination order.
    pub closed spec fn seen(&self) -> Seq<Entry> {
        self.seen@
    }

    pub closed spec fn capacity(&self) -> nat {
        self.heap.capacity()
    }

    pub closed spec fn heap_view(&self) -> Seq<Entry> {
        self.heap@
    }

    pub closed spec fn checkpoints_view(&self) -> Seq<Checkpoint> {
        self.checkpoints@
    }

    pub open spec fn wf(&self) -> bool {
        &&& self.capacity() >= 1
        &&& self.heap_view() == fold_offers(self.seen(), self.capacity())
        &&& self.checkpoints_view() == exhaustive_checkpoints(self.seen(), self.capacity())
    }

    pub fn new(k: usize) -> (ev: ExhaustiveEvaluator)
        requires
            k >= 1,
        ensures
            ev.wf(),
            ev.capacity() == k,
            ev.seen() == Seq::<Entry>::empty(),
    {
        let ev = ExhaustiveEvaluator {
            heap: BoundedScoreHeap::new(k),
            checkpoints: Vec::new(),
            seen: Ghost(Seq::empty()),
        };
        proof {
            assert(ev.heap@ =~= fold_offers(ev.seen@, k as nat));
            assert(ev.checkpoints@ =~= exhaustive_checkpoints(ev.seen@, k as nat));
        }
        ev
    }

    /// Examine the next candidate of the segment.
    pub fn observe(&mut self, doc: DocId, score: ScoreKey)
        requires
            old(self).wf(),
        ensures
            final(self).wf(),
            final(self).capacity() == old(self).capacity(),
            final(self).seen() == old(self).seen().push(Entry { doc, score }),
    {
        proof {
            lemma_fold_offers_wf(self.seen@, self.capacity());
        }
        let e = Entry { doc, score };
        let f = self.heap.floor();
        let accept: bool = match f {
            None => true,
            Some(v) => score > v,
        };
        if accept {
            self.checkpoints.push(Checkpoint { doc, floor: f, score });
            self.heap.offer(e);
        }
        self.seen = Ghost(self.seen@.push(e));
        proof {
            assert(self.seen@.drop_last() =~= old(self).seen());
            assert(self.seen@.last() == e);
        }
    }

    /// The accumulated top-`k` entries, best-first.
    pub fn top_entries(&self) -> (v: &Vec<Entry>)
        ensures
            v@ == self.heap_view(),
    {
        self.heap.entries()
    }

    pub fn checkpoints(&self) -> (v: &Vec<Checkpoint>)
        ensures
            v@ == self.checkpoints_view(),
    {
        &self.checkpoints
    }

    pub fn floor(&self) -> (f: Option<ScoreKey>)
        requires
            self.wf(),
        ensures
            f == floor_of(self.heap_view(), self.capacity()),
    {
        proof {
            lemma_fold_offers_wf(self.seen@, self.capacity());
        }
        self.heap.floor()
    }
}

/// Run an exhaustive scan over a whole posting list.
pub fn evaluate_exhaustive(postings: &Vec<Entry>, k: usize) -> (ev: ExhaustiveEvaluator)
    requires
        k >= 1,
    ensures
        ev.wf(),
        ev.capacity() == k,
        ev.seen() == postings@,
        ev.heap_view() == fold_offers(postings@, k as nat),
{
    let mut ev = ExhaustiveEvaluator::new(k);
    let n = postings.len();
    let mut i: usize = 0;
    while i < n
        invariant
            0 <= i <= n,
            n == postings@.len(),
            ev.wf(),
            ev.capacity() == k,
            k >= 1,
            ev.seen() == postings@.take(i as int),
        decreases n - i,
    {
        let e = postings[i];
        ev.observe(e.doc, e.score);
        proof {
            assert(postings@.take(i as int + 1) =~= postings@.take(i as int).push(postings@[i as int]));
        }
        i += 1;
    }
    proof {
        assert(postings@.take(n as int) =~= postings@);
    }
    ev
}

/// Callback-driven scan of one segment. The index engine chooses which
/// candidates to present; the evaluator records a checkpoint for every
/// callback, offers the score to its heap, and feeds back a floor that
/// never decreases.
pub struct PruningEvaluator {
    heap: BoundedScoreHeap,
    checkpoints: Vec<Checkpoint>,
    floor: Option<ScoreKey>,
    seen: Ghost<Seq<Entry>>,
}

impl PruningEvaluator {
    /// The candidates the engine has invoked the callback on so far.
    pub closed spec fn seen(&self) -> Seq<Entry> {
        self.seen@
    }

    pub closed spec fn capacity(&self) -> nat {
        self.heap.capacity()
    }

    pub closed spec fn heap_view(&self) -> Seq<Entry> {
        self.heap@
    }

    pub closed spec fn checkpoints_view(&self) -> Seq<Checkpoint> {
        self.checkpoints@
    }

    /// The floor most recently fed back to the traversal.
    pub closed spec fn current_floor(&self) -> Option<ScoreKey> {
        self.floor
    }

    pub open spec fn wf(&self) -> bool {
        &&& self.capacity() >= 1
        &&& self.heap_view() == fold_offers(self.seen(), self.capacity())
        &&& self.checkpoints_view() == pruning_checkpoints(self.seen(), self.capacity())
        &&& self.current_floor() == floor_of(self.heap_view(), self.capacity())
    }

    pub fn new(k: usize) -> (ev: PruningEvaluator)
        requires
            k >= 1,
        ensures
            ev.wf(),
            ev.capacity() == k,
            ev.seen() == Seq::<Entry>::empty(),
            ev.current_floor() == Option::<ScoreKey>::None,
    {
        let ev = PruningEvaluator {
            heap: BoundedScoreHeap::new(k),
            checkpoints: Vec::new(),
            floor: None,
            seen: Ghost(Seq::empty()),
        };
        proof {
            assert(ev.heap@ =~= fold_offers(ev.seen@, k as nat));
            assert(ev.checkpoints@ =~= pruning_checkpoints(ev.seen@, k as nat));
        }
        ev
    }

    /// The pruning callback: record a checkpoint, offer the score, and
    /// return `max(previous floor, heap floor)` as the new floor. The
    /// returned floor never decreases across one traversal.
    pub fn on_candidate(&mut self, doc: DocId, score: ScoreKey) -> (f: Option<ScoreKey>)
        requires
            old(self).wf(),
        ensures
            final(self).wf(),
            final(self).capacity() == old(self).capacity(),
            final(self).seen() == old(self).seen().push(Entry { doc, score }),
            f == final(self).current_floor(),
            floor_le(old(self).current_floor(), f),
    {
        proof {
            lemma_fold_offers_wf(self.seen@, self.capacity());
            lemma_offer_once_wf(self.heap@, self.capacity(), Entry { doc, score });
        }
        let e = Entry { doc, score };
        let before = self.floor;
        self.checkpoints.push(Checkpoint { doc, floor: before, score });
        let heap_floor = self.heap.offer(e);
        let new_floor: Option<ScoreKey> = match (before, heap_floor) {
            (None, hf) => hf,
            (Some(a), None) => Some(a),
            (Some(a), Some(b)) => if a >= b {
                Some(a)
            } else {
                Some(b)
            },
        };
        self.floor = new_floor;
        self.seen = Ghost(self.seen@.push(e));
        proof {
            assert(self.seen@.drop_last() =~= old(self).seen());
            assert(self.seen@.last() == e);
        }
        new_floor
    }

    /// The accumulated top-`k` entries, best-first.
    pub fn top_entries(&self) -> (v: &Vec<Entry>)
        ensures
            v@ == self.heap_view(),
    {
        self.heap.entries()
    }

    pub fn checkpoints(&self) -> (v: &Vec<Checkpoint>)
        ensures
            v@ == self.checkpoints_view(),
    {
        &self.checkpoints
    }

    pub fn floor(&self) -> (f: Option<ScoreKey>)
        ensures
            f == self.current_floor(),
    {
        self.floor
    }
}

/// The candidates a traversal presented: those positions of `s` whose
/// mask bit is set.
pub open spec fn keep_mask(s: Seq<Entry>, m: Seq<bool>) -> Seq<Entry>
    decreases s.len(),
{
    if s.len() == 0 {
        Seq::empty()
    } else if m.last() {
        keep_mask(s.drop_last(), m.drop_last()).push(s.last())
    } else {
        keep_mask(s.drop_last(), m.drop_last())
    }
}

/// A sound pruning traversal: a candidate may be withheld from the
/// callback only when its score does not exceed the floor in effect —
/// the floor of the heap accumulated over the candidates presented so
/// far — at the moment it is skipped.
pub open spec fn pruning_sound(s: Seq<Entry>, m: Seq<bool>, k: nat) -> bool
    decreases s.len(),
{
    if s.len() == 0 {
        true
    } else {
        &&& pruning_sound(s.drop_last(), m.drop_last(), k)
        &&& (!m.last() ==> !above_floor(
            floor_of(fold_offers(keep_mask(s.drop_last(), m.drop_last()), k), k),
            s.last().score,
        ))
    }
}

/// Pruning changes nothing: a sound pruning traversal of a segment
/// leaves the heap — entries and order, hence the top-`k` document id
/// set — exactly as an exhaustive scan of the same segment leaves it.
pub proof fn lemma_pruning_equivalence(s: Seq<Entry>, m: Seq<bool>, k: nat)
    requires
        k >= 1,
        m.len() == s.len(),
        pruning_sound(s, m, k),
    ensures
        fold_offers(keep_mask(s, m), k) == fold_offers(s, k),
    decreases s.len(),
{
    if s.len() > 0 {
        let s0 = s.drop_last();
        let m0 = m.drop_last();
        lemma_pruning_equivalence(s0, m0, k);
        lemma_fold_offers_wf(keep_mask(s0, m0), k);
        if m.last() {
            let kept = keep_mask(s0, m0);
            assert(keep_mask(s, m) == kept.push(s.last()));
            assert(kept.push(s.last()).drop_last() =~= kept);
            assert(kept.push(s.last()).last() == s.last());
            assert(fold_offers(keep_mask(s, m), k)
                == offer_once(fold_offers(keep_mask(s0, m0), k), k, s.last()));
        } else {
            assert(!above_floor(floor_of(fold_offers(s0, k), k), s.last().score));
            assert(fold_offers(s0, k).len() >= k);
            assert(offer_once(fold_offers(s0, k), k, s.last()) == fold_offers(s0, k));
        }
    }
}

/// When the capacity covers every match, the heap retains them all:
/// the number of documents a top-`n` request returns equals the match
/// count whenever `n` is at least that count.
pub proof fn lemma_top_n_covers_all(s: Seq<Entry>, k: nat)
    requires
        k >= 1,
        s.len() <= k,
    ensures
        fold_offers(s, k).len() == s.len(),
        fold_offers(s, k).to_multiset() == s.to_multiset(),
{
    lemma_fold_offers_wf(s, k);
    crate::heap::lemma_fold_offers_top_k(s, k);
}

/// Run a pruning traversal over a posting list with a mock engine that
/// skips a candidate only where `skip` asks for it and the skip is
/// provably safe (the score does not exceed the current floor). The
/// resulting heap is exactly the exhaustive one.
pub fn evaluate_pruned(postings: &Vec<Entry>, skip: &Vec<bool>, k: usize) -> (ev: PruningEvaluator)
    requires
        k >= 1,
        skip@.len() == postings@.len(),
    ensures
        ev.wf(),
        ev.capacity() == k,
        ev.heap_view() == fold_offers(postings@, k as nat),
{
    let mut ev = PruningEvaluator::new(k);
    let n = postings.len();
    let mut i: usize = 0;
    while i < n
        invariant
            0 <= i <= n,
            n == postings@.len(),
            skip@.len() == n,
            ev.wf(),
            ev.capacity() == k,
            k >= 1,
            fold_offers(ev.seen(), k as nat) == fold_offers(postings@.take(i as int), k as nat),
        decreases n - i,
    {
        let e = postings[i];
        let ghost prev_seen = ev.seen();
        let mut skipped: bool = false;
        if skip[i] {
            let f = ev.floor();
            let safe: bool = match f {
                None => false,
                Some(v) => e.score <= v,
            };
            if safe {
                skipped = true;
            }
        }
        if !skipped {
            ev.on_candidate(e.doc, e.score);
        }
        proof {
            let prefix = postings@.take(i as int);
            assert(postings@.take(i as int + 1) =~= prefix.push(postings@[i as int]));
            assert(prefix.push(e).drop_last() =~= prefix);
            assert(prefix.push(e).last() == e);
            assert(fold_offers(prefix.push(e), k as nat) == offer_once(fold_offers(prefix, k as nat), k as nat, e));
            if skipped {
                lemma_fold_offers_wf(prefix, k as nat);
                assert(!above_floor(floor_of(fold_offers(prefix, k as nat), k as nat), e.score));
            } else {
                assert(ev.seen() == prev_seen.push(e));
                assert(ev.seen().drop_last() =~= prev_seen);
            }
        }
        i += 1;
    }
    proof {
        assert(postings@.take(n as int) =~= postings@);
    }
    ev
}

} // verus!
