use vstd::prelude::*;
use vstd::multiset::Multiset;
use crate::{Entry, ScoreKey};

verus! {

/// `a` ranks strictly below `b`: lower score, or equal score with the
/// larger document id (ties break in favour of the smaller id).
pub open spec fn ranks_below(a: Entry, b: Entry) -> bool {
    a.score < b.score || (a.score == b.score && a.doc > b.doc)
}

/// The sequence is ordered best-first: no later entry ranks above an
/// earlier one.
pub open spec fn sorted_desc(h: Seq<Entry>) -> bool {
    forall|i: int, j: int| 0 <= i < j < h.len() ==> !ranks_below(#[trigger] h[i], #[trigger] h[j])
}

/// Insert `e` into the best-first ordered sequence `h`, after any entry
/// that ranks at or above it.
pub open spec fn insert_sorted(h: Seq<Entry>, e: Entry) -> Seq<Entry>
    decreases h.len(),
{
    if h.len() == 0 {
        seq![e]
    } else if !ranks_below(h[0], e) {
        seq![h[0]] + insert_sorted(h.drop_first(), e)
    } else {
        seq![e] + h
    }
}

/// The floor of a heap holding `h` with capacity `k`: the lowest held
/// score once `k` entries are held, and `None` (standing for negative
/// infinity) while under capacity.
pub open spec fn floor_of(h: Seq<Entry>, k: nat) -> Option<ScoreKey> {
    if h.len() < k {
        None
    } else {
        Some(h[k as int - 1].score)
    }
}

/// A score strictly exceeds the floor: every score exceeds negative
/// infinity.
pub open spec fn above_floor(f: Option<ScoreKey>, s: ScoreKey) -> bool {
    match f {
        None => true,
        Some(v) => s > v,
    }
}

/// `a` is at most `b`, where `None` stands for negative infinity.
pub open spec fn floor_le(a: Option<ScoreKey>, b: Option<ScoreKey>) -> bool {
    match a {
        None => true,
        Some(x) => match b {
            None => false,
            Some(y) => x <= y,
        },
    }
}

/// One offer to a bounded heap holding `h` with capacity `k`: under
/// capacity the entry is inserted; at capacity an entry scoring above
/// the floor replaces the worst-ranked entry, and any other offer has
/// no effect.
pub open spec fn offer_once(h: Seq<Entry>, k: nat, e: Entry) -> Seq<Entry> {
    if h.len() < k {
        insert_sorted(h, e)
    } else if above_floor(floor_of(h, k), e.score) {
        insert_sorted(h, e).take(k as int)
    } else {
        h
    }
}

/// The heap contents after offering every entry of `s` in order to an
/// initially empty heap of capacity `k`.
pub open spec fn fold_offers(s: Seq<Entry>, k: nat) -> Seq<Entry>
    decreases s.len(),
{
    if s.len() == 0 {
        Seq::empty()
    } else {
        offer_once(fold_offers(s.drop_last(), k), k, s.last())
    }
}

/// Fixed-capacity accumulator of the best `k` (document, score)
/// candidates seen so far, ordered best-first: score descending, then
/// document id ascending.
pub struct BoundedScoreHeap {
    entries: Vec<Entry>,
    k: usize,
}

impl View for BoundedScoreHeap {
    type V = Seq<Entry>;

    closed spec fn view(&self) -> Seq<Entry> {
        self.entries@
    }
}

impl BoundedScoreHeap {
    pub closed spec fn capacity(&self) -> nat {
        self.k as nat
    }

    pub open spec fn wf(&self) -> bool {
        &&& self.capacity() >= 1
        &&& sorted_desc(self@)
        &&& self@.len() <= self.capacity()
    }

    /// The current floor: the lowest held score at capacity, `None`
    /// (negative infinity) while under capacity.
    pub open spec fn spec_floor(&self) -> Option<ScoreKey> {
        floor_of(self@, self.capacity())
    }

    pub fn new(k: usize) -> (h: BoundedScoreHeap)
        requires
            k >= 1,
        ensures
            h.wf(),
            h@ == Seq::<Entry>::empty(),
            h.capacity() == k,
    {
        BoundedScoreHeap { entries: Vec::new(), k }
    }

    pub fn len(&self) -> (n: usize)
        ensures
            n == self@.len(),
    {
        self.entries.len()
    }

    pub fn floor(&self) -> (f: Option<ScoreKey>)
        requires
            self.wf(),
        ensures
            f == self.spec_floor(),
    {
        if self.entries.len() < self.k {
            None
        } else {
            Some(self.entries[self.k - 1].score)
        }
    }

    /// The held entries, best-first.
    pub fn entries(&self) -> (v: &Vec<Entry>)
        ensures
            v@ == self@,
    {
        &self.entries
    }

    /// Offer one candidate; returns the floor after the offer.
    pub fn offer(&mut self, e: Entry) -> (f: Option<ScoreKey>)
        requires
            old(self).wf(),
        ensures
            final(self).wf(),
            final(self).capacity() == old(self).capacity(),
            final(self)@ == offer_once(old(self)@, old(self).capacity(), e),
            f == final(self).spec_floor(),
    {
        proof {
            lemma_insert_sorted_wf(self@, e);
        }
        let ghost h0: Seq<Entry> = self@;
        let at_capacity: bool = self.entries.len() >= self.k;
        if at_capacity && e.score <= self.entries[self.k - 1].score {
            return self.floor();
        }
        let mut i: usize = 0;
        while i < self.entries.len() && !(self.entries[i].score < e.score
            || (self.entries[i].score == e.score && self.entries[i].doc > e.doc))
            invariant
                0 <= i <= self.entries.len(),
                self@ == h0,
                forall|j: int| 0 <= j < i ==> !ranks_below(#[trigger] h0[j], e),
            decreases self.entries.len() - i,
        {
            i += 1;
        }
        proof {
            lemma_insert_sorted_at(h0, e, i as int);
        }
        self.entries.insert(i, e);
        if self.entries.len() > self.k {
            self.entries.pop();
            proof {
                assert(self@ =~= insert_sorted(h0, e).take(self.k as int));
            }
        }
        self.floor()
    }
}

/// Inserting into a best-first ordered sequence keeps it ordered,
/// lengthens it by one, and adds exactly the inserted entry to its
/// contents.
pub proof fn lemma_insert_sorted_wf(h: Seq<Entry>, e: Entry)
    requires
        sorted_desc(h),
    ensures
        insert_sorted(h, e).len() == h.len() + 1,
        sorted_desc(insert_sorted(h, e)),
        insert_sorted(h, e).to_multiset() == h.to_multiset().insert(e),
    decreases h.len(),
{
    broadcast use vstd::seq_lib::group_to_multiset_ensures;

    if h.len() == 0 {
        assert(insert_sorted(h, e) =~= Seq::empty().push(e));
        assert(Seq::<Entry>::empty().to_multiset() =~= Multiset::empty());
        assert(insert_sorted(h, e).to_multiset() =~= h.to_multiset().insert(e));
    } else if !ranks_below(h[0], e) {
        let rest = h.drop_first();
        assert(sorted_desc(rest)) by {
            assert(forall|i: int, j: int|
                0 <= i < j < rest.len() ==> !ranks_below(#[trigger] rest[i], #[trigger] rest[j]))
                by {
                assert(forall|i: int, j: int| 0 <= i < j < rest.len() ==> rest[i] == h[i + 1] && rest[j] == h[j + 1]);
            }
        }
        lemma_insert_sorted_wf(rest, e);
        let tail = insert_sorted(rest, e);
        let whole = seq![h[0]] + tail;
        assert(insert_sorted(h, e) == whole);
        // every element of the tail is h[0]'s subordinate or e itself
        assert(forall|j: int| 0 <= j < tail.len() ==> tail.to_multiset().count(#[trigger] tail[j]) > 0);
        assert(forall|j: int| 0 <= j < tail.len()
            ==> #[trigger] tail[j] == e || rest.to_multiset().count(tail[j]) > 0) by {
            assert(forall|j: int| 0 <= j < tail.len() && tail[j] != e
                ==> rest.to_multiset().count(#[trigger] tail[j]) == tail.to_multiset().count(tail[j]));
        }
        assert(forall|j: int| 0 <= j < tail.len() ==> !ranks_below(h[0], #[trigger] tail[j])) by {
            assert(forall|x: Entry| rest.to_multiset().count(x) > 0 ==> rest.contains(x));
            assert(forall|jj: int| 0 <= jj < rest.len() ==> !ranks_below(h[0], #[trigger] rest[jj]));
        }
        assert(sorted_desc(whole)) by {
            assert(forall|i: int, j: int| 1 <= i < j < whole.len()
                ==> whole[i] == tail[i - 1] && whole[j] == tail[j - 1]);
            assert(forall|j: int| 1 <= j < whole.len() ==> whole[j] == tail[j - 1]);
        }
        assert(whole.to_multiset() =~= h.to_multiset().insert(e)) by {
            assert(whole =~= seq![h[0]] + tail);
            vstd::seq_lib::lemma_multiset_commutative(seq![h[0]], tail);
            vstd::seq_lib::lemma_multiset_commutative(seq![h[0]], rest);
            assert(h =~= seq![h[0]] + rest);
        }
    } else {
        let whole = seq![e] + h;
        assert(insert_sorted(h, e) == whole);
        assert(ranks_below(h[0], e));
        assert(forall|j: int| 0 <= j < h.len() ==> !ranks_below(e, #[trigger] h[j])) by {
            assert(forall|j: int| 1 <= j < h.len() ==> !ranks_below(h[0], #[trigger] h[j]));
        }
        assert(sorted_desc(whole)) by {
            assert(forall|i: int, j: int| 1 <= i < j < whole.len()
                ==> whole[i] == h[i - 1] && whole[j] == h[j - 1]);
            assert(forall|j: int| 1 <= j < whole.len() ==> whole[j] == h[j - 1]);
        }
        assert(whole.to_multiset() =~= h.to_multiset().insert(e)) by {
            vstd::seq_lib::lemma_multiset_commutative(seq![e], h);
        }
    }
}

/// Inserting an entry does not lower the score found at any position
/// already occupied.
pub proof fn lemma_insert_sorted_kth(h: Seq<Entry>, e: Entry, k: int)
    requires
        sorted_desc(h),
        1 <= k <= h.len(),
    ensures
        insert_sorted(h, e)[k - 1].score >= h[k - 1].score,
    decreases h.len(),
{
    if !ranks_below(h[0], e) {
        let rest = h.drop_first();
        assert(sorted_desc(rest)) by {
            assert(forall|a: int, b: int| 0 <= a < b < rest.len() ==> rest[a] == h[a + 1] && rest[b] == h[b + 1]);
        }
        assert(insert_sorted(h, e) == seq![h[0]] + insert_sorted(rest, e));
        lemma_insert_sorted_wf(rest, e);
        if k == 1 {
            assert(insert_sorted(h, e)[0] == h[0]);
        } else {
            lemma_insert_sorted_kth(rest, e, k - 1);
            assert((seq![h[0]] + insert_sorted(rest, e))[k - 1] == insert_sorted(rest, e)[k - 2]);
            assert(rest[k - 2] == h[k - 1]);
        }
    } else {
        let whole = seq![e] + h;
        assert(insert_sorted(h, e) == whole);
        if k == 1 {
            assert(whole[0] == e);
            assert(e.score >= h[0].score);
        } else {
            assert(whole[k - 1] == h[k - 2]);
            assert(!ranks_below(h[k - 2], h[k - 1]));
            assert(h[k - 2].score >= h[k - 1].score);
        }
    }
}

/// One offer keeps the heap ordered and within capacity, grows it only
/// while under capacity, and never lowers the floor.
pub proof fn lemma_offer_once_wf(h: Seq<Entry>, k: nat, e: Entry)
    requires
        k >= 1,
        sorted_desc(h),
        h.len() <= k,
    ensures
        sorted_desc(offer_once(h, k, e)),
        offer_once(h, k, e).len() == if h.len() < k { h.len() + 1 } else { k as nat },
        floor_le(floor_of(h, k), floor_of(offer_once(h, k, e), k)),
{
    lemma_insert_sorted_wf(h, e);
    let ins = insert_sorted(h, e);
    if h.len() < k {
        assert(offer_once(h, k, e) == ins);
    } else if above_floor(floor_of(h, k), e.score) {
        let res = ins.take(k as int);
        assert(offer_once(h, k, e) == res);
        assert(sorted_desc(res)) by {
            assert(forall|i: int, j: int| 0 <= i < j < res.len() ==> res[i] == ins[i] && res[j] == ins[j]);
        }
        lemma_insert_sorted_kth(h, e, k as int);
        assert(res[k as int - 1] == ins[k as int - 1]);
    }
}

/// The accumulated heap is always ordered, never over capacity, and
/// holds every offer while under capacity.
pub proof fn lemma_fold_offers_wf(s: Seq<Entry>, k: nat)
    requires
        k >= 1,
    ensures
        sorted_desc(fold_offers(s, k)),
        fold_offers(s, k).len() == if s.len() <= k { s.len() } else { k as nat },
    decreases s.len(),
{
    if s.len() > 0 {
        lemma_fold_offers_wf(s.drop_last(), k);
        lemma_offer_once_wf(fold_offers(s.drop_last(), k), k, s.last());
    }
}

/// Inserting `v` raises the count of `v` by one and leaves every other
/// count unchanged.
proof fn lemma_insert_count(m: Multiset<Entry>, v: Entry, x: Entry)
    ensures
        m.insert(v).count(x) == m.count(x) + if x == v { 1int } else { 0 },
{
    vstd::multiset::lemma_insert_increases_count_by_1(m, v);
    vstd::multiset::lemma_insert_other_elements_unchanged(m, v, x);
}

/// A bounded heap of capacity `k` keeps exactly the `k` best-scoring
/// offers. After offering any sequence `s` to an empty heap, the held
/// entries number `min(s.len(), k)`, every held entry was offered, and
/// every offered entry left out scores no higher than the worst held
/// entry. At capacity the floor — the score at position `k - 1` — is
/// therefore the `k`-th largest offered score.
pub proof fn lemma_fold_offers_top_k(s: Seq<Entry>, k: nat)
    requires
        k >= 1,
    ensures
        fold_offers(s, k).len() == if s.len() <= k { s.len() } else { k as nat },
        s.len() <= k ==> fold_offers(s, k).to_multiset() == s.to_multiset(),
        forall|x: Entry| #[trigger] fold_offers(s, k).to_multiset().count(x) <= s.to_multiset().count(x),
        forall|x: Entry| s.to_multiset().count(x) > #[trigger] fold_offers(s, k).to_multiset().count(x)
            ==> s.len() > k && x.score <= fold_offers(s, k)[k as int - 1].score,
    decreases s.len(),
{
    broadcast use vstd::seq_lib::group_to_multiset_ensures;
    broadcast use vstd::multiset::group_multiset_axioms;
    broadcast use vstd::multiset::group_multiset_properties;

    lemma_fold_offers_wf(s, k);
    if s.len() == 0 {
        assert(fold_offers(s, k) == Seq::<Entry>::empty());
        assert(s.to_multiset() =~= Multiset::empty());
    } else {
        let s0 = s.drop_last();
        let e = s.last();
        let h0 = fold_offers(s0, k);
        let h = fold_offers(s, k);
        lemma_fold_offers_top_k(s0, k);
        lemma_fold_offers_wf(s0, k);
        lemma_insert_sorted_wf(h0, e);
        lemma_offer_once_wf(h0, k, e);
        assert(s =~= s0.push(e));
        assert(s.to_multiset() =~= s0.to_multiset().insert(e));
        assert(h == offer_once(h0, k, e));
        if h0.len() < k {
            assert(h == insert_sorted(h0, e));
            assert(h.to_multiset() =~= h0.to_multiset().insert(e));
            assert(s0.len() < k);
            assert(h0.to_multiset() == s0.to_multiset());
            assert(h.to_multiset() =~= s.to_multiset());
        } else if above_floor(floor_of(h0, k), e.score) {
            let ins = insert_sorted(h0, e);
            let cut = ins[k as int];
            assert(h == ins.take(k as int));
            assert(ins =~= ins.take(k as int).push(cut));
            assert(ins.to_multiset() =~= h.to_multiset().insert(cut));
            assert(ins.to_multiset() == h0.to_multiset().insert(e));
            // the cut entry ranks below every held one
            assert(sorted_desc(ins));
            assert(!ranks_below(ins[k as int - 1], cut));
            assert(cut.score <= h[k as int - 1].score);
            // the old floor never exceeds the new one
            assert(floor_le(floor_of(h0, k), floor_of(h, k)));
            assert(h0[k as int - 1].score <= h[k as int - 1].score);
            assert(s0.len() >= k);
            assert forall|x: Entry| #[trigger] h.to_multiset().count(x) <= s.to_multiset().count(x) by {
                lemma_insert_count(h.to_multiset(), cut, x);
                lemma_insert_count(h0.to_multiset(), e, x);
                lemma_insert_count(s0.to_multiset(), e, x);
                assert(h.to_multiset().insert(cut).count(x) == h0.to_multiset().insert(e).count(x));
                assert(h0.to_multiset().count(x) <= s0.to_multiset().count(x));
            }
            assert forall|x: Entry| s.to_multiset().count(x) > #[trigger] h.to_multiset().count(x)
                implies s.len() > k && x.score <= h[k as int - 1].score by {
                lemma_insert_count(h.to_multiset(), cut, x);
                lemma_insert_count(h0.to_multiset(), e, x);
                lemma_insert_count(s0.to_multiset(), e, x);
                assert(h.to_multiset().insert(cut).count(x) == h0.to_multiset().insert(e).count(x));
                if s0.to_multiset().count(x) > h0.to_multiset().count(x) {
                    assert(x.score <= h0[k as int - 1].score);
                } else {
                    assert(x == cut);
                }
            }
        } else {
            assert(h == h0);
            assert(e.score <= h0[k as int - 1].score);
            assert(s0.len() >= k);
            assert forall|x: Entry| #[trigger] h.to_multiset().count(x) <= s.to_multiset().count(x) by {
                lemma_insert_count(s0.to_multiset(), e, x);
                assert(h0.to_multiset().count(x) <= s0.to_multiset().count(x));
            }
            assert forall|x: Entry| s.to_multiset().count(x) > #[trigger] h.to_multiset().count(x)
                implies s.len() > k && x.score <= h[k as int - 1].score by {
                lemma_insert_count(s0.to_multiset(), e, x);
                if s0.to_multiset().count(x) > h0.to_multiset().count(x) {
                    assert(x.score <= h0[k as int - 1].score);
                } else {
                    assert(x == e);
                }
            }
        }
    }
}

/// `insert_sorted` places the entry at the first position whose
/// occupant ranks below it.
pub proof fn lemma_insert_sorted_at(h: Seq<Entry>, e: Entry, i: int)
    requires
        sorted_desc(h),
        0 <= i <= h.len(),
        forall|j: int| 0 <= j < i ==> !ranks_below(#[trigger] h[j], e),
        i < h.len() ==> ranks_below(h[i], e),
    ensures
        insert_sorted(h, e) == h.insert(i, e),
    decreases h.len(),
{
    if h.len() == 0 {
        assert(insert_sorted(h, e) =~= h.insert(0, e));
    } else if i == 0 {
        assert(ranks_below(h[0], e));
        assert(insert_sorted(h, e) =~= h.insert(0, e));
    } else {
        assert(!ranks_below(h[0], e));
        let rest = h.drop_first();
        assert(sorted_desc(rest)) by {
            assert(forall|a: int, b: int| 0 <= a < b < rest.len() ==> rest[a] == h[a + 1] && rest[b] == h[b + 1]);
        }
        assert(forall|j: int| 0 <= j < i - 1 ==> !ranks_below(#[trigger] rest[j], e)) by {
            assert(forall|j: int| 0 <= j < i - 1 ==> rest[j] == h[j + 1]);
        }
        assert(i - 1 < rest.len() ==> ranks_below(rest[i - 1], e));
        lemma_insert_sorted_at(rest, e, i - 1);
        assert(insert_sorted(h, e) =~= seq![h[0]] + rest.insert(i - 1, e));
        assert(seq![h[0]] + rest.insert(i - 1, e) =~= h.insert(i, e));
    }
}

} // verus!
