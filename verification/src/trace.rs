use vstd::prelude::*;
use crate::Entry;

verus! {

/// The predicate "absent from `v`", used to report which entries one
/// trace holds and the other lacks.
pub open spec fn absent_from(v: Seq<Entry>) -> spec_fn(Entry) -> bool {
    |e: Entry| !v.contains(e)
}

/// The outcome of comparing two final top-`k` results. `matched` holds
/// exactly when the two are identical; otherwise the report lists the
/// entries present on one side and absent from the other.
pub struct TraceReport {
    pub matched: bool,
    pub left_only: Vec<Entry>,
    pub right_only: Vec<Entry>,
}

fn contains_entry(v: &Vec<Entry>, e: Entry) -> (b: bool)
    ensures
        b == v@.contains(e),
{
    let n = v.len();
    let mut i: usize = 0;
    while i < n
        invariant
            0 <= i <= n,
            n == v@.len(),
            forall|j: int| 0 <= j < i ==> v@[j] != e,
        decreases n - i,
    {
        if v[i].doc == e.doc && v[i].score == e.score {
            assert(v@[i as int] == e);
            return true;
        }
        i += 1;
    }
    false
}

fn entries_absent_from(a: &Vec<Entry>, b: &Vec<Entry>) -> (out: Vec<Entry>)
    ensures
        out@ == a@.filter(absent_from(b@)),
{
    let pred = Ghost(absent_from(b@));
    let n = a.len();
    let mut out: Vec<Entry> = Vec::new();
    let mut i: usize = 0;
    proof {
        reveal(Seq::filter);
        assert(a@.take(0).filter(pred@) =~= Seq::<Entry>::empty());
    }
    while i < n
        invariant
            0 <= i <= n,
            n == a@.len(),
            pred@ == absent_from(b@),
            out@ == a@.take(i as int).filter(pred@),
        decreases n - i,
    {
        let e = a[i];
        if !contains_entry(b, e) {
            out.push(e);
        }
        proof {
            reveal(Seq::filter);
            let pre = a@.take(i as int);
            let ext = a@.take(i as int + 1);
            assert(ext.drop_last() =~= pre);
            assert(ext.last() == e);
            assert(ext.filter(pred@) == if pred@(e) {
                pre.filter(pred@).push(e)
            } else {
                pre.filter(pred@)
            });
        }
        i += 1;
    }
    proof {
        assert(a@.take(n as int) =~= a@);
    }
    out
}

/// Compare two final top-`k` results produced for the same query,
/// segment and capacity. Both arrive in the canonical order — score
/// descending, document id ascending — so the result sets are identical
/// exactly when the sequences are. On mismatch the report carries each
/// side's entries that the other side lacks; a mismatch is a
/// diagnostic, never a crash.
pub fn verify_top_k(left: &Vec<Entry>, right: &Vec<Entry>) -> (r: TraceReport)
    ensures
        r.matched <==> left@ == right@,
        r.left_only@ == left@.filter(absent_from(right@)),
        r.right_only@ == right@.filter(absent_from(left@)),
{
    let mut matched: bool = left.len() == right.len();
    if matched {
        let n = left.len();
        let mut i: usize = 0;
        while i < n && matched
            invariant
                0 <= i <= n,
                n == left@.len() == right@.len(),
                matched ==> forall|j: int| 0 <= j < i ==> left@[j] == right@[j],
                !matched ==> left@ != right@,
            decreases n - i + if matched { 1int } else { 0 },
        {
            if !(left[i].doc == right[i].doc && left[i].score == right[i].score) {
                assert(left@[i as int] != right@[i as int]);
                matched = false;
            }
            i += 1;
        }
        if matched {
            proof {
                assert(left@ =~= right@);
            }
        }
    } else {
        assert(left@ != right@);
    }
    let left_only = entries_absent_from(left, right);
    let right_only = entries_absent_from(right, left);
    TraceReport { matched, left_only, right_only }
}

} // verus!
