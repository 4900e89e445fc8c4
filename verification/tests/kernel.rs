use topk_eval::heap::BoundedScoreHeap;
use topk_eval::evaluate::{evaluate_exhaustive, evaluate_pruned, PruningEvaluator};
use topk_eval::trace::verify_top_k;
use topk_eval::Entry;

fn synthetic_postings() -> Vec<Entry> {
    // 1000 documents, score = doc id mod 50
    let mut postings: Vec<Entry> = Vec::new();
    let mut doc: u32 = 0;
    while doc < 1000 {
        postings.push(Entry::new(doc, (doc % 50) as u64));
        doc += 1;
    }
    postings
}

#[test]
fn exhaustive_top_ten_of_synthetic_docs() {
    let postings = synthetic_postings();
    let ev = evaluate_exhaustive(&postings, 10);
    let top = ev.top_entries();
    assert_eq!(top.len(), 10);
    // the ten top-scoring documents all score 49; ties break by
    // ascending doc id, so the first ten such documents are kept
    for i in 0..10 {
        assert_eq!(top[i].score, 49);
        assert_eq!(top[i].doc, 49 + 50 * i as u32);
    }
}

#[test]
fn pruning_equals_exhaustive_on_synthetic_docs() {
    let postings = synthetic_postings();
    let exhaustive = evaluate_exhaustive(&postings, 10);
    // a mock engine that tries to skip every candidate: only provably
    // safe skips happen, so the result must match the full scan
    let skip = vec![true; postings.len()];
    let pruned = evaluate_pruned(&postings, &skip, 10);
    let report = verify_top_k(exhaustive.top_entries(), pruned.top_entries());
    assert!(report.matched);
    assert!(report.left_only.is_empty());
    assert!(report.right_only.is_empty());
    // pruning skipped candidates, so it recorded fewer checkpoints;
    // checkpoint counts are expressly not required to agree
    assert!(pruned.checkpoints().len() <= exhaustive.checkpoints().len());
}

#[test]
fn pruning_without_skips_equals_exhaustive() {
    let postings = synthetic_postings();
    let exhaustive = evaluate_exhaustive(&postings, 10);
    let skip = vec![false; postings.len()];
    let pruned = evaluate_pruned(&postings, &skip, 10);
    let report = verify_top_k(exhaustive.top_entries(), pruned.top_entries());
    assert!(report.matched);
}

#[test]
fn heap_size_and_floor_follow_offers() {
    // capacity 2: the floor is the second-largest offered score
    let mut heap = BoundedScoreHeap::new(2);
    assert_eq!(heap.floor(), None);
    let f1 = heap.offer(Entry::new(1, 5));
    assert_eq!(f1, None);
    assert_eq!(heap.len(), 1);
    let f2 = heap.offer(Entry::new(2, 9));
    assert_eq!(f2, Some(5));
    let f3 = heap.offer(Entry::new(3, 7));
    assert_eq!(f3, Some(7));
    assert_eq!(heap.len(), 2);
    // an offer at or below the floor has no effect
    let f4 = heap.offer(Entry::new(4, 7));
    assert_eq!(f4, Some(7));
    let top = heap.entries();
    assert_eq!(top[0].doc, 2);
    assert_eq!(top[0].score, 9);
    assert_eq!(top[1].doc, 3);
    assert_eq!(top[1].score, 7);
}

#[test]
fn heap_ties_keep_first_arrival() {
    let mut heap = BoundedScoreHeap::new(1);
    heap.offer(Entry::new(1, 5));
    heap.offer(Entry::new(2, 5));
    let top = heap.entries();
    assert_eq!(top.len(), 1);
    assert_eq!(top[0].doc, 1);
}

#[test]
fn pruning_floor_never_decreases() {
    let postings = synthetic_postings();
    let mut ev = PruningEvaluator::new(10);
    let mut last: Option<u64> = None;
    for e in postings.iter() {
        let f = ev.on_candidate(e.doc, e.score);
        match (last, f) {
            (Some(a), Some(b)) => assert!(a <= b),
            (Some(_), None) => panic!("floor fell back to negative infinity"),
            _ => {}
        }
        last = f;
    }
    assert_eq!(last, Some(49));
}

#[test]
fn capacity_beyond_matches_returns_them_all() {
    // 5 matches, capacity 20: everything is retained, no error
    let mut postings: Vec<Entry> = Vec::new();
    for doc in 0..5u32 {
        postings.push(Entry::new(doc, (doc + 1) as u64));
    }
    let ev = evaluate_exhaustive(&postings, 20);
    let top = ev.top_entries();
    assert_eq!(top.len(), 5);
    let mut docs: Vec<u32> = top.iter().map(|e| e.doc).collect();
    docs.sort();
    assert_eq!(docs, vec![0, 1, 2, 3, 4]);
}

#[test]
fn zero_matches_leave_heap_empty() {
    let postings: Vec<Entry> = Vec::new();
    let ev = evaluate_exhaustive(&postings, 10);
    assert_eq!(ev.top_entries().len(), 0);
    assert_eq!(ev.checkpoints().len(), 0);
}

#[test]
fn mismatched_traces_are_diagnosed() {
    let left = vec![Entry::new(1, 9), Entry::new(2, 7)];
    let right = vec![Entry::new(1, 9), Entry::new(3, 7)];
    let report = verify_top_k(&left, &right);
    assert!(!report.matched);
    assert_eq!(report.left_only, vec![Entry::new(2, 7)]);
    assert_eq!(report.right_only, vec![Entry::new(3, 7)]);
}

#[test]
fn exhaustive_checkpoints_record_floor_before_offer() {
    let postings = vec![Entry::new(0, 3), Entry::new(1, 5), Entry::new(2, 4)];
    let ev = evaluate_exhaustive(&postings, 1);
    let cps = ev.checkpoints();
    // doc 2 scores below the floor of 5 and is not recorded
    assert_eq!(cps.len(), 2);
    assert_eq!((cps[0].doc, cps[0].floor, cps[0].score), (0, None, 3));
    assert_eq!((cps[1].doc, cps[1].floor, cps[1].score), (1, Some(3), 5));
}
