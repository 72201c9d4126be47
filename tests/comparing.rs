use cvtree::bacteria::{Bacteria, Residual, Scratch};
use cvtree::correlation::{common_windows, is_ascending};
use cvtree::pipeline::{all_pairs, canonical_pair, LoadTracker, SlotError, SlotState};

fn res(index: u64, num: i128, den: u128) -> Residual {
    Residual { index, num, den }
}

fn value(e: &Residual) -> f64 {
    e.num as f64 / e.den as f64
}

fn score(a: &[Residual], b: &[Residual]) -> f64 {
    let pairs = common_windows(a, b);
    let cross: f64 = pairs.iter().map(|(p, q)| value(&a[*p]) * value(&b[*q])).sum();
    let n1: f64 = a.iter().map(|e| value(e) * value(e)).sum();
    let n2: f64 = b.iter().map(|e| value(e) * value(e)).sum();
    cross / (n1.sqrt() * n2.sqrt())
}

#[test]
fn merge_pairs_shared_windows() {
    let a = vec![res(1, 1, 1), res(4, 2, 1), res(9, 3, 1), res(12, 1, 2)];
    let b = vec![res(0, 5, 1), res(4, 1, 1), res(12, 7, 3), res(15, 1, 1)];
    assert_eq!(common_windows(&a, &b), vec![(1, 1), (3, 2)]);
    assert_eq!(common_windows(&b, &a), vec![(1, 1), (2, 3)]);
    assert_eq!(common_windows(&a, &[]), vec![]);
    assert_eq!(common_windows(&a, &a), vec![(0, 0), (1, 1), (2, 2), (3, 3)]);
}

#[test]
fn ascending_check() {
    assert!(is_ascending(&[]));
    assert!(is_ascending(&[res(3, 0, 1)]));
    assert!(is_ascending(&[res(1, 0, 1), res(2, 0, 1), res(9, 0, 1)]));
    assert!(!is_ascending(&[res(1, 0, 1), res(1, 0, 1)]));
    assert!(!is_ascending(&[res(1, 0, 1), res(5, 0, 1), res(4, 0, 1)]));
}

#[test]
fn correlation_of_small_vectors() {
    let a = vec![res(1, 1, 1), res(2, 2, 1)];
    let b = vec![res(2, 1, 1), res(3, 1, 1)];
    // cross 2, norms 5 and 2
    let s = score(&a, &b);
    assert!((s - 2.0 / (5.0f64.sqrt() * 2.0f64.sqrt())).abs() < 1e-12);
    assert!(score(&a, &[]).is_nan());
}

#[test]
fn loaded_vectors_self_similarity_and_symmetry() {
    let mut scratch = Scratch::new();
    let x = Bacteria::from_bytes(b">x\nMKVLAAGIVGLLLAWQERSTTT\n", &mut scratch).unwrap();
    scratch.clear();
    let y = Bacteria::from_bytes(b">y\nMKVLAAGWWWWLLAWQERSPPP\n", &mut scratch).unwrap();
    assert!(is_ascending(&x.cs));
    assert!(is_ascending(&y.cs));
    assert!((score(&x.cs, &x.cs) - 1.0).abs() < 1e-9);
    assert_eq!(score(&x.cs, &y.cs), score(&y.cs, &x.cs));
}

#[test]
fn pair_schedule() {
    assert_eq!(all_pairs(0), vec![]);
    assert_eq!(all_pairs(1), vec![]);
    assert_eq!(all_pairs(4), vec![(0, 1), (0, 2), (0, 3), (1, 2), (1, 3), (2, 3)]);
    assert_eq!(all_pairs(41).len(), 820);
}

#[test]
fn canonical_pairs() {
    assert_eq!(canonical_pair(3, 7), (3, 7));
    assert_eq!(canonical_pair(7, 3), (3, 7));
    assert_eq!(canonical_pair(4, 4), (4, 4));
}

#[test]
fn slots_go_pending_loading_frozen() {
    let mut t = LoadTracker::new(2);
    assert_eq!(t.states, vec![SlotState::Pending, SlotState::Pending]);
    assert!(!t.is_done());
    assert_eq!(t.finish_load(0), Err(SlotError::WrongState));
    assert_eq!(t.begin_load(2), Err(SlotError::OutOfRange));
    assert_eq!(t.begin_load(1), Ok(()));
    assert_eq!(t.begin_load(1), Err(SlotError::WrongState));
    assert_eq!(t.begin_load(0), Ok(()));
    assert_eq!(t.finish_load(1), Ok(false));
    assert_eq!(t.finish_load(1), Err(SlotError::WrongState));
    assert_eq!(t.finish_load(0), Ok(true));
    assert!(t.is_done());
    assert_eq!(t.states, vec![SlotState::Frozen, SlotState::Frozen]);
    assert_eq!(t.finish_load(5), Err(SlotError::OutOfRange));
}

#[test]
fn no_slots_is_done() {
    let t = LoadTracker::new(0);
    assert!(t.is_done());
}
