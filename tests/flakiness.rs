use robust_binary_search::compressed_dag_flakiness_tracker::CompressedDAGFlakinessTracker;
use robust_binary_search::flakiness_tracker::FlakinessTracker;
use robust_binary_search::{CompressedDAG, CompressedDAGNodeRef, CompressedDAGSegment};
use std::rc::Rc;

fn at(segment: usize, index: usize) -> CompressedDAGNodeRef {
    CompressedDAGNodeRef { segment, index }
}

#[test]
fn inversions_empty() {
    let tracker = FlakinessTracker::default();
    assert_eq!(tracker.inversions(), (0, 0));
    assert_eq!(tracker.total_votes(), 0);
}

#[test]
fn inversions_one_head() {
    let mut tracker = FlakinessTracker::default();
    tracker.report(0, true);
    assert_eq!(tracker.inversions(), (0, 1));
    assert_eq!(tracker.total_heads(), 1);
    assert_eq!(tracker.total_tails(), 0);
}

#[test]
fn inversions_pairs() {
    let cases: Vec<(Vec<(usize, bool)>, (usize, usize))> = vec![
        (vec![(0, true), (0, true)], (0, 4)),
        (vec![(0, true), (1, true)], (0, 3)),
        (vec![(0, false), (0, false)], (0, 4)),
        (vec![(0, false), (1, false)], (0, 3)),
        (vec![(0, false), (0, true)], (1, 4)),
        (vec![(0, true), (1, false)], (1, 3)),
        (vec![(0, false), (1, true)], (0, 3)),
        (vec![(1, false), (0, true)], (1, 3)),
    ];
    for (votes, expected) in cases {
        let mut tracker = FlakinessTracker::default();
        for (index, heads) in &votes {
            tracker.report(*index, *heads);
        }
        assert_eq!(tracker.inversions(), expected, "votes = {:?}", votes);
        assert_eq!(tracker.total_votes(), 2);
    }
}

#[test]
fn inversions_hundred_heads_one_tail() {
    let mut tracker = FlakinessTracker::default();
    for _ in 0..100 {
        tracker.report(0, true);
    }
    assert_eq!(tracker.inversions(), (0, 10000));
    tracker.report(0, false);
    assert_eq!(tracker.inversions(), (100, 10201));
    assert_eq!(tracker.total_heads(), 100);
    assert_eq!(tracker.total_tails(), 1);
}

#[test]
fn inversions_hundred_each() {
    let mut same = FlakinessTracker::default();
    let mut inverted = FlakinessTracker::default();
    let mut ordered = FlakinessTracker::default();
    for _ in 0..100 {
        same.report(0, false);
        same.report(0, true);
        inverted.report(0, true);
        inverted.report(1, false);
        ordered.report(0, false);
        ordered.report(1, true);
    }
    assert_eq!(same.inversions(), (10000, 40000));
    assert_eq!(inverted.inversions(), (10000, 30000));
    assert_eq!(ordered.inversions(), (0, 30000));
}

fn graph(segments: &[(usize, Vec<usize>)]) -> Rc<CompressedDAG> {
    let mut graph = CompressedDAG::default();
    for (len, inputs) in segments {
        graph.add_node(CompressedDAGSegment::new(*len), inputs.clone());
    }
    Rc::new(graph)
}

#[test]
fn dag_inversions_single_segment() {
    let g = graph(&[(10, vec![])]);
    let tracker = CompressedDAGFlakinessTracker::new(g.clone());
    assert_eq!(tracker.inversions(), (0, 0));
    let cases: Vec<(Vec<(usize, bool)>, (usize, usize))> = vec![
        (vec![(0, true)], (0, 1)),
        (vec![(0, false)], (0, 1)),
        (vec![(0, true), (0, true)], (0, 4)),
        (vec![(0, true), (1, true)], (0, 3)),
        (vec![(0, false), (0, true)], (1, 4)),
        (vec![(0, true), (1, false)], (1, 3)),
        (vec![(0, false), (1, true)], (0, 3)),
    ];
    for (votes, expected) in cases {
        let mut tracker = CompressedDAGFlakinessTracker::new(g.clone());
        for (index, heads) in &votes {
            tracker.report(at(0, *index), *heads);
        }
        assert_eq!(tracker.inversions(), expected, "votes = {:?}", votes);
    }
}

#[test]
fn dag_inversions_hundreds() {
    let g = graph(&[(10, vec![])]);
    let mut tracker = CompressedDAGFlakinessTracker::new(g);
    for _ in 0..100 {
        tracker.report(at(0, 0), true);
        tracker.report(at(0, 0), false);
        tracker.report(at(0, 1), true);
        tracker.report(at(0, 1), false);
    }
    assert_eq!(tracker.inversions(), (30000, 120000));
}

#[test]
fn dag_inversions_across_segments() {
    let sequential = graph(&[(10, vec![]), (10, vec![0])]);
    let parallel = graph(&[(10, vec![]), (10, vec![])]);
    let join = graph(&[(10, vec![]), (10, vec![]), (10, vec![0, 1])]);
    let cases: Vec<(&Rc<CompressedDAG>, Vec<(CompressedDAGNodeRef, bool)>, (usize, usize))> = vec![
        (&sequential, vec![(at(0, 0), true), (at(1, 0), true)], (0, 3)),
        (&sequential, vec![(at(0, 0), true), (at(1, 0), false)], (1, 3)),
        (&sequential, vec![(at(0, 0), false), (at(1, 0), true)], (0, 3)),
        (&parallel, vec![(at(0, 0), true), (at(1, 0), true)], (0, 2)),
        (&join, vec![(at(0, 0), true), (at(1, 0), true), (at(2, 0), true)], (0, 5)),
        (&join, vec![(at(0, 0), true), (at(1, 0), false), (at(2, 0), false)], (1, 5)),
    ];
    for (g, votes, expected) in cases {
        let mut tracker = CompressedDAGFlakinessTracker::new(g.clone());
        for (node, heads) in &votes {
            tracker.report(*node, *heads);
        }
        assert_eq!(tracker.inversions(), expected);
    }
}

#[test]
fn dag_inversions_count_ancestors_without_votes() {
    // Votes on segment 0 reach segment 2 through segment 1, which has none of its own.
    let g = graph(&[(5, vec![]), (5, vec![0]), (5, vec![1])]);
    let mut tracker = CompressedDAGFlakinessTracker::new(g);
    tracker.report(at(0, 0), true);
    tracker.report(at(2, 0), false);
    assert_eq!(tracker.inversions(), (1, 3));
}

#[test]
fn same_reports_give_same_counts() {
    let votes = [(3usize, true), (1, false), (3, false), (0, true), (1, false), (7, true)];
    let mut a = FlakinessTracker::default();
    let mut b = FlakinessTracker::default();
    for (index, heads) in votes {
        a.report(index, heads);
        b.report(index, heads);
        assert_eq!(a.inversions(), b.inversions());
    }
    assert_eq!(a.inversions(), (4, 23));
    let g = graph(&[(4, vec![]), (4, vec![0]), (4, vec![0]), (4, vec![1, 2])]);
    let mut c = CompressedDAGFlakinessTracker::new(g.clone());
    let mut d = CompressedDAGFlakinessTracker::new(g);
    for (i, (index, heads)) in votes.iter().enumerate() {
        c.report(at(i % 4, *index % 4), *heads);
        d.report(at(i % 4, *index % 4), *heads);
        assert_eq!(c.inversions(), d.inversions());
    }
}
