use im_rc::OrdSet;
use robust_binary_search::dag::DAG;
use robust_binary_search::{CompressedDAGNodeRef, CompressedDAGSegment};

fn set(values: &[usize]) -> OrdSet<usize> {
    values.iter().copied().collect()
}

#[test]
fn ancestor_segments() {
    let mut graph = DAG::default();
    graph.add_node((), vec![]);
    graph.add_node((), vec![0]);
    graph.add_node((), vec![1]);
    graph.add_node((), vec![2]);
    assert_eq!(graph.node(0).ancestors(), &set(&[]));
    assert_eq!(graph.node(1).ancestors(), &set(&[0]));
    assert_eq!(graph.node(2).ancestors(), &set(&[0, 1]));
    assert_eq!(graph.node(3).ancestors(), &set(&[0, 1, 2]));
}

#[test]
fn remainder_ancestors() {
    // 0---1---2
    //  \       \
    //   3---4---x
    let mut graph = DAG::default();
    graph.add_node((), vec![]);
    graph.add_node((), vec![0]);
    graph.add_node((), vec![1]);
    graph.add_node((), vec![0]);
    graph.add_node((), vec![3]);
    graph.add_node((), vec![2, 4]);
    assert_eq!(graph.node(5).remainder_ancestors(), &[3, 4]);
}

#[test]
fn remainder_decomposes_ancestors() {
    let mut graph = DAG::new();
    graph.add_node('a', vec![]);
    graph.add_node('b', vec![0]);
    graph.add_node('c', vec![]);
    graph.add_node('d', vec![1, 2]);
    graph.add_node('e', vec![3, 2, 2, 0]);
    graph.add_node('f', vec![2, 4]);
    for i in 0..graph.nodes().len() {
        let node = graph.node(i);
        if node.inputs().is_empty() {
            assert!(node.ancestors().is_empty());
            assert!(node.remainder_ancestors().is_empty());
            continue;
        }
        let first = node.inputs()[0];
        let mut union = graph.node(first).ancestors().clone();
        union.insert(first);
        for r in node.remainder_ancestors() {
            assert!(!union.contains(r));
            union.insert(*r);
        }
        assert_eq!(&union, node.ancestors());
    }
    assert_eq!(graph.node(5).remainder_ancestors(), &[0, 1, 3, 4]);
    assert_eq!(graph.node(4).ancestors(), &set(&[0, 1, 2, 3]));
    assert_eq!(*graph.node(4).value(), 'e');
    assert_eq!(graph.node(4).inputs(), &[3, 2, 2, 0]);
}

#[test]
fn segments_and_refs() {
    let segment = CompressedDAGSegment::new(3);
    assert_eq!(segment.len(), 3);
    assert!(!segment.is_empty());
    assert!(CompressedDAGSegment::new(0).is_empty());
    assert_eq!(
        CompressedDAGNodeRef::default(),
        CompressedDAGNodeRef {
            segment: 0,
            index: 0
        }
    );
}

#[test]
fn evidence_targets_follow_ancestry() {
    //      /-1-\
    // *-0-*     *-3-*
    //      \-2-/
    let mut graph = DAG::new();
    graph.add_node(CompressedDAGSegment::new(5), vec![]);
    graph.add_node(CompressedDAGSegment::new(5), vec![0]);
    graph.add_node(CompressedDAGSegment::new(5), vec![0]);
    graph.add_node(CompressedDAGSegment::new(5), vec![1, 2]);
    assert_eq!(graph.evidence_targets(2, true), vec![true, false, false, false]);
    assert_eq!(graph.evidence_targets(2, false), vec![false, true, false, true]);
    assert_eq!(graph.evidence_targets(3, true), vec![true, true, true, false]);
    assert_eq!(graph.evidence_targets(0, false), vec![false, true, true, true]);
}
