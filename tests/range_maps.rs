use robust_binary_search::range_map::{Bound, RangeMap, RangeMapEntry};
use robust_binary_search::range_map2;
use robust_binary_search::range_map3;
use robust_binary_search::range_map5;
use robust_binary_search::range_map6;

fn bounds<R: std::ops::RangeBounds<usize>>(r: R) -> (Bound, Bound) {
    let start = match r.start_bound() {
        std::ops::Bound::Included(b) => Bound::Included(*b),
        std::ops::Bound::Excluded(b) => Bound::Excluded(*b),
        std::ops::Bound::Unbounded => Bound::Unbounded,
    };
    let end = match r.end_bound() {
        std::ops::Bound::Included(b) => Bound::Included(*b),
        std::ops::Bound::Excluded(b) => Bound::Excluded(*b),
        std::ops::Bound::Unbounded => Bound::Unbounded,
    };
    (start, end)
}

#[test]
fn range_map_range_for_index_empty() {
    let m = RangeMap::new(10, 0.0);
    assert_eq!(
        m.range_for_index(0),
        &RangeMapEntry {
            offset: 0,
            len: 10,
            value: 0.0
        }
    );
    assert_eq!(
        m.range_for_index(9),
        &RangeMapEntry {
            offset: 0,
            len: 10,
            value: 0.0
        }
    );
}

#[test]
fn range_map_split() {
    let mut m = RangeMap::new(10, 0.0);
    assert_eq!(
        m.ranges().iter().collect::<Vec<_>>(),
        vec![&RangeMapEntry {
            offset: 0,
            len: 10,
            value: 0.0
        }]
    );
    let at = m.split(5);
    let (left, right) = m.ranges().split_at(at);
    assert_eq!(
        left.iter().collect::<Vec<_>>(),
        vec![&RangeMapEntry {
            offset: 0,
            len: 5,
            value: 0.0
        }]
    );
    assert_eq!(
        right.iter().collect::<Vec<_>>(),
        vec![&RangeMapEntry {
            offset: 5,
            len: 5,
            value: 0.0
        }]
    );
    assert_eq!(
        m.range_for_index(0),
        &RangeMapEntry {
            offset: 0,
            len: 5,
            value: 0.0
        }
    );
    assert_eq!(
        m.range_for_index(4),
        &RangeMapEntry {
            offset: 0,
            len: 5,
            value: 0.0
        }
    );
    assert_eq!(
        m.range_for_index(5),
        &RangeMapEntry {
            offset: 5,
            len: 5,
            value: 0.0
        }
    );
    assert_eq!(
        m.range_for_index(9),
        &RangeMapEntry {
            offset: 5,
            len: 5,
            value: 0.0
        }
    );
}

#[test]
fn range_map2_range_for_index_empty() {
    let m = range_map2::RangeMap::new(10, 0.0);
    assert_eq!(
        m.range_for_index(0),
        &RangeMapEntry {
            offset: 0,
            len: 10,
            value: 0.0
        }
    );
    assert_eq!(
        m.range_for_index(9),
        &RangeMapEntry {
            offset: 0,
            len: 10,
            value: 0.0
        }
    );
}

#[test]
fn range_map2_split() {
    let mut m = range_map2::RangeMap::new(10, 0.0);
    assert_eq!(
        m.ranges().iter().collect::<Vec<_>>(),
        vec![&RangeMapEntry {
            offset: 0,
            len: 10,
            value: 0.0
        }]
    );
    m.split(5);
    assert_eq!(
        m.range(bounds(0..5)).iter().collect::<Vec<_>>(),
        vec![&RangeMapEntry {
            offset: 0,
            len: 5,
            value: 0.0
        }]
    );
    assert_eq!(
        m.range(bounds(5..)).iter().collect::<Vec<_>>(),
        vec![&RangeMapEntry {
            offset: 5,
            len: 5,
            value: 0.0
        }]
    );
    assert_eq!(
        m.range_for_index(0),
        &RangeMapEntry {
            offset: 0,
            len: 5,
            value: 0.0
        }
    );
    assert_eq!(
        m.range_for_index(4),
        &RangeMapEntry {
            offset: 0,
            len: 5,
            value: 0.0
        }
    );
    assert_eq!(
        m.range_for_index(5),
        &RangeMapEntry {
            offset: 5,
            len: 5,
            value: 0.0
        }
    );
    assert_eq!(
        m.range_for_index(9),
        &RangeMapEntry {
            offset: 5,
            len: 5,
            value: 0.0
        }
    );
}

#[test]
fn range_map5_range_for_index_empty() {
    let m = range_map5::RangeMap::new(10, 0.0);
    assert_eq!(
        m.range_for_index(0),
        &RangeMapEntry {
            offset: 0,
            len: 10,
            value: 0.0
        }
    );
    assert_eq!(
        m.range_for_index(9),
        &RangeMapEntry {
            offset: 0,
            len: 10,
            value: 0.0
        }
    );
}

#[test]
fn range_map5_split() {
    let mut m = range_map5::RangeMap::new(10, 0.0);
    assert_eq!(
        m.ranges().iter().collect::<Vec<_>>(),
        vec![&RangeMapEntry {
            offset: 0,
            len: 10,
            value: 0.0
        }]
    );
    m.split(5);
    assert_eq!(
        m.range(bounds(0..5)).iter().collect::<Vec<_>>(),
        vec![&RangeMapEntry {
            offset: 0,
            len: 5,
            value: 0.0
        }]
    );
    assert_eq!(
        m.range(bounds(5..)).iter().collect::<Vec<_>>(),
        vec![&RangeMapEntry {
            offset: 5,
            len: 5,
            value: 0.0
        }]
    );
    assert_eq!(
        m.range_for_index(0),
        &RangeMapEntry {
            offset: 0,
            len: 5,
            value: 0.0
        }
    );
    assert_eq!(
        m.range_for_index(4),
        &RangeMapEntry {
            offset: 0,
            len: 5,
            value: 0.0
        }
    );
    assert_eq!(
        m.range_for_index(5),
        &RangeMapEntry {
            offset: 5,
            len: 5,
            value: 0.0
        }
    );
    assert_eq!(
        m.range_for_index(9),
        &RangeMapEntry {
            offset: 5,
            len: 5,
            value: 0.0
        }
    );
}

#[test]
fn split_sequence_keeps_partition() {
    let mut m = RangeMap::new(100, 'x');
    for i in [50usize, 10, 0, 100, 50, 99, 1, 73] {
        m.split(i);
        let total: usize = m.ranges().iter().map(|e| e.len()).sum();
        assert_eq!(total, 100);
        assert_eq!(m.len(), 100);
        for j in 0..100 {
            let e = m.range_for_index(j);
            assert!(e.offset() <= j && j < e.end());
            assert_eq!(*e.value(), 'x');
        }
    }
    let offsets: Vec<usize> = m.ranges().iter().map(|e| e.offset()).collect();
    assert_eq!(offsets, vec![0, 1, 10, 50, 73, 99]);
}

#[test]
fn split_at_boundary_changes_nothing() {
    let mut m = RangeMap::new(8, 1u32);
    assert_eq!(m.split(0), 0);
    assert_eq!(m.split(8), 1);
    assert_eq!(m.ranges().len(), 1);
    assert_eq!(m.split(3), 1);
    assert_eq!(m.split(3), 1);
    assert_eq!(m.ranges().len(), 2);
}

#[test]
fn split_keeps_values() {
    let mut m = RangeMap::new(6, 0u32);
    m.split(2);
    m.ranges_mut(|e| if e.offset() < 2 { 7 } else { e.value + 1 });
    m.split(4);
    let got: Vec<(usize, usize, u32)> =
        m.ranges().iter().map(|e| (e.offset, e.len, e.value)).collect();
    assert_eq!(got, vec![(0, 2, 7), (2, 2, 1), (4, 2, 1)]);
    assert_eq!(m.range_for_index(5).value, 1);
    assert_eq!(m.range_for_index(1).value, 7);
}

#[test]
fn update_in_touches_only_the_range() {
    let mut m = RangeMap::new(10, 1u64);
    m.split(3);
    m.split(6);
    m.update_in(bounds(3..6), |e| e.value * 10);
    let got: Vec<u64> = m.ranges().iter().map(|e| e.value).collect();
    assert_eq!(got, vec![1, 10, 1]);
    assert_eq!(m.entries_in(bounds(4..)).len(), 1);
    assert_eq!(m.entries_in(bounds(..=3)).len(), 2);
    assert_eq!(m.entries_in(bounds(7..2)).len(), 0);
}

#[test]
fn entry_accessors() {
    let mut e = RangeMapEntry {
        offset: 4,
        len: 3,
        value: 2i32,
    };
    assert_eq!(e.offset(), 4);
    assert_eq!(e.len(), 3);
    assert_eq!(e.end(), 7);
    *e.value_mut() += 5;
    assert_eq!(*e.value(), 7);
}

#[test]
fn range_map2_range_mut() {
    let mut m = range_map2::RangeMap::new(10, 2u32);
    m.split(4);
    m.range_mut(bounds(4..), |e| e.value * 3);
    assert_eq!(m.range_for_index(3).value, 2);
    assert_eq!(m.range_for_index(4).value, 6);
    assert_eq!(m.len(), 10);
}

#[test]
fn range_map5_switches_to_big() {
    let mut m = range_map5::RangeMap::new2(20, 0u8, 2);
    m.split(5);
    m.split(10);
    m.split(15);
    let offsets: Vec<usize> = m.ranges().iter().map(|e| e.offset).collect();
    assert_eq!(offsets, vec![0, 5, 10, 15]);
    m.ranges_mut(|e| e.offset as u8);
    assert_eq!(m.range_for_index(12).value, 10);
    m.range_mut(bounds(..10), |e| e.value + 1);
    assert_eq!(m.range_for_index(7).value, 6);
    assert_eq!(m.range_for_index(17).value, 15);
    assert_eq!(m.len(), 20);
}

#[test]
fn little_and_big_maps() {
    let mut little = range_map5::LittleRangeMap::new(4, 'a');
    little.split(1);
    assert_eq!(little.ranges().len(), 2);
    assert_eq!(little.len(), 4);
    let mut big = range_map5::BigRangeMap::new(4, 'b');
    big.split(3);
    big.ranges_mut(|e| if e.offset == 3 { 'c' } else { e.value });
    assert_eq!(big.range_for_index(3).value, 'c');
    assert_eq!(big.range(bounds(..)).len(), 2);
}

#[test]
fn range_map3_range_for_index_empty() {
    let m = range_map3::RangeMap::new(10, 0.0);
    assert_eq!(
        m.range_for_index(0),
        &RangeMapEntry {
            offset: 0,
            len: 10,
            value: 0.0
        }
    );
    assert_eq!(
        m.range_for_index(9),
        &RangeMapEntry {
            offset: 0,
            len: 10,
            value: 0.0
        }
    );
}

#[test]
fn range_map3_split() {
    let mut m = range_map3::RangeMap::new(10, 0.0);
    assert_eq!(
        m.ranges(),
        vec![&RangeMapEntry {
            offset: 0,
            len: 10,
            value: 0.0
        }]
    );
    m.split(5);
    assert_eq!(
        m.range(bounds(0..5)),
        vec![&RangeMapEntry {
            offset: 0,
            len: 5,
            value: 0.0
        }]
    );
    assert_eq!(
        m.range(bounds(5..)),
        vec![&RangeMapEntry {
            offset: 5,
            len: 5,
            value: 0.0
        }]
    );
    assert_eq!(
        m.range_for_index(0),
        &RangeMapEntry {
            offset: 0,
            len: 5,
            value: 0.0
        }
    );
    assert_eq!(
        m.range_for_index(4),
        &RangeMapEntry {
            offset: 0,
            len: 5,
            value: 0.0
        }
    );
    assert_eq!(
        m.range_for_index(5),
        &RangeMapEntry {
            offset: 5,
            len: 5,
            value: 0.0
        }
    );
    assert_eq!(
        m.range_for_index(9),
        &RangeMapEntry {
            offset: 5,
            len: 5,
            value: 0.0
        }
    );
}

#[test]
fn node_intersects_range() {
    let node = range_map3::Node {
        values: vec![RangeMapEntry {
            offset: 10,
            len: 5,
            value: (),
        }],
    };
    assert!(node.intersects_range(&bounds(..)));
    assert!(node.intersects_range(&bounds(11..=11)));
    assert!(!node.intersects_range(&bounds(..10)));
    assert!(node.intersects_range(&bounds(..=10)));
    assert!(node.intersects_range(&bounds(14..)));
    assert!(!node.intersects_range(&bounds(15..)));
    assert!(!node.intersects_range(&bounds(16..)));
    assert!(node.intersects_range(&(Bound::Excluded(13), Bound::Unbounded)));
    assert!(!node.intersects_range(&(Bound::Excluded(14), Bound::Unbounded)));
    assert!(!node.intersects_range(&(Bound::Excluded(15), Bound::Unbounded)));
}

#[test]
fn range_map3_many_splits() {
    let mut m = range_map3::RangeMap::new(3000, 1u32);
    for i in 1..2500 {
        m.split(i);
    }
    assert_eq!(m.ranges().len(), 2500);
    assert_eq!(m.len(), 3000);
    let total: usize = m.ranges().iter().map(|e| e.len).sum();
    assert_eq!(total, 3000);
    assert_eq!(m.range_for_index(2999).offset, 2499);
    assert_eq!(m.range_for_index(1700).offset, 1700);
    m.range_mut(bounds(1000..1002), |e| e.value + 1);
    m.ranges_mut(|e| e.value * 2);
    assert_eq!(m.range_for_index(1001).value, 4);
    assert_eq!(m.range_for_index(1002).value, 2);
    assert_eq!(m.range(bounds(2498..)).len(), 2);
    let node = range_map3::Node {
        values: vec![RangeMapEntry {
            offset: 3,
            len: 2,
            value: 0u8,
        }],
    };
    assert!(node.contains(4));
    assert!(!node.contains(5));
    assert_eq!(node.range_for_index(3).map(|e| e.len), Some(2));
    assert_eq!(node.range_for_index(9), None);
}

#[test]
fn range_map6_range_for_index_empty() {
    let m = range_map6::RangeMap::new(10, 0.0, 2);
    assert_eq!(
        m.range_for_index(0),
        &RangeMapEntry {
            offset: 0,
            len: 10,
            value: 0.0
        }
    );
    assert_eq!(
        m.range_for_index(9),
        &RangeMapEntry {
            offset: 0,
            len: 10,
            value: 0.0
        }
    );
}

#[test]
fn range_map6_small_nodes() {
    for branching in [0usize, 1, 2, 3] {
        let mut m = range_map6::RangeMap::new(10, 0u32, branching);
        for i in [5usize, 2, 8, 1, 9, 3] {
            m.split(i);
        }
        let offsets: Vec<usize> = m.ranges().iter().map(|e| e.offset).collect();
        assert_eq!(offsets, vec![0, 1, 2, 3, 5, 8, 9]);
        m.ranges_mut(|e| e.offset as u32);
        for j in 0..10 {
            let e = m.range_for_index(j);
            assert!(e.offset <= j && j < e.offset + e.len);
            assert_eq!(e.value as usize, e.offset);
        }
        assert_eq!(m.len(), 10);
    }
}
