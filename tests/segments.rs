use robust_binary_search::segments::sort_segments;

fn check_order(parents: &Vec<Vec<usize>>, order: &[usize]) {
    for (j, s) in order.iter().enumerate() {
        for p in &parents[*s] {
            assert!(order[..j].contains(p), "segment {} comes before its parent {}", s, p);
        }
    }
    let mut seen = order.to_vec();
    seen.sort();
    seen.dedup();
    assert_eq!(seen.len(), order.len());
}

#[test]
fn sorts_a_chain() {
    let parents = vec![vec![2], vec![], vec![1]];
    let order = sort_segments(&parents);
    assert_eq!(order, vec![1, 2, 0]);
}

#[test]
fn sorts_a_diamond_with_repeated_parents() {
    //   1
    //  / \
    // 0   3
    //  \ /
    //   2
    let parents = vec![vec![], vec![0, 0], vec![0], vec![1, 2, 1]];
    let order = sort_segments(&parents);
    assert_eq!(order.len(), 4);
    assert_eq!(order[0], 0);
    assert_eq!(order[3], 3);
    check_order(&parents, &order);
}

#[test]
fn leaves_out_cycles_and_missing_parents() {
    let parents = vec![vec![], vec![2], vec![1], vec![0], vec![7], vec![4, 3]];
    let order = sort_segments(&parents);
    check_order(&parents, &order);
    let mut got = order.clone();
    got.sort();
    assert_eq!(got, vec![0, 3]);
}

#[test]
fn sorts_nothing() {
    assert!(sort_segments(&vec![]).is_empty());
}
