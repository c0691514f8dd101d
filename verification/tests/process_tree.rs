use llama_switcher::process_tree::descendants;

#[test]
fn tree_lists_descendants_then_root() {
    // 1 -> 2 -> 4, 1 -> 3, 5 unrelated (child of 9).
    let snapshot = vec![(2, 1), (3, 1), (4, 2), (5, 9), (1, 0)];
    let tree = descendants(1, &snapshot);
    assert_eq!(*tree.last().unwrap(), 1);
    let mut sorted = tree.clone();
    sorted.sort();
    assert_eq!(sorted, vec![1, 2, 3, 4]);
    let pos = |x: u32| tree.iter().position(|&p| p == x).unwrap();
    assert!(pos(4) < pos(2));
    assert!(pos(2) < pos(1) && pos(3) < pos(1));
    assert_eq!(descendants(42, &snapshot), vec![42]);
}

#[test]
fn cycles_in_the_snapshot_terminate() {
    let snapshot = vec![(2, 1), (1, 2), (3, 2)];
    let mut tree = descendants(1, &snapshot);
    tree.sort();
    assert_eq!(tree, vec![1, 2, 3]);
}

#[test]
fn listing_stops_leaves_first() {
    let snapshot = vec![(2, 1), (3, 2)];
    let order = descendants(1, &snapshot);
    assert_eq!(order, vec![3, 2, 1]);
}
