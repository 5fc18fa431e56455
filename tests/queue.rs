use path_finder::queue::pop_min;

#[test]
fn pop_min_orders_by_distance_then_id() {
    let mut q: Vec<(u128, u64)> = vec![(5, 1), (3, 9), (3, 2), (7, 0)];
    assert_eq!(pop_min(&mut q), (3, 2));
    assert_eq!(pop_min(&mut q), (3, 9));
    assert_eq!(pop_min(&mut q), (5, 1));
    assert_eq!(pop_min(&mut q), (7, 0));
    assert!(q.is_empty());
}
