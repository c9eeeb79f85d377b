use topiq::{QueueGroupSelector, SubscriptionId};

fn sid(n: u64) -> SubscriptionId {
    SubscriptionId(n)
}

#[test]
fn round_robin_selection() {
    let mut selector = QueueGroupSelector::new();
    let members = vec![sid(1), sid(2), sid(3)];

    let first = *selector.select(&members).unwrap();
    let second = *selector.select(&members).unwrap();
    let third = *selector.select(&members).unwrap();
    let fourth = *selector.select(&members).unwrap();

    assert_eq!(first, sid(1));
    assert_eq!(second, sid(2));
    assert_eq!(third, sid(3));
    assert_eq!(fourth, sid(1)); // wraps around
}

#[test]
fn empty_members_returns_none() {
    let mut selector = QueueGroupSelector::new();
    assert!(selector.select(&[]).is_none());
}

#[test]
fn single_member() {
    let mut selector = QueueGroupSelector::new();
    let members = vec![sid(42)];
    assert_eq!(*selector.select(&members).unwrap(), sid(42));
    assert_eq!(*selector.select(&members).unwrap(), sid(42));
}

#[test]
fn select_index_counts_through_group_sizes() {
    let mut selector = QueueGroupSelector::default();
    assert_eq!(selector.select_index(3), 0);
    assert_eq!(selector.select_index(3), 1);
    assert_eq!(selector.select_index(2), 0);
    assert_eq!(selector.select_index(0), 0);
    assert_eq!(selector.select_index(5), 4);
}

#[test]
fn empty_selection_does_not_advance() {
    let mut selector = QueueGroupSelector::new();
    let members = vec![sid(1), sid(2)];
    assert!(selector.select(&[]).is_none());
    assert_eq!(*selector.select(&members).unwrap(), sid(1));
}

#[test]
fn every_member_is_picked_once_per_round() {
    let mut selector = QueueGroupSelector::new();
    let _ = selector.select_index(7);
    let members = vec![sid(10), sid(11), sid(12), sid(13)];
    let mut picked: Vec<u64> = (0..4).map(|_| selector.select(&members).unwrap().0).collect();
    picked.sort();
    assert_eq!(picked, vec![10, 11, 12, 13]);
}
