use matching_engine::price_level::{PriceLevel, PriceLevelError, PriceLevelNode};

/// Drains a level through `pop_front` and `front`, oldest first.
fn drain(mut level: PriceLevel) -> Vec<u64> {
    let mut ids = Vec::new();
    while level.len() > 1 {
        ids.push(level.pop_front().unwrap());
    }
    ids.push(level.front().unwrap());
    ids
}

#[test]
fn new_level_holds_its_first_order() {
    let level = PriceLevel::new(7);
    assert_eq!(level.len(), 1);
    assert_eq!(level.front().unwrap(), 7);
}

#[test]
fn push_back_keeps_arrival_order() {
    let mut level = PriceLevel::new(1);
    level.push_back(2).unwrap();
    level.push_back(3).unwrap();
    assert_eq!(level.len(), 3);
    assert_eq!(level.front().unwrap(), 1);
    assert_eq!(drain(level), vec![1, 2, 3]);
}

#[test]
fn push_back_refuses_an_order_already_queued() {
    let mut level = PriceLevel::new(1);
    level.push_back(2).unwrap();
    assert!(matches!(level.push_back(1), Err(PriceLevelError::DuplicateOrder)));
    assert!(matches!(level.push_back(2), Err(PriceLevelError::DuplicateOrder)));
    assert_eq!(drain(level), vec![1, 2]);
}

#[test]
fn pop_front_refuses_the_last_order() {
    let mut level = PriceLevel::new(4);
    assert!(matches!(level.pop_front(), Err(PriceLevelError::CannotRemoveLastOrder)));
    assert_eq!(level.front().unwrap(), 4);
}

#[test]
fn delete_from_the_middle_head_and_tail() {
    let mut level = PriceLevel::new(1);
    for id in 2..=5 {
        level.push_back(id).unwrap();
    }
    assert_eq!(level.delete(3).unwrap(), 3);
    assert_eq!(level.delete(1).unwrap(), 1);
    assert_eq!(level.delete(5).unwrap(), 5);
    assert_eq!(level.len(), 2);
    assert_eq!(drain(level), vec![2, 4]);
}

#[test]
fn delete_reports_unknown_and_last_orders() {
    let mut level = PriceLevel::new(1);
    assert!(matches!(level.delete(1), Err(PriceLevelError::CannotRemoveLastOrder)));
    level.push_back(2).unwrap();
    assert!(matches!(level.delete(9), Err(PriceLevelError::UnknownOrder)));
    assert_eq!(drain(level), vec![1, 2]);
}

#[test]
fn slots_freed_by_removal_are_reused_without_mixing_orders() {
    let mut level = PriceLevel::new(1);
    level.push_back(2).unwrap();
    level.push_back(3).unwrap();
    assert_eq!(level.pop_front().unwrap(), 1);
    assert_eq!(level.delete(3).unwrap(), 3);
    level.push_back(4).unwrap();
    level.push_back(5).unwrap();
    assert_eq!(drain(level), vec![2, 4, 5]);
}

#[test]
fn node_constructor_keeps_its_links() {
    let node = PriceLevelNode::new(9, Some(1), None);
    assert_eq!(node.order_id, 9);
    assert_eq!(node.prev, Some(1));
    assert_eq!(node.next, None);
}
