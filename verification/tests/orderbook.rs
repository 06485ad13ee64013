use matching_engine::orderbook::{OrderError, Orderbook};
use matching_engine::types::{Order, Side};

fn order(id: u64, user_id: u64, side: Side, price: u64, remaining: u64) -> Order {
    Order { id, user_id, side, symbol: "BTC".to_string(), price, remaining }
}

fn rest(book: &mut Orderbook, o: Order) {
    let result = book.handle_limit_order(o).unwrap();
    assert!(result.fills.is_empty());
    assert!(result.resting_order.is_some());
}

#[test]
fn empty_book_has_no_best_prices() {
    let book = Orderbook::new();
    assert_eq!(book.best_bid(), None);
    assert_eq!(book.best_ask(), None);
    assert!(!book.can_match(&order(1, 1, Side::Bid, 100, 1)));
    assert!(!book.can_match(&order(1, 1, Side::Ask, 100, 1)));
}

#[test]
fn best_prices_are_highest_bid_and_lowest_ask() {
    let mut book = Orderbook::new();
    rest(&mut book, order(1, 1, Side::Bid, 90, 1));
    rest(&mut book, order(2, 1, Side::Bid, 95, 1));
    rest(&mut book, order(3, 1, Side::Bid, 80, 1));
    rest(&mut book, order(4, 2, Side::Ask, 110, 1));
    rest(&mut book, order(5, 2, Side::Ask, 105, 1));
    rest(&mut book, order(6, 2, Side::Ask, 120, 1));
    assert_eq!(book.best_bid(), Some(95));
    assert_eq!(book.best_ask(), Some(105));
    assert!(book.can_match(&order(7, 3, Side::Bid, 105, 1)));
    assert!(!book.can_match(&order(7, 3, Side::Bid, 104, 1)));
    assert!(book.can_match(&order(7, 3, Side::Ask, 95, 1)));
    assert!(!book.can_match(&order(7, 3, Side::Ask, 96, 1)));
}

#[test]
fn invalid_orders_are_refused_and_leave_the_book() {
    let mut book = Orderbook::new();
    rest(&mut book, order(1, 1, Side::Ask, 100, 5));
    assert!(matches!(
        book.handle_limit_order(order(2, 2, Side::Bid, 0, 5)),
        Err(OrderError::InvalidPrice)
    ));
    assert!(matches!(
        book.handle_limit_order(order(3, 2, Side::Bid, 100, 0)),
        Err(OrderError::InvalidQuantity)
    ));
    assert!(matches!(Orderbook::validate_order(&order(4, 2, Side::Bid, 0, 0)), Err(OrderError::InvalidPrice)));
    assert!(Orderbook::validate_order(&order(4, 2, Side::Bid, 1, 1)).is_ok());
    assert_eq!(book.get_open_order(1).unwrap().remaining, 5);
    assert_eq!(book.best_ask(), Some(100));
}

#[test]
fn same_price_orders_fill_oldest_first() {
    let mut book = Orderbook::new();
    rest(&mut book, order(1, 1, Side::Ask, 100, 2));
    rest(&mut book, order(2, 2, Side::Ask, 100, 2));
    rest(&mut book, order(3, 3, Side::Ask, 100, 2));
    let result = book.handle_limit_order(order(4, 4, Side::Bid, 100, 3)).unwrap();
    assert_eq!(result.fills.len(), 2);
    assert_eq!(result.fills[0].maker_order_id, 1);
    assert_eq!(result.fills[0].quantity, 2);
    assert_eq!(result.fills[1].maker_order_id, 2);
    assert_eq!(result.fills[1].quantity, 1);
    assert!(result.resting_order.is_none());
    assert!(book.get_open_order(1).is_none());
    assert_eq!(book.get_open_order(2).unwrap().remaining, 1);
    assert_eq!(book.get_open_order(3).unwrap().remaining, 2);
}

#[test]
fn sell_order_sweeps_bids_from_the_highest() {
    let mut book = Orderbook::new();
    rest(&mut book, order(1, 1, Side::Bid, 98, 2));
    rest(&mut book, order(2, 1, Side::Bid, 100, 2));
    rest(&mut book, order(3, 1, Side::Bid, 99, 2));
    let result = book.handle_limit_order(order(4, 2, Side::Ask, 99, 5)).unwrap();
    assert_eq!(result.fills.len(), 2);
    assert_eq!(result.fills[0].price, 100);
    assert_eq!(result.fills[0].maker_order_id, 2);
    assert_eq!(result.fills[1].price, 99);
    assert_eq!(result.fills[1].maker_order_id, 3);
    let resting = result.resting_order.unwrap();
    assert_eq!(resting.remaining, 1);
    assert_eq!(resting.price, 99);
    // what rests is above the best bid left: the book is not crossed
    assert_eq!(book.best_bid(), Some(98));
    assert_eq!(book.best_ask(), Some(99));
}

#[test]
fn fills_and_rest_add_up_to_the_order() {
    let mut book = Orderbook::new();
    rest(&mut book, order(1, 1, Side::Ask, 101, 4));
    rest(&mut book, order(2, 1, Side::Ask, 102, 6));
    let result = book.handle_limit_order(order(3, 2, Side::Bid, 102, 15)).unwrap();
    let filled: u64 = result.fills.iter().map(|t| t.quantity).sum();
    assert_eq!(filled, 10);
    assert_eq!(result.resting_order.as_ref().unwrap().remaining, 5);
    for fill in &result.fills {
        assert!(fill.price <= 102);
        assert_eq!(fill.taker_order_id, 3);
        assert_eq!(fill.taker_user_id, 2);
    }
    assert_eq!(book.best_ask(), None);
    assert_eq!(book.best_bid(), Some(102));
}

#[test]
fn partly_filled_maker_keeps_its_place() {
    let mut book = Orderbook::new();
    rest(&mut book, order(1, 1, Side::Ask, 100, 10));
    rest(&mut book, order(2, 1, Side::Ask, 100, 10));
    let result = book.handle_limit_order(order(3, 2, Side::Bid, 100, 4)).unwrap();
    assert_eq!(result.fills.len(), 1);
    assert_eq!(result.fills[0].quantity, 4);
    assert_eq!(book.get_open_order(1).unwrap().remaining, 6);
    let next = book.handle_limit_order(order(4, 2, Side::Bid, 100, 1)).unwrap();
    assert_eq!(next.fills[0].maker_order_id, 1);
}

#[test]
fn cancel_takes_the_order_out() {
    let mut book = Orderbook::new();
    rest(&mut book, order(1, 1, Side::Bid, 90, 3));
    rest(&mut book, order(2, 1, Side::Bid, 90, 3));
    let cancelled = book.cancel_order(1).unwrap();
    assert_eq!(cancelled.id, 1);
    assert_eq!(cancelled.remaining, 3);
    assert!(book.get_open_order(1).is_none());
    assert!(book.cancel_order(1).is_none());
    assert_eq!(book.best_bid(), Some(90));
    book.cancel_order(2).unwrap();
    assert_eq!(book.best_bid(), None);
}

#[test]
fn cancel_after_rest_gives_the_book_back() {
    let mut book = Orderbook::new();
    rest(&mut book, order(1, 1, Side::Bid, 90, 3));
    rest(&mut book, order(2, 2, Side::Ask, 110, 3));
    rest(&mut book, order(3, 3, Side::Bid, 95, 1));
    assert_eq!(book.best_bid(), Some(95));
    book.cancel_order(3).unwrap();
    assert_eq!(book.best_bid(), Some(90));
    assert_eq!(book.best_ask(), Some(110));
    assert_eq!(book.get_open_order(1).unwrap().remaining, 3);
    assert_eq!(book.get_open_order(2).unwrap().remaining, 3);
}

#[test]
fn invalid_order_with_an_open_id_is_refused() {
    let mut book = Orderbook::new();
    rest(&mut book, order(1, 1, Side::Ask, 100, 5));
    assert!(matches!(
        book.handle_limit_order(order(1, 2, Side::Bid, 0, 5)),
        Err(OrderError::InvalidPrice)
    ));
    assert!(matches!(
        book.handle_limit_order(order(1, 2, Side::Bid, 100, 0)),
        Err(OrderError::InvalidQuantity)
    ));
    assert_eq!(book.get_open_order(1).unwrap().remaining, 5);
}
