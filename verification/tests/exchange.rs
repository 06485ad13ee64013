use matching_engine::exchange::{Exchange, ExchangeError};
use matching_engine::types::{Order, Side};

fn order(id: u64, user_id: u64, side: Side, price: u64, remaining: u64) -> Order {
    Order { id, user_id, side, symbol: "BTC".to_string(), price, remaining }
}

/// The run of the engine's demonstration: two sellers and a buyer.
fn seeded_exchange() -> Exchange {
    let symbol = "BTC".to_string();
    let mut exchange = Exchange::new();
    exchange.insert_symbol(symbol.clone());
    exchange.accounts_manager.create_account(1);
    exchange.accounts_manager.increase_position_quantity_for_symbol(1, symbol.clone(), 3).unwrap();
    exchange.accounts_manager.create_account(2);
    exchange.accounts_manager.increase_position_quantity_for_symbol(2, symbol.clone(), 4).unwrap();
    exchange.accounts_manager.create_account(3);
    exchange.accounts_manager.increase_account_balance(3, 1000).unwrap();
    exchange
}

#[test]
fn demonstration_run_matches_and_cancels_the_rest() {
    let mut exchange = seeded_exchange();
    exchange.submit_limit_order(order(1, 1, Side::Ask, 100, 3)).unwrap();
    exchange.submit_limit_order(order(2, 2, Side::Ask, 100, 4)).unwrap();
    let result = exchange.submit_limit_order(order(3, 3, Side::Bid, 100, 10)).unwrap();
    assert_eq!(result.fills.len(), 2);
    assert_eq!(result.fills[0].maker_order_id, 1);
    assert_eq!(result.fills[1].maker_order_id, 2);
    assert_eq!(result.resting_order.as_ref().unwrap().remaining, 3);
    let accounts = &exchange.accounts_manager;
    assert_eq!(accounts.get_balance(1).unwrap(), 300);
    assert_eq!(accounts.get_balance(2).unwrap(), 400);
    assert_eq!(accounts.get_balance(3).unwrap(), 0);
    let cancelled = exchange.cancel_order(3, "BTC".to_string(), 3).unwrap();
    assert_eq!(cancelled.remaining, 3);
    assert_eq!(exchange.accounts_manager.get_balance(3).unwrap(), 300);
    assert!(exchange.accounts_manager.get_user_account(3).unwrap().reservations.is_empty());
}

#[test]
fn submission_errors() {
    let mut exchange = seeded_exchange();
    assert!(matches!(
        exchange.submit_limit_order(order(1, 3, Side::Bid, 0, 1)),
        Err(ExchangeError::Order)
    ));
    let mut eth = order(1, 3, Side::Bid, 1, 1);
    eth.symbol = "ETH".to_string();
    assert!(matches!(exchange.submit_limit_order(eth), Err(ExchangeError::UnknownSymbol)));
    assert!(matches!(
        exchange.submit_limit_order(order(1, 3, Side::Bid, 101, 10)),
        Err(ExchangeError::Account)
    ));
    assert!(matches!(
        exchange.submit_limit_order(order(1, 9, Side::Bid, 1, 1)),
        Err(ExchangeError::Account)
    ));
    assert_eq!(exchange.accounts_manager.get_balance(3).unwrap(), 1000);
}

#[test]
fn cancellation_errors() {
    let mut exchange = seeded_exchange();
    exchange.submit_limit_order(order(1, 1, Side::Ask, 100, 3)).unwrap();
    assert!(matches!(
        exchange.cancel_order(1, "ETH".to_string(), 1),
        Err(ExchangeError::UnknownSymbol)
    ));
    assert!(matches!(
        exchange.cancel_order(1, "BTC".to_string(), 5),
        Err(ExchangeError::UnknownOrder)
    ));
    assert!(matches!(
        exchange.cancel_order(2, "BTC".to_string(), 1),
        Err(ExchangeError::Unauthorized)
    ));
    assert_eq!(exchange.cancel_order(1, "BTC".to_string(), 1).unwrap().id, 1);
}

#[test]
fn cancel_right_after_submit_restores_the_accounts() {
    let mut exchange = seeded_exchange();
    exchange.submit_limit_order(order(1, 1, Side::Ask, 120, 2)).unwrap();
    assert_eq!(
        exchange.accounts_manager.get_position_quantity_for_symbol(1, "BTC".to_string()).unwrap(),
        1
    );
    let result = exchange.submit_limit_order(order(2, 3, Side::Bid, 110, 5)).unwrap();
    assert!(result.fills.is_empty());
    assert_eq!(exchange.accounts_manager.get_balance(3).unwrap(), 450);
    exchange.cancel_order(3, "BTC".to_string(), 2).unwrap();
    exchange.cancel_order(1, "BTC".to_string(), 1).unwrap();
    assert_eq!(exchange.accounts_manager.get_balance(3).unwrap(), 1000);
    assert_eq!(
        exchange.accounts_manager.get_position_quantity_for_symbol(1, "BTC".to_string()).unwrap(),
        3
    );
    let book = exchange.orderbooks.get("BTC").unwrap();
    assert_eq!(book.best_bid(), None);
    assert_eq!(book.best_ask(), None);
}

/// Free balances plus what buy reservations hold, over all accounts.
fn total_funds(exchange: &Exchange) -> u128 {
    exchange
        .accounts_manager
        .accounts
        .values()
        .map(|account| {
            account.balance as u128
                + account
                    .reservations
                    .values()
                    .map(|r| r.price as u128 * r.quantity as u128)
                    .sum::<u128>()
        })
        .sum()
}

/// Free quantities plus what sell reservations hold, over all accounts.
fn total_holding(exchange: &Exchange, symbol: &str) -> u128 {
    exchange
        .accounts_manager
        .accounts
        .values()
        .filter_map(|account| account.positions.get(symbol))
        .map(|position| {
            position.quantity as u128
                + position.reservations.values().map(|r| r.quantity as u128).sum::<u128>()
        })
        .sum()
}

#[test]
fn submissions_keep_the_totals() {
    let mut exchange = seeded_exchange();
    let funds = total_funds(&exchange);
    let units = total_holding(&exchange, "BTC");
    assert_eq!((funds, units), (1000, 7));
    exchange.submit_limit_order(order(1, 1, Side::Ask, 90, 3)).unwrap();
    exchange.submit_limit_order(order(2, 2, Side::Ask, 95, 4)).unwrap();
    assert_eq!((total_funds(&exchange), total_holding(&exchange, "BTC")), (1000, 7));
    let result = exchange.submit_limit_order(order(3, 3, Side::Bid, 100, 5)).unwrap();
    assert_eq!(result.fills.len(), 2);
    assert_eq!((total_funds(&exchange), total_holding(&exchange, "BTC")), (1000, 7));
    assert_eq!(exchange.accounts_manager.get_balance(1).unwrap(), 270);
    assert_eq!(exchange.accounts_manager.get_balance(2).unwrap(), 190);
    assert_eq!(exchange.accounts_manager.get_balance(3).unwrap(), 540);
}

#[test]
fn sell_order_value_beyond_u64_rests() {
    let mut exchange = seeded_exchange();
    let result = exchange.submit_limit_order(order(1, 1, Side::Ask, u64::MAX, 3)).unwrap();
    assert!(result.fills.is_empty());
    assert_eq!(result.resting_order.unwrap().price, u64::MAX);
    let cancelled = exchange.cancel_order(1, "BTC".to_string(), 1).unwrap();
    assert_eq!(cancelled.remaining, 3);
    assert_eq!(
        exchange.accounts_manager.get_position_quantity_for_symbol(1, "BTC".to_string()).unwrap(),
        3
    );
}

#[test]
fn unauthorized_cancel_leaves_the_order() {
    let mut exchange = seeded_exchange();
    exchange.submit_limit_order(order(1, 1, Side::Ask, 100, 3)).unwrap();
    assert!(matches!(
        exchange.cancel_order(3, "BTC".to_string(), 1),
        Err(ExchangeError::Unauthorized)
    ));
    assert_eq!(exchange.orderbooks.get("BTC").unwrap().get_open_order(1).unwrap().remaining, 3);
    assert_eq!(
        exchange.accounts_manager.get_position_quantity_for_symbol(1, "BTC".to_string()).unwrap(),
        0
    );
}

#[test]
fn open_orders_and_reservations_match() {
    let mut exchange = seeded_exchange();
    exchange.submit_limit_order(order(1, 1, Side::Ask, 90, 3)).unwrap();
    exchange.submit_limit_order(order(2, 2, Side::Ask, 95, 4)).unwrap();
    exchange.submit_limit_order(order(3, 3, Side::Bid, 100, 5)).unwrap();
    let book = exchange.orderbooks.get("BTC").unwrap();
    assert!(book.get_open_order(1).is_none());
    let ask = book.get_open_order(2).unwrap();
    assert_eq!(ask.remaining, 2);
    assert!(book.get_open_order(3).is_none());
    let seller = exchange.accounts_manager.get_user_account(2).unwrap();
    let reservation = seller.positions.get("BTC").unwrap().reservations.get(&2).unwrap();
    assert_eq!((reservation.price, reservation.quantity), (ask.price, ask.remaining));
    assert!(exchange.accounts_manager.get_user_account(1).unwrap().positions.get("BTC").unwrap().reservations.is_empty());
    assert!(exchange.accounts_manager.get_user_account(3).unwrap().reservations.is_empty());
    exchange.submit_limit_order(order(4, 3, Side::Bid, 80, 2)).unwrap();
    let book = exchange.orderbooks.get("BTC").unwrap();
    let bid = book.get_open_order(4).unwrap();
    let reservation = *exchange.accounts_manager.get_user_account(3).unwrap().reservations.get(&4).unwrap();
    assert_eq!((reservation.price, reservation.quantity), (bid.price, bid.remaining));
}
