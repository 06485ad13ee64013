use matching_engine::accounts::{AccountsError, AccountsManager};
use matching_engine::types::{Order, Side, Trade};

fn order(id: u64, user_id: u64, side: Side, price: u64, remaining: u64) -> Order {
    Order { id, user_id, side, symbol: "BTC".to_string(), price, remaining }
}

fn btc_quantity(accounts: &AccountsManager, user_id: u64) -> u64 {
    accounts.get_position_quantity_for_symbol(user_id, "BTC".to_string()).unwrap()
}

#[test]
fn new_account_starts_empty_with_initial_symbols() {
    let mut accounts = AccountsManager::new();
    assert!(matches!(accounts.get_balance(1), Err(AccountsError::UnknownUser)));
    accounts.create_account(1);
    assert_eq!(accounts.get_balance(1).unwrap(), 0);
    assert_eq!(btc_quantity(&accounts, 1), 0);
    assert!(accounts.get_user_account(1).unwrap().reservations.is_empty());
    assert!(matches!(
        accounts.get_position_for_symbol(1, "ETH".to_string()),
        Err(AccountsError::InvalidSymbol)
    ));
}

#[test]
fn create_account_replaces_an_existing_one() {
    let mut accounts = AccountsManager::new();
    accounts.create_account(1);
    accounts.increase_account_balance(1, 50).unwrap();
    accounts.create_account(1);
    assert_eq!(accounts.get_balance(1).unwrap(), 0);
}

#[test]
fn unknown_users_are_reported() {
    let mut accounts = AccountsManager::new();
    assert!(matches!(accounts.increase_account_balance(9, 1), Err(AccountsError::UnknownUser)));
    assert!(matches!(
        accounts.increase_position_quantity_for_symbol(9, "BTC".to_string(), 1),
        Err(AccountsError::UnknownUser)
    ));
    assert!(matches!(
        accounts.is_enough_balance_for_order(&order(1, 9, Side::Bid, 1, 1)),
        Err(AccountsError::UnknownUser)
    ));
    assert!(matches!(
        accounts.reserve_user_balance_for_order(&order(1, 9, Side::Bid, 1, 1)),
        Err(AccountsError::UnknownUser)
    ));
    assert!(matches!(accounts.get_user_account_mut(9), Err(AccountsError::UnknownUser)));
}

#[test]
fn account_reference_writes_through() {
    let mut accounts = AccountsManager::new();
    accounts.create_account(1);
    accounts.get_user_account_mut(1).unwrap().balance = 42;
    assert_eq!(accounts.get_balance(1).unwrap(), 42);
    accounts.get_position_for_symbol_mut(1, "BTC".to_string()).unwrap().quantity = 8;
    assert_eq!(btc_quantity(&accounts, 1), 8);
}

#[test]
fn affordability_checks_balance_and_holding() {
    let mut accounts = AccountsManager::new();
    accounts.create_account(1);
    accounts.increase_account_balance(1, 1_000).unwrap();
    accounts.increase_position_quantity_for_symbol(1, "BTC".to_string(), 5).unwrap();
    assert!(accounts.is_enough_balance_for_order(&order(1, 1, Side::Bid, 100, 10)).is_ok());
    assert!(matches!(
        accounts.is_enough_balance_for_order(&order(1, 1, Side::Bid, 100, 11)),
        Err(AccountsError::InsufficientBalance)
    ));
    assert!(accounts.is_enough_balance_for_order(&order(2, 1, Side::Ask, 1, 5)).is_ok());
    assert!(matches!(
        accounts.is_enough_balance_for_order(&order(2, 1, Side::Ask, 1, 6)),
        Err(AccountsError::InsufficientPositionQuantity)
    ));
    let mut eth = order(3, 1, Side::Ask, 1, 1);
    eth.symbol = "ETH".to_string();
    assert!(matches!(accounts.is_enough_balance_for_order(&eth), Err(AccountsError::InvalidSymbol)));
}

#[test]
fn release_gives_back_a_buy_reservation() {
    let mut accounts = AccountsManager::new();
    accounts.create_account(1);
    accounts.increase_account_balance(1, 1_000).unwrap();
    let bid = order(7, 1, Side::Bid, 30, 20);
    accounts.reserve_user_balance_for_order(&bid).unwrap();
    let reservation = *accounts.get_user_account(1).unwrap().reservations.get(&7).unwrap();
    assert_eq!(reservation.price, 30);
    assert_eq!(reservation.quantity, 20);
    assert_eq!(accounts.get_balance(1).unwrap(), 400);
    accounts.release_reserved_order(&bid).unwrap();
    assert_eq!(accounts.get_balance(1).unwrap(), 1_000);
    assert!(accounts.get_user_account(1).unwrap().reservations.is_empty());
    assert!(matches!(accounts.release_reserved_order(&bid), Err(AccountsError::UnknwonReservation)));
}

#[test]
fn release_gives_back_a_sell_reservation() {
    let mut accounts = AccountsManager::new();
    accounts.create_account(1);
    accounts.increase_position_quantity_for_symbol(1, "BTC".to_string(), 9).unwrap();
    let ask = order(8, 1, Side::Ask, 50, 4);
    accounts.reserve_user_position_for_order(&ask).unwrap();
    assert_eq!(btc_quantity(&accounts, 1), 5);
    accounts.release_reserved_order(&ask).unwrap();
    assert_eq!(btc_quantity(&accounts, 1), 9);
    let position = accounts.get_position_for_symbol(1, "BTC".to_string()).unwrap();
    assert!(position.reservations.is_empty());
}

#[test]
fn settlement_moves_funds_and_quantity_between_users() {
    let mut accounts = AccountsManager::new();
    accounts.create_account(1);
    accounts.create_account(2);
    accounts.increase_account_balance(2, 500).unwrap();
    accounts.increase_position_quantity_for_symbol(1, "BTC".to_string(), 10).unwrap();
    accounts.reserve_user_position_for_order(&order(1, 1, Side::Ask, 40, 10)).unwrap();
    accounts.reserve_user_balance_for_order(&order(2, 2, Side::Bid, 45, 10)).unwrap();
    assert_eq!(accounts.get_balance(2).unwrap(), 50);
    let trade = Trade {
        maker_order_id: 1,
        taker_order_id: 2,
        maker_user_id: 1,
        taker_user_id: 2,
        symbol: "BTC".to_string(),
        taker_side: Side::Bid,
        price: 40,
        quantity: 6,
    };
    accounts.settle_fill(&trade).unwrap();
    // buyer: 6 units for 240 out of 270 reserved; 30 come back, 4 x 45 stay reserved
    assert_eq!(accounts.get_balance(2).unwrap(), 80);
    let buyer_reservation = *accounts.get_user_account(2).unwrap().reservations.get(&2).unwrap();
    assert_eq!(buyer_reservation.quantity, 4);
    assert_eq!(btc_quantity(&accounts, 2), 6);
    // seller: paid 240, 4 units stay reserved
    assert_eq!(accounts.get_balance(1).unwrap(), 240);
    let seller = accounts.get_position_for_symbol(1, "BTC".to_string()).unwrap();
    assert_eq!(seller.reservations.get(&1).unwrap().quantity, 4);
    assert_eq!(seller.quantity, 0);
}

#[test]
fn settlement_of_a_selling_taker() {
    let mut accounts = AccountsManager::new();
    accounts.create_account(1);
    accounts.create_account(2);
    accounts.increase_account_balance(1, 300).unwrap();
    accounts.increase_position_quantity_for_symbol(2, "BTC".to_string(), 3).unwrap();
    accounts.reserve_user_balance_for_order(&order(1, 1, Side::Bid, 100, 3)).unwrap();
    accounts.reserve_user_position_for_order(&order(2, 2, Side::Ask, 90, 3)).unwrap();
    let trade = Trade {
        maker_order_id: 1,
        taker_order_id: 2,
        maker_user_id: 1,
        taker_user_id: 2,
        symbol: "BTC".to_string(),
        taker_side: Side::Ask,
        price: 100,
        quantity: 3,
    };
    accounts.settle_fill(&trade).unwrap();
    assert_eq!(accounts.get_balance(2).unwrap(), 300);
    assert_eq!(accounts.get_balance(1).unwrap(), 0);
    assert_eq!(btc_quantity(&accounts, 1), 3);
    assert!(accounts.get_user_account(1).unwrap().reservations.is_empty());
}

#[test]
fn settlement_reports_a_missing_sell_reservation() {
    let mut accounts = AccountsManager::new();
    accounts.create_account(1);
    accounts.create_account(2);
    let trade = Trade {
        maker_order_id: 1,
        taker_order_id: 2,
        maker_user_id: 1,
        taker_user_id: 2,
        symbol: "BTC".to_string(),
        taker_side: Side::Ask,
        price: 10,
        quantity: 1,
    };
    assert!(matches!(accounts.settle_fill(&trade), Err(AccountsError::UnknwonReservation)));
    assert!(matches!(
        accounts.consume_reserved_position_quantity_for_symbol(1, "ETH".to_string(), 1, 10, 1),
        Err(AccountsError::InvalidSymbol)
    ));
    assert!(matches!(
        accounts.consume_reserved_balance(1, 5, 10, 1),
        Err(AccountsError::UnknwonReservation)
    ));
}
