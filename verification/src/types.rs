use vstd::prelude::*;

verus! {

pub type OrderId = u64;

pub type Price = u64;

pub type Quantity = u64;

pub type UserId = u64;

pub type Symbol = String;

/// Symbols that every exchange and every account starts with.
pub const INITIAL_SYMBOLS: [&'static str; 1] = ["BTC"];

#[derive(Debug, Clone, Copy)]
pub enum Side {
    Bid,
    Ask,
}

/// A limit order: buy (`Bid`) or sell (`Ask`) up to `remaining` units of
/// `symbol` at a price no worse than `price`.
#[derive(Debug, Clone)]
pub struct Order {
    pub id: OrderId,
    pub user_id: UserId,
    pub side: Side,
    pub symbol: Symbol,
    pub price: Price,
    pub remaining: Quantity,
}

impl Order {
    /// A field-by-field copy of the order.
    pub fn duplicate(&self) -> (copy: Order)
        ensures
            copy == *self,
    {
        Order {
            id: self.id,
            user_id: self.user_id,
            side: self.side,
            symbol: self.symbol.clone(),
            price: self.price,
            remaining: self.remaining,
        }
    }
}

/// One execution between a resting (maker) order and an incoming (taker) order.
#[derive(Debug)]
pub struct Trade {
    pub maker_order_id: OrderId,
    pub taker_order_id: OrderId,
    pub maker_user_id: UserId,
    pub taker_user_id: UserId,
    pub symbol: Symbol,
    pub taker_side: Side,
    pub price: Price,
    pub quantity: Quantity,
}

} // verus!
