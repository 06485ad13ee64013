use crate::map_access::hash_map_get_mut;
use crate::symbol_map::SymbolMap;
use crate::types::{Order, OrderId, Price, Quantity, Side, Symbol, Trade, UserId, INITIAL_SYMBOLS};
use std::collections::HashMap;
use vstd::prelude::*;

verus! {

// ---------------------------------------------------------------------------
// Accounts and their models
// ---------------------------------------------------------------------------
/// What an open order holds back: its limit price and the quantity still reserved.
#[derive(Debug, Clone, Copy)]
pub struct Reservation {
    pub price: Price,
    pub quantity: Quantity,
}

/// A user's holding of one symbol: the free quantity and what open sell orders hold back.
#[derive(Debug)]
pub struct UserPosition {
    pub quantity: Quantity,
    pub reservations: HashMap<OrderId, Reservation>,
}

/// A user's account: the free balance, what open buy orders hold back, and the
/// holdings by symbol.
#[derive(Debug)]
pub struct UserAccount {
    pub balance: Price,
    pub reservations: HashMap<OrderId, Reservation>,
    pub positions: SymbolMap<UserPosition>,
}

#[derive(Debug)]
pub enum AccountsError {
    InvalidPrice,
    InvalidQuantity,
    UnknownUser,
    InsufficientBalance,
    InsufficientPositionQuantity,
    InvalidSymbol,
    UnknwonReservation,
}

#[derive(Debug)]
pub struct AccountsManager {
    pub accounts: HashMap<UserId, UserAccount>,
}

pub struct PositionModel {
    pub quantity: Quantity,
    pub reservations: Map<OrderId, Reservation>,
}

pub struct AccountModel {
    pub balance: Price,
    pub reservations: Map<OrderId, Reservation>,
    pub positions: Map<Seq<char>, PositionModel>,
}

impl View for UserPosition {
    type V = PositionModel;

    open spec fn view(&self) -> PositionModel {
        PositionModel { quantity: self.quantity, reservations: self.reservations@ }
    }
}

impl View for UserAccount {
    type V = AccountModel;

    open spec fn view(&self) -> AccountModel {
        AccountModel {
            balance: self.balance,
            reservations: self.reservations@,
            positions: self.positions@.map_values(|position: UserPosition| position@),
        }
    }
}

impl View for AccountsManager {
    type V = Map<UserId, AccountModel>;

    open spec fn view(&self) -> Map<UserId, AccountModel> {
        self.accounts@.map_values(|account: UserAccount| account@)
    }
}

/// An empty holding.
pub open spec fn empty_position() -> PositionModel {
    PositionModel { quantity: 0, reservations: Map::empty() }
}

/// The holdings an account starts with: an empty one of each initial symbol.
pub open spec fn initial_positions() -> Map<Seq<char>, PositionModel> {
    Map::new(
        |symbol: Seq<char>|
            exists|i: int| 0 <= i < INITIAL_SYMBOLS@.len() && INITIAL_SYMBOLS@[i]@ == symbol,
        |symbol: Seq<char>| empty_position(),
    )
}

/// A new account: no balance, no reservation, the initial holdings.
pub open spec fn new_account() -> AccountModel {
    AccountModel { balance: 0, reservations: Map::empty(), positions: initial_positions() }
}

/// Reservations after `quantity` of the one of `order_id` is used: the rest stays
/// reserved, and the reservation goes once nothing is left of it.
pub open spec fn use_reservation(
    reservations: Map<OrderId, Reservation>,
    order_id: OrderId,
    quantity: Quantity,
) -> Map<OrderId, Reservation> {
    let reservation = reservations[order_id];
    if reservation.quantity == quantity {
        reservations.remove(order_id)
    } else {
        reservations.insert(
            order_id,
            Reservation { quantity: (reservation.quantity - quantity) as u64, ..reservation },
        )
    }
}

/// A fill of `quantity` at `price` against the buy reservation `order_id`: the part of
/// the reservation that the lower price leaves over goes back to the balance.
pub open spec fn account_consume_balance(
    account: AccountModel,
    order_id: OrderId,
    price: Price,
    quantity: Quantity,
) -> Result<AccountModel, AccountsError> {
    if !account.reservations.contains_key(order_id) {
        Err(AccountsError::UnknwonReservation)
    } else {
        let reservation = account.reservations[order_id];
        Ok(
            AccountModel {
                balance: (account.balance + quantity * (reservation.price - price)) as u64,
                reservations: use_reservation(account.reservations, order_id, quantity),
                ..account
            },
        )
    }
}

/// The arithmetic of `account_consume_balance` stays within `u64`.
pub open spec fn consume_balance_fits(
    account: AccountModel,
    order_id: OrderId,
    price: Price,
    quantity: Quantity,
) -> bool {
    account.reservations.contains_key(order_id) ==> {
        let reservation = account.reservations[order_id];
        &&& price <= reservation.price
        &&& quantity <= reservation.quantity
        &&& quantity * reservation.price <= u64::MAX
        &&& account.balance + quantity * (reservation.price - price) <= u64::MAX
    }
}

/// A fill of `quantity` at `price` against the sell reservation `order_id` of `symbol`:
/// the proceeds go to the balance.
pub open spec fn account_consume_position(
    account: AccountModel,
    symbol: Seq<char>,
    order_id: OrderId,
    price: Price,
    quantity: Quantity,
) -> Result<AccountModel, AccountsError> {
    if !account.positions.contains_key(symbol) {
        Err(AccountsError::InvalidSymbol)
    } else if !account.positions[symbol].reservations.contains_key(order_id) {
        Err(AccountsError::UnknwonReservation)
    } else {
        let position = account.positions[symbol];
        Ok(
            AccountModel {
                balance: (account.balance + price * quantity) as u64,
                positions: account.positions.insert(
                    symbol,
                    PositionModel {
                        reservations: use_reservation(position.reservations, order_id, quantity),
                        ..position
                    },
                ),
                ..account
            },
        )
    }
}

/// The arithmetic of `account_consume_position` stays within `u64`.
pub open spec fn consume_position_fits(
    account: AccountModel,
    symbol: Seq<char>,
    order_id: OrderId,
    price: Price,
    quantity: Quantity,
) -> bool {
    account.positions.contains_key(symbol) && account.positions[symbol].reservations.contains_key(
        order_id,
    ) ==> {
        &&& quantity <= account.positions[symbol].reservations[order_id].quantity
        &&& price * quantity <= u64::MAX
        &&& account.balance + price * quantity <= u64::MAX
    }
}

/// `quantity` more of `symbol` for the account.
pub open spec fn account_increase_position(
    account: AccountModel,
    symbol: Seq<char>,
    quantity: Quantity,
) -> Result<AccountModel, AccountsError> {
    if !account.positions.contains_key(symbol) {
        Err(AccountsError::InvalidSymbol)
    } else {
        let position = account.positions[symbol];
        Ok(
            AccountModel {
                positions: account.positions.insert(
                    symbol,
                    PositionModel { quantity: (position.quantity + quantity) as u64, ..position },
                ),
                ..account
            },
        )
    }
}

/// The arithmetic of `account_increase_position` stays within `u64`.
pub open spec fn increase_position_fits(
    account: AccountModel,
    symbol: Seq<char>,
    quantity: Quantity,
) -> bool {
    account.positions.contains_key(symbol) ==> account.positions[symbol].quantity + quantity
        <= u64::MAX
}

/// An update of the account of `user` applied to all accounts; `UnknownUser` when
/// there is no such account.
pub open spec fn with_account(
    accounts: Map<UserId, AccountModel>,
    user_id: UserId,
    updated: Result<AccountModel, AccountsError>,
) -> Result<Map<UserId, AccountModel>, AccountsError> {
    if !accounts.contains_key(user_id) {
        Err(AccountsError::UnknownUser)
    } else {
        match updated {
            Ok(account) => Ok(accounts.insert(user_id, account)),
            Err(e) => Err(e),
        }
    }
}

pub open spec fn spec_consume_balance(
    accounts: Map<UserId, AccountModel>,
    user_id: UserId,
    order_id: OrderId,
    price: Price,
    quantity: Quantity,
) -> Result<Map<UserId, AccountModel>, AccountsError> {
    with_account(
        accounts,
        user_id,
        account_consume_balance(accounts[user_id], order_id, price, quantity),
    )
}

pub open spec fn spec_consume_position(
    accounts: Map<UserId, AccountModel>,
    user_id: UserId,
    symbol: Seq<char>,
    order_id: OrderId,
    price: Price,
    quantity: Quantity,
) -> Result<Map<UserId, AccountModel>, AccountsError> {
    with_account(
        accounts,
        user_id,
        account_consume_position(accounts[user_id], symbol, order_id, price, quantity),
    )
}

pub open spec fn spec_increase_position(
    accounts: Map<UserId, AccountModel>,
    user_id: UserId,
    symbol: Seq<char>,
    quantity: Quantity,
) -> Result<Map<UserId, AccountModel>, AccountsError> {
    with_account(accounts, user_id, account_increase_position(accounts[user_id], symbol, quantity))
}

pub open spec fn spec_increase_balance(
    accounts: Map<UserId, AccountModel>,
    user_id: UserId,
    amount: Price,
) -> Result<Map<UserId, AccountModel>, AccountsError> {
    let account = accounts[user_id];
    with_account(
        accounts,
        user_id,
        Ok(AccountModel { balance: (account.balance + amount) as u64, ..account }),
    )
}

/// A buy order holds back its price times its quantity from the balance.
pub open spec fn spec_reserve_balance(accounts: Map<UserId, AccountModel>, order: Order) -> Result<
    Map<UserId, AccountModel>,
    AccountsError,
> {
    let account = accounts[order.user_id];
    with_account(
        accounts,
        order.user_id,
        Ok(
            AccountModel {
                balance: (account.balance - order.price * order.remaining) as u64,
                reservations: account.reservations.insert(
                    order.id,
                    Reservation { price: order.price, quantity: order.remaining },
                ),
                ..account
            },
        ),
    )
}

/// A sell order holds back its quantity from the holding of its symbol.
pub open spec fn spec_reserve_position(accounts: Map<UserId, AccountModel>, order: Order) -> Result<
    Map<UserId, AccountModel>,
    AccountsError,
> {
    let account = accounts[order.user_id];
    let symbol = order.symbol@;
    let position = account.positions[symbol];
    with_account(
        accounts,
        order.user_id,
        if !account.positions.contains_key(symbol) {
            Err(AccountsError::InvalidSymbol)
        } else {
            Ok(
                AccountModel {
                    positions: account.positions.insert(
                        symbol,
                        PositionModel {
                            quantity: (position.quantity - order.remaining) as u64,
                            reservations: position.reservations.insert(
                                order.id,
                                Reservation { price: order.price, quantity: order.remaining },
                            ),
                        },
                    ),
                    ..account
                },
            )
        },
    )
}

/// An order's reservation is given back: its price times its quantity to the balance for
/// a buy order, its quantity to the holding for a sell order.
pub open spec fn spec_release(accounts: Map<UserId, AccountModel>, order: Order) -> Result<
    Map<UserId, AccountModel>,
    AccountsError,
> {
    let account = accounts[order.user_id];
    let symbol = order.symbol@;
    let position = account.positions[symbol];
    with_account(
        accounts,
        order.user_id,
        match order.side {
            Side::Bid => if !account.reservations.contains_key(order.id) {
                Err(AccountsError::UnknwonReservation)
            } else {
                Ok(
                    AccountModel {
                        balance: (account.balance + order.price * order.remaining) as u64,
                        reservations: account.reservations.remove(order.id),
                        ..account
                    },
                )
            },
            Side::Ask => if !account.positions.contains_key(symbol) {
                Err(AccountsError::InvalidSymbol)
            } else if !position.reservations.contains_key(order.id) {
                Err(AccountsError::UnknwonReservation)
            } else {
                Ok(
                    AccountModel {
                        positions: account.positions.insert(
                            symbol,
                            PositionModel {
                                quantity: (position.quantity + order.remaining) as u64,
                                reservations: position.reservations.remove(order.id),
                            },
                        ),
                        ..account
                    },
                )
            },
        },
    )
}

/// The arithmetic of `spec_release` stays within `u64`.
pub open spec fn release_fits(accounts: Map<UserId, AccountModel>, order: Order) -> bool {
    accounts.contains_key(order.user_id) ==> {
        let account = accounts[order.user_id];
        let symbol = order.symbol@;
        match order.side {
            Side::Bid => account.reservations.contains_key(order.id) ==> account.balance
                + order.price * order.remaining <= u64::MAX,
            Side::Ask => account.positions.contains_key(symbol)
                && account.positions[symbol].reservations.contains_key(order.id)
                ==> account.positions[symbol].quantity + order.remaining <= u64::MAX,
        }
    }
}

/// Whether the user can afford the order: the balance covers its price times its
/// quantity for a buy order, the holding of its symbol covers its quantity for a sell order.
pub open spec fn spec_enough_for_order(accounts: Map<UserId, AccountModel>, order: Order) -> Result<
    (),
    AccountsError,
> {
    if !accounts.contains_key(order.user_id) {
        Err(AccountsError::UnknownUser)
    } else {
        let account = accounts[order.user_id];
        match order.side {
            Side::Bid => if account.balance >= order.remaining * order.price {
                Ok(())
            } else {
                Err(AccountsError::InsufficientBalance)
            },
            Side::Ask => if !account.positions.contains_key(order.symbol@) {
                Err(AccountsError::InvalidSymbol)
            } else if order.remaining <= account.positions[order.symbol@].quantity {
                Ok(())
            } else {
                Err(AccountsError::InsufficientPositionQuantity)
            },
        }
    }
}

/// Whether a call that returned `r` and left the accounts `after` did what `expected`
/// says: on success the accounts it gives, on an error that error with the accounts
/// unchanged.
pub open spec fn follows(
    before: Map<UserId, AccountModel>,
    after: Map<UserId, AccountModel>,
    r: Result<(), AccountsError>,
    expected: Result<Map<UserId, AccountModel>, AccountsError>,
) -> bool {
    match expected {
        Ok(accounts) => r is Ok && after == accounts,
        Err(e) => r == Err::<(), AccountsError>(e) && after == before,
    }
}

/// Settling a trade: for a buying taker, its buy reservation is used, it receives the
/// quantity, and the selling maker's reservation is used and paid; for a selling taker,
/// its sell reservation is used and paid, the buying maker's reservation is used, and
/// the maker receives the quantity. The steps run in that order and the first error
/// stops them, leaving the effect of the steps before it. Gives the accounts and the
/// outcome.
pub open spec fn spec_settle_fill(accounts: Map<UserId, AccountModel>, trade: Trade) -> (
    Map<UserId, AccountModel>,
    Result<(), AccountsError>,
) {
    let symbol = trade.symbol@;
    match trade.taker_side {
        Side::Bid => match spec_consume_balance(
            accounts,
            trade.taker_user_id,
            trade.taker_order_id,
            trade.price,
            trade.quantity,
        ) {
            Err(e) => (accounts, Err(e)),
            Ok(step1) => match spec_increase_position(
                step1,
                trade.taker_user_id,
                symbol,
                trade.quantity,
            ) {
                Err(e) => (step1, Err(e)),
                Ok(step2) => match spec_consume_position(
                    step2,
                    trade.maker_user_id,
                    symbol,
                    trade.maker_order_id,
                    trade.price,
                    trade.quantity,
                ) {
                    Err(e) => (step2, Err(e)),
                    Ok(step3) => (step3, Ok(())),
                },
            },
        },
        Side::Ask => match spec_consume_position(
            accounts,
            trade.taker_user_id,
            symbol,
            trade.taker_order_id,
            trade.price,
            trade.quantity,
        ) {
            Err(e) => (accounts, Err(e)),
            Ok(step1) => match spec_consume_balance(
                step1,
                trade.maker_user_id,
                trade.maker_order_id,
                trade.price,
                trade.quantity,
            ) {
                Err(e) => (step1, Err(e)),
                Ok(step2) => match spec_increase_position(
                    step2,
                    trade.maker_user_id,
                    symbol,
                    trade.quantity,
                ) {
                    Err(e) => (step2, Err(e)),
                    Ok(step3) => (step3, Ok(())),
                },
            },
        },
    }
}

/// The arithmetic of every step of settling `trade` stays within `u64`.
pub open spec fn settle_fill_fits(accounts: Map<UserId, AccountModel>, trade: Trade) -> bool {
    let symbol = trade.symbol@;
    match trade.taker_side {
        Side::Bid => {
            &&& accounts.contains_key(trade.taker_user_id) ==> consume_balance_fits(
                accounts[trade.taker_user_id],
                trade.taker_order_id,
                trade.price,
                trade.quantity,
            )
            &&& spec_consume_balance(
                accounts,
                trade.taker_user_id,
                trade.taker_order_id,
                trade.price,
                trade.quantity,
            ) matches Ok(step1) ==> {
                &&& increase_position_fits(step1[trade.taker_user_id], symbol, trade.quantity)
                &&& spec_increase_position(step1, trade.taker_user_id, symbol, trade.quantity) matches Ok(step2)
                    ==> (step2.contains_key(trade.maker_user_id) ==> consume_position_fits(
                    step2[trade.maker_user_id],
                    symbol,
                    trade.maker_order_id,
                    trade.price,
                    trade.quantity,
                ))
            }
        },
        Side::Ask => {
            &&& accounts.contains_key(trade.taker_user_id) ==> consume_position_fits(
                accounts[trade.taker_user_id],
                symbol,
                trade.taker_order_id,
                trade.price,
                trade.quantity,
            )
            &&& spec_consume_position(
                accounts,
                trade.taker_user_id,
                symbol,
                trade.taker_order_id,
                trade.price,
                trade.quantity,
            ) matches Ok(step1) ==> {
                &&& step1.contains_key(trade.maker_user_id) ==> consume_balance_fits(
                    step1[trade.maker_user_id],
                    trade.maker_order_id,
                    trade.price,
                    trade.quantity,
                )
                &&& spec_consume_balance(
                    step1,
                    trade.maker_user_id,
                    trade.maker_order_id,
                    trade.price,
                    trade.quantity,
                ) matches Ok(step2) ==> increase_position_fits(
                    step2[trade.maker_user_id],
                    symbol,
                    trade.quantity,
                )
            }
        },
    }
}


/// The accounts seen as models after the account of `user_id` is replaced.
proof fn lemma_account_replaced(accounts: Map<UserId, UserAccount>, user_id: UserId)
    ensures
        forall|account: UserAccount|
            #![trigger accounts.insert(user_id, account)]
            accounts.insert(user_id, account).map_values(|a: UserAccount| a@) == accounts.map_values(
                |a: UserAccount| a@,
            ).insert(user_id, account@),
{
    assert forall|account: UserAccount|
        #![trigger accounts.insert(user_id, account)]
        accounts.insert(user_id, account).map_values(|a: UserAccount| a@) == accounts.map_values(
            |a: UserAccount| a@,
        ).insert(user_id, account@) by {
        assert(accounts.insert(user_id, account).map_values(|a: UserAccount| a@) =~= accounts.map_values(
            |a: UserAccount| a@,
        ).insert(user_id, account@));
    }
}

/// The accounts seen as models after the holding of `symbol` of `user_id` is replaced.
proof fn lemma_position_replaced(accounts: Map<UserId, UserAccount>, user_id: UserId, symbol: Seq<char>)
    requires
        accounts.contains_key(user_id),
    ensures
        forall|account: UserAccount, position: UserPosition|
            #![trigger accounts.insert(user_id, account), accounts[user_id].positions@.insert(symbol, position)]
            account.balance == accounts[user_id].balance && account.reservations
                == accounts[user_id].reservations && account.positions@
                == accounts[user_id].positions@.insert(symbol, position) ==> accounts.insert(
                user_id,
                account,
            ).map_values(|a: UserAccount| a@) == accounts.map_values(|a: UserAccount| a@).insert(
                user_id,
                AccountModel {
                    positions: accounts[user_id]@.positions.insert(symbol, position@),
                    ..accounts[user_id]@
                },
            ),
{
    assert forall|account: UserAccount, position: UserPosition|
        #![trigger accounts.insert(user_id, account), accounts[user_id].positions@.insert(symbol, position)]
        account.balance == accounts[user_id].balance && account.reservations
            == accounts[user_id].reservations && account.positions@
            == accounts[user_id].positions@.insert(symbol, position) implies accounts.insert(
            user_id,
            account,
        ).map_values(|a: UserAccount| a@) == accounts.map_values(|a: UserAccount| a@).insert(
            user_id,
            AccountModel {
                positions: accounts[user_id]@.positions.insert(symbol, position@),
                ..accounts[user_id]@
            },
        ) by {
        assert(account@.positions =~= accounts[user_id]@.positions.insert(symbol, position@));
        assert(accounts.insert(user_id, account).map_values(|a: UserAccount| a@) =~= accounts.map_values(|a: UserAccount| a@).insert(
            user_id,
            AccountModel {
                positions: accounts[user_id]@.positions.insert(symbol, position@),
                ..accounts[user_id]@
            },
        ));
    }
}

impl UserPosition {
    fn new() -> (position: UserPosition)
        ensures
            position@ == empty_position(),
    {
        UserPosition { quantity: 0, reservations: HashMap::new() }
    }

    fn remove_reservation(&mut self, order_id: OrderId)
        ensures
            final(self).quantity == old(self).quantity,
            final(self).reservations@ == old(self).reservations@.remove(order_id),
    {
        self.reservations.remove(&order_id);
    }

    /// Holds back the order's quantity for a sell order.
    fn reserve_position(&mut self, order: &Order)
        requires
            order.remaining <= old(self).quantity,
        ensures
            final(self).quantity == old(self).quantity - order.remaining,
            final(self).reservations@ == old(self).reservations@.insert(
                order.id,
                Reservation { price: order.price, quantity: order.remaining },
            ),
    {
        self.quantity = self.quantity - order.remaining;
        self.reservations.insert(order.id, Reservation { price: order.price, quantity: order.remaining });
    }

    fn has_position_reservation(&self, order_id: OrderId) -> (r: Result<(), AccountsError>)
        ensures
            match r {
                Ok(()) => self.reservations@.contains_key(order_id),
                Err(e) => e is UnknwonReservation && !self.reservations@.contains_key(order_id),
            },
    {
        if !self.reservations.contains_key(&order_id) {
            return Err(AccountsError::UnknwonReservation);
        }
        Ok(())
    }

    fn increase_position_quantity(&mut self, quantity: Quantity)
        requires
            old(self).quantity + quantity <= u64::MAX,
        ensures
            final(self).quantity == old(self).quantity + quantity,
            final(self).reservations@ == old(self).reservations@,
    {
        self.quantity = self.quantity + quantity;
    }
}

/// Uses `quantity` of the reservation `order_id`: keeps the rest reserved, or drops the
/// reservation once nothing is left. Returns the reservation as it was.
fn consume_reservation(
    reservations: &mut HashMap<OrderId, Reservation>,
    order_id: OrderId,
    quantity: Quantity,
) -> (used: Reservation)
    requires
        old(reservations)@.contains_key(order_id),
        quantity <= old(reservations)@[order_id].quantity,
    ensures
        used == old(reservations)@[order_id],
        final(reservations)@ == use_reservation(old(reservations)@, order_id, quantity),
{
    let reservation = *reservations.get(&order_id).unwrap();
    if reservation.quantity == quantity {
        reservations.remove(&order_id);
    } else {
        reservations.insert(
            order_id,
            Reservation { price: reservation.price, quantity: reservation.quantity - quantity },
        );
    }
    reservation
}

impl UserAccount {
    /// The account's invariant: its holdings map is well formed.
    pub open spec fn wf(&self) -> bool {
        self.positions.wf()
    }

    fn new() -> (account: UserAccount)
        ensures
            account.wf(),
            account@ == new_account(),
    {
        let mut positions: SymbolMap<UserPosition> = SymbolMap::new();
        let n = INITIAL_SYMBOLS.len();
        for i in 0..n
            invariant
                n == INITIAL_SYMBOLS@.len(),
                positions.wf(),
                forall|s: Seq<char>| #[trigger]
                    positions@.contains_key(s) <==> exists|j: int|
                        0 <= j < i && INITIAL_SYMBOLS@[j]@ == s,
                forall|s: Seq<char>| #[trigger]
                    positions@.contains_key(s) ==> positions@[s]@ == empty_position(),
        {
            let symbol = INITIAL_SYMBOLS[i];
            if !positions.contains_key(symbol) {
                positions.insert(symbol.to_string(), UserPosition::new());
            }
            proof {
                assert(INITIAL_SYMBOLS@[i as int] == symbol);
            }
        }
        let account = UserAccount { balance: 0, reservations: HashMap::new(), positions };
        proof {
            assert(account@.positions =~= initial_positions());
            assert(account@.reservations =~= Map::empty());
        }
        account
    }

    /// Holds back the order's price times quantity for a buy order.
    fn reserve_balance(&mut self, order: &Order)
        requires
            order.price * order.remaining <= old(self).balance,
        ensures
            final(self)@ == (AccountModel {
                balance: (old(self).balance - order.price * order.remaining) as u64,
                reservations: old(self)@.reservations.insert(
                    order.id,
                    Reservation { price: order.price, quantity: order.remaining },
                ),
                ..old(self)@
            }),
            final(self).positions == old(self).positions,
    {
        let amount = order.price * order.remaining;
        self.balance = self.balance - amount;
        self.reservations.insert(order.id, Reservation { price: order.price, quantity: order.remaining });
    }

    fn increase_balance(&mut self, amount: Price)
        requires
            old(self).balance + amount <= u64::MAX,
        ensures
            final(self)@ == (AccountModel { balance: (old(self).balance + amount) as u64, ..old(self)@ }),
            final(self).positions == old(self).positions,
    {
        self.balance = self.balance + amount;
    }

    fn has_balance_reservation(&self, order_id: OrderId) -> (r: Result<(), AccountsError>)
        ensures
            match r {
                Ok(()) => self.reservations@.contains_key(order_id),
                Err(e) => e is UnknwonReservation && !self.reservations@.contains_key(order_id),
            },
    {
        if !self.reservations.contains_key(&order_id) {
            return Err(AccountsError::UnknwonReservation);
        }
        Ok(())
    }

    fn get_position(&self, symbol: Symbol) -> (r: Result<&UserPosition, AccountsError>)
        requires
            self.wf(),
        ensures
            match r {
                Ok(position) => self.positions@.contains_key(symbol@) && *position
                    == self.positions@[symbol@],
                Err(e) => e is InvalidSymbol && !self.positions@.contains_key(symbol@),
            },
    {
        match self.positions.get(symbol.as_str()) {
            Some(position) => Ok(position),
            None => Err(AccountsError::InvalidSymbol),
        }
    }

    fn get_position_mut(&mut self, symbol: Symbol) -> (r: Result<&mut UserPosition, AccountsError>)
        requires
            old(self).wf(),
        ensures
            final(self).wf(),
            final(self).balance == old(self).balance,
            final(self).reservations == old(self).reservations,
            match r {
                Ok(position) => {
                    &&& old(self).positions@.contains_key(symbol@)
                    &&& *position == old(self).positions@[symbol@]
                    &&& final(self).positions@ == old(self).positions@.insert(symbol@, *final(position))
                },
                Err(e) => {
                    &&& e is InvalidSymbol
                    &&& !old(self).positions@.contains_key(symbol@)
                    &&& final(self).positions@ == old(self).positions@
                },
            },
    {
        match self.positions.get_mut(symbol.as_str()) {
            Some(position) => Ok(position),
            None => Err(AccountsError::InvalidSymbol),
        }
    }

    /// Uses `match_quantity` of the buy reservation `order_id` for a fill at `match_price`:
    /// what was reserved beyond the price paid goes back to the balance.
    fn consume_reserved_balance(
        &mut self,
        match_price: Price,
        match_quantity: Quantity,
        order_id: OrderId,
    ) -> (r: Result<(), AccountsError>)
        requires
            old(self).wf(),
            consume_balance_fits(old(self)@, order_id, match_price, match_quantity),
        ensures
            final(self).wf(),
            match account_consume_balance(old(self)@, order_id, match_price, match_quantity) {
                Ok(account) => r is Ok && final(self)@ == account,
                Err(e) => r == Err::<(), AccountsError>(e) && final(self)@ == old(self)@,
            },
    {
        self.has_balance_reservation(order_id)?;
        let reservation = consume_reservation(&mut self.reservations, order_id, match_quantity);
        proof {
            let q = match_quantity as int;
            let rp = reservation.price as int;
            let mp = match_price as int;
            assert(q * mp <= q * rp) by (nonlinear_arith)
                requires
                    0 <= q,
                    mp <= rp,
            ;
            assert(q * rp - q * mp == q * (rp - mp)) by (nonlinear_arith);
        }
        let amount_reserved_for_quantity = match_quantity * reservation.price;
        let actual_amount_spent = match_quantity * match_price;
        let refund_amount = amount_reserved_for_quantity - actual_amount_spent;
        self.balance = self.balance + refund_amount;
        Ok(())
    }

    /// Uses `match_quantity` of the sell reservation `order_id` of `symbol` for a fill at
    /// `match_price`: the proceeds go to the balance.
    fn consume_reserved_position_quantity(
        &mut self,
        symbol: Symbol,
        order_id: OrderId,
        match_price: Price,
        match_quantity: Quantity,
    ) -> (r: Result<(), AccountsError>)
        requires
            old(self).wf(),
            consume_position_fits(old(self)@, symbol@, order_id, match_price, match_quantity),
        ensures
            final(self).wf(),
            match account_consume_position(
                old(self)@,
                symbol@,
                order_id,
                match_price,
                match_quantity,
            ) {
                Ok(account) => r is Ok && final(self)@ == account,
                Err(e) => r == Err::<(), AccountsError>(e) && final(self)@ == old(self)@,
            },
    {
        let ghost before = self@;
        let ghost key = symbol@;
        let position = self.get_position_mut(symbol)?;
        let ghost position_before = *position;
        match position.has_position_reservation(order_id) {
            Ok(()) => {},
            Err(e) => {
                proof {
                    assert(self.positions@ =~= old(self).positions@);
                    assert(self@.positions =~= before.positions);
                }
                return Err(e);
            },
        }
        consume_reservation(&mut position.reservations, order_id, match_quantity);
        proof {
            assert(self@.positions =~= before.positions.insert(key, PositionModel {
                reservations: use_reservation(position_before@.reservations, order_id, match_quantity),
                ..position_before@
            }));
        }
        self.balance = self.balance + match_price * match_quantity;
        Ok(())
    }
}

impl AccountsManager {
    /// Every account is well formed.
    pub open spec fn wf(&self) -> bool {
        forall|user_id: UserId| #[trigger]
            self.accounts@.contains_key(user_id) ==> self.accounts@[user_id].wf()
    }

    pub fn new() -> (manager: AccountsManager)
        ensures
            manager.wf(),
            manager@ == Map::<UserId, AccountModel>::empty(),
    {
        let manager = AccountsManager { accounts: HashMap::new() };
        proof {
            assert(manager@ =~= Map::<UserId, AccountModel>::empty());
        }
        manager
    }

    pub fn get_user_account(&self, user_id: UserId) -> (r: Result<&UserAccount, AccountsError>)
        ensures
            match r {
                Ok(account) => self.accounts@.contains_key(user_id) && *account
                    == self.accounts@[user_id],
                Err(e) => e is UnknownUser && !self.accounts@.contains_key(user_id),
            },
    {
        match self.accounts.get(&user_id) {
            Some(user_account) => Ok(user_account),
            None => Err(AccountsError::UnknownUser),
        }
    }

    /// A mutable reference to the account of `user_id`; what is written through it
    /// becomes the account.
    pub fn get_user_account_mut(&mut self, user_id: UserId) -> (r: Result<
        &mut UserAccount,
        AccountsError,
    >)
        ensures
            match r {
                Ok(account) => {
                    &&& old(self).accounts@.contains_key(user_id)
                    &&& *account == old(self).accounts@[user_id]
                    &&& final(self).accounts@ == old(self).accounts@.insert(user_id, *final(account))
                },
                Err(e) => {
                    &&& e is UnknownUser
                    &&& !old(self).accounts@.contains_key(user_id)
                    &&& final(self).accounts@ == old(self).accounts@
                },
            },
    {
        match hash_map_get_mut(&mut self.accounts, user_id) {
            Some(user_account) => Ok(user_account),
            None => Err(AccountsError::UnknownUser),
        }
    }

    pub fn get_balance(&self, user_id: UserId) -> (r: Result<Price, AccountsError>)
        ensures
            match r {
                Ok(balance) => self@.contains_key(user_id) && balance == self@[user_id].balance,
                Err(e) => e is UnknownUser && !self@.contains_key(user_id),
            },
    {
        match self.get_user_account(user_id) {
            Ok(account) => Ok(account.balance),
            Err(e) => Err(e),
        }
    }

    pub fn get_position_for_symbol(&self, user_id: UserId, symbol: Symbol) -> (r: Result<
        &UserPosition,
        AccountsError,
    >)
        requires
            self.wf(),
        ensures
            match r {
                Ok(position) => {
                    &&& self@.contains_key(user_id)
                    &&& self@[user_id].positions.contains_key(symbol@)
                    &&& position@ == self@[user_id].positions[symbol@]
                },
                Err(e) => {
                    ||| e is UnknownUser && !self@.contains_key(user_id)
                    ||| e is InvalidSymbol && self@.contains_key(user_id)
                        && !self@[user_id].positions.contains_key(symbol@)
                },
            },
    {
        let account = self.get_user_account(user_id)?;
        account.get_position(symbol)
    }

    /// A mutable reference to the holding of `symbol` of `user_id`; what is written
    /// through it becomes the holding.
    pub fn get_position_for_symbol_mut(&mut self, user_id: UserId, symbol: Symbol) -> (r: Result<
        &mut UserPosition,
        AccountsError,
    >)
        requires
            old(self).wf(),
        ensures
            final(self).wf(),
            match r {
                Ok(position) => {
                    &&& old(self)@.contains_key(user_id)
                    &&& old(self)@[user_id].positions.contains_key(symbol@)
                    &&& *position == old(self).accounts@[user_id].positions@[symbol@]
                    &&& final(self)@ == old(self)@.insert(
                        user_id,
                        AccountModel {
                            positions: old(self)@[user_id].positions.insert(symbol@, final(position)@),
                            ..old(self)@[user_id]
                        },
                    )
                },
                Err(e) => {
                    &&& final(self)@ == old(self)@
                    &&& {
                        ||| e is UnknownUser && !old(self)@.contains_key(user_id)
                        ||| e is InvalidSymbol && old(self)@.contains_key(user_id)
                            && !old(self)@[user_id].positions.contains_key(symbol@)
                    }
                },
            },
    {
        let ghost before = self@;
        let account = self.get_user_account_mut(user_id)?;
        let ghost account_before = *account;
        proof {
            assert(account_before.wf());
            lemma_position_replaced(old(self).accounts@, user_id, symbol@);
        }
        account.get_position_mut(symbol)
    }

    pub fn get_position_quantity_for_symbol(&self, user_id: UserId, symbol: Symbol) -> (r: Result<
        Quantity,
        AccountsError,
    >)
        requires
            self.wf(),
        ensures
            match r {
                Ok(quantity) => {
                    &&& self@.contains_key(user_id)
                    &&& self@[user_id].positions.contains_key(symbol@)
                    &&& quantity == self@[user_id].positions[symbol@].quantity
                },
                Err(e) => {
                    ||| e is UnknownUser && !self@.contains_key(user_id)
                    ||| e is InvalidSymbol && self@.contains_key(user_id)
                        && !self@[user_id].positions.contains_key(symbol@)
                },
            },
    {
        let position = self.get_position_for_symbol(user_id, symbol)?;
        Ok(position.quantity)
    }

    /// Adds `amount` to the balance of `user_id`.
    pub fn increase_account_balance(&mut self, user_id: UserId, amount: Price) -> (r: Result<
        (),
        AccountsError,
    >)
        requires
            old(self).wf(),
            old(self)@.contains_key(user_id) ==> old(self)@[user_id].balance + amount <= u64::MAX,
        ensures
            final(self).wf(),
            follows(old(self)@, final(self)@, r, spec_increase_balance(old(self)@, user_id, amount)),
    {
        proof {
            lemma_account_replaced(self.accounts@, user_id);
        }
        let user_account = self.get_user_account_mut(user_id)?;
        user_account.increase_balance(amount);
        Ok(())
    }

    /// Uses `match_quantity` of the buy reservation `order_id` of `user_id` for a fill at
    /// `match_price`, giving back to the balance what was reserved beyond the price paid.
    pub fn consume_reserved_balance(
        &mut self,
        user_id: UserId,
        order_id: OrderId,
        match_price: Price,
        match_quantity: Quantity,
    ) -> (r: Result<(), AccountsError>)
        requires
            old(self).wf(),
            old(self)@.contains_key(user_id) ==> consume_balance_fits(
                old(self)@[user_id],
                order_id,
                match_price,
                match_quantity,
            ),
        ensures
            final(self).wf(),
            follows(
                old(self)@,
                final(self)@,
                r,
                spec_consume_balance(old(self)@, user_id, order_id, match_price, match_quantity),
            ),
    {
        proof {
            lemma_account_replaced(self.accounts@, user_id);
        }
        let user_account = self.get_user_account_mut(user_id)?;
        match user_account.consume_reserved_balance(match_price, match_quantity, order_id) {
            Ok(()) => Ok(()),
            Err(e) => {
                proof {
                    assert(old(self)@.insert(user_id, old(self)@[user_id]) =~= old(self)@);
                }
                Err(e)
            },
        }
    }

    /// Adds `quantity` to the holding of `symbol` of `user_id`.
    pub fn increase_position_quantity_for_symbol(
        &mut self,
        user_id: UserId,
        symbol: Symbol,
        quantity: Quantity,
    ) -> (r: Result<(), AccountsError>)
        requires
            old(self).wf(),
            old(self)@.contains_key(user_id) ==> increase_position_fits(
                old(self)@[user_id],
                symbol@,
                quantity,
            ),
        ensures
            final(self).wf(),
            follows(
                old(self)@,
                final(self)@,
                r,
                spec_increase_position(old(self)@, user_id, symbol@, quantity),
            ),
    {
        let ghost key = symbol@;
        let position = self.get_position_for_symbol_mut(user_id, symbol)?;
        position.increase_position_quantity(quantity);
        proof {
            assert(position@ == (PositionModel { quantity: (old(self)@[user_id].positions[key].quantity + quantity) as u64, ..old(self)@[user_id].positions[key] }));
        }
        Ok(())
    }

    /// Uses `match_quantity` of the sell reservation `order_id` of `symbol` of `user_id`
    /// for a fill at `match_price`, paying the proceeds to the balance.
    pub fn consume_reserved_position_quantity_for_symbol(
        &mut self,
        user_id: UserId,
        symbol: Symbol,
        order_id: OrderId,
        match_price: Price,
        match_quantity: Quantity,
    ) -> (r: Result<(), AccountsError>)
        requires
            old(self).wf(),
            old(self)@.contains_key(user_id) ==> consume_position_fits(
                old(self)@[user_id],
                symbol@,
                order_id,
                match_price,
                match_quantity,
            ),
        ensures
            final(self).wf(),
            follows(
                old(self)@,
                final(self)@,
                r,
                spec_consume_position(
                    old(self)@,
                    user_id,
                    symbol@,
                    order_id,
                    match_price,
                    match_quantity,
                ),
            ),
    {
        proof {
            lemma_account_replaced(self.accounts@, user_id);
        }
        let account = self.get_user_account_mut(user_id)?;
        match account.consume_reserved_position_quantity(
            symbol,
            order_id,
            match_price,
            match_quantity,
        ) {
            Ok(()) => Ok(()),
            Err(e) => {
                proof {
                    assert(old(self)@.insert(user_id, old(self)@[user_id]) =~= old(self)@);
                }
                Err(e)
            },
        }
    }

    /// Checks that the user can afford the order.
    pub fn is_enough_balance_for_order(&self, order: &Order) -> (r: Result<(), AccountsError>)
        requires
            self.wf(),
            order.side is Bid && self@.contains_key(order.user_id) ==> order.remaining * order.price
                <= u64::MAX,
        ensures
            r == spec_enough_for_order(self@, *order),
    {
        match order.side {
            Side::Bid => {
                let balance = self.get_balance(order.user_id)?;
                let min_required_balance = order.remaining * order.price;
                if balance >= min_required_balance {
                    Ok(())
                } else {
                    Err(AccountsError::InsufficientBalance)
                }
            },
            Side::Ask => {
                let position_quantity = self.get_position_quantity_for_symbol(
                    order.user_id,
                    order.symbol.clone(),
                )?;
                if order.remaining <= position_quantity {
                    Ok(())
                } else {
                    Err(AccountsError::InsufficientPositionQuantity)
                }
            },
        }
    }

    /// Holds back the price times the quantity of a buy order from the user's balance.
    pub fn reserve_user_balance_for_order(&mut self, order: &Order) -> (r: Result<(), AccountsError>)
        requires
            old(self).wf(),
            old(self)@.contains_key(order.user_id) ==> order.price * order.remaining <= old(
                self,
            )@[order.user_id].balance,
        ensures
            final(self).wf(),
            follows(old(self)@, final(self)@, r, spec_reserve_balance(old(self)@, *order)),
    {
        proof {
            lemma_account_replaced(self.accounts@, order.user_id);
        }
        let user_account = self.get_user_account_mut(order.user_id)?;
        user_account.reserve_balance(order);
        Ok(())
    }

    /// Holds back the quantity of a sell order from the user's holding of its symbol.
    pub fn reserve_user_position_for_order(&mut self, order: &Order) -> (r: Result<
        (),
        AccountsError,
    >)
        requires
            old(self).wf(),
            old(self)@.contains_key(order.user_id) && old(self)@[order.user_id].positions.contains_key(
                order.symbol@,
            ) ==> order.remaining <= old(self)@[order.user_id].positions[order.symbol@].quantity,
        ensures
            final(self).wf(),
            follows(old(self)@, final(self)@, r, spec_reserve_position(old(self)@, *order)),
    {
        let position = self.get_position_for_symbol_mut(order.user_id, order.symbol.clone())?;
        position.reserve_position(order);
        Ok(())
    }

    /// Gives back what an order holds: its price times its quantity to the balance for a
    /// buy order, its quantity to the holding of its symbol for a sell order.
    pub fn release_reserved_order(&mut self, order: &Order) -> (r: Result<(), AccountsError>)
        requires
            old(self).wf(),
            release_fits(old(self)@, *order),
        ensures
            final(self).wf(),
            follows(old(self)@, final(self)@, r, spec_release(old(self)@, *order)),
    {
        match order.side {
            Side::Bid => {
                proof {
                    lemma_account_replaced(self.accounts@, order.user_id);
                }
                let user_account = self.get_user_account_mut(order.user_id)?;
                match user_account.has_balance_reservation(order.id) {
                    Ok(()) => {},
                    Err(e) => {
                        proof {
                            assert(old(self)@.insert(order.user_id, old(self)@[order.user_id])
                                =~= old(self)@);
                        }
                        return Err(e);
                    },
                }
                user_account.balance = user_account.balance + order.price * order.remaining;
                user_account.reservations.remove(&order.id);
            },
            Side::Ask => {
                let position = self.get_position_for_symbol_mut(
                    order.user_id,
                    order.symbol.clone(),
                )?;
                match position.has_position_reservation(order.id) {
                    Ok(()) => {},
                    Err(e) => {
                        proof {
                            let account = old(self)@[order.user_id];
                            assert(account.positions.insert(order.symbol@, account.positions[order.symbol@])
                                =~= account.positions);
                            assert(old(self)@.insert(order.user_id, account) =~= old(self)@);
                        }
                        return Err(e);
                    },
                }
                position.quantity = position.quantity + order.remaining;
                position.remove_reservation(order.id);
            },
        }
        Ok(())
    }

    /// Settles a trade between the accounts of its buyer and its seller: the buyer's
    /// reservation is used (with what a better price leaves over given back) and the
    /// buyer receives the quantity; the seller's reservation is used and the seller is paid.
    pub fn settle_fill(&mut self, trade: &Trade) -> (r: Result<(), AccountsError>)
        requires
            old(self).wf(),
            settle_fill_fits(old(self)@, *trade),
        ensures
            final(self).wf(),
            (final(self)@, r) == spec_settle_fill(old(self)@, *trade),
    {
        match trade.taker_side {
            Side::Bid => {
                self.consume_reserved_balance(
                    trade.taker_user_id,
                    trade.taker_order_id,
                    trade.price,
                    trade.quantity,
                )?;
                self.increase_position_quantity_for_symbol(
                    trade.taker_user_id,
                    trade.symbol.clone(),
                    trade.quantity,
                )?;
                self.consume_reserved_position_quantity_for_symbol(
                    trade.maker_user_id,
                    trade.symbol.clone(),
                    trade.maker_order_id,
                    trade.price,
                    trade.quantity,
                )?;
            },
            Side::Ask => {
                self.consume_reserved_position_quantity_for_symbol(
                    trade.taker_user_id,
                    trade.symbol.clone(),
                    trade.taker_order_id,
                    trade.price,
                    trade.quantity,
                )?;
                self.consume_reserved_balance(
                    trade.maker_user_id,
                    trade.maker_order_id,
                    trade.price,
                    trade.quantity,
                )?;
                self.increase_position_quantity_for_symbol(
                    trade.maker_user_id,
                    trade.symbol.clone(),
                    trade.quantity,
                )?;
            },
        }
        Ok(())
    }

    /// Opens a new account for `user_id`, replacing any account it had.
    pub fn create_account(&mut self, user_id: UserId)
        requires
            old(self).wf(),
        ensures
            final(self).wf(),
            final(self)@ == old(self)@.insert(user_id, new_account()),
    {
        let user_account = UserAccount::new();
        self.accounts.insert(user_id, user_account);
        proof {
            assert(self@ =~= old(self)@.insert(user_id, new_account()));
        }
    }
}

} // verus!

verus! {

// ---------------------------------------------------------------------------
// Laws of the accounts
// ---------------------------------------------------------------------------
/// Releasing an order right after reserving for it gives the accounts back as they were.
pub proof fn law_release_undoes_reserve(accounts: Map<UserId, AccountModel>, order: Order)
    requires
        accounts.contains_key(order.user_id),
        match order.side {
            Side::Bid => {
                &&& !accounts[order.user_id].reservations.contains_key(order.id)
                &&& order.price * order.remaining <= accounts[order.user_id].balance
            },
            Side::Ask => {
                &&& accounts[order.user_id].positions.contains_key(order.symbol@)
                &&& !accounts[order.user_id].positions[order.symbol@].reservations.contains_key(
                    order.id,
                )
                &&& order.remaining <= accounts[order.user_id].positions[order.symbol@].quantity
            },
        },
    ensures
        match order.side {
            Side::Bid => spec_reserve_balance(accounts, order) matches Ok(reserved) && spec_release(
                reserved,
                order,
            ) == Ok::<Map<UserId, AccountModel>, AccountsError>(accounts),
            Side::Ask => spec_reserve_position(accounts, order) matches Ok(reserved) && spec_release(
                reserved,
                order,
            ) == Ok::<Map<UserId, AccountModel>, AccountsError>(accounts),
        },
{
    let u = order.user_id;
    let account = accounts[u];
    match order.side {
        Side::Bid => {
            let reserved = spec_reserve_balance(accounts, order)->Ok_0;
            assert(reserved[u].reservations.remove(order.id) =~= account.reservations);
            assert(spec_release(reserved, order)->Ok_0 =~= accounts);
        },
        Side::Ask => {
            let symbol = order.symbol@;
            let reserved = spec_reserve_position(accounts, order)->Ok_0;
            let position = account.positions[symbol];
            assert(reserved[u].positions[symbol].reservations.remove(order.id) =~= position.reservations);
            assert(reserved[u].positions.insert(symbol, position) =~= account.positions);
            assert(spec_release(reserved, order)->Ok_0 =~= accounts);
        },
    }
}

/// The buying user and buy order of a trade.
pub open spec fn buyer_of(trade: Trade) -> (UserId, OrderId) {
    match trade.taker_side {
        Side::Bid => (trade.taker_user_id, trade.taker_order_id),
        Side::Ask => (trade.maker_user_id, trade.maker_order_id),
    }
}

/// The selling user and sell order of a trade.
pub open spec fn seller_of(trade: Trade) -> (UserId, OrderId) {
    match trade.taker_side {
        Side::Bid => (trade.maker_user_id, trade.maker_order_id),
        Side::Ask => (trade.taker_user_id, trade.taker_order_id),
    }
}

/// The funds a buy reservation still holds back: its price times its quantity.
pub open spec fn reserved_funds(account: AccountModel, order_id: OrderId) -> int {
    if account.reservations.contains_key(order_id) {
        account.reservations[order_id].price * account.reservations[order_id].quantity
    } else {
        0
    }
}

/// The quantity a sell reservation still holds back.
pub open spec fn reserved_quantity(position: PositionModel, order_id: OrderId) -> int {
    if position.reservations.contains_key(order_id) {
        position.reservations[order_id].quantity as int
    } else {
        0
    }
}

/// Settling a trade between two users moves value from one to the other and creates
/// none: the buyer's free and reserved funds drop by exactly the price paid, which is
/// what the seller's balance gains; the seller's reserved quantity drops by exactly the
/// quantity traded, which is what the buyer's holding gains; no other account changes.
pub proof fn law_settlement_conserves(accounts: Map<UserId, AccountModel>, trade: Trade)
    requires
        buyer_of(trade).0 != seller_of(trade).0,
        settle_fill_fits(accounts, trade),
        spec_settle_fill(accounts, trade).1 is Ok,
    ensures
        ({
            let after = spec_settle_fill(accounts, trade).0;
            let (buyer, buy_order) = buyer_of(trade);
            let (seller, sell_order) = seller_of(trade);
            let symbol = trade.symbol@;
            &&& after.dom() == accounts.dom()
            &&& after[buyer].balance + reserved_funds(after[buyer], buy_order) == accounts[buyer].balance
                + reserved_funds(accounts[buyer], buy_order) - trade.price * trade.quantity
            &&& after[seller].balance == accounts[seller].balance + trade.price * trade.quantity
            &&& after[buyer].positions[symbol].quantity == accounts[buyer].positions[symbol].quantity
                + trade.quantity
            &&& reserved_quantity(after[seller].positions[symbol], sell_order) == reserved_quantity(
                accounts[seller].positions[symbol],
                sell_order,
            ) - trade.quantity
            &&& forall|user: UserId|
                user != buyer && user != seller && #[trigger] accounts.contains_key(user)
                    ==> after[user] == accounts[user]
        }),
{
    let (buyer, buy_order) = buyer_of(trade);
    let (seller, sell_order) = seller_of(trade);
    let symbol = trade.symbol@;
    reveal_settle_accounts(accounts, trade);
    let q = trade.quantity as int;
    let p = trade.price as int;
    let r = accounts[buyer].reservations[buy_order];
    let rp = r.price as int;
    let rq = r.quantity as int;
    assert(q * (rp - p) + rp * (rq - q) == rp * rq - p * q) by (nonlinear_arith);
    assert(rp * (rq - q) == 0 || rq != q) by (nonlinear_arith);
    assert(p * q == q * p) by (nonlinear_arith);
    let after = spec_settle_fill(accounts, trade).0;
    match trade.taker_side {
        Side::Bid => {
            let step1 = spec_consume_balance(accounts, buyer, buy_order, trade.price, trade.quantity)->Ok_0;
            let step2 = spec_increase_position(step1, buyer, symbol, trade.quantity)->Ok_0;
            assert(after == spec_consume_position(step2, seller, symbol, sell_order, trade.price, trade.quantity)->Ok_0);
            assert(step2[seller] == accounts[seller]);
            assert(step2[buyer].reservations == step1[buyer].reservations);
        },
        Side::Ask => {
            let step1 = spec_consume_position(accounts, seller, symbol, sell_order, trade.price, trade.quantity)->Ok_0;
            let step2 = spec_consume_balance(step1, buyer, buy_order, trade.price, trade.quantity)->Ok_0;
            assert(step1[buyer] == accounts[buyer]);
            assert(after == spec_increase_position(step2, buyer, symbol, trade.quantity)->Ok_0);
            assert(after[buyer].reservations == step2[buyer].reservations);
        },
    }
    assert(after.dom() =~= accounts.dom());
}

/// A successful settlement touches existing accounts only.
proof fn reveal_settle_accounts(accounts: Map<UserId, AccountModel>, trade: Trade)
    requires
        spec_settle_fill(accounts, trade).1 is Ok,
    ensures
        accounts.contains_key(buyer_of(trade).0),
        accounts.contains_key(seller_of(trade).0),
{
}

} // verus!
