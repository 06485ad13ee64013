use crate::accounts::{
    law_release_undoes_reserve, release_fits, settle_fill_fits, spec_enough_for_order, spec_release, spec_reserve_balance,
    spec_reserve_position, spec_settle_fill, AccountModel, AccountsError, AccountsManager,
};
use crate::orderbook::{
    book_consistent, cancel_in_book, crosses, law_cancel_undoes_rest,
    law_limit_order_keeps_book_uncrossed, lemma_match_taker_done, limit_order_outcome, rest_order,
    uncrossed, BookView, MatchResult, OrderError, Orderbook,
};
use crate::consistency::{consistent_submission_fits, law_consistent_submission_fits};
use crate::symbol_map::SymbolMap;
use crate::totals::{
    accounts_finite, law_settle_fill_keeps_totals, lemma_manager_accounts_finite,
    lemma_reserve_keeps_totals, total_funds,
    total_holding,
};
use crate::types::{Order, OrderId, Side, Symbol, Trade, UserId, INITIAL_SYMBOLS};
use vstd::prelude::*;

verus! {

#[derive(Debug)]
pub enum ExchangeError {
    Account,
    Order,
    UnknownSymbol,
    UnknownOrder,
    Unauthorized,
}

impl From<AccountsError> for ExchangeError {
    fn from(_error: AccountsError) -> (r: Self) {
        ExchangeError::Account
    }
}

impl vstd::std_specs::convert::FromSpecImpl<AccountsError> for ExchangeError {
    open spec fn obeys_from_spec() -> bool {
        true
    }

    open spec fn from_spec(v: AccountsError) -> Self {
        ExchangeError::Account
    }
}

impl From<OrderError> for ExchangeError {
    fn from(_error: OrderError) -> (r: Self) {
        ExchangeError::Order
    }
}

impl vstd::std_specs::convert::FromSpecImpl<OrderError> for ExchangeError {
    open spec fn obeys_from_spec() -> bool {
        true
    }

    open spec fn from_spec(v: OrderError) -> Self {
        ExchangeError::Order
    }
}

/// The exchange seen as maps: the book of each symbol and the accounts by user.
pub struct ExchangeView {
    pub books: Map<Seq<char>, BookView>,
    pub accounts: Map<UserId, AccountModel>,
}

/// Settling the trades one after the other; the first error stops it, leaving the
/// effect of the settlements before it. Gives the accounts and the outcome.
pub open spec fn spec_settle_fills(accounts: Map<UserId, AccountModel>, fills: Seq<Trade>) -> (
    Map<UserId, AccountModel>,
    Result<(), AccountsError>,
)
    decreases fills.len(),
{
    if fills.len() == 0 {
        (accounts, Ok(()))
    } else {
        let (after, r) = spec_settle_fill(accounts, fills[0]);
        match r {
            Ok(()) => spec_settle_fills(after, fills.drop_first()),
            Err(e) => (after, Err(e)),
        }
    }
}

/// The arithmetic of settling the trades one after the other stays within `u64`.
pub open spec fn settle_fills_fit(accounts: Map<UserId, AccountModel>, fills: Seq<Trade>) -> bool
    decreases fills.len(),
{
    fills.len() > 0 ==> {
        &&& settle_fill_fits(accounts, fills[0])
        &&& spec_settle_fill(accounts, fills[0]).1 is Ok ==> settle_fills_fit(
            spec_settle_fill(accounts, fills[0]).0,
            fills.drop_first(),
        )
    }
}

/// The reservation that an order makes before it reaches the book.
pub open spec fn spec_reserve_for_order(accounts: Map<UserId, AccountModel>, order: Order) -> Result<
    Map<UserId, AccountModel>,
    AccountsError,
> {
    match order.side {
        Side::Bid => spec_reserve_balance(accounts, order),
        Side::Ask => spec_reserve_position(accounts, order),
    }
}

/// What submitting a limit order does: an order without price or quantity is refused,
/// as is one of a symbol with no book, or one the user cannot afford; otherwise the
/// order's funds or holding are reserved, it is handled by the book of its symbol, and
/// its trades are settled. Gives the exchange and the outcome (the trades and the
/// resting remainder).
pub open spec fn spec_submit(exchange: ExchangeView, order: Order) -> (
    ExchangeView,
    Result<(Seq<Trade>, Option<Order>), ExchangeError>,
) {
    let symbol = order.symbol@;
    if order.price == 0 || order.remaining == 0 {
        (exchange, Err(ExchangeError::Order))
    } else if !exchange.books.contains_key(symbol) {
        (exchange, Err(ExchangeError::UnknownSymbol))
    } else if spec_enough_for_order(exchange.accounts, order) is Err {
        (exchange, Err(ExchangeError::Account))
    } else {
        match spec_reserve_for_order(exchange.accounts, order) {
            Err(_) => (exchange, Err(ExchangeError::Account)),
            Ok(reserved) => {
                let (book, fills, resting) = limit_order_outcome(exchange.books[symbol], order);
                let (settled, r) = spec_settle_fills(reserved, fills);
                let after = ExchangeView {
                    books: exchange.books.insert(symbol, book),
                    accounts: settled,
                };
                match r {
                    Ok(()) => (after, Ok((fills, resting))),
                    Err(_) => (after, Err(ExchangeError::Account)),
                }
            },
        }
    }
}

/// What `spec_submit` needs to stay within `u64` and to keep the book's order ids
/// distinct: for a buy order of a known user, a price times quantity that fits; for an
/// order that reaches the book, a new order id in it and settlements whose arithmetic fits.
pub open spec fn submit_fits(exchange: ExchangeView, order: Order) -> bool {
    let symbol = order.symbol@;
    exchange.books.contains_key(symbol) && order.price != 0 && order.remaining != 0 ==> {
        &&& order.side is Bid && exchange.accounts.contains_key(order.user_id) ==> order.remaining
            * order.price <= u64::MAX
        &&& spec_enough_for_order(exchange.accounts, order) is Ok ==> {
            &&& !exchange.books[symbol].orders.contains_key(order.id)
            &&& spec_reserve_for_order(exchange.accounts, order) matches Ok(reserved)
                ==> settle_fills_fit(reserved, limit_order_outcome(exchange.books[symbol], order).1)
        }
    }
}

/// What cancelling does: the order must be open in the book of the symbol and belong to
/// the user; its reservation is given back and it leaves the book. Gives the exchange and
/// the outcome (the cancelled order).
pub open spec fn spec_cancel(
    exchange: ExchangeView,
    user_id: UserId,
    symbol: Seq<char>,
    order_id: OrderId,
) -> (ExchangeView, Result<Order, ExchangeError>) {
    if !exchange.books.contains_key(symbol) {
        (exchange, Err(ExchangeError::UnknownSymbol))
    } else if !exchange.books[symbol].orders.contains_key(order_id) {
        (exchange, Err(ExchangeError::UnknownOrder))
    } else {
        let order = exchange.books[symbol].orders[order_id];
        if order.user_id != user_id {
            (exchange, Err(ExchangeError::Unauthorized))
        } else {
            match spec_release(exchange.accounts, order) {
                Err(_) => (exchange, Err(ExchangeError::Account)),
                Ok(accounts) => (
                    ExchangeView {
                        books: exchange.books.insert(
                            symbol,
                            cancel_in_book(exchange.books[symbol], order_id),
                        ),
                        accounts,
                    },
                    Ok(order),
                ),
            }
        }
    }
}

/// Whether the result of a submission is the outcome `expected`.
pub open spec fn submission_result(
    r: Result<MatchResult, ExchangeError>,
    expected: Result<(Seq<Trade>, Option<Order>), ExchangeError>,
) -> bool {
    match expected {
        Ok((fills, resting)) => r matches Ok(result) && result.fills@ == fills
            && result.resting_order == resting,
        Err(e) => r matches Err(error) && error == e,
    }
}

/// Settling from the `i`-th trade on is the same as settling the rest after one more.
proof fn lemma_settle_fills_step(accounts: Map<UserId, AccountModel>, fills: Seq<Trade>, i: int)
    requires
        0 <= i < fills.len(),
    ensures
        fills.skip(i).len() > 0,
        fills.skip(i)[0] == fills[i],
        fills.skip(i).drop_first() == fills.skip(i + 1),
        spec_settle_fills(accounts, fills.skip(i)) == ({
            let (after, r) = spec_settle_fill(accounts, fills[i]);
            match r {
                Ok(()) => spec_settle_fills(after, fills.skip(i + 1)),
                Err(e) => (after, Err(e)),
            }
        }),
{
    assert(fills.skip(i).drop_first() =~= fills.skip(i + 1));
}

/// A matching engine: one book per symbol, and the users' accounts.
pub struct Exchange {
    pub orderbooks: SymbolMap<Orderbook>,
    pub accounts_manager: AccountsManager,
}

impl View for Exchange {
    type V = ExchangeView;

    open spec fn view(&self) -> ExchangeView {
        ExchangeView {
            books: self.orderbooks@.map_values(|book: Orderbook| book@),
            accounts: self.accounts_manager@,
        }
    }
}

/// An empty book.
pub open spec fn empty_book() -> BookView {
    BookView { bids: Map::empty(), asks: Map::empty(), orders: Map::empty() }
}

/// The books an exchange starts with: an empty one of each initial symbol.
pub open spec fn initial_books() -> Map<Seq<char>, BookView> {
    Map::new(
        |symbol: Seq<char>|
            exists|i: int| 0 <= i < INITIAL_SYMBOLS@.len() && INITIAL_SYMBOLS@[i]@ == symbol,
        |symbol: Seq<char>| empty_book(),
    )
}

impl Exchange {
    /// The exchange's invariant: its maps and every book and account are well formed.
    pub open spec fn wf(&self) -> bool {
        &&& self.orderbooks.wf()
        &&& forall|symbol: Seq<char>| #[trigger]
            self.orderbooks@.contains_key(symbol) ==> self.orderbooks@[symbol].wf()
        &&& self.accounts_manager.wf()
    }

    pub fn new() -> (exchange: Exchange)
        ensures
            exchange.wf(),
            exchange@.books == initial_books(),
            exchange@.accounts == Map::<UserId, AccountModel>::empty(),
    {
        let mut orderbooks: SymbolMap<Orderbook> = SymbolMap::new();
        let accounts_manager = AccountsManager::new();
        let n = INITIAL_SYMBOLS.len();
        for i in 0..n
            invariant
                n == INITIAL_SYMBOLS@.len(),
                orderbooks.wf(),
                forall|s: Seq<char>| #[trigger]
                    orderbooks@.contains_key(s) <==> exists|j: int|
                        0 <= j < i && INITIAL_SYMBOLS@[j]@ == s,
                forall|s: Seq<char>| #[trigger]
                    orderbooks@.contains_key(s) ==> orderbooks@[s].wf() && orderbooks@[s]@
                        == empty_book(),
        {
            let symbol = INITIAL_SYMBOLS[i];
            let book = Orderbook::new();
            proof {
                assert(book@.bids =~= Map::empty());
                assert(book@.asks =~= Map::empty());
                assert(book@.orders =~= Map::empty());
                assert(INITIAL_SYMBOLS@[i as int] == symbol);
            }
            orderbooks.insert(symbol.to_string(), book);
        }
        let exchange = Exchange { orderbooks, accounts_manager };
        proof {
            assert(exchange@.books =~= initial_books());
        }
        exchange
    }

    /// Submits a limit order: checks it, reserves what the user pays with, lets the book
    /// of its symbol match it, and settles its trades. Its arithmetic must fit in `u64`;
    /// in a consistent exchange it is enough that the totals do.
    pub fn submit_limit_order(&mut self, order: Order) -> (r: Result<MatchResult, ExchangeError>)
        requires
            old(self).wf(),
            submit_fits(old(self)@, order) || consistent_submission_fits(old(self)@, order),
        ensures
            final(self).wf(),
            final(self)@ == spec_submit(old(self)@, order).0,
            submission_result(r, spec_submit(old(self)@, order).1),
    {
        proof {
            if !submit_fits(self@, order) {
                lemma_manager_accounts_finite(&self.accounts_manager);
                law_consistent_submission_fits(self@, order);
            }
        }
        match Orderbook::validate_order(&order) {
            Ok(()) => {},
            Err(e) => {
                return Err(ExchangeError::from(e));
            },
        }
        let symbol = order.symbol.clone();
        if !self.orderbooks.contains_key(symbol.as_str()) {
            return Err(ExchangeError::UnknownSymbol);
        }
        match self.accounts_manager.is_enough_balance_for_order(&order) {
            Ok(()) => {},
            Err(e) => {
                return Err(ExchangeError::from(e));
            },
        }
        proof {
            let p = order.price as int;
            let q = order.remaining as int;
            assert(p * q == q * p) by (nonlinear_arith);
        }
        let reserved = match order.side {
            Side::Bid => self.accounts_manager.reserve_user_balance_for_order(&order),
            Side::Ask => self.accounts_manager.reserve_user_position_for_order(&order),
        };
        match reserved {
            Ok(()) => {},
            Err(e) => {
                return Err(ExchangeError::from(e));
            },
        }
        let ghost reserved_accounts = self.accounts_manager@;
        let ghost books_before = self@.books;
        let book = match self.orderbooks.get_mut(symbol.as_str()) {
            Some(book) => book,
            None => {
                return Err(ExchangeError::UnknownSymbol);
            },
        };
        let result = match book.handle_limit_order(order) {
            Ok(result) => result,
            Err(e) => {
                return Err(ExchangeError::from(e));
            },
        };
        let ghost fills = result.fills@;
        proof {
            assert(fills == limit_order_outcome(books_before[symbol@], order).1);
            assert(spec_reserve_for_order(old(self)@.accounts, order) == Ok::<Map<UserId, AccountModel>, AccountsError>(reserved_accounts));
            assert(fills.skip(0) =~= fills);
            assert(self@.books =~= books_before.insert(
                symbol@,
                limit_order_outcome(books_before[symbol@], order).0,
            ));
        }
        let n = result.fills.len();
        for i in 0..n
            invariant
                self.wf(),
                n == fills.len(),
                fills == result.fills@,
                self@.books == books_before.insert(
                    symbol@,
                    limit_order_outcome(books_before[symbol@], order).0,
                ),
                spec_settle_fills(reserved_accounts, fills) == spec_settle_fills(
                    self.accounts_manager@,
                    fills.skip(i as int),
                ),
                settle_fills_fit(self.accounts_manager@, fills.skip(i as int)),
                spec_submit(old(self)@, order).0 == (ExchangeView {
                    books: books_before.insert(
                        symbol@,
                        limit_order_outcome(books_before[symbol@], order).0,
                    ),
                    accounts: spec_settle_fills(reserved_accounts, fills).0,
                }),
                spec_settle_fills(reserved_accounts, fills).1 is Err ==> spec_submit(
                    old(self)@,
                    order,
                ).1 == Err::<(Seq<Trade>, Option<Order>), ExchangeError>(ExchangeError::Account),
        {
            proof {
                lemma_settle_fills_step(self.accounts_manager@, fills, i as int);
            }
            match self.accounts_manager.settle_fill(&result.fills[i]) {
                Ok(()) => {},
                Err(e) => {
                    proof {
                        assert(spec_settle_fills(reserved_accounts, fills) == (
                            self.accounts_manager@,
                            Err::<(), AccountsError>(e),
                        ));
                    }
                    return Err(ExchangeError::from(e));
                },
            }
        }
        proof {
            assert(fills.skip(n as int).len() == 0);
        }
        Ok(result)
    }

    /// Cancels the open order `order_id` of `user_id` in the book of `symbol`: gives its
    /// reservation back and takes it out of the book.
    pub fn cancel_order(&mut self, user_id: UserId, symbol: Symbol, order_id: OrderId) -> (r:
        Result<Order, ExchangeError>)
        requires
            old(self).wf(),
            old(self)@.books.contains_key(symbol@) && old(self)@.books[symbol@].orders.contains_key(
                order_id,
            ) && old(self)@.books[symbol@].orders[order_id].user_id == user_id ==> release_fits(
                old(self)@.accounts,
                old(self)@.books[symbol@].orders[order_id],
            ),
        ensures
            final(self).wf(),
            (final(self)@, r) == spec_cancel(old(self)@, user_id, symbol@, order_id),
    {
        let order = match self.orderbooks.get(symbol.as_str()) {
            None => {
                return Err(ExchangeError::UnknownSymbol);
            },
            Some(book) => match book.get_open_order(order_id) {
                Some(open_order) => open_order.duplicate(),
                None => {
                    return Err(ExchangeError::UnknownOrder);
                },
            },
        };
        if order.user_id != user_id {
            return Err(ExchangeError::Unauthorized);
        }
        match self.accounts_manager.release_reserved_order(&order) {
            Ok(()) => {},
            Err(e) => {
                return Err(ExchangeError::from(e));
            },
        }
        let ghost books_before = self@.books;
        let book = match self.orderbooks.get_mut(symbol.as_str()) {
            Some(book) => book,
            None => {
                return Err(ExchangeError::UnknownSymbol);
            },
        };
        let cancelled = book.cancel_order(order_id);
        proof {
            assert(self@.books =~= books_before.insert(
                symbol@,
                cancel_in_book(books_before[symbol@], order_id),
            ));
        }
        match cancelled {
            Some(cancelled_order) => Ok(cancelled_order),
            None => Err(ExchangeError::UnknownOrder),
        }
    }

    /// Opens an empty book for `symbol`, replacing any book it had.
    pub fn insert_symbol(&mut self, symbol: Symbol)
        requires
            old(self).wf(),
        ensures
            final(self).wf(),
            final(self)@ == (ExchangeView {
                books: old(self)@.books.insert(symbol@, empty_book()),
                ..old(self)@
            }),
    {
        let ghost key = symbol@;
        let book = Orderbook::new();
        proof {
            assert(book@.bids =~= Map::empty());
            assert(book@.asks =~= Map::empty());
            assert(book@.orders =~= Map::empty());
        }
        self.orderbooks.insert(symbol, book);
        proof {
            assert(self@.books =~= old(self)@.books.insert(key, empty_book()));
        }
    }
}

} // verus!

verus! {

/// Cancelling a limit order that did not cross its book, right after submitting it,
/// gives the exchange back as it was: the order rests untraded, and cancelling it takes
/// it out of the book and gives its reservation back.
pub proof fn law_cancel_undoes_submit(exchange: ExchangeView, order: Order)
    requires
        exchange.books.contains_key(order.symbol@),
        book_consistent(exchange.books[order.symbol@]),
        !exchange.books[order.symbol@].orders.contains_key(order.id),
        order.price > 0,
        order.remaining > 0,
        !crosses(exchange.books[order.symbol@], order),
        spec_enough_for_order(exchange.accounts, order) is Ok,
        match order.side {
            Side::Bid => !exchange.accounts[order.user_id].reservations.contains_key(order.id),
            Side::Ask => !exchange.accounts[order.user_id].positions[order.symbol@].reservations.contains_key(
                order.id,
            ),
        },
    ensures
        spec_submit(exchange, order).1 == Ok::<(Seq<Trade>, Option<Order>), ExchangeError>(
            (Seq::empty(), Some(order)),
        ),
        spec_cancel(spec_submit(exchange, order).0, order.user_id, order.symbol@, order.id) == (
            exchange,
            Ok::<Order, ExchangeError>(order),
        ),
{
    let symbol = order.symbol@;
    let book = exchange.books[symbol];
    let fuel = (book.orders.len() + 1) as nat;
    lemma_match_taker_done(book, order, fuel);
    let p = order.price as int;
    let q = order.remaining as int;
    assert(p * q == q * p) by (nonlinear_arith);
    law_release_undoes_reserve(exchange.accounts, order);
    law_cancel_undoes_rest(book, order);
    let reserved = spec_reserve_for_order(exchange.accounts, order)->Ok_0;
    assert(spec_settle_fills(reserved, Seq::<Trade>::empty()) == (reserved, Ok::<(), AccountsError>(())));
    let after = spec_submit(exchange, order).0;
    assert(after.books[symbol] == rest_order(book, order));
    assert(after.books.insert(symbol, book) =~= exchange.books);
}

/// Submitting an order keeps every book of the exchange uncrossed and consistent: the
/// book of its symbol by the law of the limit order, the others untouched.
pub proof fn law_submit_keeps_books_uncrossed(exchange: ExchangeView, order: Order)
    requires
        forall|symbol: Seq<char>| #[trigger]
            exchange.books.contains_key(symbol) ==> book_consistent(exchange.books[symbol])
                && uncrossed(exchange.books[symbol]),
        exchange.books.contains_key(order.symbol@) ==> !exchange.books[order.symbol@].orders.contains_key(
            order.id,
        ),
    ensures
        forall|symbol: Seq<char>| #[trigger]
            spec_submit(exchange, order).0.books.contains_key(symbol) ==> book_consistent(
                spec_submit(exchange, order).0.books[symbol],
            ) && uncrossed(spec_submit(exchange, order).0.books[symbol]),
{
    let symbol = order.symbol@;
    if exchange.books.contains_key(symbol) && order.remaining > 0 {
        law_limit_order_keeps_book_uncrossed(exchange.books[symbol], order);
    }
}

} // verus!

verus! {

/// Settling trades one after the other, when every settlement succeeds, changes neither
/// the total funds nor the total holding of any symbol.
proof fn lemma_settle_fills_keep_totals(accounts: Map<UserId, AccountModel>, fills: Seq<Trade>)
    requires
        accounts_finite(accounts),
        settle_fills_fit(accounts, fills),
        spec_settle_fills(accounts, fills).1 is Ok,
    ensures
        accounts_finite(spec_settle_fills(accounts, fills).0),
        total_funds(spec_settle_fills(accounts, fills).0) == total_funds(accounts),
        forall|symbol: Seq<char>| #[trigger]
            total_holding(spec_settle_fills(accounts, fills).0, symbol) == total_holding(
                accounts,
                symbol,
            ),
    decreases fills.len(),
{
    if fills.len() > 0 {
        let after = spec_settle_fill(accounts, fills[0]).0;
        law_settle_fill_keeps_totals(accounts, fills[0]);
        lemma_settle_fills_keep_totals(after, fills.drop_first());
    }
}

/// A submission that succeeds moves value between users and creates or destroys none:
/// the total of the free balances and of what buy reservations hold back, and for each
/// symbol the total of the free quantities and of what sell reservations hold back, are
/// the same after it as before. The order's id must not be reserved already by its user.
pub proof fn law_submit_keeps_totals(exchange: ExchangeView, order: Order)
    requires
        accounts_finite(exchange.accounts),
        submit_fits(exchange, order),
        spec_submit(exchange, order).1 is Ok,
        exchange.accounts.contains_key(order.user_id) ==> match order.side {
            Side::Bid => !exchange.accounts[order.user_id].reservations.contains_key(order.id),
            Side::Ask => exchange.accounts[order.user_id].positions.contains_key(order.symbol@)
                ==> !exchange.accounts[order.user_id].positions[order.symbol@].reservations.contains_key(
                order.id,
            ),
        },
    ensures
        accounts_finite(spec_submit(exchange, order).0.accounts),
        total_funds(spec_submit(exchange, order).0.accounts) == total_funds(exchange.accounts),
        forall|symbol: Seq<char>| #[trigger]
            total_holding(spec_submit(exchange, order).0.accounts, symbol) == total_holding(
                exchange.accounts,
                symbol,
            ),
{
    let p = order.price as int;
    let q = order.remaining as int;
    assert(p * q == q * p) by (nonlinear_arith);
    let reserved = spec_reserve_for_order(exchange.accounts, order)->Ok_0;
    lemma_reserve_keeps_totals(exchange.accounts, order, reserved);
    let fills = limit_order_outcome(exchange.books[order.symbol@], order).1;
    lemma_settle_fills_keep_totals(reserved, fills);
    let settled = spec_settle_fills(reserved, fills).0;
    assert(spec_submit(exchange, order).0.accounts == settled);
    assert forall|symbol: Seq<char>| #[trigger]
        total_holding(settled, symbol) == total_holding(exchange.accounts, symbol) by {
        assert(total_holding(settled, symbol) == total_holding(reserved, symbol));
        assert(total_holding(reserved, symbol) == total_holding(exchange.accounts, symbol));
    }
}

} // verus!
