use crate::accounts::{
    buyer_of, consume_balance_fits, consume_position_fits, increase_position_fits, seller_of,
    settle_fill_fits, spec_consume_balance, spec_enough_for_order, spec_release, spec_consume_position, spec_increase_position,
    spec_settle_fill, use_reservation, AccountModel, AccountsError, Reservation,
};
use crate::exchange::{
    law_submit_keeps_totals,    settle_fills_fit, submit_fits,    empty_book, initial_books, spec_cancel, spec_reserve_for_order, spec_settle_fills, spec_submit,
    ExchangeView,
};
use crate::orderbook::{
    book_consistent, cancel_in_book, crosses, lemma_cancel_consistent, fill_step, lemma_fill_step, lemma_match_taker_done,
    lemma_match_taker_facts, lemma_match_taker_step, lemma_rest_order_consistent,
    limit_order_outcome, match_taker, opposite_best_level, BookView, filled_quantity, trade_of,
    lemma_fills_from_book, law_quantity_conserved, law_first_fill_has_priority,
};
use crate::totals::{
    accounts_finite, law_settle_fill_keeps_totals, lemma_consume_balance_totals,
    lemma_reserve_keeps_totals, lemma_consume_position_totals,
    lemma_increase_position_totals, lemma_reserved_at, lemma_totals_bound_accounts, total_funds,
    total_holding, funds_of, holding_of, lemma_map_sum_congruent, map_sum, reserved_units,
    reserved_value,
};
use crate::types::{Order, OrderId, Quantity, Price, Side, Trade, UserId};
use vstd::prelude::*;

verus! {

// ---------------------------------------------------------------------------
// Open orders and the reservations that back them
// ---------------------------------------------------------------------------
/// The account holds the reservation of `order` (of the book of `symbol`): a buy order's
/// among the account's reservations, a sell order's among those of its holding of
/// `symbol`, at the order's price and for its remaining quantity; and the account has a
/// holding of `symbol`, where a buy order's units arrive.
pub open spec fn holds_reservation(account: AccountModel, order: Order, symbol: Seq<char>) -> bool {
    let wanted = Reservation { price: order.price, quantity: order.remaining };
    &&& account.positions.contains_key(symbol)
    &&& match order.side {
        Side::Bid => account.reservations.contains_key(order.id) && account.reservations[order.id]
            == wanted,
        Side::Ask => account.positions[symbol].reservations.contains_key(order.id)
            && account.positions[symbol].reservations[order.id] == wanted,
    }
}

/// The open order `order` of the book of `symbol` is backed by its user's reservation.
pub open spec fn order_reserved(
    accounts: Map<UserId, AccountModel>,
    order: Order,
    symbol: Seq<char>,
) -> bool {
    &&& order.symbol@ == symbol
    &&& accounts.contains_key(order.user_id)
    &&& holds_reservation(accounts[order.user_id], order, symbol)
}

/// Two orders (of the books of `sa` and `sb`) would be backed by the same reservation:
/// same user, same id, same side, and for sell orders the same symbol.
pub open spec fn same_reservation(a: Order, sa: Seq<char>, b: Order, sb: Seq<char>) -> bool {
    &&& a.user_id == b.user_id
    &&& a.id == b.id
    &&& a.side == b.side
    &&& a.side is Ask ==> sa == sb
}

/// The reservation of `order` (of the book of `symbol`) is one that settling `trade` uses.
pub open spec fn trade_uses(trade: Trade, order: Order, symbol: Seq<char>) -> bool {
    ||| order.side is Bid && (order.user_id, order.id) == buyer_of(trade)
    ||| order.side is Ask && symbol == trade.symbol@ && (order.user_id, order.id) == seller_of(trade)
}

/// The trade of `quantity` between the resting `maker` and the incoming `taker`, at the
/// maker's price.
pub open spec fn trade_between(maker: Order, taker: Order, quantity: Quantity) -> Trade {
    Trade {
        maker_order_id: maker.id,
        taker_order_id: taker.id,
        maker_user_id: maker.user_id,
        taker_user_id: taker.user_id,
        symbol: taker.symbol,
        taker_side: taker.side,
        price: maker.price,
        quantity,
    }
}

// ---------------------------------------------------------------------------
// What each step of a settlement leaves in place
// ---------------------------------------------------------------------------
proof fn lemma_consume_balance_frame(
    accounts: Map<UserId, AccountModel>,
    user_id: UserId,
    order_id: OrderId,
    price: Price,
    quantity: Quantity,
)
    requires
        spec_consume_balance(accounts, user_id, order_id, price, quantity) is Ok,
    ensures
        ({
            let after = spec_consume_balance(accounts, user_id, order_id, price, quantity)->Ok_0;
            &&& after.dom() == accounts.dom()
            &&& after == accounts.insert(user_id, after[user_id])
            &&& after[user_id].positions == accounts[user_id].positions
            &&& after[user_id].reservations == use_reservation(
                accounts[user_id].reservations,
                order_id,
                quantity,
            )
            &&& forall|o: Order, s: Seq<char>|
                order_reserved(accounts, o, s) && !(o.side is Bid && o.user_id == user_id && o.id
                    == order_id) ==> #[trigger] order_reserved(after, o, s)
        }),
{
    let after = spec_consume_balance(accounts, user_id, order_id, price, quantity)->Ok_0;
    assert(after.dom() =~= accounts.dom());
}

proof fn lemma_increase_position_frame(
    accounts: Map<UserId, AccountModel>,
    user_id: UserId,
    symbol: Seq<char>,
    quantity: Quantity,
)
    requires
        spec_increase_position(accounts, user_id, symbol, quantity) is Ok,
    ensures
        ({
            let after = spec_increase_position(accounts, user_id, symbol, quantity)->Ok_0;
            &&& after.dom() == accounts.dom()
            &&& after == accounts.insert(user_id, after[user_id])
            &&& after[user_id].reservations == accounts[user_id].reservations
            &&& after[user_id].positions.dom() == accounts[user_id].positions.dom()
            &&& forall|s: Seq<char>| #[trigger]
                after[user_id].positions.contains_key(s) ==> after[user_id].positions[s].reservations
                    == accounts[user_id].positions[s].reservations
            &&& forall|o: Order, s: Seq<char>|
                order_reserved(accounts, o, s) ==> #[trigger] order_reserved(after, o, s)
        }),
{
    let after = spec_increase_position(accounts, user_id, symbol, quantity)->Ok_0;
    assert(after.dom() =~= accounts.dom());
    assert(after[user_id].positions.dom() =~= accounts[user_id].positions.dom());
}

proof fn lemma_consume_position_frame(
    accounts: Map<UserId, AccountModel>,
    user_id: UserId,
    symbol: Seq<char>,
    order_id: OrderId,
    price: Price,
    quantity: Quantity,
)
    requires
        spec_consume_position(accounts, user_id, symbol, order_id, price, quantity) is Ok,
    ensures
        ({
            let after = spec_consume_position(accounts, user_id, symbol, order_id, price, quantity)->Ok_0;
            &&& after.dom() == accounts.dom()
            &&& after == accounts.insert(user_id, after[user_id])
            &&& after[user_id].reservations == accounts[user_id].reservations
            &&& after[user_id].positions.dom() == accounts[user_id].positions.dom()
            &&& after[user_id].positions[symbol].reservations == use_reservation(
                accounts[user_id].positions[symbol].reservations,
                order_id,
                quantity,
            )
            &&& forall|s: Seq<char>| #[trigger]
                after[user_id].positions.contains_key(s) && s != symbol
                    ==> after[user_id].positions[s] == accounts[user_id].positions[s]
            &&& forall|o: Order, s: Seq<char>|
                order_reserved(accounts, o, s) && !(o.side is Ask && o.user_id == user_id && o.id
                    == order_id && s == symbol) ==> #[trigger] order_reserved(after, o, s)
        }),
{
    let after = spec_consume_position(accounts, user_id, symbol, order_id, price, quantity)->Ok_0;
    assert(after.dom() =~= accounts.dom());
    assert(after[user_id].positions.dom() =~= accounts[user_id].positions.dom());
}

/// Settling a trade leaves every reservation it does not use in place.
proof fn lemma_settle_fill_frame(accounts: Map<UserId, AccountModel>, trade: Trade)
    requires
        spec_settle_fill(accounts, trade).1 is Ok,
    ensures
        spec_settle_fill(accounts, trade).0.dom() == accounts.dom(),
        forall|o: Order, s: Seq<char>|
            order_reserved(accounts, o, s) && !trade_uses(trade, o, s) ==> #[trigger] order_reserved(
                spec_settle_fill(accounts, trade).0,
                o,
                s,
            ),
{
    let symbol = trade.symbol@;
    let p = trade.price;
    let q = trade.quantity;
    let u = trade.taker_user_id;
    let m = trade.maker_user_id;
    match trade.taker_side {
        Side::Bid => {
            lemma_consume_balance_frame(accounts, u, trade.taker_order_id, p, q);
            let step1 = spec_consume_balance(accounts, u, trade.taker_order_id, p, q)->Ok_0;
            lemma_increase_position_frame(step1, u, symbol, q);
            let step2 = spec_increase_position(step1, u, symbol, q)->Ok_0;
            lemma_consume_position_frame(step2, m, symbol, trade.maker_order_id, p, q);
            let step3 = spec_consume_position(step2, m, symbol, trade.maker_order_id, p, q)->Ok_0;
            assert forall|o: Order, s: Seq<char>|
                order_reserved(accounts, o, s) && !trade_uses(trade, o, s) implies #[trigger] order_reserved(
                step3,
                o,
                s,
            ) by {
                assert(order_reserved(step1, o, s));
                assert(order_reserved(step2, o, s));
            }
        },
        Side::Ask => {
            lemma_consume_position_frame(accounts, u, symbol, trade.taker_order_id, p, q);
            let step1 = spec_consume_position(accounts, u, symbol, trade.taker_order_id, p, q)->Ok_0;
            lemma_consume_balance_frame(step1, m, trade.maker_order_id, p, q);
            let step2 = spec_consume_balance(step1, m, trade.maker_order_id, p, q)->Ok_0;
            lemma_increase_position_frame(step2, m, symbol, q);
            let step3 = spec_increase_position(step2, m, symbol, q)->Ok_0;
            assert forall|o: Order, s: Seq<char>|
                order_reserved(accounts, o, s) && !trade_uses(trade, o, s) implies #[trigger] order_reserved(
                step3,
                o,
                s,
            ) by {
                assert(order_reserved(step1, o, s));
                assert(order_reserved(step2, o, s));
            }
        },
    }
}


/// Settling the trade between a maker and a taker of opposite sides that both hold their
/// reservations succeeds, and each of them that keeps quantity afterwards still holds
/// its reservation, for what it has left.
proof fn lemma_settle_fill_parties(
    accounts: Map<UserId, AccountModel>,
    maker: Order,
    taker: Order,
    quantity: Quantity,
    symbol: Seq<char>,
)
    requires
        maker.side != taker.side,
        order_reserved(accounts, maker, symbol),
        order_reserved(accounts, taker, symbol),
        quantity <= maker.remaining,
        quantity <= taker.remaining,
    ensures
        ({
            let (after, r) = spec_settle_fill(accounts, trade_between(maker, taker, quantity));
            &&& r is Ok
            &&& quantity < maker.remaining ==> order_reserved(
                after,
                Order { remaining: (maker.remaining - quantity) as u64, ..maker },
                symbol,
            )
            &&& quantity < taker.remaining ==> order_reserved(
                after,
                Order { remaining: (taker.remaining - quantity) as u64, ..taker },
                symbol,
            )
        }),
{
    let trade = trade_between(maker, taker, quantity);
    let p = trade.price;
    let q = quantity;
    let u = taker.user_id;
    let m = maker.user_id;
    let maker_after = Order { remaining: (maker.remaining - quantity) as u64, ..maker };
    let taker_after = Order { remaining: (taker.remaining - quantity) as u64, ..taker };
    match taker.side {
        Side::Bid => {
            lemma_consume_balance_frame(accounts, u, taker.id, p, q);
            let step1 = spec_consume_balance(accounts, u, taker.id, p, q)->Ok_0;
            assert(order_reserved(step1, maker, symbol));
            lemma_increase_position_frame(step1, u, symbol, q);
            let step2 = spec_increase_position(step1, u, symbol, q)->Ok_0;
            assert(order_reserved(step2, maker, symbol));
            lemma_consume_position_frame(step2, m, symbol, maker.id, p, q);
            let step3 = spec_consume_position(step2, m, symbol, maker.id, p, q)->Ok_0;
            assert(spec_settle_fill(accounts, trade) == (step3, Ok::<(), AccountsError>(())));
            if quantity < taker.remaining {
                assert(step2[u].reservations == step1[u].reservations);
                assert(step3[u].reservations == step2[u].reservations);
                assert(step2[u].positions.contains_key(symbol));
                assert(step3[u].positions.contains_key(symbol));
                assert(order_reserved(step3, taker_after, symbol));
            }
            if quantity < maker.remaining {
                assert(step3[m].positions.contains_key(symbol));
                assert(order_reserved(step3, maker_after, symbol));
            }
        },
        Side::Ask => {
            lemma_consume_position_frame(accounts, u, symbol, taker.id, p, q);
            let step1 = spec_consume_position(accounts, u, symbol, taker.id, p, q)->Ok_0;
            assert(order_reserved(step1, maker, symbol));
            lemma_consume_balance_frame(step1, m, maker.id, p, q);
            let step2 = spec_consume_balance(step1, m, maker.id, p, q)->Ok_0;
            lemma_increase_position_frame(step2, m, symbol, q);
            let step3 = spec_increase_position(step2, m, symbol, q)->Ok_0;
            assert(spec_settle_fill(accounts, trade) == (step3, Ok::<(), AccountsError>(())));
            if quantity < taker.remaining {
                assert(step2[u].positions == step1[u].positions);
                assert(step3[u].positions[symbol].reservations == step2[u].positions[symbol].reservations);
                assert(order_reserved(step3, taker_after, symbol));
            }
            if quantity < maker.remaining {
                assert(step3[m].reservations == step2[m].reservations);
                assert(order_reserved(step3, maker_after, symbol));
            }
        },
    }
}


/// Within totals that fit in `u64`, the arithmetic of settling the trade between a maker
/// and a taker that both hold their reservations fits too.
proof fn lemma_settle_fill_fits(
    accounts: Map<UserId, AccountModel>,
    maker: Order,
    taker: Order,
    quantity: Quantity,
    symbol: Seq<char>,
)
    requires
        maker.side != taker.side,
        order_reserved(accounts, maker, symbol),
        order_reserved(accounts, taker, symbol),
        quantity <= maker.remaining,
        quantity <= taker.remaining,
        taker.side is Bid ==> maker.price <= taker.price,
        accounts_finite(accounts),
        total_funds(accounts) <= u64::MAX,
        total_holding(accounts, symbol) <= u64::MAX,
    ensures
        settle_fill_fits(accounts, trade_between(maker, taker, quantity)),
{
    let p = maker.price;
    let q = quantity;
    let u = taker.user_id;
    let m = maker.user_id;
    lemma_totals_bound_accounts(accounts, u, m, symbol);
    lemma_totals_bound_accounts(accounts, m, u, symbol);
    match taker.side {
        Side::Bid => {
            let a = accounts[u];
            let rp = taker.price as int;
            let rq = taker.remaining as int;
            lemma_reserved_at(a.reservations, taker.id);
            lemma_reserved_at(accounts[m].positions[symbol].reservations, maker.id);
            lemma_reserved_at(accounts[m].reservations, maker.id);
            let qi = q as int;
            let pi = p as int;
            assert(qi * rp <= rp * rq && qi * (rp - pi) <= qi * rp) by (nonlinear_arith)
                requires
                    0 <= qi <= rq,
                    0 <= pi <= rp,
            ;
            assert(consume_balance_fits(a, taker.id, p, q));
            if spec_consume_balance(accounts, u, taker.id, p, q) is Ok {
                lemma_consume_balance_frame(accounts, u, taker.id, p, q);
                lemma_consume_balance_totals(accounts, u, taker.id, p, q);
                let step1 = spec_consume_balance(accounts, u, taker.id, p, q)->Ok_0;
                assert(increase_position_fits(step1[u], symbol, q));
                if spec_increase_position(step1, u, symbol, q) is Ok {
                    lemma_increase_position_frame(step1, u, symbol, q);
                    lemma_increase_position_totals(step1, u, symbol, q);
                    let step2 = spec_increase_position(step1, u, symbol, q)->Ok_0;
                    assert(order_reserved(step1, maker, symbol));
                    assert(order_reserved(step2, maker, symbol));
                    lemma_totals_bound_accounts(step2, m, m, symbol);
                    assert(pi * qi >= 0) by (nonlinear_arith)
                        requires
                            pi >= 0,
                            qi >= 0,
                    ;
                    assert(consume_position_fits(step2[m], symbol, maker.id, p, q));
                }
            }
        },
        Side::Ask => {
            let a = accounts[u];
            let b = accounts[m];
            let mq = maker.remaining as int;
            lemma_reserved_at(b.reservations, maker.id);
            lemma_reserved_at(a.positions[symbol].reservations, taker.id);
            lemma_reserved_at(a.reservations, maker.id);
            let qi = q as int;
            let pi = p as int;
            assert(pi * qi <= pi * mq && qi * pi == pi * qi && pi * qi >= 0) by (nonlinear_arith)
                requires
                    0 <= qi <= mq,
                    0 <= pi,
            ;
            assert(consume_position_fits(a, symbol, taker.id, p, q));
            if spec_consume_position(accounts, u, symbol, taker.id, p, q) is Ok {
                lemma_consume_position_frame(accounts, u, symbol, taker.id, p, q);
                lemma_consume_position_totals(accounts, u, symbol, taker.id, p, q);
                let step1 = spec_consume_position(accounts, u, symbol, taker.id, p, q)->Ok_0;
                assert(order_reserved(step1, maker, symbol));
                assert(step1[m].reservations == b.reservations);
                assert(consume_balance_fits(step1[m], maker.id, p, q));
                if spec_consume_balance(step1, m, maker.id, p, q) is Ok {
                    lemma_consume_balance_frame(step1, m, maker.id, p, q);
                    lemma_consume_balance_totals(step1, m, maker.id, p, q);
                    let step2 = spec_consume_balance(step1, m, maker.id, p, q)->Ok_0;
                    lemma_totals_bound_accounts(step2, m, m, symbol);
                    assert(increase_position_fits(step2[m], symbol, q));
                }
            }
        },
    }
}

/// The accounts hold the buy reservation `(user_id, order_id)`.
pub open spec fn has_bid(accounts: Map<UserId, AccountModel>, user_id: UserId, order_id: OrderId) -> bool {
    accounts.contains_key(user_id) && accounts[user_id].reservations.contains_key(order_id)
}

/// The accounts hold the sell reservation `(user_id, symbol, order_id)`.
pub open spec fn has_ask(
    accounts: Map<UserId, AccountModel>,
    user_id: UserId,
    symbol: Seq<char>,
    order_id: OrderId,
) -> bool {
    &&& accounts.contains_key(user_id)
    &&& accounts[user_id].positions.contains_key(symbol)
    &&& accounts[user_id].positions[symbol].reservations.contains_key(order_id)
}

/// The buy reservation `(user_id, order_id)` of `after`, if any, was in `before` with the
/// same value.
pub open spec fn bid_kept(
    before: Map<UserId, AccountModel>,
    after: Map<UserId, AccountModel>,
    user_id: UserId,
    order_id: OrderId,
) -> bool {
    after.contains_key(user_id) && after[user_id].reservations.contains_key(order_id) ==> {
        &&& before.contains_key(user_id)
        &&& before[user_id].reservations.contains_key(order_id)
        &&& after[user_id].reservations[order_id] == before[user_id].reservations[order_id]
    }
}

/// The sell reservation `(user_id, symbol, order_id)` of `after`, if any, was in `before`
/// with the same value.
pub open spec fn ask_kept(
    before: Map<UserId, AccountModel>,
    after: Map<UserId, AccountModel>,
    user_id: UserId,
    symbol: Seq<char>,
    order_id: OrderId,
) -> bool {
    after.contains_key(user_id) && after[user_id].positions.contains_key(symbol)
        && after[user_id].positions[symbol].reservations.contains_key(order_id) ==> {
        &&& before.contains_key(user_id)
        &&& before[user_id].positions.contains_key(symbol)
        &&& before[user_id].positions[symbol].reservations.contains_key(order_id)
        &&& after[user_id].positions[symbol].reservations[order_id]
            == before[user_id].positions[symbol].reservations[order_id]
    }
}

/// `order` (of the book of `symbol`) is the buy order `(user_id, order_id)`.
pub open spec fn is_bid_key(order: Order, user_id: UserId, order_id: OrderId) -> bool {
    order.side is Bid && order.user_id == user_id && order.id == order_id
}

/// `order` (of the book of `order_symbol`) is the sell order `(user_id, symbol, order_id)`.
pub open spec fn is_ask_key(
    order: Order,
    order_symbol: Seq<char>,
    user_id: UserId,
    symbol: Seq<char>,
    order_id: OrderId,
) -> bool {
    order.side is Ask && order.user_id == user_id && order.id == order_id && symbol == order_symbol
}

/// The accounts hold a reservation under the key of `order` (of the book of `symbol`).
pub open spec fn key_reserved(accounts: Map<UserId, AccountModel>, order: Order, symbol: Seq<char>) -> bool {
    &&& accounts.contains_key(order.user_id)
    &&& match order.side {
        Side::Bid => accounts[order.user_id].reservations.contains_key(order.id),
        Side::Ask => accounts[order.user_id].positions.contains_key(symbol)
            && accounts[order.user_id].positions[symbol].reservations.contains_key(order.id),
    }
}

proof fn lemma_use_reservation_keys(
    reservations: Map<OrderId, Reservation>,
    order_id: OrderId,
    quantity: Quantity,
)
    requires
        reservations.contains_key(order_id),
        quantity <= reservations[order_id].quantity,
    ensures
        forall|k: OrderId| #[trigger]
            use_reservation(reservations, order_id, quantity).contains_key(k) ==> reservations.contains_key(k)
                && (k != order_id ==> use_reservation(reservations, order_id, quantity)[k]
                == reservations[k]),
        use_reservation(reservations, order_id, quantity).contains_key(order_id) ==> quantity
            < reservations[order_id].quantity,
{
}

/// Settling the trade between a maker and a taker adds no reservation and changes none
/// but theirs; each of theirs is left only when quantity remains to it.
proof fn lemma_settle_fill_kept(
    accounts: Map<UserId, AccountModel>,
    maker: Order,
    taker: Order,
    quantity: Quantity,
    symbol: Seq<char>,
)
    requires
        maker.side != taker.side,
        order_reserved(accounts, maker, symbol),
        order_reserved(accounts, taker, symbol),
        quantity <= maker.remaining,
        quantity <= taker.remaining,
    ensures
        ({
            let after = spec_settle_fill(accounts, trade_between(maker, taker, quantity)).0;
            &&& after.dom() == accounts.dom()
            &&& forall|u: UserId, id: OrderId|
                !is_bid_key(maker, u, id) && !is_bid_key(taker, u, id) ==> #[trigger] bid_kept(
                    accounts,
                    after,
                    u,
                    id,
                )
            &&& forall|u: UserId, s: Seq<char>, id: OrderId|
                !is_ask_key(maker, symbol, u, s, id) && !is_ask_key(taker, symbol, u, s, id)
                    ==> #[trigger] ask_kept(accounts, after, u, s, id)
            &&& key_reserved(after, maker, symbol) ==> quantity < maker.remaining
            &&& key_reserved(after, taker, symbol) ==> quantity < taker.remaining
        }),
{
    let trade = trade_between(maker, taker, quantity);
    let p = trade.price;
    let q = quantity;
    let u = taker.user_id;
    let m = maker.user_id;
    lemma_settle_fill_parties(accounts, maker, taker, quantity, symbol);
    match taker.side {
        Side::Bid => {
            lemma_consume_balance_frame(accounts, u, taker.id, p, q);
            let step1 = spec_consume_balance(accounts, u, taker.id, p, q)->Ok_0;
            lemma_increase_position_frame(step1, u, symbol, q);
            let step2 = spec_increase_position(step1, u, symbol, q)->Ok_0;
            assert(order_reserved(step2, maker, symbol));
            lemma_consume_position_frame(step2, m, symbol, maker.id, p, q);
            let step3 = spec_consume_position(step2, m, symbol, maker.id, p, q)->Ok_0;
            lemma_use_reservation_keys(accounts[u].reservations, taker.id, q);
            lemma_use_reservation_keys(step2[m].positions[symbol].reservations, maker.id, q);
            assert(step2[m].positions[symbol].reservations == accounts[m].positions[symbol].reservations);
            assert forall|v: UserId, id: OrderId|
                !is_bid_key(maker, v, id) && !is_bid_key(taker, v, id) implies #[trigger] bid_kept(
                accounts,
                step3,
                v,
                id,
            ) by {
                if step3.contains_key(v) {
                    assert(step3[v].reservations == step2[v].reservations);
                    assert(step2[v].reservations == step1[v].reservations);
                }
            }
            assert forall|v: UserId, s2: Seq<char>, id: OrderId|
                !is_ask_key(maker, symbol, v, s2, id) && !is_ask_key(taker, symbol, v, s2, id)
                    implies #[trigger] ask_kept(accounts, step3, v, s2, id) by {
                if step3.contains_key(v) && step3[v].positions.contains_key(s2) {
                    assert(step1[v].positions == accounts[v].positions);
                    assert(step2[v].positions[s2].reservations == step1[v].positions[s2].reservations);
                }
            }
        },
        Side::Ask => {
            lemma_consume_position_frame(accounts, u, symbol, taker.id, p, q);
            let step1 = spec_consume_position(accounts, u, symbol, taker.id, p, q)->Ok_0;
            assert(order_reserved(step1, maker, symbol));
            lemma_consume_balance_frame(step1, m, maker.id, p, q);
            let step2 = spec_consume_balance(step1, m, maker.id, p, q)->Ok_0;
            lemma_increase_position_frame(step2, m, symbol, q);
            let step3 = spec_increase_position(step2, m, symbol, q)->Ok_0;
            lemma_use_reservation_keys(accounts[u].positions[symbol].reservations, taker.id, q);
            lemma_use_reservation_keys(step1[m].reservations, maker.id, q);
            assert(step1[m].reservations == accounts[m].reservations);
            assert forall|v: UserId, id: OrderId|
                !is_bid_key(maker, v, id) && !is_bid_key(taker, v, id) implies #[trigger] bid_kept(
                accounts,
                step3,
                v,
                id,
            ) by {
                if step3.contains_key(v) {
                    assert(step3[v].reservations == step2[v].reservations);
                    assert(step1[v].reservations == accounts[v].reservations);
                }
            }
            assert forall|v: UserId, s2: Seq<char>, id: OrderId|
                !is_ask_key(maker, symbol, v, s2, id) && !is_ask_key(taker, symbol, v, s2, id)
                    implies #[trigger] ask_kept(accounts, step3, v, s2, id) by {
                if step3.contains_key(v) && step3[v].positions.contains_key(s2) {
                    assert(step3[v].positions[s2].reservations == step2[v].positions[s2].reservations);
                    assert(step2[v].positions == step1[v].positions);
                }
            }
        },
    }
}

// ---------------------------------------------------------------------------
// Matching and settling together
// ---------------------------------------------------------------------------
/// Every open order of `book` (the book of `symbol`) is backed by its reservation.
pub open spec fn book_reserved(
    book: BookView,
    symbol: Seq<char>,
    accounts: Map<UserId, AccountModel>,
) -> bool {
    forall|id: OrderId| #[trigger]
        book.orders.contains_key(id) ==> order_reserved(accounts, book.orders[id], symbol)
}

/// No open order of `book` (the book of `symbol`) would be backed by the reservation of
/// `order` (of the book of `order_symbol`).
pub open spec fn apart_from_book(
    order: Order,
    order_symbol: Seq<char>,
    book: BookView,
    symbol: Seq<char>,
) -> bool {
    forall|id: OrderId| #[trigger]
        book.orders.contains_key(id) ==> !same_reservation(order, order_symbol, book.orders[id], symbol)
}

/// Matching a taker that holds its reservation against a book whose orders hold theirs,
/// and then settling the trades: every settlement succeeds, the orders left in the book
/// and what is left of the taker still hold their reservations, the book keeps no order
/// that it did not have (each with the same user and side), and every other
/// reservation is left in place.
#[verifier::rlimit(60)]
proof fn lemma_match_and_settle(
    book: BookView,
    accounts: Map<UserId, AccountModel>,
    taker: Order,
    symbol: Seq<char>,
    fuel: nat,
)
    requires
        book_consistent(book),
        !book.orders.contains_key(taker.id),
        taker.symbol@ == symbol,
        book_reserved(book, symbol, accounts),
        taker.remaining > 0 ==> order_reserved(accounts, taker, symbol),
        taker.remaining == 0 ==> !key_reserved(accounts, taker, symbol),
    ensures
        ({
            let (book2, fills, taker2) = match_taker(book, taker, fuel);
            let (accounts2, r) = spec_settle_fills(accounts, fills);
            &&& r is Ok
            &&& book_reserved(book2, symbol, accounts2)
            &&& taker2.remaining > 0 ==> order_reserved(accounts2, taker2, symbol)
            &&& accounts_finite(accounts) && total_funds(accounts) <= u64::MAX && total_holding(
                accounts,
                symbol,
            ) <= u64::MAX ==> settle_fills_fit(accounts, fills)
            &&& forall|id: OrderId| #[trigger]
                book2.orders.contains_key(id) ==> book.orders.contains_key(id)
                    && book2.orders[id].user_id == book.orders[id].user_id
                    && book2.orders[id].side == book.orders[id].side
            &&& forall|o: Order, s: Seq<char>|
                order_reserved(accounts, o, s) && !same_reservation(o, s, taker, symbol)
                    && apart_from_book(o, s, book, symbol) ==> #[trigger] order_reserved(
                    accounts2,
                    o,
                    s,
                )
            &&& forall|u: UserId, id: OrderId| #[trigger]
                has_bid(accounts2, u, id) ==> {
                    ||| has_bid(accounts, u, id) && bid_kept(accounts, accounts2, u, id)
                        && !is_bid_key(taker, u, id) && !(book.orders.contains_key(id)
                        && is_bid_key(book.orders[id], u, id))
                    ||| book2.orders.contains_key(id) && is_bid_key(book2.orders[id], u, id)
                    ||| taker2.remaining > 0 && is_bid_key(taker2, u, id)
                }
            &&& forall|u: UserId, s: Seq<char>, id: OrderId| #[trigger]
                has_ask(accounts2, u, s, id) ==> {
                    ||| has_ask(accounts, u, s, id) && ask_kept(accounts, accounts2, u, s, id)
                        && !is_ask_key(taker, symbol, u, s, id) && !(book.orders.contains_key(id)
                        && is_ask_key(book.orders[id], symbol, u, s, id))
                    ||| book2.orders.contains_key(id) && is_ask_key(book2.orders[id], symbol, u, s, id)
                    ||| taker2.remaining > 0 && is_ask_key(taker2, symbol, u, s, id)
                }
        }),
    decreases fuel,
{
    if fuel == 0 {
        reveal(match_taker);
    } else if taker.remaining == 0 || !crosses(book, taker) {
        lemma_match_taker_done(book, taker, fuel);
    } else {
        lemma_fill_step(book, taker);
        lemma_match_taker_step(book, taker, fuel);
        let level = opposite_best_level(book, taker);
        let maker = book.orders[level[0]];
        let (book1, trade, taker1) = fill_step(book, taker);
        let q = trade.quantity;
        let maker_after = Order { remaining: (maker.remaining - q) as u64, ..maker };
        assert({
            &&& trade == trade_between(maker, taker, q)
            &&& q <= maker.remaining
            &&& q <= taker.remaining
            &&& taker1 == Order { remaining: (taker.remaining - q) as u64, ..taker }
            &&& q < maker.remaining ==> book1.orders == book.orders.insert(maker.id, maker_after)
            &&& q == maker.remaining ==> book1.orders == book.orders.remove(maker.id)
            &&& taker.side is Bid ==> maker.price <= taker.price
        }) by {
            reveal(fill_step);
        }
        assert(order_reserved(accounts, maker, symbol));
        lemma_settle_fill_parties(accounts, maker, taker, q, symbol);
        lemma_settle_fill_frame(accounts, trade);
        lemma_settle_fill_kept(accounts, maker, taker, q, symbol);
        let accounts1 = spec_settle_fill(accounts, trade).0;
        assert forall|id: OrderId| #[trigger] book1.orders.contains_key(id) implies order_reserved(
            accounts1,
            book1.orders[id],
            symbol,
        ) by {
            if id != maker.id {
                let o = book.orders[id];
                assert(book1.orders[id] == o);
                assert(!trade_uses(trade, o, symbol));
            }
        }
        lemma_match_and_settle(book1, accounts1, taker1, symbol, (fuel - 1) as nat);
        let rest = match_taker(book1, taker1, (fuel - 1) as nat);
        let fills = seq![trade] + rest.1;
        assert(fills[0] == trade);
        assert(fills.drop_first() =~= rest.1);
        assert(spec_settle_fills(accounts, fills) == spec_settle_fills(accounts1, rest.1));
        if accounts_finite(accounts) && total_funds(accounts) <= u64::MAX && total_holding(
            accounts,
            symbol,
        ) <= u64::MAX {
            lemma_settle_fill_fits(accounts, maker, taker, q, symbol);
            law_settle_fill_keeps_totals(accounts, trade);
            assert(settle_fills_fit(accounts, fills));
        }
        let accounts2 = spec_settle_fills(accounts1, rest.1).0;
        let (book2, taker2) = (rest.0, rest.2);
        assert forall|u: UserId, id: OrderId| #[trigger] has_bid(accounts2, u, id) implies {
            ||| has_bid(accounts, u, id) && bid_kept(accounts, accounts2, u, id) && !is_bid_key(
                taker,
                u,
                id,
            ) && !(book.orders.contains_key(id) && is_bid_key(book.orders[id], u, id))
            ||| book2.orders.contains_key(id) && is_bid_key(book2.orders[id], u, id)
            ||| taker2.remaining > 0 && is_bid_key(taker2, u, id)
        } by {
            if has_bid(accounts1, u, id) && bid_kept(accounts1, accounts2, u, id) && !is_bid_key(
                taker1,
                u,
                id,
            ) && !(book1.orders.contains_key(id) && is_bid_key(book1.orders[id], u, id)) {
                if is_bid_key(maker, u, id) {
                    assert(key_reserved(accounts1, maker, symbol));
                    assert(book1.orders.contains_key(id));
                }
                assert(bid_kept(accounts, accounts1, u, id));
                if book.orders.contains_key(id) && is_bid_key(book.orders[id], u, id) {
                    assert(id != maker.id);
                    assert(book1.orders[id] == book.orders[id]);
                }
            }
        }
        assert forall|u: UserId, s: Seq<char>, id: OrderId| #[trigger]
            has_ask(accounts2, u, s, id) implies {
            ||| has_ask(accounts, u, s, id) && ask_kept(accounts, accounts2, u, s, id)
                && !is_ask_key(taker, symbol, u, s, id) && !(book.orders.contains_key(id)
                && is_ask_key(book.orders[id], symbol, u, s, id))
            ||| book2.orders.contains_key(id) && is_ask_key(book2.orders[id], symbol, u, s, id)
            ||| taker2.remaining > 0 && is_ask_key(taker2, symbol, u, s, id)
        } by {
            if has_ask(accounts1, u, s, id) && ask_kept(accounts1, accounts2, u, s, id)
                && !is_ask_key(taker1, symbol, u, s, id) && !(book1.orders.contains_key(id)
                && is_ask_key(book1.orders[id], symbol, u, s, id)) {
                if is_ask_key(maker, symbol, u, s, id) {
                    assert(key_reserved(accounts1, maker, symbol));
                    assert(book1.orders.contains_key(id));
                }
                assert(ask_kept(accounts, accounts1, u, s, id));
                if book.orders.contains_key(id) && is_ask_key(book.orders[id], symbol, u, s, id) {
                    assert(id != maker.id);
                    assert(book1.orders[id] == book.orders[id]);
                }
            }
        }
        assert forall|o: Order, s: Seq<char>|
            order_reserved(accounts, o, s) && !same_reservation(o, s, taker, symbol)
                && apart_from_book(o, s, book, symbol) implies #[trigger] order_reserved(
                spec_settle_fills(accounts1, rest.1).0,
                o,
                s,
            ) by {
            assert(!same_reservation(o, s, maker, symbol));
            assert(!trade_uses(trade, o, s));
            assert(order_reserved(accounts1, o, s));
            assert(!same_reservation(o, s, taker1, symbol));
            assert forall|id: OrderId| #[trigger] book1.orders.contains_key(id) implies !same_reservation(
                o,
                s,
                book1.orders[id],
                symbol,
            ) by {
                assert(!same_reservation(o, s, book.orders[id], symbol));
            }
        }
    }
}


// ---------------------------------------------------------------------------
// Reserving and releasing
// ---------------------------------------------------------------------------
/// Reserving for `order` leaves every other reservation in place, and the order then
/// holds its reservation when its user has a holding of its symbol.
proof fn lemma_reserve_frame(accounts: Map<UserId, AccountModel>, order: Order)
    requires
        spec_reserve_for_order(accounts, order) is Ok,
    ensures
        ({
            let reserved = spec_reserve_for_order(accounts, order)->Ok_0;
            &&& reserved.dom() == accounts.dom()
            &&& accounts[order.user_id].positions.contains_key(order.symbol@) ==> order_reserved(
                reserved,
                order,
                order.symbol@,
            )
            &&& forall|o: Order, s: Seq<char>|
                order_reserved(accounts, o, s) && !same_reservation(o, s, order, order.symbol@)
                    ==> #[trigger] order_reserved(reserved, o, s)
            &&& forall|u: UserId, id: OrderId|
                #[trigger] has_bid(reserved, u, id) && !is_bid_key(order, u, id) ==> has_bid(
                    accounts,
                    u,
                    id,
                )
            &&& forall|u: UserId, s: Seq<char>, id: OrderId|
                #[trigger] has_ask(reserved, u, s, id) && !is_ask_key(order, order.symbol@, u, s, id)
                    ==> has_ask(accounts, u, s, id)
        }),
{
    let reserved = spec_reserve_for_order(accounts, order)->Ok_0;
    assert(reserved.dom() =~= accounts.dom());
}

/// Giving back the reservation of `order` leaves every other reservation in place.
proof fn lemma_release_frame(accounts: Map<UserId, AccountModel>, order: Order)
    requires
        spec_release(accounts, order) is Ok,
    ensures
        ({
            let released = spec_release(accounts, order)->Ok_0;
            &&& released.dom() == accounts.dom()
            &&& forall|o: Order, s: Seq<char>|
                order_reserved(accounts, o, s) && !same_reservation(o, s, order, order.symbol@)
                    ==> #[trigger] order_reserved(released, o, s)
            &&& forall|u: UserId, id: OrderId|
                #[trigger] has_bid(released, u, id) && !is_bid_key(order, u, id) ==> has_bid(
                    accounts,
                    u,
                    id,
                )
            &&& forall|u: UserId, s: Seq<char>, id: OrderId|
                #[trigger] has_ask(released, u, s, id) && !is_ask_key(order, order.symbol@, u, s, id)
                    ==> has_ask(accounts, u, s, id)
        }),
{
    let released = spec_release(accounts, order)->Ok_0;
    assert(released.dom() =~= accounts.dom());
}

// ---------------------------------------------------------------------------
// The consistency of an exchange
// ---------------------------------------------------------------------------
/// An exchange is consistent when every book is consistent, every open order is backed
/// by a reservation of its user for its price and remaining quantity, and no two open
/// orders of different books would be backed by the same reservation.
pub open spec fn exchange_consistent(exchange: ExchangeView) -> bool {
    &&& forall|s: Seq<char>| #[trigger]
        exchange.books.contains_key(s) ==> book_consistent(exchange.books[s]) && book_reserved(
            exchange.books[s],
            s,
            exchange.accounts,
        )
    &&& forall|s1: Seq<char>, s2: Seq<char>, id: OrderId|
        #![trigger exchange.books[s1].orders[id], exchange.books[s2].orders[id]]
        exchange.books.contains_key(s1) && exchange.books.contains_key(s2)
            && exchange.books[s1].orders.contains_key(id) && exchange.books[s2].orders.contains_key(id)
            && same_reservation(exchange.books[s1].orders[id], s1, exchange.books[s2].orders[id], s2)
            ==> s1 == s2
}

/// The book of `symbol` has an open buy order `(user_id, order_id)`.
pub open spec fn bid_in_book(
    books: Map<Seq<char>, BookView>,
    symbol: Seq<char>,
    user_id: UserId,
    order_id: OrderId,
) -> bool {
    &&& books.contains_key(symbol)
    &&& books[symbol].orders.contains_key(order_id)
    &&& is_bid_key(books[symbol].orders[order_id], user_id, order_id)
}

/// Every reservation backs an open order: a buy reservation an open buy order of its user
/// and id in some book, a sell reservation of a symbol an open sell order of its user and
/// id in the book of that symbol.
pub open spec fn reservations_backed(exchange: ExchangeView) -> bool {
    &&& forall|u: UserId, id: OrderId| #[trigger]
        has_bid(exchange.accounts, u, id) ==> exists|s: Seq<char>| #[trigger]
            bid_in_book(exchange.books, s, u, id)
    &&& forall|u: UserId, s: Seq<char>, id: OrderId| #[trigger]
        has_ask(exchange.accounts, u, s, id) ==> {
            &&& exchange.books.contains_key(s)
            &&& exchange.books[s].orders.contains_key(id)
            &&& is_ask_key(exchange.books[s].orders[id], s, u, s, id)
        }
}

/// The order can be given a reservation of its own: its user holds none under its id
/// (among buy reservations, or among the sell reservations of its symbol), and a buyer
/// has a holding of the symbol for the units to arrive in.
pub open spec fn ready_to_reserve(accounts: Map<UserId, AccountModel>, order: Order) -> bool {
    let symbol = order.symbol@;
    accounts.contains_key(order.user_id) ==> {
        let account = accounts[order.user_id];
        match order.side {
            Side::Bid => account.positions.contains_key(symbol) && !account.reservations.contains_key(
                order.id,
            ),
            Side::Ask => account.positions.contains_key(symbol)
                ==> !account.positions[symbol].reservations.contains_key(order.id),
        }
    }
}

/// An open order backed in `accounts` would not share its reservation with an order
/// that is ready to reserve.
proof fn lemma_ready_apart(accounts: Map<UserId, AccountModel>, order: Order, o: Order, s: Seq<char>)
    requires
        ready_to_reserve(accounts, order),
        order_reserved(accounts, o, s),
    ensures
        !same_reservation(o, s, order, order.symbol@),
{
}

/// In a consistent exchange, once an order ready to reserve has reserved, it and every
/// open order of its book hold their reservations.
proof fn lemma_reserved_for_submission(exchange: ExchangeView, order: Order)
    requires
        exchange_consistent(exchange),
        exchange.books.contains_key(order.symbol@),
        !exchange.books[order.symbol@].orders.contains_key(order.id),
        ready_to_reserve(exchange.accounts, order),
        spec_enough_for_order(exchange.accounts, order) is Ok,
        spec_reserve_for_order(exchange.accounts, order) is Ok,
    ensures
        ({
            let reserved = spec_reserve_for_order(exchange.accounts, order)->Ok_0;
            &&& order_reserved(reserved, order, order.symbol@)
            &&& book_reserved(exchange.books[order.symbol@], order.symbol@, reserved)
            &&& forall|o: Order, s: Seq<char>|
                order_reserved(exchange.accounts, o, s) && !same_reservation(o, s, order, order.symbol@)
                    ==> #[trigger] order_reserved(reserved, o, s)
        }),
{
    let symbol = order.symbol@;
    let accounts = exchange.accounts;
    let book = exchange.books[symbol];
    let reserved = spec_reserve_for_order(accounts, order)->Ok_0;
    lemma_reserve_frame(accounts, order);
    assert forall|id: OrderId| #[trigger] book.orders.contains_key(id) implies order_reserved(
        reserved,
        book.orders[id],
        symbol,
    ) by {
        assert(book_reserved(book, symbol, accounts));
        assert(order_reserved(accounts, book.orders[id], symbol));
    }
}

/// Submitting keeps an exchange consistent, and within a consistent exchange the trades
/// of a submission always settle: a submission either succeeds, or is refused before it
/// changes anything. The order's id must be new in its book, and the order ready to
/// reserve.
pub proof fn law_submit_keeps_consistency(exchange: ExchangeView, order: Order)
    requires
        exchange_consistent(exchange),
        exchange.books.contains_key(order.symbol@) ==> !exchange.books[order.symbol@].orders.contains_key(
            order.id,
        ),
        ready_to_reserve(exchange.accounts, order),
    ensures
        exchange_consistent(spec_submit(exchange, order).0),
        spec_submit(exchange, order).1 is Err ==> spec_submit(exchange, order).0 == exchange,
        reservations_backed(exchange) ==> reservations_backed(spec_submit(exchange, order).0),
{
    let symbol = order.symbol@;
    if order.price == 0 || order.remaining == 0 || !exchange.books.contains_key(symbol)
        || spec_enough_for_order(exchange.accounts, order) is Err
        || spec_reserve_for_order(exchange.accounts, order) is Err {
        return;
    }
    let accounts = exchange.accounts;
    let book = exchange.books[symbol];
    let reserved = spec_reserve_for_order(accounts, order)->Ok_0;
    lemma_reserved_for_submission(exchange, order);
    let fuel = (book.orders.len() + 1) as nat;
    lemma_match_and_settle(book, reserved, order, symbol, fuel);
    lemma_match_taker_facts(book, order, fuel);
    let (book2, fills, left) = match_taker(book, order, fuel);
    let settled = spec_settle_fills(reserved, fills).0;
    let new_book = limit_order_outcome(book, order).0;
    if left.remaining > 0 {
        lemma_rest_order_consistent(book2, left);
    }
    let after = spec_submit(exchange, order).0;
    assert(after.books == exchange.books.insert(symbol, new_book));
    assert(after.accounts == settled);
    // orders of the other books keep their reservations
    assert forall|s2: Seq<char>, id: OrderId|
        #![trigger exchange.books[s2].orders[id]]
        s2 != symbol && exchange.books.contains_key(s2) && exchange.books[s2].orders.contains_key(id)
            implies order_reserved(settled, exchange.books[s2].orders[id], s2) by {
        let o = exchange.books[s2].orders[id];
        assert(book_reserved(exchange.books[s2], s2, accounts));
        assert(order_reserved(accounts, o, s2));
        lemma_ready_apart(accounts, order, o, s2);
        assert(order_reserved(reserved, o, s2));
        assert forall|id2: OrderId| #[trigger] book.orders.contains_key(id2) implies !same_reservation(
            o,
            s2,
            book.orders[id2],
            symbol,
        ) by {
            if same_reservation(o, s2, book.orders[id2], symbol) {
                assert(book_consistent(exchange.books[s2]));
                assert(o.id == id);
                assert(book.orders[id2].id == id2);
                assert(exchange.books[symbol].orders[id] == book.orders[id2]);
            }
        }
        assert(apart_from_book(o, s2, book, symbol));
    }
    assert forall|s2: Seq<char>| #[trigger] after.books.contains_key(s2) implies book_consistent(
        after.books[s2],
    ) && book_reserved(after.books[s2], s2, after.accounts) by {
        if s2 == symbol {
            assert forall|id: OrderId| #[trigger] new_book.orders.contains_key(id) implies order_reserved(
                settled,
                new_book.orders[id],
                symbol,
            ) by {
                if !book2.orders.contains_key(id) {
                    assert(id == left.id);
                }
            }
        } else {
            assert(book_consistent(exchange.books[s2]));
            assert forall|id: OrderId| #[trigger] after.books[s2].orders.contains_key(id) implies order_reserved(
                settled,
                after.books[s2].orders[id],
                s2,
            ) by {
                assert(order_reserved(settled, exchange.books[s2].orders[id], s2));
            }
        }
    }
    assert forall|s1: Seq<char>, s2: Seq<char>, id: OrderId|
        #![trigger after.books[s1].orders[id], after.books[s2].orders[id]]
        after.books.contains_key(s1) && after.books.contains_key(s2)
            && after.books[s1].orders.contains_key(id) && after.books[s2].orders.contains_key(id)
            && same_reservation(after.books[s1].orders[id], s1, after.books[s2].orders[id], s2)
            implies s1 == s2 by {
        if s1 != s2 {
            let a = after.books[s1].orders[id];
            let b = after.books[s2].orders[id];
            if s1 == symbol {
                let b0 = exchange.books[s2].orders[id];
                assert(b == b0);
                assert(book_reserved(exchange.books[s2], s2, accounts));
                assert(order_reserved(accounts, b0, s2));
                if book2.orders.contains_key(id) {
                    assert(exchange.books[s1].orders[id].id == id);
                    assert(b0.id == id);
                    assert(same_reservation(exchange.books[s1].orders[id], s1, b0, s2));
                } else {
                    assert(a == left);
                    lemma_ready_apart(accounts, order, b0, s2);
                }
            } else if s2 == symbol {
                let a0 = exchange.books[s1].orders[id];
                assert(a == a0);
                assert(book_reserved(exchange.books[s1], s1, accounts));
                assert(order_reserved(accounts, a0, s1));
                if book2.orders.contains_key(id) {
                    assert(exchange.books[s2].orders[id].id == id);
                    assert(a0.id == id);
                    assert(same_reservation(a0, s1, exchange.books[s2].orders[id], s2));
                } else {
                    assert(b == left);
                    lemma_ready_apart(accounts, order, a0, s1);
                }
            } else {
                assert(a == exchange.books[s1].orders[id]);
                assert(b == exchange.books[s2].orders[id]);
            }
        }
    }
    if reservations_backed(exchange) {
        assert forall|u: UserId, id: OrderId| #[trigger] has_bid(after.accounts, u, id) implies exists|
            s2: Seq<char>,
        | #[trigger] bid_in_book(after.books, s2, u, id) by {
            if book2.orders.contains_key(id) && is_bid_key(book2.orders[id], u, id) {
                assert(bid_in_book(after.books, symbol, u, id));
            } else if left.remaining > 0 && is_bid_key(left, u, id) {
                assert(new_book.orders[left.id] == left);
                assert(bid_in_book(after.books, symbol, u, id));
            } else {
                assert(has_bid(reserved, u, id));
                assert(!is_bid_key(order, u, id));
                assert(has_bid(accounts, u, id));
                let s2 = choose|s2: Seq<char>| #[trigger] bid_in_book(exchange.books, s2, u, id);
                assert(bid_in_book(exchange.books, s2, u, id));
                assert(s2 != symbol);
                assert(bid_in_book(after.books, s2, u, id));
            }
        }
        assert forall|u: UserId, s2: Seq<char>, id: OrderId| #[trigger]
            has_ask(after.accounts, u, s2, id) implies {
            &&& after.books.contains_key(s2)
            &&& after.books[s2].orders.contains_key(id)
            &&& is_ask_key(after.books[s2].orders[id], s2, u, s2, id)
        } by {
            if book2.orders.contains_key(id) && is_ask_key(book2.orders[id], symbol, u, s2, id) {
            } else if left.remaining > 0 && is_ask_key(left, symbol, u, s2, id) {
                assert(new_book.orders[left.id] == left);
            } else {
                assert(has_ask(reserved, u, s2, id));
                assert(has_ask(accounts, u, s2, id));
                if s2 == symbol {
                    assert(is_ask_key(book.orders[id], symbol, u, s2, id));
                }
            }
        }
    }
}


/// Cancelling keeps an exchange consistent, and within a consistent exchange the owner's
/// cancel of an open order always succeeds: the order holds its reservation, which is
/// given back.
pub proof fn law_cancel_keeps_consistency(
    exchange: ExchangeView,
    user_id: UserId,
    symbol: Seq<char>,
    order_id: OrderId,
)
    requires
        exchange_consistent(exchange),
    ensures
        exchange_consistent(spec_cancel(exchange, user_id, symbol, order_id).0),
        exchange.books.contains_key(symbol) && exchange.books[symbol].orders.contains_key(order_id)
            && exchange.books[symbol].orders[order_id].user_id == user_id ==> spec_cancel(
            exchange,
            user_id,
            symbol,
            order_id,
        ).1 is Ok,
        reservations_backed(exchange) ==> reservations_backed(
            spec_cancel(exchange, user_id, symbol, order_id).0,
        ),
{
    if !exchange.books.contains_key(symbol) || !exchange.books[symbol].orders.contains_key(order_id)
        || exchange.books[symbol].orders[order_id].user_id != user_id {
        return;
    }
    let accounts = exchange.accounts;
    let book = exchange.books[symbol];
    let order = book.orders[order_id];
    assert(book_reserved(book, symbol, accounts));
    assert(order_reserved(accounts, order, symbol));
    assert(spec_release(accounts, order) is Ok);
    lemma_release_frame(accounts, order);
    let released = spec_release(accounts, order)->Ok_0;
    let new_book = cancel_in_book(book, order_id);
    lemma_cancel_consistent(book, order_id);
    let after = spec_cancel(exchange, user_id, symbol, order_id).0;
    assert(after.books == exchange.books.insert(symbol, new_book));
    assert(after.accounts == released);
    assert(new_book.orders == book.orders.remove(order_id));
    assert forall|s2: Seq<char>| #[trigger] after.books.contains_key(s2) implies book_consistent(
        after.books[s2],
    ) && book_reserved(after.books[s2], s2, after.accounts) by {
        assert(book_consistent(exchange.books[s2]));
        assert forall|id: OrderId| #[trigger] after.books[s2].orders.contains_key(id) implies order_reserved(
            released,
            after.books[s2].orders[id],
            s2,
        ) by {
            let o = exchange.books[s2].orders[id];
            assert(after.books[s2].orders[id] == o);
            assert(book_reserved(exchange.books[s2], s2, accounts));
            assert(order_reserved(accounts, o, s2));
            if same_reservation(o, s2, order, symbol) {
                assert(o.id == id);
                assert(order.id == order_id);
                assert(exchange.books[symbol].orders[id] == order);
            }
        }
    }
    assert forall|s1: Seq<char>, s2: Seq<char>, id: OrderId|
        #![trigger after.books[s1].orders[id], after.books[s2].orders[id]]
        after.books.contains_key(s1) && after.books.contains_key(s2)
            && after.books[s1].orders.contains_key(id) && after.books[s2].orders.contains_key(id)
            && same_reservation(after.books[s1].orders[id], s1, after.books[s2].orders[id], s2)
            implies s1 == s2 by {
        assert(after.books[s1].orders[id] == exchange.books[s1].orders[id]);
        assert(after.books[s2].orders[id] == exchange.books[s2].orders[id]);
    }
    if reservations_backed(exchange) {
        assert(!has_bid(released, order.user_id, order.id) || order.side is Ask);
        assert(!has_ask(released, order.user_id, symbol, order.id) || order.side is Bid);
        assert forall|u: UserId, id: OrderId| #[trigger] has_bid(after.accounts, u, id) implies exists|
            s2: Seq<char>,
        | #[trigger] bid_in_book(after.books, s2, u, id) by {
            assert(has_bid(accounts, u, id));
            let s2 = choose|s2: Seq<char>| #[trigger] bid_in_book(exchange.books, s2, u, id);
            assert(bid_in_book(exchange.books, s2, u, id));
            if s2 == symbol {
                assert(id != order_id);
            }
            assert(bid_in_book(after.books, s2, u, id));
        }
        assert forall|u: UserId, s2: Seq<char>, id: OrderId| #[trigger]
            has_ask(after.accounts, u, s2, id) implies {
            &&& after.books.contains_key(s2)
            &&& after.books[s2].orders.contains_key(id)
            &&& is_ask_key(after.books[s2].orders[id], s2, u, s2, id)
        } by {
            assert(has_ask(accounts, u, s2, id));
            if s2 == symbol {
                assert(id != order_id);
            }
        }
    }
}

/// A new exchange is consistent and every reservation backs an open order: its books
/// are empty, and so are its accounts.
pub proof fn lemma_initial_exchange_consistent()
    ensures
        exchange_consistent(
            ExchangeView { books: initial_books(), accounts: Map::<UserId, AccountModel>::empty() },
        ),
        reservations_backed(
            ExchangeView { books: initial_books(), accounts: Map::<UserId, AccountModel>::empty() },
        ),
{
}

/// Opening an empty book for a symbol keeps an exchange consistent; and every
/// reservation still backs an open order when the symbol's book had none.
pub proof fn law_insert_symbol_keeps_consistency(exchange: ExchangeView, symbol: Seq<char>)
    requires
        exchange_consistent(exchange),
    ensures
        exchange_consistent(
            ExchangeView { books: exchange.books.insert(symbol, empty_book()), ..exchange },
        ),
        reservations_backed(exchange) && (exchange.books.contains_key(symbol)
            ==> exchange.books[symbol].orders.dom().is_empty()) ==> reservations_backed(
            ExchangeView { books: exchange.books.insert(symbol, empty_book()), ..exchange },
        ),
{
    let after = ExchangeView { books: exchange.books.insert(symbol, empty_book()), ..exchange };
    assert forall|s1: Seq<char>, s2: Seq<char>, id: OrderId|
        #![trigger after.books[s1].orders[id], after.books[s2].orders[id]]
        after.books.contains_key(s1) && after.books.contains_key(s2)
            && after.books[s1].orders.contains_key(id) && after.books[s2].orders.contains_key(id)
            && same_reservation(after.books[s1].orders[id], s1, after.books[s2].orders[id], s2)
            implies s1 == s2 by {
        assert(after.books[s1].orders[id] == exchange.books[s1].orders[id]);
        assert(after.books[s2].orders[id] == exchange.books[s2].orders[id]);
    }
    if reservations_backed(exchange) && (exchange.books.contains_key(symbol)
        ==> exchange.books[symbol].orders.dom().is_empty()) {
        assert forall|u: UserId, id: OrderId| #[trigger] has_bid(after.accounts, u, id) implies exists|
            s2: Seq<char>,
        | #[trigger] bid_in_book(after.books, s2, u, id) by {
            let s2 = choose|s2: Seq<char>| #[trigger] bid_in_book(exchange.books, s2, u, id);
            assert(bid_in_book(exchange.books, s2, u, id));
            if s2 == symbol {
                assert(exchange.books[symbol].orders.dom().contains(id));
            }
            assert(bid_in_book(after.books, s2, u, id));
        }
        assert forall|u: UserId, s2: Seq<char>, id: OrderId| #[trigger]
            has_ask(after.accounts, u, s2, id) implies {
            &&& after.books.contains_key(s2)
            &&& after.books[s2].orders.contains_key(id)
            &&& is_ask_key(after.books[s2].orders[id], s2, u, s2, id)
        } by {
            if s2 == symbol {
                assert(exchange.books[symbol].orders.dom().contains(id));
            }
        }
    }
}

/// What a submission to a consistent exchange needs: a new id in its book, a buy order's
/// price times quantity within `u64`, an order ready to reserve, and the total funds and
/// the total holding of its symbol within `u64`.
pub open spec fn consistent_submission_fits(exchange: ExchangeView, order: Order) -> bool {
    let symbol = order.symbol@;
    &&& exchange_consistent(exchange)
    &&& exchange.books.contains_key(symbol) ==> !exchange.books[symbol].orders.contains_key(order.id)
    &&& ready_to_reserve(exchange.accounts, order)
    &&& order.side is Bid && exchange.accounts.contains_key(order.user_id) ==> order.remaining
        * order.price <= u64::MAX
    &&& total_funds(exchange.accounts) <= u64::MAX
    &&& total_holding(exchange.accounts, symbol) <= u64::MAX
}

/// In a consistent exchange whose totals fit in `u64`, the arithmetic of a submission
/// fits: no settlement of its trades needs more than the totals.
pub proof fn law_consistent_submission_fits(exchange: ExchangeView, order: Order)
    requires
        accounts_finite(exchange.accounts),
        consistent_submission_fits(exchange, order),
    ensures
        submit_fits(exchange, order),
{
    let symbol = order.symbol@;
    if order.price == 0 || order.remaining == 0 || !exchange.books.contains_key(symbol)
        || spec_enough_for_order(exchange.accounts, order) is Err
        || spec_reserve_for_order(exchange.accounts, order) is Err {
        return;
    }
    let accounts = exchange.accounts;
    let book = exchange.books[symbol];
    let reserved = spec_reserve_for_order(accounts, order)->Ok_0;
    lemma_reserved_for_submission(exchange, order);
    let pi = order.price as int;
    let qi = order.remaining as int;
    assert(pi * qi == qi * pi) by (nonlinear_arith);
    lemma_reserve_keeps_totals(accounts, order, reserved);
    let fuel = (book.orders.len() + 1) as nat;
    lemma_match_and_settle(book, reserved, order, symbol, fuel);
}


// ---------------------------------------------------------------------------
// Totals counted over open orders
// ---------------------------------------------------------------------------
/// The open buy orders of `user_id` across the books, each as its price and remaining
/// quantity.
pub open spec fn open_bids_of(books: Map<Seq<char>, BookView>, user_id: UserId) -> Map<
    OrderId,
    Reservation,
> {
    Map::new(
        |id: OrderId| exists|s: Seq<char>| #[trigger] bid_in_book(books, s, user_id, id),
        |id: OrderId|
            {
                let s = choose|s: Seq<char>| #[trigger] bid_in_book(books, s, user_id, id);
                Reservation { price: books[s].orders[id].price, quantity: books[s].orders[id].remaining }
            },
    )
}

/// The open sell orders of `user_id` in the book of `symbol`, each as its price and
/// remaining quantity.
pub open spec fn open_asks_of(
    books: Map<Seq<char>, BookView>,
    user_id: UserId,
    symbol: Seq<char>,
) -> Map<OrderId, Reservation> {
    Map::new(
        |id: OrderId|
            books.contains_key(symbol) && books[symbol].orders.contains_key(id) && is_ask_key(
                books[symbol].orders[id],
                symbol,
                user_id,
                symbol,
                id,
            ),
        |id: OrderId|
            Reservation {
                price: books[symbol].orders[id].price,
                quantity: books[symbol].orders[id].remaining,
            },
    )
}

/// The funds of all users counted over open orders: each user's free balance, plus the
/// price times the remaining quantity of each of their open buy orders.
pub open spec fn funds_with_open_orders(exchange: ExchangeView) -> int {
    map_sum(
        exchange.accounts.map_entries(
            |u: UserId, a: AccountModel| a.balance + reserved_value(open_bids_of(exchange.books, u)),
        ),
        |x: int| x,
    )
}

/// The holdings of `symbol` of all users counted over open orders: each user's free
/// quantity, plus the remaining quantity of each of their open sell orders of the symbol.
pub open spec fn holding_with_open_orders(exchange: ExchangeView, symbol: Seq<char>) -> int {
    map_sum(
        exchange.accounts.map_entries(
            |u: UserId, a: AccountModel|
                if a.positions.contains_key(symbol) {
                    a.positions[symbol].quantity + reserved_units(
                        open_asks_of(exchange.books, u, symbol),
                    )
                } else {
                    0
                },
        ),
        |x: int| x,
    )
}

/// When every open order is backed by its reservation and every reservation backs an
/// open order, the reservations are exactly the open orders, so the totals counted over
/// reservations are those counted over open orders.
pub proof fn lemma_open_orders_are_reservations(exchange: ExchangeView)
    requires
        exchange_consistent(exchange),
        reservations_backed(exchange),
        accounts_finite(exchange.accounts),
    ensures
        funds_with_open_orders(exchange) == total_funds(exchange.accounts),
        forall|symbol: Seq<char>| #[trigger]
            holding_with_open_orders(exchange, symbol) == total_holding(exchange.accounts, symbol),
{
    let accounts = exchange.accounts;
    let books = exchange.books;
    assert forall|u: UserId| #[trigger] accounts.contains_key(u) implies open_bids_of(books, u)
        == accounts[u].reservations by {
        let m = open_bids_of(books, u);
        let r = accounts[u].reservations;
        assert forall|id: OrderId| #[trigger] m.contains_key(id) implies r.contains_key(id) && m[id]
            == r[id] by {
            let s = choose|s: Seq<char>| #[trigger] bid_in_book(books, s, u, id);
            assert(bid_in_book(books, s, u, id));
            assert(book_reserved(books[s], s, accounts));
            assert(order_reserved(accounts, books[s].orders[id], s));
            assert(book_consistent(books[s]));
        }
        assert forall|id: OrderId| #[trigger] r.contains_key(id) implies m.contains_key(id) by {
            assert(has_bid(accounts, u, id));
        }
        assert(m =~= r);
    }
    assert forall|u: UserId, symbol: Seq<char>|
        accounts.contains_key(u) && #[trigger] accounts[u].positions.contains_key(symbol) implies open_asks_of(
        books,
        u,
        symbol,
    ) == accounts[u].positions[symbol].reservations by {
        let m = open_asks_of(books, u, symbol);
        let r = accounts[u].positions[symbol].reservations;
        assert forall|id: OrderId| #[trigger] m.contains_key(id) implies r.contains_key(id) && m[id]
            == r[id] by {
            assert(book_reserved(books[symbol], symbol, accounts));
            assert(order_reserved(accounts, books[symbol].orders[id], symbol));
            assert(book_consistent(books[symbol]));
        }
        assert forall|id: OrderId| #[trigger] r.contains_key(id) implies m.contains_key(id) by {
            assert(has_ask(accounts, u, symbol, id));
        }
        assert(m =~= r);
    }
    let fm = accounts.map_entries(
        |u: UserId, a: AccountModel| a.balance + reserved_value(open_bids_of(books, u)),
    );
    assert(fm.dom() =~= accounts.dom());
    lemma_map_sum_congruent(accounts, funds_of(), fm, |x: int| x);
    assert forall|symbol: Seq<char>| #[trigger]
        holding_with_open_orders(exchange, symbol) == total_holding(accounts, symbol) by {
        let hm = accounts.map_entries(
            |u: UserId, a: AccountModel|
                if a.positions.contains_key(symbol) {
                    a.positions[symbol].quantity + reserved_units(open_asks_of(books, u, symbol))
                } else {
                    0
                },
        );
        assert(hm.dom() =~= accounts.dom());
        lemma_map_sum_congruent(accounts, holding_of(symbol), hm, |x: int| x);
    }
}

/// In a consistent exchange where every reservation backs an open order, a submission
/// that succeeds moves value between users and creates or destroys none, counted over
/// open orders: the free balances plus the price times the remaining quantity of the
/// open buy orders, and for each symbol the free quantities plus the remaining quantity
/// of its open sell orders, are the same after it as before; and the exchange stays so.
pub proof fn law_submit_keeps_open_order_totals(exchange: ExchangeView, order: Order)
    requires
        exchange_consistent(exchange),
        reservations_backed(exchange),
        accounts_finite(exchange.accounts),
        exchange.books.contains_key(order.symbol@) ==> !exchange.books[order.symbol@].orders.contains_key(
            order.id,
        ),
        ready_to_reserve(exchange.accounts, order),
        submit_fits(exchange, order),
        spec_submit(exchange, order).1 is Ok,
    ensures
        exchange_consistent(spec_submit(exchange, order).0),
        reservations_backed(spec_submit(exchange, order).0),
        funds_with_open_orders(spec_submit(exchange, order).0) == funds_with_open_orders(exchange),
        forall|symbol: Seq<char>| #[trigger]
            holding_with_open_orders(spec_submit(exchange, order).0, symbol)
                == holding_with_open_orders(exchange, symbol),
{
    let after = spec_submit(exchange, order).0;
    law_submit_keeps_consistency(exchange, order);
    law_submit_keeps_totals(exchange, order);
    lemma_open_orders_are_reservations(exchange);
    lemma_open_orders_are_reservations(after);
    assert forall|symbol: Seq<char>| #[trigger]
        holding_with_open_orders(after, symbol) == holding_with_open_orders(exchange, symbol) by {
        assert(holding_with_open_orders(after, symbol) == total_holding(after.accounts, symbol));
        assert(holding_with_open_orders(exchange, symbol) == total_holding(exchange.accounts, symbol));
        assert(total_holding(after.accounts, symbol) == total_holding(exchange.accounts, symbol));
    }
}


// ---------------------------------------------------------------------------
// What a submission answers
// ---------------------------------------------------------------------------
/// What a submission to a consistent exchange answers. It succeeds exactly when the
/// order is valid (a price and a quantity), its symbol has a book, and its user can
/// afford it, whether or not it crosses the book. On success:
/// - every trade names the order as taker, trades a positive quantity, and is with an
///   open order of the book as it was, at that order's price (so at or within the
///   order's limit) and with that order's user;
/// - an order that crosses the book trades at least once;
/// - the quantity traded plus what rests is the quantity asked for;
/// - what rests is the order itself with the quantity left, and it is exactly what the
///   book now holds under the order's id; when nothing rests, the book holds no order
///   under that id.
pub proof fn law_submit_outcome(exchange: ExchangeView, order: Order)
    requires
        exchange_consistent(exchange),
        exchange.books.contains_key(order.symbol@) ==> !exchange.books[order.symbol@].orders.contains_key(
            order.id,
        ),
        ready_to_reserve(exchange.accounts, order),
    ensures
        ({
            let symbol = order.symbol@;
            let (after, r) = spec_submit(exchange, order);
            &&& r is Ok <==> order.price > 0 && order.remaining > 0 && exchange.books.contains_key(
                symbol,
            ) && spec_enough_for_order(exchange.accounts, order) is Ok
            &&& r matches Ok((fills, resting)) ==> {
                let book = exchange.books[symbol];
                &&& forall|i: int| 0 <= i < fills.len() ==> trade_of(order, #[trigger] fills[i])
                &&& forall|i: int|
                    0 <= i < fills.len() ==> {
                        &&& book.orders.contains_key(#[trigger] fills[i].maker_order_id)
                        &&& fills[i].price == book.orders[fills[i].maker_order_id].price
                        &&& fills[i].maker_user_id == book.orders[fills[i].maker_order_id].user_id
                    }
                &&& crosses(book, order) ==> fills.len() >= 1
                &&& filled_quantity(fills) + (match resting {
                    Some(rest) => rest.remaining as int,
                    None => 0int,
                }) == order.remaining
                &&& match resting {
                    Some(rest) => {
                        &&& rest == Order { remaining: rest.remaining, ..order }
                        &&& rest.remaining > 0
                        &&& after.books[symbol].orders.contains_key(order.id)
                        &&& after.books[symbol].orders[order.id] == rest
                    },
                    None => !after.books[symbol].orders.contains_key(order.id),
                }
            }
        }),
{
    let symbol = order.symbol@;
    if order.price == 0 || order.remaining == 0 || !exchange.books.contains_key(symbol)
        || spec_enough_for_order(exchange.accounts, order) is Err {
        return;
    }
    let accounts = exchange.accounts;
    let book = exchange.books[symbol];
    assert(spec_reserve_for_order(accounts, order) is Ok);
    let reserved = spec_reserve_for_order(accounts, order)->Ok_0;
    lemma_reserved_for_submission(exchange, order);
    let fuel = (book.orders.len() + 1) as nat;
    lemma_match_and_settle(book, reserved, order, symbol, fuel);
    lemma_match_taker_facts(book, order, fuel);
    lemma_fills_from_book(book, order, fuel);
    law_quantity_conserved(book, order);
    if crosses(book, order) {
        law_first_fill_has_priority(book, order);
    }
    let (book2, fills, left) = match_taker(book, order, fuel);
    assert(spec_submit(exchange, order).0.books[symbol] == limit_order_outcome(book, order).0);
}

} // verus!
