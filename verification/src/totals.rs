use crate::accounts::{
    account_consume_balance, account_consume_position, account_increase_position,
    consume_balance_fits, consume_position_fits, increase_position_fits, settle_fill_fits,
    spec_consume_balance, spec_consume_position, spec_increase_position, spec_reserve_balance,
    spec_reserve_position, spec_settle_fill, use_reservation, AccountModel, AccountsError,
    Reservation, AccountsManager,
};
use crate::types::{Order, OrderId, Price, Quantity, Side, Trade, UserId};
use vstd::prelude::*;

verus! {

// ---------------------------------------------------------------------------
// Sums over finite maps
// ---------------------------------------------------------------------------
/// The sum of `f` over the values of a map with a finite domain.
pub open spec fn map_sum<K, V>(m: Map<K, V>, f: spec_fn(V) -> int) -> int
    decreases m.dom().len(),
    when m.dom().finite()
{
    if m.dom().len() == 0 {
        0
    } else {
        let k = m.dom().choose();
        proof {
            assert(m.dom().contains(k));
            assert(m.remove(k).dom() =~= m.dom().remove(k));
        }
        f(m[k]) + map_sum(m.remove(k), f)
    }
}

/// The sum over a map is the value at any of its keys plus the sum over the rest.
pub proof fn lemma_map_sum_remove<K, V>(m: Map<K, V>, f: spec_fn(V) -> int, k: K)
    requires
        m.dom().finite(),
        m.contains_key(k),
    ensures
        map_sum(m, f) == f(m[k]) + map_sum(m.remove(k), f),
    decreases m.dom().len(),
{
    assert(m.dom().remove(k).len() == m.dom().len() - 1);
    let c = m.dom().choose();
    assert(m.dom().contains(c));
    let mc = m.remove(c);
    assert(mc.dom() =~= m.dom().remove(c));
    if c != k {
        let mk = m.remove(k);
        assert(mk.dom() =~= m.dom().remove(k));
        lemma_map_sum_remove(mc, f, k);
        lemma_map_sum_remove(mk, f, c);
        assert(mc.remove(k) =~= mk.remove(c));
    }
}

/// Setting the value at `k` changes the sum by the new value less the old one, if any.
pub proof fn lemma_map_sum_insert<K, V>(m: Map<K, V>, f: spec_fn(V) -> int, k: K, v: V)
    requires
        m.dom().finite(),
    ensures
        map_sum(m.insert(k, v), f) == map_sum(m, f) + f(v) - (if m.contains_key(k) {
            f(m[k])
        } else {
            0
        }),
{
    let mi = m.insert(k, v);
    lemma_map_sum_remove(mi, f, k);
    assert(mi.remove(k) =~= m.remove(k));
    if m.contains_key(k) {
        lemma_map_sum_remove(m, f, k);
    } else {
        assert(m.remove(k) =~= m);
    }
}

/// Two sums over maps with the same finite domain agree when their terms agree key by key.
pub proof fn lemma_map_sum_congruent<K, V, W>(
    m1: Map<K, V>,
    f1: spec_fn(V) -> int,
    m2: Map<K, W>,
    f2: spec_fn(W) -> int,
)
    requires
        m1.dom().finite(),
        m1.dom() == m2.dom(),
        forall|k: K| #[trigger] m1.contains_key(k) ==> f1(m1[k]) == f2(m2[k]),
    ensures
        map_sum(m1, f1) == map_sum(m2, f2),
    decreases m1.dom().len(),
{
    if m1.dom().len() > 0 {
        let k = m1.dom().choose();
        assert(m1.dom().contains(k));
        lemma_map_sum_remove(m1, f1, k);
        lemma_map_sum_remove(m2, f2, k);
        assert(m1.remove(k).dom() =~= m2.remove(k).dom());
        assert(m1.remove(k).dom() =~= m1.dom().remove(k));
        lemma_map_sum_congruent(m1.remove(k), f1, m2.remove(k), f2);
    }
}

/// A sum of terms that are not negative is not negative.
pub proof fn lemma_map_sum_nonneg<K, V>(m: Map<K, V>, f: spec_fn(V) -> int)
    requires
        m.dom().finite(),
        forall|k: K| #[trigger] m.contains_key(k) ==> f(m[k]) >= 0,
    ensures
        map_sum(m, f) >= 0,
    decreases m.dom().len(),
{
    if m.dom().len() > 0 {
        let k = m.dom().choose();
        assert(m.dom().contains(k));
        assert(m.remove(k).dom() =~= m.dom().remove(k));
        lemma_map_sum_nonneg(m.remove(k), f);
    }
}

/// A term of a sum of terms that are not negative is at most the sum, and so are two
/// terms at different keys together.
pub proof fn lemma_map_sum_terms<K, V>(m: Map<K, V>, f: spec_fn(V) -> int, k1: K, k2: K)
    requires
        m.dom().finite(),
        forall|k: K| #[trigger] m.contains_key(k) ==> f(m[k]) >= 0,
        m.contains_key(k1),
    ensures
        f(m[k1]) <= map_sum(m, f),
        m.contains_key(k2) && k1 != k2 ==> f(m[k1]) + f(m[k2]) <= map_sum(m, f),
{
    lemma_map_sum_remove(m, f, k1);
    let rest = m.remove(k1);
    lemma_map_sum_nonneg(rest, f);
    if m.contains_key(k2) && k1 != k2 {
        lemma_map_sum_remove(rest, f, k2);
        lemma_map_sum_nonneg(rest.remove(k2), f);
    }
}

// ---------------------------------------------------------------------------
// What accounts hold in total
// ---------------------------------------------------------------------------
/// The funds that reservations hold back: each one's price times its quantity.
pub open spec fn reserved_value(reservations: Map<OrderId, Reservation>) -> int {
    map_sum(reservations, |r: Reservation| r.price * r.quantity)
}

/// The units that reservations hold back.
pub open spec fn reserved_units(reservations: Map<OrderId, Reservation>) -> int {
    map_sum(reservations, |r: Reservation| r.quantity as int)
}

/// An account's funds: its free balance and what its buy reservations hold back.
pub open spec fn funds(account: AccountModel) -> int {
    account.balance + reserved_value(account.reservations)
}

/// An account's holding of `symbol`: the free quantity and what its sell reservations
/// hold back.
pub open spec fn holding(account: AccountModel, symbol: Seq<char>) -> int {
    if account.positions.contains_key(symbol) {
        account.positions[symbol].quantity + reserved_units(account.positions[symbol].reservations)
    } else {
        0
    }
}

pub open spec fn funds_of() -> spec_fn(AccountModel) -> int {
    |account: AccountModel| funds(account)
}

pub open spec fn holding_of(symbol: Seq<char>) -> spec_fn(AccountModel) -> int {
    |account: AccountModel| holding(account, symbol)
}

/// The funds of all accounts together.
pub open spec fn total_funds(accounts: Map<UserId, AccountModel>) -> int {
    map_sum(accounts, funds_of())
}

/// The holdings of `symbol` of all accounts together.
pub open spec fn total_holding(accounts: Map<UserId, AccountModel>, symbol: Seq<char>) -> int {
    map_sum(accounts, holding_of(symbol))
}

/// An account's reservations are finitely many.
pub open spec fn account_finite(account: AccountModel) -> bool {
    &&& account.reservations.dom().finite()
    &&& forall|symbol: Seq<char>| #[trigger]
        account.positions.contains_key(symbol) ==> account.positions[symbol].reservations.dom().finite()
}

/// There are finitely many accounts, each with finitely many reservations.
pub open spec fn accounts_finite(accounts: Map<UserId, AccountModel>) -> bool {
    &&& accounts.dom().finite()
    &&& forall|user_id: UserId| #[trigger]
        accounts.contains_key(user_id) ==> account_finite(accounts[user_id])
}

/// The accounts of a manager are finitely many, each with finitely many reservations.
pub proof fn lemma_manager_accounts_finite(manager: &AccountsManager)
    ensures
        accounts_finite(manager@),
{
    vstd::std_specs::hash::axiom_hashmap_view_finite_dom(manager.accounts);
    assert(manager@.dom() =~= manager.accounts@.dom());
    assert forall|user_id: UserId| #[trigger] manager@.contains_key(user_id) implies account_finite(
        manager@[user_id],
    ) by {
        let account = manager.accounts@[user_id];
        vstd::std_specs::hash::axiom_hashmap_view_finite_dom(account.reservations);
        assert forall|symbol: Seq<char>| #[trigger]
            manager@[user_id].positions.contains_key(symbol) implies manager@[user_id].positions[symbol].reservations.dom().finite() by {
            let position = account.positions@[symbol];
            vstd::std_specs::hash::axiom_hashmap_view_finite_dom(position.reservations);
        }
    }
}

/// The funds that reservations hold back are at least those of any one of them, and the
/// units at least those of any one of them; neither is negative.
pub proof fn lemma_reserved_at(reservations: Map<OrderId, Reservation>, order_id: OrderId)
    requires
        reservations.dom().finite(),
    ensures
        reserved_value(reservations) >= 0,
        reserved_units(reservations) >= 0,
        reservations.contains_key(order_id) ==> reserved_value(reservations)
            >= reservations[order_id].price * reservations[order_id].quantity,
        reservations.contains_key(order_id) ==> reserved_units(reservations)
            >= reservations[order_id].quantity,
{
    let fv = |r: Reservation| r.price * r.quantity;
    let fu = |r: Reservation| r.quantity as int;
    assert forall|k: OrderId| #[trigger] reservations.contains_key(k) implies fv(reservations[k]) >= 0 by {
        let r = reservations[k];
        let a = r.price as int;
        let b = r.quantity as int;
        assert(a * b >= 0) by (nonlinear_arith)
            requires
                a >= 0,
                b >= 0,
        ;
    }
    lemma_map_sum_nonneg(reservations, fv);
    lemma_map_sum_nonneg(reservations, fu);
    if reservations.contains_key(order_id) {
        lemma_map_sum_terms(reservations, fv, order_id, order_id);
        lemma_map_sum_terms(reservations, fu, order_id, order_id);
    }
}

/// The funds and holdings of one account, or of two different ones together, are at
/// most the totals.
pub proof fn lemma_totals_bound_accounts(
    accounts: Map<UserId, AccountModel>,
    u: UserId,
    m: UserId,
    symbol: Seq<char>,
)
    requires
        accounts_finite(accounts),
        accounts.contains_key(u),
    ensures
        funds(accounts[u]) >= accounts[u].balance,
        funds(accounts[u]) <= total_funds(accounts),
        holding(accounts[u], symbol) <= total_holding(accounts, symbol),
        accounts[u].positions.contains_key(symbol) ==> holding(accounts[u], symbol)
            >= accounts[u].positions[symbol].quantity,
        accounts.contains_key(m) && u != m ==> funds(accounts[u]) + funds(accounts[m])
            <= total_funds(accounts),
        accounts.contains_key(m) && u != m ==> holding(accounts[u], symbol) + holding(
            accounts[m],
            symbol,
        ) <= total_holding(accounts, symbol),
{
    assert forall|k: UserId| #[trigger] accounts.contains_key(k) implies funds_of()(accounts[k]) >= 0
        && holding_of(symbol)(accounts[k]) >= 0 by {
        let a = accounts[k];
        lemma_reserved_at(a.reservations, 0);
        if a.positions.contains_key(symbol) {
            lemma_reserved_at(a.positions[symbol].reservations, 0);
        }
    }
    lemma_map_sum_terms(accounts, funds_of(), u, m);
    lemma_map_sum_terms(accounts, holding_of(symbol), u, m);
    let a = accounts[u];
    lemma_reserved_at(a.reservations, 0);
    if a.positions.contains_key(symbol) {
        lemma_reserved_at(a.positions[symbol].reservations, 0);
    }
}

/// Using `quantity` of a reservation takes its price times `quantity` off the reserved
/// funds and `quantity` off the reserved units.
proof fn lemma_use_reservation(
    reservations: Map<OrderId, Reservation>,
    order_id: OrderId,
    quantity: Quantity,
)
    requires
        reservations.dom().finite(),
        reservations.contains_key(order_id),
        quantity <= reservations[order_id].quantity,
    ensures
        use_reservation(reservations, order_id, quantity).dom().finite(),
        reserved_value(use_reservation(reservations, order_id, quantity)) == reserved_value(
            reservations,
        ) - reservations[order_id].price * quantity,
        reserved_units(use_reservation(reservations, order_id, quantity)) == reserved_units(
            reservations,
        ) - quantity,
{
    let r = reservations[order_id];
    let fv = |r: Reservation| r.price * r.quantity;
    let fu = |r: Reservation| r.quantity as int;
    if r.quantity == quantity {
        lemma_map_sum_remove(reservations, fv, order_id);
        lemma_map_sum_remove(reservations, fu, order_id);
    } else {
        let r2 = Reservation { quantity: (r.quantity - quantity) as u64, ..r };
        lemma_map_sum_insert(reservations, fv, order_id, r2);
        lemma_map_sum_insert(reservations, fu, order_id, r2);
        let p = r.price as int;
        let a = r.quantity as int;
        let q = quantity as int;
        assert(p * (a - q) == p * a - p * q) by (nonlinear_arith);
    }
}

/// Replacing one account changes the totals by the difference between the two accounts.
proof fn lemma_replace_account(accounts: Map<UserId, AccountModel>, user_id: UserId, account: AccountModel)
    requires
        accounts_finite(accounts),
        accounts.contains_key(user_id),
        account_finite(account),
    ensures
        accounts_finite(accounts.insert(user_id, account)),
        total_funds(accounts.insert(user_id, account)) == total_funds(accounts) - funds(
            accounts[user_id],
        ) + funds(account),
        forall|symbol: Seq<char>|
            #[trigger] total_holding(accounts.insert(user_id, account), symbol) == total_holding(
                accounts,
                symbol,
            ) - holding(accounts[user_id], symbol) + holding(account, symbol),
{
    lemma_map_sum_insert(accounts, funds_of(), user_id, account);
    assert forall|symbol: Seq<char>|
        #[trigger] total_holding(accounts.insert(user_id, account), symbol) == total_holding(
            accounts,
            symbol,
        ) - holding(accounts[user_id], symbol) + holding(account, symbol) by {
        lemma_map_sum_insert(accounts, holding_of(symbol), user_id, account);
    }
}

/// A fill against a buy reservation takes the price paid off the total funds and leaves
/// the holdings as they were.
pub proof fn lemma_consume_balance_totals(
    accounts: Map<UserId, AccountModel>,
    user_id: UserId,
    order_id: OrderId,
    price: Price,
    quantity: Quantity,
)
    requires
        accounts_finite(accounts),
        accounts.contains_key(user_id) ==> consume_balance_fits(
            accounts[user_id],
            order_id,
            price,
            quantity,
        ),
        spec_consume_balance(accounts, user_id, order_id, price, quantity) is Ok,
    ensures
        ({
            let after = spec_consume_balance(accounts, user_id, order_id, price, quantity)->Ok_0;
            &&& accounts_finite(after)
            &&& total_funds(after) == total_funds(accounts) - price * quantity
            &&& forall|symbol: Seq<char>| #[trigger]
                total_holding(after, symbol) == total_holding(accounts, symbol)
        }),
{
    let a = accounts[user_id];
    let a2 = account_consume_balance(a, order_id, price, quantity)->Ok_0;
    let r = a.reservations[order_id];
    lemma_use_reservation(a.reservations, order_id, quantity);
    let q = quantity as int;
    let rp = r.price as int;
    let pr = price as int;
    assert(q * (rp - pr) - rp * q == -(pr * q)) by (nonlinear_arith);
    assert(account_finite(a2));
    assert forall|symbol: Seq<char>| #[trigger] holding(a2, symbol) == holding(a, symbol) by {}
    lemma_replace_account(accounts, user_id, a2);
}

/// More of a symbol for an account adds that much to the total holding of the symbol
/// and changes nothing else in total.
pub proof fn lemma_increase_position_totals(
    accounts: Map<UserId, AccountModel>,
    user_id: UserId,
    symbol: Seq<char>,
    quantity: Quantity,
)
    requires
        accounts_finite(accounts),
        accounts.contains_key(user_id) ==> increase_position_fits(
            accounts[user_id],
            symbol,
            quantity,
        ),
        spec_increase_position(accounts, user_id, symbol, quantity) is Ok,
    ensures
        ({
            let after = spec_increase_position(accounts, user_id, symbol, quantity)->Ok_0;
            &&& accounts_finite(after)
            &&& total_funds(after) == total_funds(accounts)
            &&& forall|s: Seq<char>| #[trigger]
                total_holding(after, s) == total_holding(accounts, s) + (if s == symbol {
                    quantity as int
                } else {
                    0
                })
        }),
{
    let a = accounts[user_id];
    let a2 = account_increase_position(a, symbol, quantity)->Ok_0;
    assert(account_finite(a2));
    assert forall|s: Seq<char>| #[trigger] holding(a2, s) == holding(a, s) + (if s == symbol {
        quantity as int
    } else {
        0
    }) by {}
    lemma_replace_account(accounts, user_id, a2);
}

/// A fill against a sell reservation adds the price paid to the total funds and takes
/// the quantity off the total holding of the symbol.
pub proof fn lemma_consume_position_totals(
    accounts: Map<UserId, AccountModel>,
    user_id: UserId,
    symbol: Seq<char>,
    order_id: OrderId,
    price: Price,
    quantity: Quantity,
)
    requires
        accounts_finite(accounts),
        accounts.contains_key(user_id) ==> consume_position_fits(
            accounts[user_id],
            symbol,
            order_id,
            price,
            quantity,
        ),
        spec_consume_position(accounts, user_id, symbol, order_id, price, quantity) is Ok,
    ensures
        ({
            let after = spec_consume_position(accounts, user_id, symbol, order_id, price, quantity)->Ok_0;
            &&& accounts_finite(after)
            &&& total_funds(after) == total_funds(accounts) + price * quantity
            &&& forall|s: Seq<char>| #[trigger]
                total_holding(after, s) == total_holding(accounts, s) - (if s == symbol {
                    quantity as int
                } else {
                    0
                })
        }),
{
    let a = accounts[user_id];
    let a2 = account_consume_position(a, symbol, order_id, price, quantity)->Ok_0;
    lemma_use_reservation(a.positions[symbol].reservations, order_id, quantity);
    assert(account_finite(a2));
    assert forall|s: Seq<char>| #[trigger] holding(a2, s) == holding(a, s) - (if s == symbol {
        quantity as int
    } else {
        0
    }) by {}
    lemma_replace_account(accounts, user_id, a2);
}

/// Settling a trade moves funds and units between accounts and creates or destroys
/// none: the total funds (free balances and what buy reservations hold back) and the
/// total holding of every symbol (free quantities and what sell reservations hold back)
/// are the same after the settlement as before. This holds whoever the two users are,
/// the same user on both sides included.
pub proof fn law_settle_fill_keeps_totals(accounts: Map<UserId, AccountModel>, trade: Trade)
    requires
        accounts_finite(accounts),
        settle_fill_fits(accounts, trade),
        spec_settle_fill(accounts, trade).1 is Ok,
    ensures
        accounts_finite(spec_settle_fill(accounts, trade).0),
        total_funds(spec_settle_fill(accounts, trade).0) == total_funds(accounts),
        forall|symbol: Seq<char>| #[trigger]
            total_holding(spec_settle_fill(accounts, trade).0, symbol) == total_holding(
                accounts,
                symbol,
            ),
{
    let symbol = trade.symbol@;
    let p = trade.price;
    let q = trade.quantity;
    match trade.taker_side {
        Side::Bid => {
            let u = trade.taker_user_id;
            let m = trade.maker_user_id;
            lemma_consume_balance_totals(accounts, u, trade.taker_order_id, p, q);
            let step1 = spec_consume_balance(accounts, u, trade.taker_order_id, p, q)->Ok_0;
            lemma_increase_position_totals(step1, u, symbol, q);
            let step2 = spec_increase_position(step1, u, symbol, q)->Ok_0;
            lemma_consume_position_totals(step2, m, symbol, trade.maker_order_id, p, q);
            let step3 = spec_consume_position(step2, m, symbol, trade.maker_order_id, p, q)->Ok_0;
            assert forall|s: Seq<char>| #[trigger]
                total_holding(step3, s) == total_holding(accounts, s) by {
                assert(total_holding(step1, s) == total_holding(accounts, s));
                assert(total_holding(step2, s) == total_holding(step1, s) + (if s == symbol {
                    q as int
                } else {
                    0
                }));
                assert(total_holding(step3, s) == total_holding(step2, s) - (if s == symbol {
                    q as int
                } else {
                    0
                }));
            }
        },
        Side::Ask => {
            let u = trade.taker_user_id;
            let m = trade.maker_user_id;
            lemma_consume_position_totals(accounts, u, symbol, trade.taker_order_id, p, q);
            let step1 = spec_consume_position(accounts, u, symbol, trade.taker_order_id, p, q)->Ok_0;
            lemma_consume_balance_totals(step1, m, trade.maker_order_id, p, q);
            let step2 = spec_consume_balance(step1, m, trade.maker_order_id, p, q)->Ok_0;
            lemma_increase_position_totals(step2, m, symbol, q);
            let step3 = spec_increase_position(step2, m, symbol, q)->Ok_0;
            assert forall|s: Seq<char>| #[trigger]
                total_holding(step3, s) == total_holding(accounts, s) by {
                assert(total_holding(step1, s) == total_holding(accounts, s) - (if s == symbol {
                    q as int
                } else {
                    0
                }));
                assert(total_holding(step2, s) == total_holding(step1, s));
                assert(total_holding(step3, s) == total_holding(step2, s) + (if s == symbol {
                    q as int
                } else {
                    0
                }));
            }
        },
    }
}

/// Reserving for an order with a new order id moves funds or units from free to
/// reserved and changes no total.
pub proof fn lemma_reserve_keeps_totals(
    accounts: Map<UserId, AccountModel>,
    order: Order,
    reserved: Map<UserId, AccountModel>,
)
    requires
        accounts_finite(accounts),
        match order.side {
            Side::Bid => {
                &&& spec_reserve_balance(accounts, order) == Ok::<
                    Map<UserId, AccountModel>,
                    AccountsError,
                >(reserved)
                &&& !accounts[order.user_id].reservations.contains_key(order.id)
                &&& order.price * order.remaining <= accounts[order.user_id].balance
            },
            Side::Ask => {
                &&& spec_reserve_position(accounts, order) == Ok::<
                    Map<UserId, AccountModel>,
                    AccountsError,
                >(reserved)
                &&& !accounts[order.user_id].positions[order.symbol@].reservations.contains_key(
                    order.id,
                )
                &&& order.remaining <= accounts[order.user_id].positions[order.symbol@].quantity
            },
        },
    ensures
        accounts_finite(reserved),
        total_funds(reserved) == total_funds(accounts),
        forall|symbol: Seq<char>| #[trigger]
            total_holding(reserved, symbol) == total_holding(accounts, symbol),
{
    let u = order.user_id;
    let a = accounts[u];
    let r = Reservation { price: order.price, quantity: order.remaining };
    match order.side {
        Side::Bid => {
            let a2 = spec_reserve_balance(accounts, order)->Ok_0[u];
            lemma_map_sum_insert(a.reservations, |r: Reservation| r.price * r.quantity, order.id, r);
            assert(account_finite(a2));
            assert forall|s: Seq<char>| #[trigger] holding(a2, s) == holding(a, s) by {}
            lemma_replace_account(accounts, u, a2);
        },
        Side::Ask => {
            let symbol = order.symbol@;
            let a2 = spec_reserve_position(accounts, order)->Ok_0[u];
            lemma_map_sum_insert(
                a.positions[symbol].reservations,
                |r: Reservation| r.quantity as int,
                order.id,
                r,
            );
            assert(account_finite(a2));
            assert forall|s: Seq<char>| #[trigger] holding(a2, s) == holding(a, s) by {}
            lemma_replace_account(accounts, u, a2);
        },
    }
}

} // verus!
