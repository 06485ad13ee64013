use crate::map_access::hash_map_get_mut;
use crate::price_level::PriceLevel;
use crate::types::{Order, OrderId, Price, Side, Trade};
use std::collections::{BTreeMap, HashMap};
use vstd::prelude::*;
use vstd::relations::{is_least, total_ordering};

verus! {

// ---------------------------------------------------------------------------
// The mathematical model of a book
// ---------------------------------------------------------------------------
/// A book seen as maps: for each side, the queue of order ids at each price
/// (oldest first), and the open orders by id.
pub struct BookView {
    pub bids: Map<Price, Seq<OrderId>>,
    pub asks: Map<Price, Seq<OrderId>>,
    pub orders: Map<OrderId, Order>,
}

/// The queues of a side of the book, by price.
pub open spec fn levels_view(side: Map<Price, PriceLevel>) -> Map<Price, Seq<OrderId>> {
    side.map_values(|level: PriceLevel| level@)
}

/// Every level of the side is well formed.
pub open spec fn levels_wf(side: Map<Price, PriceLevel>) -> bool {
    forall|p: Price| #[trigger] side.contains_key(p) ==> side[p].wf()
}

/// The lowest price of a side, if it has any.
pub open spec fn lowest_price(side: Map<Price, Seq<OrderId>>) -> Option<Price> {
    if side.dom().is_empty() {
        None
    } else {
        Some(choose|p: Price| side.contains_key(p) && forall|q: Price| side.contains_key(q) ==> p <= q)
    }
}

/// The highest price of a side, if it has any.
pub open spec fn highest_price(side: Map<Price, Seq<OrderId>>) -> Option<Price> {
    if side.dom().is_empty() {
        None
    } else {
        Some(choose|p: Price| side.contains_key(p) && forall|q: Price| side.contains_key(q) ==> q <= p)
    }
}

pub open spec fn spec_best_bid(book: BookView) -> Option<Price> {
    highest_price(book.bids)
}

pub open spec fn spec_best_ask(book: BookView) -> Option<Price> {
    lowest_price(book.asks)
}

/// Whether an incoming order meets the best price of the opposite side.
pub open spec fn crosses(book: BookView, order: Order) -> bool {
    match order.side {
        Side::Bid => spec_best_ask(book) matches Some(ask) && order.price >= ask,
        Side::Ask => spec_best_bid(book) matches Some(bid) && order.price <= bid,
    }
}

/// A side with `id` added at the back of the queue at `price`.
pub open spec fn side_with(side: Map<Price, Seq<OrderId>>, price: Price, id: OrderId) -> Map<
    Price,
    Seq<OrderId>,
> {
    if side.contains_key(price) {
        side.insert(price, side[price].push(id))
    } else {
        side.insert(price, seq![id])
    }
}

/// A side with `id` taken out of the queue at `price`; an emptied price disappears.
pub open spec fn side_without(side: Map<Price, Seq<OrderId>>, price: Price, id: OrderId) -> Map<
    Price,
    Seq<OrderId>,
> {
    if side[price].len() == 1 {
        side.remove(price)
    } else {
        side.insert(price, side[price].remove(side[price].index_of(id)))
    }
}

/// A side with the oldest order at `price` taken out; an emptied price disappears.
pub open spec fn side_after_pop(side: Map<Price, Seq<OrderId>>, price: Price) -> Map<
    Price,
    Seq<OrderId>,
> {
    if side[price].len() == 1 {
        side.remove(price)
    } else {
        side.insert(price, side[price].drop_first())
    }
}

/// The book with `order` resting in it.
pub open spec fn rest_order(book: BookView, order: Order) -> BookView {
    match order.side {
        Side::Bid => BookView {
            bids: side_with(book.bids, order.price, order.id),
            orders: book.orders.insert(order.id, order),
            ..book
        },
        Side::Ask => BookView {
            asks: side_with(book.asks, order.price, order.id),
            orders: book.orders.insert(order.id, order),
            ..book
        },
    }
}

/// The book without the open order `id`.
pub open spec fn cancel_in_book(book: BookView, id: OrderId) -> BookView {
    let order = book.orders[id];
    match order.side {
        Side::Bid => BookView {
            bids: side_without(book.bids, order.price, id),
            orders: book.orders.remove(id),
            ..book
        },
        Side::Ask => BookView {
            asks: side_without(book.asks, order.price, id),
            orders: book.orders.remove(id),
            ..book
        },
    }
}

/// The price of the best opposite level for `taker`.
pub open spec fn opposite_best_price(book: BookView, taker: Order) -> Price {
    match taker.side {
        Side::Bid => spec_best_ask(book)->0,
        Side::Ask => spec_best_bid(book)->0,
    }
}

/// The queue of the best opposite level for `taker`.
pub open spec fn opposite_best_level(book: BookView, taker: Order) -> Seq<OrderId> {
    match taker.side {
        Side::Bid => book.asks[opposite_best_price(book, taker)],
        Side::Ask => book.bids[opposite_best_price(book, taker)],
    }
}

/// One execution of `taker` against the oldest order at the best opposite price: the
/// smaller of the two remaining quantities trades at the resting order's price. A
/// resting order that is filled leaves the book; otherwise it keeps its place with
/// less remaining. Gives the new book, the trade and the taker afterwards.
#[verifier::opaque]
pub open spec fn fill_step(book: BookView, taker: Order) -> (BookView, Trade, Order) {
    let price = opposite_best_price(book, taker);
    let maker_id = opposite_best_level(book, taker)[0];
    let maker = book.orders[maker_id];
    let quantity = if maker.remaining > taker.remaining {
        taker.remaining
    } else {
        maker.remaining
    };
    let trade = Trade {
        maker_order_id: maker.id,
        taker_order_id: taker.id,
        maker_user_id: maker.user_id,
        taker_user_id: taker.user_id,
        symbol: taker.symbol,
        taker_side: taker.side,
        price: maker.price,
        quantity,
    };
    let taker_after = Order { remaining: (taker.remaining - quantity) as u64, ..taker };
    if maker.remaining > taker.remaining {
        let maker_after = Order { remaining: (maker.remaining - quantity) as u64, ..maker };
        (BookView { orders: book.orders.insert(maker_id, maker_after), ..book }, trade, taker_after)
    } else {
        let book_after = match taker.side {
            Side::Bid => BookView {
                asks: side_after_pop(book.asks, price),
                orders: book.orders.remove(maker_id),
                ..book
            },
            Side::Ask => BookView {
                bids: side_after_pop(book.bids, price),
                orders: book.orders.remove(maker_id),
                ..book
            },
        };
        (book_after, trade, taker_after)
    }
}

/// Repeated executions of `taker` while it has quantity left and crosses the book,
/// at most `fuel` of them. Gives the book, the trades in order, and the taker afterwards.
#[verifier::opaque]
pub open spec fn match_taker(book: BookView, taker: Order, fuel: nat) -> (
    BookView,
    Seq<Trade>,
    Order,
)
    decreases fuel,
{
    if fuel == 0 || taker.remaining == 0 || !crosses(book, taker) {
        (book, Seq::empty(), taker)
    } else {
        let (book1, trade, taker1) = fill_step(book, taker);
        let (book2, trades, taker2) = match_taker(book1, taker1, (fuel - 1) as nat);
        (book2, seq![trade] + trades, taker2)
    }
}

/// What a valid limit order does to the book: it trades against the opposite side
/// while it crosses (each execution removes a resting order or ends the incoming one,
/// so one more step than there are open orders is enough), and what is left of it
/// rests. Gives the book, the trades in order, and the resting remainder if any.
pub open spec fn limit_order_outcome(book: BookView, order: Order) -> (
    BookView,
    Seq<Trade>,
    Option<Order>,
) {
    let (book1, fills, left) = match_taker(book, order, (book.orders.len() + 1) as nat);
    if left.remaining > 0 {
        (rest_order(book1, left), fills, Some(left))
    } else {
        (book1, fills, None)
    }
}

/// The book's consistency: every queued id is an open order of that side at that
/// price, every queue is nonempty and free of repeats, and every open order has
/// quantity left, is filed under its own id, and is queued at its price.
pub open spec fn book_consistent(book: BookView) -> bool {
    &&& book.bids.dom().finite()
    &&& book.asks.dom().finite()
    &&& book.orders.dom().finite()
    &&& forall|p: Price| #[trigger]
        book.bids.contains_key(p) ==> book.bids[p].len() >= 1 && book.bids[p].no_duplicates()
    &&& forall|p: Price| #[trigger]
        book.asks.contains_key(p) ==> book.asks[p].len() >= 1 && book.asks[p].no_duplicates()
    &&& forall|p: Price, i: int|
        book.bids.contains_key(p) && 0 <= i < book.bids[p].len() ==> {
            let id = #[trigger] book.bids[p][i];
            &&& book.orders.contains_key(id)
            &&& book.orders[id].side is Bid
            &&& book.orders[id].price == p
        }
    &&& forall|p: Price, i: int|
        book.asks.contains_key(p) && 0 <= i < book.asks[p].len() ==> {
            let id = #[trigger] book.asks[p][i];
            &&& book.orders.contains_key(id)
            &&& book.orders[id].side is Ask
            &&& book.orders[id].price == p
        }
    &&& forall|id: OrderId| #[trigger]
        book.orders.contains_key(id) ==> {
            let o = book.orders[id];
            &&& o.id == id
            &&& o.remaining > 0
            &&& match o.side {
                Side::Bid => book.bids.contains_key(o.price) && book.bids[o.price].contains(id),
                Side::Ask => book.asks.contains_key(o.price) && book.asks[o.price].contains(id),
            }
        }
}

/// A finite side with a price has a lowest price, below or at every price of the side.
pub proof fn lemma_lowest_price_exists(side: Map<Price, Seq<OrderId>>)
    requires
        side.dom().finite(),
        !side.dom().is_empty(),
    ensures
        lowest_price(side) matches Some(p) && side.contains_key(p) && forall|q: Price|
            side.contains_key(q) ==> p <= q,
{
    let leq = |a: Price, b: Price| a <= b;
    let d = side.dom();
    assert(total_ordering(leq));
    let x = d.choose();
    assert(d.contains(x));
    assert(d.len() > 0) by {
        if d.len() == 0 {
            assert(d.remove(x).len() == d.len() - 1);
        }
    }
    d.find_unique_minimal_ensures(leq);
    let m = d.find_unique_minimal(leq);
    d.lemma_minimal_equivalent_least(leq, m);
    assert(is_least(leq, m, d));
    assert(side.contains_key(m) && forall|q: Price| side.contains_key(q) ==> m <= q) by {
        assert forall|q: Price| side.contains_key(q) implies m <= q by {
            assert(d.contains(q));
            assert(leq(m, q));
        }
    }
}

/// A finite side with a price has a highest price, at or above every price of the side.
pub proof fn lemma_highest_price_exists(side: Map<Price, Seq<OrderId>>)
    requires
        side.dom().finite(),
        !side.dom().is_empty(),
    ensures
        highest_price(side) matches Some(p) && side.contains_key(p) && forall|q: Price|
            side.contains_key(q) ==> q <= p,
{
    let geq = |a: Price, b: Price| a >= b;
    let d = side.dom();
    assert(total_ordering(geq));
    let x = d.choose();
    assert(d.contains(x));
    assert(d.len() > 0) by {
        if d.len() == 0 {
            assert(d.remove(x).len() == d.len() - 1);
        }
    }
    d.find_unique_minimal_ensures(geq);
    let m = d.find_unique_minimal(geq);
    d.lemma_minimal_equivalent_least(geq, m);
    assert(is_least(geq, m, d));
    assert(side.contains_key(m) && forall|q: Price| side.contains_key(q) ==> q <= m) by {
        assert forall|q: Price| side.contains_key(q) implies q <= m by {
            assert(d.contains(q));
            assert(geq(m, q));
        }
    }
}

/// A price of the side at or below every other one is its lowest price.
proof fn lemma_lowest_price_is(side: Map<Price, Seq<OrderId>>, p: Price)
    requires
        side.contains_key(p),
        forall|q: Price| side.contains_key(q) ==> p <= q,
    ensures
        lowest_price(side) == Some(p),
{
    assert(!side.dom().is_empty()) by {
        assert(side.dom().contains(p));
    }
    let c = choose|c: Price| side.contains_key(c) && forall|q: Price| side.contains_key(q) ==> c <= q;
    assert(c <= p && p <= c);
}

/// A price of the side at or above every other one is its highest price.
proof fn lemma_highest_price_is(side: Map<Price, Seq<OrderId>>, p: Price)
    requires
        side.contains_key(p),
        forall|q: Price| side.contains_key(q) ==> q <= p,
    ensures
        highest_price(side) == Some(p),
{
    assert(!side.dom().is_empty()) by {
        assert(side.dom().contains(p));
    }
    let c = choose|c: Price| side.contains_key(c) && forall|q: Price| side.contains_key(q) ==> q <= c;
    assert(c <= p && p <= c);
}

/// Facts about a sequence without its element at `k`.
proof fn lemma_seq_without(s: Seq<OrderId>, k: int)
    requires
        0 <= k < s.len(),
        s.no_duplicates(),
    ensures
        s.remove(k).len() == s.len() - 1,
        s.remove(k).no_duplicates(),
        forall|x: OrderId| s.remove(k).contains(x) <==> (s.contains(x) && x != s[k]),
{
    let r = s.remove(k);
    s.remove_ensures(k);
    let skip = |i: int| if i < k { i } else { i + 1 };
    assert forall|i: int| 0 <= i < r.len() implies r[i] == s[skip(i)] by {}
    assert forall|a: int, b: int| 0 <= a < r.len() && 0 <= b < r.len() && a != b implies r[a] != r[b] by {
        assert(r[a] == s[skip(a)]);
        assert(r[b] == s[skip(b)]);
    }
    assert forall|x: OrderId| r.contains(x) <==> (s.contains(x) && x != s[k]) by {
        if r.contains(x) {
            let i = choose|i: int| 0 <= i < r.len() && r[i] == x;
            assert(s[skip(i)] == x);
        }
        if s.contains(x) && x != s[k] {
            let i = choose|i: int| 0 <= i < s.len() && s[i] == x;
            if i < k {
                assert(r[i] == x);
            } else {
                assert(r[i - 1] == x);
            }
        }
    }
}

/// Facts about a side with `id` queued at `price`.
proof fn lemma_side_with(side: Map<Price, Seq<OrderId>>, price: Price, id: OrderId)
    requires
        side.contains_key(price) ==> !side[price].contains(id) && side[price].no_duplicates(),
    ensures
        ({
            let after = side_with(side, price, id);
            &&& after.dom() == side.dom().insert(price)
            &&& forall|q: Price| q != price ==> after[q] == side[q]
            &&& after[price].len() >= 1
            &&& after[price].no_duplicates()
            &&& after[price].last() == id
            &&& forall|x: OrderId| #[trigger] after[price].contains(x) <==> (x == id || (side.contains_key(price) && side[price].contains(x)))
        }),
{
    let after = side_with(side, price, id);
    assert(after.dom() =~= side.dom().insert(price));
    if side.contains_key(price) {
        let l = side[price];
        let n = l.push(id);
        assert forall|x: OrderId| n.contains(x) <==> (x == id || l.contains(x)) by {
            if n.contains(x) && x != id {
                let i = choose|i: int| 0 <= i < n.len() && n[i] == x;
                assert(l[i] == x);
            }
            if l.contains(x) {
                let i = choose|i: int| 0 <= i < l.len() && l[i] == x;
                assert(n[i] == x);
            }
            if x == id {
                assert(n[l.len() as int] == x);
            }
        }
        assert(n.no_duplicates()) by {
            assert forall|a: int, b: int| 0 <= a < n.len() && 0 <= b < n.len() && a != b implies n[a] != n[b] by {
                if a < l.len() && b < l.len() {
                } else if a < l.len() {
                    assert(l.contains(l[a]));
                } else if b < l.len() {
                    assert(l.contains(l[b]));
                }
            }
        }
    } else {
        let n = seq![id];
        assert forall|x: OrderId| n.contains(x) <==> x == id by {
            if x == id {
                assert(n[0] == x);
            }
        }
    }
}

/// Facts about a side with `id` taken out of the queue at `price`.
proof fn lemma_side_without(side: Map<Price, Seq<OrderId>>, price: Price, id: OrderId)
    requires
        side.contains_key(price),
        side[price].contains(id),
        side[price].no_duplicates(),
        side[price].len() >= 1,
    ensures
        ({
            let after = side_without(side, price, id);
            &&& after.dom() == (if side[price].len() == 1 {
                side.dom().remove(price)
            } else {
                side.dom()
            })
            &&& forall|q: Price| q != price ==> after[q] == side[q]
            &&& after.contains_key(price) ==> {
                &&& after[price].len() >= 1
                &&& after[price].no_duplicates()
                &&& forall|x: OrderId| #[trigger] after[price].contains(x) <==> (side[price].contains(x) && x != id)
            }
            &&& !after.contains_key(price) ==> forall|x: OrderId| side[price].contains(x) ==> x == id
        }),
{
    let l = side[price];
    let k = l.index_of(id);
    assert(0 <= k < l.len() && l[k] == id);
    let after = side_without(side, price, id);
    if l.len() == 1 {
        assert(after.dom() =~= side.dom().remove(price));
        assert forall|x: OrderId| l.contains(x) implies x == id by {
            let i = choose|i: int| 0 <= i < l.len() && l[i] == x;
            assert(i == 0 && k == 0);
        }
    } else {
        lemma_seq_without(l, k);
        assert(after.dom() =~= side.dom());
    }
}

/// The oldest order of a level is the one `side_after_pop` takes out.
proof fn lemma_pop_is_without_front(side: Map<Price, Seq<OrderId>>, price: Price)
    requires
        side.contains_key(price),
        side[price].len() >= 1,
        side[price].no_duplicates(),
    ensures
        side[price].contains(side[price][0]),
        side_after_pop(side, price) == side_without(side, price, side[price][0]),
{
    let l = side[price];
    assert(l.contains(l[0]));
    let k = l.index_of(l[0]);
    assert(k == 0);
    assert(l.remove(0) =~= l.drop_first());
}

/// Resting a new order with quantity keeps the book consistent.
pub proof fn lemma_rest_order_consistent(book: BookView, order: Order)
    requires
        book_consistent(book),
        !book.orders.contains_key(order.id),
        order.remaining > 0,
    ensures
        book_consistent(rest_order(book, order)),
{
    let after = rest_order(book, order);
    let id = order.id;
    // queued ids are open orders, so `id` is queued nowhere
    assert forall|p: Price| book.bids.contains_key(p) implies !book.bids[p].contains(id) by {
        if book.bids[p].contains(id) {
            let i = choose|i: int| 0 <= i < book.bids[p].len() && book.bids[p][i] == id;
            assert(book.orders.contains_key(book.bids[p][i]));
        }
    }
    assert forall|p: Price| book.asks.contains_key(p) implies !book.asks[p].contains(id) by {
        if book.asks[p].contains(id) {
            let i = choose|i: int| 0 <= i < book.asks[p].len() && book.asks[p][i] == id;
            assert(book.orders.contains_key(book.asks[p][i]));
        }
    }
    match order.side {
        Side::Bid => {
            lemma_side_with(book.bids, order.price, id);
            let nb = after.bids;
            assert forall|p: Price, i: int| nb.contains_key(p) && 0 <= i < nb[p].len() implies {
                let x = #[trigger] nb[p][i];
                &&& after.orders.contains_key(x)
                &&& after.orders[x].side is Bid
                &&& after.orders[x].price == p
            } by {
                let x = nb[p][i];
                assert(nb[p].contains(x));
                if p != order.price {
                    assert(book.bids[p][i] == x);
                } else if x != id {
                    let j = choose|j: int| 0 <= j < book.bids[p].len() && book.bids[p][j] == x;
                    assert(book.bids[p][j] == x);
                }
            }
            assert forall|x: OrderId| #[trigger] after.orders.contains_key(x) implies {
                let o = after.orders[x];
                &&& o.id == x
                &&& o.remaining > 0
                &&& match o.side {
                    Side::Bid => after.bids.contains_key(o.price) && after.bids[o.price].contains(x),
                    Side::Ask => after.asks.contains_key(o.price) && after.asks[o.price].contains(x),
                }
            } by {
                if x != id {
                    let o = book.orders[x];
                    if o.side is Bid && o.price == order.price {
                        assert(after.bids[o.price].contains(x));
                    }
                }
            }
        },
        Side::Ask => {
            lemma_side_with(book.asks, order.price, id);
            let na = after.asks;
            assert forall|p: Price, i: int| na.contains_key(p) && 0 <= i < na[p].len() implies {
                let x = #[trigger] na[p][i];
                &&& after.orders.contains_key(x)
                &&& after.orders[x].side is Ask
                &&& after.orders[x].price == p
            } by {
                let x = na[p][i];
                assert(na[p].contains(x));
                if p != order.price {
                    assert(book.asks[p][i] == x);
                } else if x != id {
                    let j = choose|j: int| 0 <= j < book.asks[p].len() && book.asks[p][j] == x;
                    assert(book.asks[p][j] == x);
                }
            }
            assert forall|x: OrderId| #[trigger] after.orders.contains_key(x) implies {
                let o = after.orders[x];
                &&& o.id == x
                &&& o.remaining > 0
                &&& match o.side {
                    Side::Bid => after.bids.contains_key(o.price) && after.bids[o.price].contains(x),
                    Side::Ask => after.asks.contains_key(o.price) && after.asks[o.price].contains(x),
                }
            } by {
                if x != id {
                    let o = book.orders[x];
                    if o.side is Ask && o.price == order.price {
                        assert(after.asks[o.price].contains(x));
                    }
                }
            }
        },
    }
}

/// Taking an open order out of the book keeps the book consistent.
pub proof fn lemma_cancel_consistent(book: BookView, id: OrderId)
    requires
        book_consistent(book),
        book.orders.contains_key(id),
    ensures
        book_consistent(cancel_in_book(book, id)),
{
    let after = cancel_in_book(book, id);
    let order = book.orders[id];
    match order.side {
        Side::Bid => {
            lemma_side_without(book.bids, order.price, id);
            let nb = after.bids;
            assert forall|p: Price, i: int| nb.contains_key(p) && 0 <= i < nb[p].len() implies {
                let x = #[trigger] nb[p][i];
                &&& after.orders.contains_key(x)
                &&& after.orders[x].side is Bid
                &&& after.orders[x].price == p
            } by {
                let x = nb[p][i];
                assert(nb[p].contains(x));
                if p != order.price {
                    assert(book.bids[p][i] == x);
                    assert(x != id);
                } else {
                    let j = choose|j: int| 0 <= j < book.bids[p].len() && book.bids[p][j] == x;
                    assert(book.bids[p][j] == x);
                }
            }
            assert forall|p: Price, i: int| after.asks.contains_key(p) && 0 <= i < after.asks[p].len() implies {
                let x = #[trigger] after.asks[p][i];
                &&& after.orders.contains_key(x)
                &&& after.orders[x].side is Ask
                &&& after.orders[x].price == p
            } by {
                let x = after.asks[p][i];
                assert(book.asks[p][i] == x);
            }
            assert forall|x: OrderId| #[trigger] after.orders.contains_key(x) implies {
                let o = after.orders[x];
                &&& o.id == x
                &&& o.remaining > 0
                &&& match o.side {
                    Side::Bid => after.bids.contains_key(o.price) && after.bids[o.price].contains(x),
                    Side::Ask => after.asks.contains_key(o.price) && after.asks[o.price].contains(x),
                }
            } by {
                let o = book.orders[x];
                if o.side is Bid && o.price == order.price {
                    assert(book.bids[o.price].contains(x));
                    assert(after.bids[o.price].contains(x));
                }
            }
        },
        Side::Ask => {
            lemma_side_without(book.asks, order.price, id);
            let na = after.asks;
            assert forall|p: Price, i: int| na.contains_key(p) && 0 <= i < na[p].len() implies {
                let x = #[trigger] na[p][i];
                &&& after.orders.contains_key(x)
                &&& after.orders[x].side is Ask
                &&& after.orders[x].price == p
            } by {
                let x = na[p][i];
                assert(na[p].contains(x));
                if p != order.price {
                    assert(book.asks[p][i] == x);
                    assert(x != id);
                } else {
                    let j = choose|j: int| 0 <= j < book.asks[p].len() && book.asks[p][j] == x;
                    assert(book.asks[p][j] == x);
                }
            }
            assert forall|p: Price, i: int| after.bids.contains_key(p) && 0 <= i < after.bids[p].len() implies {
                let x = #[trigger] after.bids[p][i];
                &&& after.orders.contains_key(x)
                &&& after.orders[x].side is Bid
                &&& after.orders[x].price == p
            } by {
                let x = after.bids[p][i];
                assert(book.bids[p][i] == x);
            }
            assert forall|x: OrderId| #[trigger] after.orders.contains_key(x) implies {
                let o = after.orders[x];
                &&& o.id == x
                &&& o.remaining > 0
                &&& match o.side {
                    Side::Bid => after.bids.contains_key(o.price) && after.bids[o.price].contains(x),
                    Side::Ask => after.asks.contains_key(o.price) && after.asks[o.price].contains(x),
                }
            } by {
                let o = book.orders[x];
                if o.side is Ask && o.price == order.price {
                    assert(book.asks[o.price].contains(x));
                    assert(after.asks[o.price].contains(x));
                }
            }
        },
    }
}

/// Lowering the remaining quantity of an open order, keeping some, keeps the book consistent.
proof fn lemma_update_remaining_consistent(book: BookView, id: OrderId, remaining: u64)
    requires
        book_consistent(book),
        book.orders.contains_key(id),
        remaining > 0,
    ensures
        book_consistent(
            BookView {
                orders: book.orders.insert(id, Order { remaining, ..book.orders[id] }),
                ..book
            },
        ),
{
    let after = BookView {
        orders: book.orders.insert(id, Order { remaining, ..book.orders[id] }),
        ..book
    };
    assert(after.orders.dom() =~= book.orders.dom());
    assert forall|p: Price, i: int| after.bids.contains_key(p) && 0 <= i < after.bids[p].len() implies {
        let x = #[trigger] after.bids[p][i];
        &&& after.orders.contains_key(x)
        &&& after.orders[x].side is Bid
        &&& after.orders[x].price == p
    } by {
        assert(book.orders.contains_key(book.bids[p][i]));
    }
    assert forall|p: Price, i: int| after.asks.contains_key(p) && 0 <= i < after.asks[p].len() implies {
        let x = #[trigger] after.asks[p][i];
        &&& after.orders.contains_key(x)
        &&& after.orders[x].side is Ask
        &&& after.orders[x].price == p
    } by {
        assert(book.orders.contains_key(book.asks[p][i]));
    }
    assert forall|x: OrderId| #[trigger] after.orders.contains_key(x) implies {
        let o = after.orders[x];
        &&& o.id == x
        &&& o.remaining > 0
        &&& match o.side {
            Side::Bid => after.bids.contains_key(o.price) && after.bids[o.price].contains(x),
            Side::Ask => after.asks.contains_key(o.price) && after.asks[o.price].contains(x),
        }
    } by {
        assert(book.orders.contains_key(x));
    }
}

/// What one execution needs and gives: the best opposite level exists and is led by an
/// open order of the other side at that price; the step keeps the book consistent, opens
/// no order, leaves the taker as it was but for its quantity, trades a positive quantity,
/// and lowers the count of open orders plus one for a taker with quantity left.
pub proof fn lemma_fill_step(book: BookView, taker: Order)
    requires
        book_consistent(book),
        taker.remaining > 0,
        crosses(book, taker),
        !book.orders.contains_key(taker.id),
    ensures
        ({
            let price = opposite_best_price(book, taker);
            let level = opposite_best_level(book, taker);
            let maker = book.orders[level[0]];
            let (after, trade, taker_after) = fill_step(book, taker);
            &&& match taker.side {
                Side::Bid => book.asks.contains_key(price) && maker.side is Ask,
                Side::Ask => book.bids.contains_key(price) && maker.side is Bid,
            }
            &&& level.len() >= 1
            &&& level.no_duplicates()
            &&& book.orders.contains_key(level[0])
            &&& maker.id == level[0]
            &&& maker.price == price
            &&& maker.remaining > 0
            &&& book_consistent(after)
            &&& !after.orders.contains_key(taker.id)
            &&& after.orders.dom().subset_of(book.orders.dom())
            &&& after.orders.len() + (if taker_after.remaining > 0 {
                1int
            } else {
                0int
            }) < book.orders.len() + 1
            &&& taker_after == Order { remaining: taker_after.remaining, ..taker }
            &&& trade.quantity > 0
        }),
{
    reveal(fill_step);
    let price = opposite_best_price(book, taker);
    match taker.side {
        Side::Bid => {
            lemma_lowest_price_exists(book.asks);
        },
        Side::Ask => {
            lemma_highest_price_exists(book.bids);
        },
    }
    let level = opposite_best_level(book, taker);
    let maker_id = level[0];
    assert(level.len() >= 1);
    let maker = book.orders[maker_id];
    let (after, trade, taker_after) = fill_step(book, taker);
    if maker.remaining > taker.remaining {
        lemma_update_remaining_consistent(book, maker_id, (maker.remaining - taker.remaining) as u64);
        assert(after.orders.dom() =~= book.orders.dom());
    } else {
        match taker.side {
            Side::Bid => {
                lemma_pop_is_without_front(book.asks, price);
            },
            Side::Ask => {
                lemma_pop_is_without_front(book.bids, price);
            },
        }
        assert(after == cancel_in_book(book, maker_id));
        lemma_cancel_consistent(book, maker_id);
        assert(after.orders.dom() =~= book.orders.dom().remove(maker_id));
    }
}

/// `match_taker` performs one execution when it may.
pub proof fn lemma_match_taker_step(book: BookView, taker: Order, fuel: nat)
    requires
        fuel >= 1,
        taker.remaining > 0,
        crosses(book, taker),
    ensures
        ({
            let (book1, trade, taker1) = fill_step(book, taker);
            let rest = match_taker(book1, taker1, (fuel - 1) as nat);
            match_taker(book, taker, fuel) == (rest.0, seq![trade] + rest.1, rest.2)
        }),
{
    reveal(match_taker);
}

/// `match_taker` stops when the taker is filled or no longer crosses.
pub proof fn lemma_match_taker_done(book: BookView, taker: Order, fuel: nat)
    requires
        taker.remaining == 0 || !crosses(book, taker),
    ensures
        match_taker(book, taker, fuel) == (book, Seq::<Trade>::empty(), taker),
{
    reveal(match_taker);
}

// ---------------------------------------------------------------------------
// Highest and lowest price of a side (std's ordered map)
// ---------------------------------------------------------------------------
/// `BTreeMap::first_key_value`: the entry with the smallest key, `None` when the map is empty.
#[verifier::external_body]
fn lowest_level_price(side: &BTreeMap<Price, PriceLevel>) -> (lowest: Option<Price>)
    ensures
        lowest is None <==> side@.dom().is_empty(),
        lowest matches Some(p) ==> side@.contains_key(p) && forall|q: Price|
            side@.contains_key(q) ==> p <= q,
{
    side.first_key_value().map(|(price, _)| *price)
}

/// `BTreeMap::last_key_value`: the entry with the largest key, `None` when the map is empty.
#[verifier::external_body]
fn highest_level_price(side: &BTreeMap<Price, PriceLevel>) -> (highest: Option<Price>)
    ensures
        highest is None <==> side@.dom().is_empty(),
        highest matches Some(p) ==> side@.contains_key(p) && forall|q: Price|
            side@.contains_key(q) ==> q <= p,
{
    side.last_key_value().map(|(price, _)| *price)
}

// ---------------------------------------------------------------------------
// The book
// ---------------------------------------------------------------------------
#[derive(Debug)]
pub enum OrderError {
    InvalidPrice,
    InvalidQuantity,
}

#[derive(Debug)]
pub struct MatchResult {
    pub resting_order: Option<Order>,
    pub fills: Vec<Trade>,
}

/// A limit order book of one symbol. Priority is first the price and then the
/// oldest order.
pub struct Orderbook {
    bids: BTreeMap<Price, PriceLevel>,
    asks: BTreeMap<Price, PriceLevel>,
    open_orders: HashMap<OrderId, Order>,
}

impl View for Orderbook {
    type V = BookView;

    closed spec fn view(&self) -> BookView {
        BookView {
            bids: levels_view(self.bids@),
            asks: levels_view(self.asks@),
            orders: self.open_orders@,
        }
    }
}

impl Orderbook {
    /// The book's invariant: every level is well formed and the book is consistent.
    pub closed spec fn wf(&self) -> bool {
        &&& levels_wf(self.bids@)
        &&& levels_wf(self.asks@)
        &&& book_consistent(self@)
    }

    /// A well-formed book is consistent.
    pub proof fn lemma_consistent(&self)
        requires
            self.wf(),
        ensures
            book_consistent(self@),
    {
    }

    /// The highest bid price, if any.
    pub fn best_bid(&self) -> (best: Option<Price>)
        ensures
            best == spec_best_bid(self@),
    {
        let best = highest_level_price(&self.bids);
        proof {
            let side = levels_view(self.bids@);
            assert(side.dom() =~= self.bids@.dom());
            if best is Some {
                lemma_highest_price_is(side, best->0);
            }
        }
        best
    }

    /// The lowest ask price, if any.
    pub fn best_ask(&self) -> (best: Option<Price>)
        ensures
            best == spec_best_ask(self@),
    {
        let best = lowest_level_price(&self.asks);
        proof {
            let side = levels_view(self.asks@);
            assert(side.dom() =~= self.asks@.dom());
            if best is Some {
                lemma_lowest_price_is(side, best->0);
            }
        }
        best
    }

    /// Whether `incoming_order` meets the best opposite price: a check before
    /// inserting in the book; if it holds, the order is matched first.
    pub fn can_match(&self, incoming_order: &Order) -> (r: bool)
        ensures
            r == crosses(self@, *incoming_order),
    {
        match incoming_order.side {
            Side::Bid => match self.best_ask() {
                Some(ask) => incoming_order.price >= ask,
                None => false,
            },
            Side::Ask => match self.best_bid() {
                Some(bid) => incoming_order.price <= bid,
                None => false,
            },
        }
    }

    /// The open order `order_id`, if any.
    pub fn get_open_order(&self, order_id: OrderId) -> (r: Option<&Order>)
        ensures
            match r {
                Some(order) => self@.orders.contains_key(order_id) && *order == self@.orders[order_id],
                None => !self@.orders.contains_key(order_id),
            },
    {
        self.open_orders.get(&order_id)
    }

    /// A mutable reference to the open order `order_id`, if any; what is written through
    /// it becomes the open order.
    fn get_mut_open_order(&mut self, order_id: OrderId) -> (r: Option<&mut Order>)
        ensures
            final(self).bids == old(self).bids,
            final(self).asks == old(self).asks,
            match r {
                Some(order) => {
                    &&& old(self)@.orders.contains_key(order_id)
                    &&& *order == old(self)@.orders[order_id]
                    &&& final(self)@.orders == old(self)@.orders.insert(order_id, *final(order))
                },
                None => !old(self)@.orders.contains_key(order_id) && final(self)@ == old(self)@,
            },
    {
        hash_map_get_mut(&mut self.open_orders, order_id)
    }

    /// Checks that an order has a price and a quantity.
    pub fn validate_order(order: &Order) -> (r: Result<(), OrderError>)
        ensures
            match r {
                Ok(()) => order.price != 0 && order.remaining != 0,
                Err(OrderError::InvalidPrice) => order.price == 0,
                Err(OrderError::InvalidQuantity) => order.price != 0 && order.remaining == 0,
            },
    {
        if order.price == 0 {
            return Err(OrderError::InvalidPrice);
        }
        if order.remaining == 0 {
            return Err(OrderError::InvalidQuantity);
        }
        Ok(())
    }

    /// Queues `order_id` at the back of the level at `price`, opening the level when
    /// the side has none there.
    fn add_to_side(side: &mut BTreeMap<Price, PriceLevel>, price: Price, order_id: OrderId)
        requires
            levels_wf(old(side)@),
            old(side)@.contains_key(price) ==> !old(side)@[price]@.contains(order_id),
        ensures
            levels_wf(final(side)@),
            levels_view(final(side)@) == side_with(levels_view(old(side)@), price, order_id),
    {
        let ghost before = side@;
        match side.remove(&price) {
            Some(mut price_level) => {
                let pushed = price_level.push_back(order_id);
                proof {
                    assert(pushed is Ok);
                }
                side.insert(price, price_level);
            },
            None => {
                side.insert(price, PriceLevel::new(order_id));
            },
        }
        proof {
            assert(levels_view(side@) =~= side_with(levels_view(before), price, order_id));
        }
    }

    /// Takes `order_id` out of the level at `price`, dropping the level when it was its
    /// only order. `None`, with the side unchanged, when the level does not hold it.
    fn remove_order_id_at_price(
        side: &mut BTreeMap<Price, PriceLevel>,
        price: Price,
        order_id: OrderId,
    ) -> (r: Option<()>)
        requires
            levels_wf(old(side)@),
        ensures
            levels_wf(final(side)@),
            match r {
                Some(()) => {
                    let before = levels_view(old(side)@);
                    &&& before.contains_key(price)
                    &&& before[price].contains(order_id)
                    &&& levels_view(final(side)@) == side_without(before, price, order_id)
                },
                None => {
                    &&& !(levels_view(old(side)@).contains_key(price) && levels_view(
                        old(side)@,
                    )[price].contains(order_id))
                    &&& final(side)@ == old(side)@
                },
            },
    {
        let ghost before = side@;
        let mut price_level = match side.remove(&price) {
            Some(price_level) => price_level,
            None => {
                proof {
                    assert(side@ =~= before);
                }
                return None;
            },
        };
        proof {
            price_level.lemma_view_shape();
        }
        if price_level.len() == 1 {
            let front = price_level.front().unwrap();
            if front != order_id {
                side.insert(price, price_level);
                proof {
                    assert(side@ =~= before);
                    assert(!price_level@.contains(order_id)) by {
                        if price_level@.contains(order_id) {
                            let i = choose|i: int| 0 <= i < price_level@.len() && price_level@[i] == order_id;
                            assert(i == 0);
                        }
                    }
                }
                return None;
            }
            proof {
                assert(price_level@[0] == order_id);
                assert(price_level@.contains(order_id));
                assert(levels_view(side@) =~= side_without(levels_view(before), price, order_id));
            }
        } else {
            match price_level.delete(order_id) {
                Ok(_) => {},
                Err(_) => {
                    side.insert(price, price_level);
                    proof {
                        assert(side@ =~= before);
                    }
                    return None;
                },
            }
            side.insert(price, price_level);
            proof {
                assert(levels_view(side@) =~= side_without(levels_view(before), price, order_id));
            }
        }
        Some(())
    }

    /// Takes the oldest order id out of the level at `price`, dropping the level when it
    /// was its only order. `None`, with the side unchanged, when there is no such level.
    fn pop_front_order_id_at_price(side: &mut BTreeMap<Price, PriceLevel>, price: Price) -> (r:
        Option<OrderId>)
        requires
            levels_wf(old(side)@),
        ensures
            levels_wf(final(side)@),
            match r {
                Some(id) => {
                    let before = levels_view(old(side)@);
                    &&& before.contains_key(price)
                    &&& id == before[price][0]
                    &&& levels_view(final(side)@) == side_after_pop(before, price)
                },
                None => !old(side)@.contains_key(price) && final(side)@ == old(side)@,
            },
    {
        let ghost before = side@;
        let mut price_level = match side.remove(&price) {
            Some(price_level) => price_level,
            None => {
                proof {
                    assert(side@ =~= before);
                }
                return None;
            },
        };
        proof {
            price_level.lemma_view_shape();
        }
        if price_level.len() == 1 {
            let order_id = price_level.front().unwrap();
            proof {
                assert(levels_view(side@) =~= side_after_pop(levels_view(before), price));
            }
            Some(order_id)
        } else {
            let order_id = price_level.pop_front().unwrap();
            side.insert(price, price_level);
            proof {
                assert(levels_view(side@) =~= side_after_pop(levels_view(before), price));
            }
            Some(order_id)
        }
    }

    /// Rests `order` in the book: queued at the back of its price level and recorded
    /// as open. The book stays consistent when the order has quantity left.
    fn insert(&mut self, order: Order)
        requires
            old(self).wf(),
            !old(self)@.orders.contains_key(order.id),
        ensures
            levels_wf(final(self).bids@),
            levels_wf(final(self).asks@),
            final(self)@ == rest_order(old(self)@, order),
            order.remaining > 0 ==> final(self).wf(),
    {
        let ghost before = self@;
        proof {
            if order.remaining > 0 {
                lemma_rest_order_consistent(before, order);
            }
            assert forall|p: Price| #[trigger] self.bids@.contains_key(p) implies !self.bids@[p]@.contains(order.id) by {
                let l = self.bids@[p]@;
                assert(before.bids[p] == l);
                if l.contains(order.id) {
                    let i = choose|i: int| 0 <= i < l.len() && l[i] == order.id;
                    assert(before.orders.contains_key(before.bids[p][i]));
                }
            }
            assert forall|p: Price| #[trigger] self.asks@.contains_key(p) implies !self.asks@[p]@.contains(order.id) by {
                let l = self.asks@[p]@;
                assert(before.asks[p] == l);
                if l.contains(order.id) {
                    let i = choose|i: int| 0 <= i < l.len() && l[i] == order.id;
                    assert(before.orders.contains_key(before.asks[p][i]));
                }
            }
        }
        match order.side {
            Side::Bid => {
                let order_id = order.id;
                Self::add_to_side(&mut self.bids, order.price, order_id);
                self.open_orders.insert(order.id, order);
            },
            Side::Ask => {
                let order_id = order.id;
                Self::add_to_side(&mut self.asks, order.price, order_id);
                self.open_orders.insert(order.id, order);
            },
        }
        proof {
            assert(self@ == rest_order(before, order));
        }
    }

    /// Cancels the open order `order_id`: takes it out of its level and returns it.
    /// `None`, with the book unchanged, when no such order is open.
    pub fn cancel_order(&mut self, order_id: OrderId) -> (r: Option<Order>)
        requires
            old(self).wf(),
        ensures
            final(self).wf(),
            match r {
                Some(order) => {
                    &&& old(self)@.orders.contains_key(order_id)
                    &&& order == old(self)@.orders[order_id]
                    &&& final(self)@ == cancel_in_book(old(self)@, order_id)
                },
                None => !old(self)@.orders.contains_key(order_id) && final(self)@ == old(self)@,
            },
    {
        let ghost before = self@;
        let order = match self.open_orders.get(&order_id) {
            Some(order) => order.duplicate(),
            None => {
                return None;
            },
        };
        proof {
            lemma_cancel_consistent(before, order_id);
            assert(order.id == order_id);
        }
        match order.side {
            Side::Bid => Self::remove_order_id_at_price(&mut self.bids, order.price, order.id)?,
            Side::Ask => Self::remove_order_id_at_price(&mut self.asks, order.price, order.id)?,
        }
        let removed = self.open_orders.remove(&order_id);
        proof {
            assert(self@ == cancel_in_book(before, order_id));
        }
        removed
    }

    /// One execution of `taker` against the oldest order at the best opposite price.
    fn execute_against_best(&mut self, taker: &mut Order) -> (trade: Trade)
        requires
            old(self).wf(),
            old(taker).remaining > 0,
            crosses(old(self)@, *old(taker)),
            !old(self)@.orders.contains_key(old(taker).id),
        ensures
            final(self).wf(),
            final(self)@ == fill_step(old(self)@, *old(taker)).0,
            trade == fill_step(old(self)@, *old(taker)).1,
            *final(taker) == fill_step(old(self)@, *old(taker)).2,
    {
        let ghost book = self@;
        let ghost taker0 = *taker;
        proof {
            reveal(fill_step);
            lemma_fill_step(book, taker0);
            match taker0.side {
                Side::Bid => {
                    lemma_lowest_price_exists(book.asks);
                },
                Side::Ask => {
                    lemma_highest_price_exists(book.bids);
                },
            }
        }
        // the best opposite price, and the oldest order resting there
        let best_price = match taker.side {
            Side::Bid => self.best_ask().unwrap(),
            Side::Ask => self.best_bid().unwrap(),
        };
        let matched_resting_order_id = match taker.side {
            Side::Bid => self.asks.get(&best_price).unwrap().front().unwrap(),
            Side::Ask => self.bids.get(&best_price).unwrap().front().unwrap(),
        };
        let matched_resting_order = self.get_mut_open_order(matched_resting_order_id).unwrap();
        if matched_resting_order.remaining > taker.remaining {
            let matched_quantity = taker.remaining;
            taker.remaining = taker.remaining - matched_quantity;
            matched_resting_order.remaining = matched_resting_order.remaining - matched_quantity;
            let trade = Trade {
                maker_order_id: matched_resting_order.id,
                taker_order_id: taker.id,
                maker_user_id: matched_resting_order.user_id,
                taker_user_id: taker.user_id,
                symbol: taker.symbol.clone(),
                taker_side: taker.side,
                price: matched_resting_order.price,
                quantity: matched_quantity,
            };
            proof {
                assert(self@.orders =~= fill_step(book, taker0).0.orders);
            }
            trade
        } else {
            let matched_quantity = matched_resting_order.remaining;
            taker.remaining = taker.remaining - matched_quantity;
            matched_resting_order.remaining = matched_resting_order.remaining - matched_quantity;
            let trade = Trade {
                maker_order_id: matched_resting_order.id,
                taker_order_id: taker.id,
                maker_user_id: matched_resting_order.user_id,
                taker_user_id: taker.user_id,
                symbol: taker.symbol.clone(),
                taker_side: taker.side,
                price: matched_resting_order.price,
                quantity: matched_quantity,
            };
            let popped = match taker.side {
                Side::Bid => Self::pop_front_order_id_at_price(&mut self.asks, best_price),
                Side::Ask => Self::pop_front_order_id_at_price(&mut self.bids, best_price),
            };
            proof {
                assert(popped == Some(matched_resting_order_id));
            }
            let removed = self.open_orders.remove(&matched_resting_order_id);
            proof {
                assert(removed is Some);
                assert(self@.orders =~= fill_step(book, taker0).0.orders);
                assert(self@ == fill_step(book, taker0).0);
            }
            trade
        }
    }

    /// Handles a limit order: it trades against the best opposite orders, by price and
    /// then by age, while it crosses the book and has quantity left; what is left of it
    /// then rests in the book. The id of a valid order must not be open already.
    #[verifier::rlimit(30)]
    pub fn handle_limit_order(&mut self, incoming_order: Order) -> (r: Result<
        MatchResult,
        OrderError,
    >)
        requires
            old(self).wf(),
            incoming_order.price != 0 && incoming_order.remaining != 0 ==> !old(
                self,
            )@.orders.contains_key(incoming_order.id),
        ensures
            final(self).wf(),
            match r {
                Ok(result) => {
                    let (book, fills, resting) = limit_order_outcome(old(self)@, incoming_order);
                    &&& incoming_order.price != 0
                    &&& incoming_order.remaining != 0
                    &&& final(self)@ == book
                    &&& result.fills@ == fills
                    &&& result.resting_order == resting
                },
                Err(OrderError::InvalidPrice) => incoming_order.price == 0 && *final(self) == *old(
                    self,
                ),
                Err(OrderError::InvalidQuantity) => {
                    &&& incoming_order.price != 0
                    &&& incoming_order.remaining == 0
                    &&& *final(self) == *old(self)
                },
            },
    {
        Self::validate_order(&incoming_order)?;
        let ghost book0 = self@;
        let ghost incoming0 = incoming_order;
        let ghost fuel0: nat = (book0.orders.len() + 1) as nat;
        let mut remaining_order: Order = incoming_order;
        let mut fills: Vec<Trade> = Vec::new();
        proof {
            assert(fills@ + match_taker(self@, remaining_order, fuel0).1 =~= match_taker(self@, remaining_order, fuel0).1);
        }
        while remaining_order.remaining > 0 && self.can_match(&remaining_order)
            invariant
                self.wf(),
                !self@.orders.contains_key(remaining_order.id),
                remaining_order == (Order { remaining: remaining_order.remaining, ..incoming0 }),
                fills@.len() + self@.orders.len() + (if remaining_order.remaining > 0 {
                    1int
                } else {
                    0int
                }) <= fuel0,
                ({
                    let (b, ts, k) = match_taker(self@, remaining_order, (fuel0 - fills@.len()) as nat);
                    match_taker(book0, incoming0, fuel0) == (b, fills@ + ts, k)
                }),
            decreases self@.orders.len() + (if remaining_order.remaining > 0 {
                1int
            } else {
                0int
            }),
        {
            let ghost book1 = self@;
            let ghost taker1 = remaining_order;
            let ghost fills1 = fills@;
            proof {
                lemma_fill_step(book1, taker1);
                lemma_match_taker_step(book1, taker1, (fuel0 - fills1.len()) as nat);
            }
            let trade = self.execute_against_best(&mut remaining_order);
            fills.push(trade);
            proof {
                let m = match_taker(self@, remaining_order, (fuel0 - fills@.len()) as nat);
                assert(fills1 + (seq![trade] + m.1) =~= fills@ + m.1);
            }
        }
        proof {
            lemma_match_taker_done(self@, remaining_order, (fuel0 - fills@.len()) as nat);
            assert(fills@ + Seq::<Trade>::empty() =~= fills@);
        }
        let resting_order: Option<Order> = if remaining_order.remaining > 0 {
            self.insert(remaining_order.duplicate());
            Some(remaining_order)
        } else {
            None
        };
        Ok(MatchResult { resting_order, fills })
    }

    pub fn new() -> (book: Orderbook)
        ensures
            book.wf(),
            book@.bids.is_empty(),
            book@.asks.is_empty(),
            book@.orders.is_empty(),
    {
        let bids: BTreeMap<Price, PriceLevel> = BTreeMap::new();
        let asks: BTreeMap<Price, PriceLevel> = BTreeMap::new();
        let open_orders = HashMap::new();
        let book = Orderbook { bids, asks, open_orders };
        proof {
            assert(book@.bids.dom() =~= Set::empty());
            assert(book@.asks.dom() =~= Set::empty());
        }
        book
    }
}

} // verus!

verus! {

// ---------------------------------------------------------------------------
// Laws of the book
// ---------------------------------------------------------------------------
/// The total quantity of a sequence of trades.
pub open spec fn filled_quantity(fills: Seq<Trade>) -> int
    decreases fills.len(),
{
    if fills.len() == 0 {
        0
    } else {
        fills[0].quantity + filled_quantity(fills.drop_first())
    }
}

/// A trade is at a price the taker accepts: at or below its limit for a buyer, at or
/// above it for a seller.
pub open spec fn within_limit(taker: Order, trade: Trade) -> bool {
    match taker.side {
        Side::Bid => trade.price <= taker.price,
        Side::Ask => trade.price >= taker.price,
    }
}

/// A trade of `taker`: it names the taker, trades a positive quantity at an acceptable price.
pub open spec fn trade_of(taker: Order, trade: Trade) -> bool {
    &&& trade.taker_order_id == taker.id
    &&& trade.taker_user_id == taker.user_id
    &&& trade.taker_side == taker.side
    &&& trade.symbol == taker.symbol
    &&& trade.quantity > 0
    &&& within_limit(taker, trade)
}

/// The best bid is below the best ask, when both exist.
pub open spec fn uncrossed(book: BookView) -> bool {
    match (spec_best_bid(book), spec_best_ask(book)) {
        (Some(bid), Some(ask)) => bid < ask,
        _ => true,
    }
}

/// What matching keeps and gives, by induction on its steps.
#[verifier::rlimit(40)]
pub proof fn lemma_match_taker_facts(book: BookView, taker: Order, fuel: nat)
    requires
        book_consistent(book),
        !book.orders.contains_key(taker.id),
    ensures
        ({
            let (after, fills, left) = match_taker(book, taker, fuel);
            &&& book_consistent(after)
            &&& !after.orders.contains_key(taker.id)
            &&& left == Order { remaining: left.remaining, ..taker }
            &&& left.remaining + filled_quantity(fills) == taker.remaining
            &&& forall|i: int| 0 <= i < fills.len() ==> trade_of(taker, #[trigger] fills[i])
            &&& taker.side is Bid ==> after.bids == book.bids && after.asks.dom().subset_of(
                book.asks.dom(),
            )
            &&& taker.side is Ask ==> after.asks == book.asks && after.bids.dom().subset_of(
                book.bids.dom(),
            )
            &&& fuel >= book.orders.len() + (if taker.remaining > 0 {
                1int
            } else {
                0int
            }) ==> left.remaining == 0 || !crosses(after, left)
        }),
    decreases fuel,
{
    reveal(match_taker);
    if fuel == 0 || taker.remaining == 0 || !crosses(book, taker) {
        assert(filled_quantity(Seq::<Trade>::empty()) == 0);
        if fuel == 0 && taker.remaining > 0 {
            assert(book.orders.dom().finite());
        }
    } else {
        reveal(fill_step);
        lemma_fill_step(book, taker);
        let (book1, trade, taker1) = fill_step(book, taker);
        lemma_match_taker_facts(book1, taker1, (fuel - 1) as nat);
        let (after, fills1, left) = match_taker(book1, taker1, (fuel - 1) as nat);
        let fills = seq![trade] + fills1;
        assert(fills.drop_first() =~= fills1);
        assert(fills[0] == trade);
        assert forall|i: int| 0 <= i < fills.len() implies trade_of(taker, #[trigger] fills[i]) by {
            if i > 0 {
                assert(fills[i] == fills1[i - 1]);
                assert(trade_of(taker1, fills1[i - 1]));
            } else {
                let price = opposite_best_price(book, taker);
                match taker.side {
                    Side::Bid => {
                        lemma_lowest_price_exists(book.asks);
                    },
                    Side::Ask => {
                        lemma_highest_price_exists(book.bids);
                    },
                }
            }
        }
        match taker.side {
            Side::Bid => {
                assert(book1.bids == book.bids);
                assert(book1.asks.dom().subset_of(book.asks.dom()));
            },
            Side::Ask => {
                assert(book1.asks == book.asks);
                assert(book1.bids.dom().subset_of(book.bids.dom()));
            },
        }
    }
}

/// Every trade of a limit order names it as the taker, trades a positive quantity, and
/// is at a price no worse than its limit.
pub proof fn law_fills_within_limit(book: BookView, order: Order)
    requires
        book_consistent(book),
        !book.orders.contains_key(order.id),
    ensures
        forall|i: int|
            0 <= i < limit_order_outcome(book, order).1.len() ==> trade_of(
                order,
                #[trigger] limit_order_outcome(book, order).1[i],
            ),
{
    lemma_match_taker_facts(book, order, (book.orders.len() + 1) as nat);
}

/// A limit order's quantity is conserved: what its trades fill plus what rests of it
/// is what it asked for.
pub proof fn law_quantity_conserved(book: BookView, order: Order)
    requires
        book_consistent(book),
        !book.orders.contains_key(order.id),
    ensures
        ({
            let (after, fills, resting) = limit_order_outcome(book, order);
            &&& filled_quantity(fills) + (match resting {
                Some(rest) => rest.remaining as int,
                None => 0int,
            }) == order.remaining
            &&& resting matches Some(rest) ==> rest == (Order { remaining: rest.remaining, ..order })
                && rest.remaining > 0
        }),
{
    lemma_match_taker_facts(book, order, (book.orders.len() + 1) as nat);
}

/// The lowest price of a part of a side is at or above the lowest price of the side.
proof fn lemma_lowest_of_part(part: Map<Price, Seq<OrderId>>, whole: Map<Price, Seq<OrderId>>)
    requires
        whole.dom().finite(),
        part.dom().finite(),
        part.dom().subset_of(whole.dom()),
        !part.dom().is_empty(),
    ensures
        lowest_price(whole) matches Some(w) && lowest_price(part) matches Some(p) && w <= p,
{
    lemma_lowest_price_exists(part);
    let p = lowest_price(part)->0;
    assert(whole.dom().contains(p));
    lemma_lowest_price_exists(whole);
}

/// The highest price of a part of a side is at or below the highest price of the side.
proof fn lemma_highest_of_part(part: Map<Price, Seq<OrderId>>, whole: Map<Price, Seq<OrderId>>)
    requires
        whole.dom().finite(),
        part.dom().finite(),
        part.dom().subset_of(whole.dom()),
        !part.dom().is_empty(),
    ensures
        highest_price(whole) matches Some(w) && highest_price(part) matches Some(p) && p <= w,
{
    lemma_highest_price_exists(part);
    let p = highest_price(part)->0;
    assert(whole.dom().contains(p));
    lemma_highest_price_exists(whole);
}

/// After a buy order has traded until it no longer crosses, the book with what rests of
/// it is uncrossed.
proof fn lemma_bid_outcome_uncrossed(book: BookView, after: BookView, left: Order)
    requires
        book.bids.dom().finite(),
        book.asks.dom().finite(),
        after.asks.dom().finite(),
        after.bids == book.bids,
        after.asks.dom().subset_of(book.asks.dom()),
        uncrossed(book),
        left.side is Bid,
        left.remaining == 0 || !crosses(after, left),
    ensures
        uncrossed(if left.remaining > 0 { rest_order(after, left) } else { after }),
{
    let result = if left.remaining > 0 { rest_order(after, left) } else { after };
    assert(result.asks == after.asks);
    if spec_best_bid(result) is Some && spec_best_ask(result) is Some {
        lemma_lowest_of_part(after.asks, book.asks);
        lemma_lowest_price_exists(after.asks);
        let ask = spec_best_ask(result)->0;
        if left.remaining > 0 {
            assert(result.bids.dom() =~= book.bids.dom().insert(left.price));
            lemma_highest_price_exists(result.bids);
            let bid = spec_best_bid(result)->0;
            if bid != left.price {
                assert(book.bids.contains_key(bid));
                lemma_highest_price_exists(book.bids);
                lemma_lowest_price_exists(book.asks);
            }
        } else {
            lemma_highest_price_exists(book.bids);
            lemma_lowest_price_exists(book.asks);
        }
    }
}

/// After a sell order has traded until it no longer crosses, the book with what rests
/// of it is uncrossed.
proof fn lemma_ask_outcome_uncrossed(book: BookView, after: BookView, left: Order)
    requires
        book.bids.dom().finite(),
        book.asks.dom().finite(),
        after.bids.dom().finite(),
        after.asks == book.asks,
        after.bids.dom().subset_of(book.bids.dom()),
        uncrossed(book),
        left.side is Ask,
        left.remaining == 0 || !crosses(after, left),
    ensures
        uncrossed(if left.remaining > 0 { rest_order(after, left) } else { after }),
{
    let result = if left.remaining > 0 { rest_order(after, left) } else { after };
    assert(result.bids == after.bids);
    if spec_best_bid(result) is Some && spec_best_ask(result) is Some {
        lemma_highest_of_part(after.bids, book.bids);
        lemma_highest_price_exists(after.bids);
        let bid = spec_best_bid(result)->0;
        if left.remaining > 0 {
            assert(result.asks.dom() =~= book.asks.dom().insert(left.price));
            lemma_lowest_price_exists(result.asks);
            let ask = spec_best_ask(result)->0;
            if ask != left.price {
                assert(book.asks.contains_key(ask));
                lemma_highest_price_exists(book.bids);
                lemma_lowest_price_exists(book.asks);
                let book_bid = spec_best_bid(book)->0;
                let book_ask = spec_best_ask(book)->0;
                assert(bid <= book_bid);
                assert(book_bid < book_ask);
                assert(book_ask <= ask);
            } else {
                assert(left.price > bid);
            }
            assert(bid < ask);
        } else {
            lemma_highest_price_exists(book.bids);
            lemma_lowest_price_exists(book.asks);
            assert(result == after);
            assert(spec_best_ask(result) == spec_best_ask(book));
            assert(bid <= spec_best_bid(book)->0);
            assert(bid < spec_best_ask(result)->0);
        }
    }
}

/// A valid limit order leaves an uncrossed book uncrossed and consistent: it trades
/// until it no longer meets the opposite side, so what rests of it is below the best
/// ask (a buy) or above the best bid (a sell).
pub proof fn law_limit_order_keeps_book_uncrossed(book: BookView, order: Order)
    requires
        book_consistent(book),
        !book.orders.contains_key(order.id),
        order.remaining > 0,
        uncrossed(book),
    ensures
        book_consistent(limit_order_outcome(book, order).0),
        uncrossed(limit_order_outcome(book, order).0),
{
    let fuel = (book.orders.len() + 1) as nat;
    lemma_match_taker_facts(book, order, fuel);
    let (after, fills, left) = match_taker(book, order, fuel);
    if left.remaining > 0 {
        lemma_rest_order_consistent(after, left);
    }
    match order.side {
        Side::Bid => lemma_bid_outcome_uncrossed(book, after, left),
        Side::Ask => lemma_ask_outcome_uncrossed(book, after, left),
    }
}

/// Cancelling an order that was just rested gives the book back as it was.
pub proof fn law_cancel_undoes_rest(book: BookView, order: Order)
    requires
        book_consistent(book),
        !book.orders.contains_key(order.id),
        order.remaining > 0,
    ensures
        rest_order(book, order).orders.contains_key(order.id),
        rest_order(book, order).orders[order.id] == order,
        cancel_in_book(rest_order(book, order), order.id) == book,
{
    let rested = rest_order(book, order);
    let id = order.id;
    assert(rested.orders.remove(id) =~= book.orders);
    let side = match order.side {
        Side::Bid => book.bids,
        Side::Ask => book.asks,
    };
    let p = order.price;
    if side.contains_key(p) {
        let l = side[p];
        assert(!l.contains(id)) by {
            if l.contains(id) {
                let i = choose|i: int| 0 <= i < l.len() && l[i] == id;
                match order.side {
                    Side::Bid => assert(book.orders.contains_key(book.bids[p][i])),
                    Side::Ask => assert(book.orders.contains_key(book.asks[p][i])),
                }
            }
        }
        let pushed = l.push(id);
        assert(pushed[l.len() as int] == id);
        assert(pushed.contains(id));
        let k = pushed.index_of(id);
        assert(k == l.len()) by {
            if k < l.len() {
                assert(l[k] == id);
                assert(l.contains(id));
            }
        }
        assert(pushed.remove(k) =~= l);
        assert(side_without(side_with(side, p, id), p, id) =~= side);
    } else {
        assert(side_without(side_with(side, p, id), p, id) =~= side);
    }
}

/// Priority is first the price and then the age: a limit order that crosses the book
/// trades first with the oldest order at the best opposite price, at that price.
pub proof fn law_first_fill_has_priority(book: BookView, order: Order)
    requires
        book_consistent(book),
        !book.orders.contains_key(order.id),
        order.remaining > 0,
        crosses(book, order),
    ensures
        ({
            let fills = limit_order_outcome(book, order).1;
            let best = opposite_best_price(book, order);
            &&& fills.len() >= 1
            &&& fills[0].price == best
            &&& fills[0].maker_order_id == opposite_best_level(book, order)[0]
            &&& match order.side {
                Side::Bid => best == spec_best_ask(book)->0,
                Side::Ask => best == spec_best_bid(book)->0,
            }
        }),
{
    let fuel = (book.orders.len() + 1) as nat;
    lemma_fill_step(book, order);
    lemma_match_taker_step(book, order, fuel);
    reveal(fill_step);
}


/// Every trade of matching is with an open order of the book as it was before, at that
/// order's price and with that order's user.
pub proof fn lemma_fills_from_book(book: BookView, taker: Order, fuel: nat)
    requires
        book_consistent(book),
        !book.orders.contains_key(taker.id),
    ensures
        ({
            let fills = match_taker(book, taker, fuel).1;
            forall|i: int|
                0 <= i < fills.len() ==> {
                    &&& book.orders.contains_key(#[trigger] fills[i].maker_order_id)
                    &&& fills[i].price == book.orders[fills[i].maker_order_id].price
                    &&& fills[i].maker_user_id == book.orders[fills[i].maker_order_id].user_id
                }
        }),
    decreases fuel,
{
    reveal(match_taker);
    if fuel == 0 || taker.remaining == 0 || !crosses(book, taker) {
    } else {
        lemma_fill_step(book, taker);
        let (book1, trade, taker1) = fill_step(book, taker);
        assert(forall|id: OrderId| #[trigger]
            book1.orders.contains_key(id) ==> book.orders.contains_key(id)
                && book1.orders[id].price == book.orders[id].price && book1.orders[id].user_id
                == book.orders[id].user_id) by {
            reveal(fill_step);
        }
        assert(book.orders.contains_key(trade.maker_order_id) && trade.price
            == book.orders[trade.maker_order_id].price && trade.maker_user_id
            == book.orders[trade.maker_order_id].user_id) by {
            reveal(fill_step);
        }
        lemma_fills_from_book(book1, taker1, (fuel - 1) as nat);
        let rest = match_taker(book1, taker1, (fuel - 1) as nat).1;
        let fills = seq![trade] + rest;
        assert forall|i: int| 0 <= i < fills.len() implies {
            &&& book.orders.contains_key(#[trigger] fills[i].maker_order_id)
            &&& fills[i].price == book.orders[fills[i].maker_order_id].price
            &&& fills[i].maker_user_id == book.orders[fills[i].maker_order_id].user_id
        } by {
            if i > 0 {
                assert(fills[i] == rest[i - 1]);
                assert(book1.orders.contains_key(rest[i - 1].maker_order_id));
            }
        }
    }
}

/// Cancelling an open order takes it, and only it, out of the book: the other side and
/// every other price stay as they were, and the queue at its price keeps its other
/// orders in their order (those before it stay in place, those after it move up by
/// one), or disappears when the order was its only one.
pub proof fn law_cancel_keeps_queue_order(book: BookView, id: OrderId)
    requires
        book_consistent(book),
        book.orders.contains_key(id),
    ensures
        ({
            let order = book.orders[id];
            let p = order.price;
            let after = cancel_in_book(book, id);
            let (side, side_after, other, other_after) = match order.side {
                Side::Bid => (book.bids, after.bids, book.asks, after.asks),
                Side::Ask => (book.asks, after.asks, book.bids, after.bids),
            };
            let queue = side[p];
            let k = queue.index_of(id);
            &&& after.orders == book.orders.remove(id)
            &&& other_after == other
            &&& side_after.remove(p) == side.remove(p)
            &&& side.contains_key(p)
            &&& 0 <= k < queue.len() && queue[k] == id
            &&& queue.len() == 1 ==> !side_after.contains_key(p)
            &&& queue.len() > 1 ==> {
                &&& side_after.contains_key(p)
                &&& side_after[p].len() == queue.len() - 1
                &&& forall|i: int| 0 <= i < k ==> #[trigger] side_after[p][i] == queue[i]
                &&& forall|i: int| k <= i < queue.len() - 1 ==> #[trigger] side_after[p][i] == queue[i + 1]
                &&& !side_after[p].contains(id)
            }
        }),
{
    let order = book.orders[id];
    let p = order.price;
    let side = match order.side {
        Side::Bid => book.bids,
        Side::Ask => book.asks,
    };
    assert(side.contains_key(p) && side[p].contains(id));
    let queue = side[p];
    let k = queue.index_of(id);
    assert(queue[k] == id);
    queue.remove_ensures(k);
    let after = cancel_in_book(book, id);
    match order.side {
        Side::Bid => {
            assert(after.bids.remove(p) =~= book.bids.remove(p));
        },
        Side::Ask => {
            assert(after.asks.remove(p) =~= book.asks.remove(p));
        },
    }
    if queue.len() > 1 {
        let r = queue.remove(k);
        assert(!r.contains(id)) by {
            if r.contains(id) {
                let i = choose|i: int| 0 <= i < r.len() && r[i] == id;
                if i < k {
                    assert(queue[i] == queue[k]);
                } else {
                    assert(queue[i + 1] == queue[k]);
                }
            }
        }
    }
}

} // verus!
