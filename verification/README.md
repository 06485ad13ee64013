# matching_engine

A limit-order matching engine with per-user cash and asset accounts, written in
Verus and verified.

- `src/types.rs`: orders, sides and trades.
- `src/price_level.rs`: the FIFO queue of one price, a doubly linked list whose
  nodes live in a `slab::Slab`, viewed as a sequence of order ids.
- `src/orderbook.rs`: the book of one symbol (bid and ask levels in `BTreeMap`s,
  open orders in a `HashMap`), its model `BookView`, price-time priority matching
  (`handle_limit_order`, specified by `limit_order_outcome`) and its laws.
- `src/symbol_map.rs`: a small map keyed by symbol with no repeated keys.
- `src/accounts.rs`: balances, positions and reservations, and the settlement of
  trades against them.
- `src/totals.rs`: sums over finite maps, the total funds and holdings of all
  accounts, and the proof that settlement and reservation keep them.
- `src/exchange.rs`: books per symbol plus accounts; submitting and cancelling
  orders with reservation and settlement.
- `src/consistency.rs`: the consistency of an exchange (every open order backed by
  its reservation, every reservation backing an open order), kept by submitting and
  cancelling, under which settlements never fail and the totals over open orders are
  kept.
- `app/main.rs`: a small demonstration program.
- `tests/`: scenario tests and concrete checks of the laws.
