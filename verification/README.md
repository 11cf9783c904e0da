# crabex

A price-time priority matching engine with trader account ledgers, verified
with Verus.

- `src/types.rs` — orders, trades, accounts and the engine's messages.
- `src/prices.rs` — the price ladders that incoming orders walk.
- `src/orderbook.rs` — the order book: matching (`process_order`), cancels and
  best prices, specified against the mathematical model in the same file.
- `src/matching_laws.rs` — price protection, price and time priority,
  quantity conservation, the book never staying crossed, cancel undoing a rest.
- `src/engine.rs` — accounts around the book: deposits, locks, withdrawals,
  order placement with price-improvement refunds, settlement, cancels.
- `src/ledger_laws.rs` — what each request does to a trader's holdings,
  totals over all accounts, settlement in batches and in any order, placing
  then cancelling.
- `src/reservations.rs` — the ledger invariant (locked balances cover what
  resting orders hold, exactly so while only limit orders are placed), kept
  by every request, and what it makes safe.
- `src/bots.rs` — the market maker's quotes, the arbitrageur's decision and
  the market order it fires.
- `src/clock.rs` — the wall clock that stamps trades.
- `app/` — the TCP gateway (`engine`), the dashboard (`tui`) and the two bots
  (`mm`, `arb`).
