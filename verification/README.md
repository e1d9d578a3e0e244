# orderbook

A limit order book with price-time priority matching, verified with Verus.

- `src/` — the library. Each side of the book is a vector of price levels,
  best price first (asks ascending, bids descending); each level is a FIFO
  queue of resting orders. `OrderBook::execute` is specified exactly by
  `execute_spec` over the book's view, and the laws of the book are proved:
  the book stays well formed and uncrossed with distinct order identifiers
  (`orderbook.rs`, `ids.rs`), every unit of an
  order is accounted for (`accounting.rs`), and matching follows price-time
  priority (`priority.rs`). `snapshot.rs` and `text.rs` give the best levels
  of the book and its fixed-width text tables.
- `tests/` — scenarios on concrete books.
- `app/` — the programs around the library: a TCP book server, an
  interactive client, and a replay of orders from a JSON file.
