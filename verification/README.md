# orderbook_agg

An order book that aggregates the levels of several exchanges, verified
with Verus.

- `src/exchange.rs`: the exchanges, updates and errors.
- `src/model.rs`: the abstract book (`BookModel`), its invariant, and what
  a bid, an ask, an update and a sequence of updates do to it.
- `src/orderbook.rs`: the executable book, whose view is a `BookModel`;
  every operation is proved against the model.
- `src/summary.rs`: summary levels, the order they are listed in, and the
  laws about them.
- `src/laws.rs`: laws relating operations of the book.
- `app/`: the conversions between the floating-point prices and
  quantities that exchanges send and the integer storage units of the book,
  and the fetching of snapshots.
