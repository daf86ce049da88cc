# rusty_engine

The order book of a matching engine for environmental commodity spot exchanges, written in
Verus: price-time priority levels with lazy cancellation, and a book of bid and ask levels
with an index from order ID to the order's side and price.

- `src/decimal.rs`: `DecimalValue`, a decimal `mantissa / 10^scale` in the range of
  `rust_decimal::Decimal`; comparisons and subtraction are done by `rust_decimal`.
- `src/types.rs`: the identifiers and quantities an order carries, and `Price`.
- `src/order.rs`: `Order`, its side and status, and the text that describes a status.
- `src/order_book.rs`: `Level` (a time-ordered queue whose cancelled orders stay as
  tombstones until they make up half of it) and `OrderBook`, with their models
  (`LevelView`, `BookView`), the book's invariant (`BookView::consistent`) and the laws
  proved of them.
- `tests/`: tests on concrete values.

Each side of the book is a `BTreeMap` whose keys are the prices' ordering keys: a price's
value as its integer part and its fraction at the finest decimal scale, a pair of integers.
Pairs of integers are ordered as the prices' values are (`12.5` and `12.50` share one key),
which is proved in `src/decimal.rs`; the levels in price order are kept alongside as ghost
state.
