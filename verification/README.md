# triarb

A triangular-arbitrage bot whose decision logic is a Verus-verified library.

- `src/` — the verified library: order books and the exchange-rate graph fed
  by market data, cycle reconstruction and opportunity building, opportunity
  identifiers and deduplication, the execution state machine (legs, rollback
  hedges, order timeouts, the write-ahead order journal), risk limits, feed
  connection state and reconnect backoff, clock-skew arithmetic, tick replay.
  Every public function carries a `requires`/`ensures` contract; the `lemma_*`
  proof functions state the properties that span several calls.
- `app/` — the program around it: command line, configuration files,
  credentials, logging and metrics, the market-data adapter, the simulated
  execution venue, the journal file, and the floating-point parts (log-rate
  negative-cycle search, slippage tolerance).
- `tests/` — tests of the library on concrete values.

Time enters the library as explicit nanosecond arguments (`*_at` functions);
the variants without `_at` read the system clock.
