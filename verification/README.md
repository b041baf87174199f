# yuzu

The structural core of a panel-based equity backtesting engine, written in
Verus: every function in `src/` carries a contract that Verus proves.

A *panel* is a dates x symbols matrix. Its cells are kept as IEEE-754 bit
patterns, so reshaping, aligning, masking and the boolean signal operators
move values exactly and never interpret them; a missing cell is the
canonical NaN.

Layout:

- `src/` — the verified library: trading-day codes and the calendar, series
  names, the per-symbol and combined CSV files (scanning and writing; gzip
  through `flate2`), panel construction, alignment and projection (the
  matrix is an `ndarray` array), boolean signals, rebalance schedules,
  delisting detection, the block-bootstrap resampling plan, the warm panel
  cache with its expiry and eviction laws, the load plans of a backtest or
  research run, strategy spec trees and parameter grids, and walk-forward
  window schedules.
- `tests/` — tests of the library on concrete values.
- `app/` — the HTTP server around the library (`tiny_http`): object storage
  on the local file system, decimal parsing and rendering of cell values,
  and the serde copies of the request and summary types.
