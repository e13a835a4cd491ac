# quant_edge

The verified core of a quantitative research platform for NSE and US equities:
a point-in-time data layer, pick selection, a backtester, paper trading, and a
hash-chained forward-test log that records picks before their outcomes exist.

## Layout

- `src/` — the library, proved with Verus. Every public function states what it
  returns; the public proof functions state the laws of the library as a whole.
- `tests/` — the library seen from outside, on concrete values.
- `app/` — the program around it: the network, the database, the clock, the
  environment, JSON documents, and floating-point arithmetic.

## Conventions

- A `Number` is the bit pattern of a double. The library orders and tests
  numbers; it never adds or multiplies them. Where an amount must be computed,
  one function says what to compute, the program computes it, and a second
  function takes the result.
- Printed amounts reach the library as text. Reports are lists of lines whose
  wording and order the library fixes.
- A `Date` is a number of days; 1 January of the year 1 is day 1.
- Runs that wait for the outside world (a backtest, a replay of past days, a
  paper portfolio) are state machines: the program performs a step and reports
  what came of it.

## What is taken on trust

The contracts of the functions marked `external_body`, of `serde_json`'s
`Value::as_bool`, `as_u64`, `as_str` and `as_array`, and of the standard
library's `String::push` are believed, not proved. They stand around calls
into `chrono` (dates), `serde_json` (parsing), `sha2` (digests), `rand` (seeded
draws), `ndarray` (the grid of correlations) and the standard library's case
conversion. Each says in its documentation what is claimed.

## The laws at the centre

- A view as of a day knows nothing dated later, and everything that was public
  by then: `data::asof`.
- Changing the stored bytes of an entry of the log, or replacing or removing an
  entry other than the latest, is detected: `forward_test`. The law is about the
  bytes that an entry is stored as. The program makes these bytes from the
  entry's fields, on writing and again on reading.
- A fundamental is the one known from filings of the day: `data::sec_facts`.
- Orders decided at a close are filled on a later day:
  `backtest::simulation`, `forward_test::evaluation`.
- The drawdown breaker keeps its state between its two levels: `risk`.
