# tokimeki_quant_rust

Quantitative engines with machine-checked contracts, written in Verus.

## Library (`src/`, verified)

- `order_book` — a price-time-priority limit order book: dense price
  levels, per-level FIFO queues as intrusive linked lists in a slot arena
  with a free list, and an id index for O(1) cancels.  Its model
  (`order_book::model`) states matching, resting and cancelling over
  sequences and maps; `order_book::laws` proves what every operation keeps
  (quantity conservation, limits respected, market orders never rest, a
  cancel undoes a rest, matching never takes an arena slot).
- `payment_auth` — the fixed-point fraud-scoring rules and the 32-byte
  transaction record format, with laws on the score, the reason bits and
  the record encoding.
- `event_pulse` — the rolling-window trending-topic aggregator: tokenising,
  counting, evicting, and the trending order.
- `services` — the arenas' per-record steps with their batching and
  snapshots, request checks and defaults, and the event pulse's source
  selection and flushing.
- `sources` — turning Bluesky Jetstream messages, Wikipedia recent-change
  frames and Stack Overflow Atom feeds into events.
- `strings` — building strings character by character, decimal numbers.

serde_json, quick-xml and a few `std` string functions are called through
small trusted wrappers whose contracts name or state their results (the
JSON lookups and the XML events are named; trimming is stated).

## Program (`app/`)

The networking (WebSocket, server-sent events, feed polling), the async run
loops that send what the library decides, latency statistics, and the
floating-point engines (Black-Scholes, Monte Carlo VaR, rolling-window
statistics).

## Tests (`tests/`)

Scenario tests for every module, run against the compiled library.
