# feedhandler

Normalized L2 order book core for Binance, Bybit and Hyperliquid, written in
Verus. It turns a stream of `NormalizedTick`s into a live `OrderBook`: a tick
is published into a ring, an engine takes it out and applies it, and whatever
looks like bad data (a wrong symbol, a gap in the numbering, a crossed book) is
counted instead of silently absorbed. Prices and quantities are fixed-point
`u64`, 1e-8 scale.

## Layout

| Path | What is in it |
|---|---|
| `src/types.rs` | prices, quantities, symbols, ticks, levels |
| `src/book_side.rs` | one side of a book: sorted, bounded, no duplicate prices |
| `src/order_book.rs` | the book, snapshots, sequence tracking, health counters |
| `src/ring_buffer.rs` | the tick ring and the handshake of its slots |
| `src/book_engine.rs`, `src/histogram.rs` | the engine and its latency histogram |
| `src/metrics.rs`, `src/text.rs` | counters in the Prometheus text format |
| `src/capture.rs` | 64-byte capture records and how they are read back |
| `src/timer.rs` | clock arithmetic |
| `src/*_laws.rs` | what holds over whole runs: of books, rings and captures |
| `app/` | atomics, threads, the time-stamp counter and files around the library |

## What is proved

Each function states what it returns and changes for every input. On top of
that, public proof functions named `law_..` state what holds of several of them
together, for instance:

- a book stays in price order, within its bound and without duplicate or empty
  levels under any run of ticks (`law_run_keeps_book_in_order`,
  `law_run_leaves_no_empty_level`);
- sequence numbers and counters never change what a tick does to the levels
  (`law_numbering_does_not_matter`);
- a new snapshot replaces its side, once, whatever was there before
  (`law_snapshot_replaces_side`);
- the ring is first in, first out over any run of calls
  (`law_ring_is_first_in_first_out`), and its handshake hands over every tick
  once and in order under any interleaving of the producer's and the consumer's
  memory accesses (`law_every_interleaving_preserves_order`). That model has
  the accesses take effect one after another; `app/ring.rs` runs the same
  handshake on acquire and release atomics;
- a captured session is read back bit for bit, and a capture that was cut off
  is reported (`law_session_round_trip`, `law_truncation_is_reported`).

One thing is taken on trust: that `std::str::from_utf8` accepts exactly the
byte strings that are UTF-8.
