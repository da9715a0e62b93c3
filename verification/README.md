# rust-crypto-orderbook

An order book aggregator: it follows the Binance and Bitstamp websocket
order-book feeds for one traded pair, merges the venues' books into the top
10 bids and asks, and streams that summary (with its spread) over gRPC. The
Kraken feed's rules (its accumulated book and checksum) are in the library
too, though the service does not start that feed. A terminal client and a
load generator come with it.

The library in `src/` is written in Verus and proved: every public function
states what it returns in its `ensures`, and the properties that span calls
are stated and proved as `law_*` proof functions.

## Layout

```
src/                 the verified library
  model.rs           prices and amounts (held by the IEEE-754 total-order key
                     of their double), `Book`, all-or-nothing level parsing
  merge.rs           the multi-venue merge of one side, and of a whole book
  merge_laws.rs      the merge takes each venue's best levels, best first,
                     ties in venue order, as many as there are up to 10
  aggregator.rs      last book per venue, staleness, duplicate suppression,
                     latency samples
  histogram.rs       hdrhistogram's `Histogram<u64>`, seen as its samples
  exchange/          per-venue rules: URLs, subscribe messages, book parsing,
                     Kraken's accumulated book and CRC32 checksum
  feed.rs            reconnect backoff, proxy choice, CONNECT target, pings
  proxy.rs           proxy settings and the HTTP CONNECT exchange
  config.rs          settings from the environment and command-line flags
  render.rs          the client's table: borders, ten rows a side, depth
                     bars, colour
  text.rs            character-level helpers shared by the above
tests/               tests of the library on concrete values
app/                 the program around it: websockets, gRPC, CLI, clocks,
                     doubles, logging and latency histograms
```

`crc32fast` and `hdrhistogram` are called from the library behind trusted
wrappers; crc32fast's contract is the CRC-32 (IEEE) definition, written out
as a spec function. Everything that does I/O, awaits, reads the
clock or computes with doubles lives in `app/`.
