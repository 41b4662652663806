# hl-candles

Builds OHLCV candles from Hyperliquid's historical fills, published as
hourly LZ4-compressed NDJSON files in the requester-pays bucket
`s3://hl-mainnet-node-data`. The library is written in Verus: its
functions carry `requires`/`ensures` contracts that the verifier proves.

## Layout

- `src/` — the verified library.
  - `lib.rs` — markets, the three data sources and which to use for a date.
  - `cache.rs` — local cache paths and S3 keys of hourly files.
  - `layout.rs` — paths of built and consolidated candle files.
  - `plan.rs` — the order in which an hour's file is looked up in the
    cache or downloaded, source by source.
  - `parser.rs` — LZ4 frame decoding, line selection, fill and trade
    extraction with de-duplication.
  - `byte_set.rs` — a hash set of byte strings (NodeTrades hashes).
  - `sort.rs` — stable sorting of trades and candles by time.
  - `day.rs` — the trades of one UTC day, including spillover from the
    next day's first hour.
  - `decimal.rs` — exact decimals backed by `rust_decimal`.
  - `candle.rs` — aggregation, consolidation, interval strings.
  - `csv.rs` — candle CSV files, written and read back.
  - `select.rs` — consolidation request rules.
  - `spot.rs` — spot pair names to `@{index}` coin identifiers.
  - `text.rs` — character-level helpers.
- `app/` — the command-line tool (`fetch`, `build`, `consolidate`): S3
  and HTTP access, files, JSON, argument handling.
- `tests/` — tests run against the compiled library.

## Usage

```bash
hypercandle fetch --start 20250801 --end 20250803
hypercandle build --coin BTC --market perp --start 20250801 --interval 5m
hypercandle consolidate --coin BTC --from 5m --to 1h
```

Candles are written to `data/candles/{market}/{coin}/{interval}/{date}.csv`
and consolidated ones to `data/consolidated/{market}/{coin}/{interval}.csv`;
raw hourly files are cached under `data/s3/hl-mainnet-node-data/`.
