use hl_candles::candle::{self, Candle};
use hl_candles::decimal::Decimal;
use hl_candles::parser::{self, Fill, NodeTrade, ParseError, Trade};
use hl_candles::{day, DataSource, Market};
use std::io::Write;
use hl_candles::cache;
use hl_candles::layout::{candles_dir, consolidated_path, csv_path, market_dir};
use hl_candles::plan::{first_step, next_step, HourOutcome, HourStep};
use hl_candles::csv::{parse_candles_csv, CsvError};
use hl_candles::select::{check_date_range, check_intervals, select_dates, RequestError};
use hl_candles::spot::{list_spot_pairs, resolve_spot_coin, SpotError, SpotMeta, SpotPair, Token};

/// Base time of the synthetic hourly file: 2025-08-01 00:00:00 UTC.
const BASE_MS: u64 = 1_754_006_400_000;

fn rd(d: &Decimal) -> rust_decimal::Decimal {
    rust_decimal::Decimal::from_i128_with_scale(d.mantissa(), d.scale())
}

fn dec(s: &str) -> Decimal {
    Decimal::parse(s).unwrap()
}

fn rdec(s: &str) -> rust_decimal::Decimal {
    s.parse().unwrap()
}

fn lz4_compress(text: &str) -> Vec<u8> {
    let mut encoder = lz4::EncoderBuilder::new().build(Vec::new()).unwrap();
    encoder.write_all(text.as_bytes()).unwrap();
    let (out, result) = encoder.finish();
    result.unwrap();
    out
}

fn fill_json(coin: &str, px: &str, sz: &str, side: &str, time: u64, tid: u64) -> String {
    format!(
        "{{\"coin\":\"{coin}\",\"px\":\"{px}\",\"sz\":\"{sz}\",\"side\":\"{side}\",\"time\":{time},\"startPosition\":\"0.0\",\"dir\":\"Open Long\",\"closedPnl\":\"0.0\",\"hash\":\"0xabc\",\"oid\":1,\"crossed\":true,\"fee\":\"0.1\",\"tid\":{tid},\"feeToken\":\"USDC\"}}"
    )
}

/// A small hourly file of the FillsByBlock format: BTC perp and spot
/// (`@142`) fills in the first hour, each fill once per counterparty,
/// plus ETH fills, a fill without trade id and a zero-size fill.
fn load_fixture() -> Vec<u8> {
    let mut text = String::new();
    for block in 0..60u64 {
        let mut events = Vec::new();
        for k in 0..4u64 {
            let i = block * 4 + k;
            let time = BASE_MS + i * 14_000;
            let px = format!("1157{:02}.{}", i % 100, i % 10);
            let side = if i % 2 == 0 { "B" } else { "A" };
            let tid = 1_000_000 + i;
            let fill = fill_json("BTC", &px, "0.00123", side, time, tid);
            events.push(format!("[\"0xaaa\",{fill}]"));
            let other = if side == "B" { "A" } else { "B" };
            let fill = fill_json("BTC", &px, "0.00123", other, time, tid);
            events.push(format!("[\"0xbbb\",{fill}]"));
            if i % 3 == 0 {
                let fill = fill_json("@142", &format!("1156{:02}.0", i % 100), "0.5", side, time + 5, 5_000_000 + i);
                events.push(format!("[\"0xccc\",{fill}]"));
                events.push(format!("[\"0xddd\",{fill}]"));
            }
            let fill = fill_json("ETH", "3800.5", "1.0", side, time, 9_000_000 + i);
            events.push(format!("[\"0xeee\",{fill}]"));
        }
        if block == 7 {
            let fill = fill_json("BTC", "115000.0", "0.1", "B", BASE_MS + 99_000, 0);
            events.push(format!("[\"0xfff\",{fill}]"));
            let fill = fill_json("BTC", "115000.0", "0.0", "B", BASE_MS + 99_000, 7_777_777);
            events.push(format!("[\"0xfff\",{fill}]"));
        }
        text.push_str(&format!("{{\"local_time\":\"2025-08-01T00:00:00\",\"block_number\":{block},\"events\":[{}]}}\n", events.join(",")));
    }
    text.push_str("{\"local_time\":\"2025-08-01T00:59:59\",\"block_number\":99,\"events\":[]}\n");
    lz4_compress(&text)
}

fn field_str(v: &serde_json::Value, key: &str) -> Result<String, ParseError> {
    v.get(key).and_then(|x| x.as_str()).map(|x| x.to_string()).ok_or(ParseError::Json)
}

fn field_u64(v: &serde_json::Value, key: &str) -> Result<u64, ParseError> {
    v.get(key).and_then(|x| x.as_u64()).ok_or(ParseError::Json)
}

fn fill_of(v: &serde_json::Value) -> Result<Fill, ParseError> {
    Ok(Fill {
        coin: field_str(v, "coin")?,
        px: field_str(v, "px")?,
        sz: field_str(v, "sz")?,
        side: field_str(v, "side")?,
        time: field_u64(v, "time")?,
        tid: field_u64(v, "tid")?,
    })
}

fn node_trade_of(v: &serde_json::Value) -> Result<NodeTrade, ParseError> {
    Ok(NodeTrade {
        coin: field_str(v, "coin")?,
        px: field_str(v, "px")?,
        sz: field_str(v, "sz")?,
        side: field_str(v, "side")?,
        time: field_str(v, "time")?,
        hash: field_str(v, "hash")?,
    })
}

/// Decompresses, selects the lines, reads their JSON and hands each fill
/// or record to the library's extractor as it is read.
fn parse_fills(data: &[u8], coin: &str, source: DataSource) -> Result<Vec<Trade>, ParseError> {
    let text = parser::decompress(data)?;
    let lines = parser::candidate_lines(&text, coin, source);
    let mut fills = parser::FillTrades::new(coin);
    let mut records = parser::NodeTradeTrades::new(coin);
    for (a, b) in lines {
        let line = std::str::from_utf8(&text[a..b]).map_err(|_| ParseError::Utf8)?;
        let v: serde_json::Value = serde_json::from_str(line).map_err(|_| ParseError::Json)?;
        match source {
            DataSource::FillsByBlock => {
                for ev in v.get("events").and_then(|e| e.as_array()).ok_or(ParseError::Json)? {
                    fills.add(&fill_of(ev.get(1).ok_or(ParseError::Json)?)?)?;
                }
            }
            DataSource::NodeFills => fills.add(&fill_of(v.get(1).ok_or(ParseError::Json)?)?)?,
            DataSource::NodeTrades => records.add(&node_trade_of(&v)?)?,
        }
    }
    Ok(match source {
        DataSource::NodeTrades => records.into_sorted_trades(),
        _ => fills.into_sorted_trades(),
    })
}

fn trade(px: &str, sz: &str, time_ms: u64) -> Trade {
    Trade { price: dec(px), size: dec(sz), time_ms, is_buy: true }
}

fn fill(coin: &str, px: &str, sz: &str, side: &str, time: u64, tid: u64) -> Fill {
    Fill { coin: coin.to_string(), px: px.to_string(), sz: sz.to_string(), side: side.to_string(), time, tid }
}

#[test]
fn parse_perp_fills() {
    let data = load_fixture();
    let trades = parse_fills(&data, Market::Perp.coin(), DataSource::FillsByBlock).unwrap();
    assert!(!trades.is_empty(), "should have perp trades");
    for t in &trades {
        assert!(rd(&t.price) > rdec("100000") && rd(&t.price) < rdec("200000"), "price {}", rd(&t.price));
        assert!(rd(&t.size) > rust_decimal::Decimal::ZERO);
        assert!(t.time_ms > 0);
    }
}

#[test]
fn parse_spot_fills() {
    let data = load_fixture();
    let trades = parse_fills(&data, Market::Spot.coin(), DataSource::FillsByBlock).unwrap();
    assert!(!trades.is_empty(), "should have spot trades");
    for t in &trades {
        assert!(rd(&t.price) > rdec("100000") && rd(&t.price) < rdec("200000"), "price {}", rd(&t.price));
        assert!(rd(&t.size) > rust_decimal::Decimal::ZERO);
    }
}

#[test]
fn trades_are_deduplicated() {
    let data = load_fixture();
    let trades = parse_fills(&data, Market::Perp.coin(), DataSource::FillsByBlock).unwrap();
    let trades2 = parse_fills(&data, Market::Perp.coin(), DataSource::FillsByBlock).unwrap();
    assert_eq!(trades.len(), trades2.len(), "deterministic parsing");
    // 240 trades, each present once per counterparty; no trade id and zero size dropped.
    assert_eq!(trades.len(), 240);
}

#[test]
fn trades_sorted_by_time() {
    let data = load_fixture();
    let trades = parse_fills(&data, Market::Perp.coin(), DataSource::FillsByBlock).unwrap();
    for w in trades.windows(2) {
        assert!(w[0].time_ms <= w[1].time_ms, "trades not sorted");
    }
}

#[test]
fn aggregate_1m_candles() {
    let data = load_fixture();
    let trades = parse_fills(&data, Market::Perp.coin(), DataSource::FillsByBlock).unwrap();
    let candles = candle::aggregate(&trades, candle::parse_interval("1m").unwrap());
    assert!(!candles.is_empty());
    for c in &candles {
        assert!(rd(&c.open) > rust_decimal::Decimal::ZERO);
        assert!(rd(&c.high) >= rd(&c.low));
        assert!(rd(&c.high) >= rd(&c.open));
        assert!(rd(&c.high) >= rd(&c.close));
        assert!(rd(&c.low) <= rd(&c.open));
        assert!(rd(&c.low) <= rd(&c.close));
        assert!(rd(&c.volume) > rust_decimal::Decimal::ZERO);
        assert!(c.trades > 0);
        assert_eq!(c.close_time, c.open_time + 59_999);
    }
}

#[test]
fn aggregate_1h_candles() {
    let data = load_fixture();
    let trades = parse_fills(&data, Market::Perp.coin(), DataSource::FillsByBlock).unwrap();
    let candles = candle::aggregate(&trades, candle::parse_interval("1h").unwrap());
    assert!(!candles.is_empty() && candles.len() <= 2);
    for c in &candles {
        assert!(c.trades > 0);
        assert!(rd(&c.high) >= rd(&c.low));
    }
}

#[test]
fn empty_trades_produce_no_candles() {
    let candles = candle::aggregate(&[], 60_000);
    assert!(candles.is_empty());
}

#[test]
fn parse_interval_valid() {
    assert_eq!(candle::parse_interval("1m"), Some(60_000));
    assert_eq!(candle::parse_interval("5m"), Some(300_000));
    assert_eq!(candle::parse_interval("15m"), Some(900_000));
    assert_eq!(candle::parse_interval("1h"), Some(3_600_000));
    assert_eq!(candle::parse_interval("4h"), Some(14_400_000));
    assert_eq!(candle::parse_interval("1d"), Some(86_400_000));
}

#[test]
fn parse_interval_invalid() {
    assert_eq!(candle::parse_interval("abc"), None);
    assert_eq!(candle::parse_interval("1x"), None);
}

#[test]
fn perp_and_spot_are_different() {
    let data = load_fixture();
    let perp = parse_fills(&data, Market::Perp.coin(), DataSource::FillsByBlock).unwrap();
    let spot = parse_fills(&data, Market::Spot.coin(), DataSource::FillsByBlock).unwrap();
    assert_ne!(perp.len(), spot.len(), "perp and spot should differ");
}

// ---- intervals ----

#[test]
fn parse_interval_edge_cases() {
    assert_eq!(candle::parse_interval("+2h"), Some(7_200_000));
    assert_eq!(candle::parse_interval("0m"), Some(0));
    assert_eq!(candle::parse_interval("m"), None);
    assert_eq!(candle::parse_interval("-1m"), None);
    assert_eq!(candle::parse_interval("007d"), Some(7 * 86_400_000));
    assert!(candle::interval_is_in_range("5m"));
    assert!(!candle::interval_is_in_range(""));
    assert!(!candle::interval_is_in_range("1é"));
    assert!(!candle::interval_is_in_range("99999999999999d"));
    assert!(candle::interval_is_in_range("abc"));
}

// ---- aggregation ----

fn view(c: &Candle) -> (u64, u64, String, String, String, String, String, u64) {
    (
        c.open_time,
        c.close_time,
        rd(&c.open).to_string(),
        rd(&c.high).to_string(),
        rd(&c.low).to_string(),
        rd(&c.close).to_string(),
        rd(&c.volume).to_string(),
        c.trades,
    )
}

#[test]
fn aggregate_exact_values() {
    let trades = vec![
        trade("100.5", "1", 60_000),
        trade("101", "0.25", 60_500),
        trade("99.75", "2", 119_999),
        trade("100", "1.50", 120_000),
    ];
    let candles = candle::aggregate(&trades, 60_000);
    assert_eq!(candles.len(), 2);
    assert_eq!(
        view(&candles[0]),
        (60_000, 119_999, "100.5".into(), "101".into(), "99.75".into(), "99.75".into(), "3.25".into(), 3)
    );
    assert_eq!(view(&candles[1]), (120_000, 179_999, "100".into(), "100".into(), "100".into(), "100".into(), "1.50".into(), 1));
}

#[test]
fn aggregate_ties_keep_first_extreme() {
    // Equal values with different scales: the first one stays high/low.
    let trades = vec![trade("100.0", "1", 0), trade("100.00", "1", 1), trade("100", "1", 2)];
    let candles = candle::aggregate(&trades, 60_000);
    assert_eq!(candles.len(), 1);
    assert_eq!(candles[0].high.scale(), 1);
    assert_eq!(candles[0].low.scale(), 1);
    assert_eq!(candles[0].close.scale(), 0);
}

#[test]
fn aggregate_unsorted_trades_split_buckets() {
    // A trade that goes back to an earlier bucket opens a new candle.
    let trades = vec![trade("1", "1", 0), trade("2", "1", 60_000), trade("3", "1", 10)];
    let candles = candle::aggregate(&trades, 60_000);
    assert_eq!(candles.len(), 3);
    assert_eq!(candles[2].open_time, 0);
}

#[test]
fn try_aggregate_refuses_overflow() {
    let trades = vec![trade("1", "1", u64::MAX - 5)];
    assert!(candle::try_aggregate(&trades, 60_000).is_none());
    assert!(candle::try_aggregate(&trades, 0).is_none());
    assert!(candle::try_aggregate(&[], 0).is_some());
    let big = Decimal::from_parts(79_228_162_514_264_337_593_543_950_335, 0).unwrap();
    let trades = vec![
        Trade { price: dec("1"), size: big, time_ms: 0, is_buy: false },
        Trade { price: dec("1"), size: big, time_ms: 1, is_buy: false },
    ];
    assert!(candle::try_aggregate(&trades, 60_000).is_none());
}

#[test]
fn consolidate_matches_direct_build() {
    let data = load_fixture();
    let trades = parse_fills(&data, Market::Perp.coin(), DataSource::FillsByBlock).unwrap();
    let small = candle::aggregate(&trades, 60_000);
    let direct = candle::aggregate(&trades, 300_000);
    let merged = candle::consolidate(&small, 300_000);
    let a: Vec<_> = merged.iter().map(view).collect();
    let b: Vec<_> = direct.iter().map(view).collect();
    assert_eq!(a, b);
    let hour = candle::consolidate(&small, 3_600_000);
    let direct_hour = candle::aggregate(&trades, 3_600_000);
    assert_eq!(hour.iter().map(view).collect::<Vec<_>>(), direct_hour.iter().map(view).collect::<Vec<_>>());
}

#[test]
fn consolidate_exact_values() {
    let trades = vec![trade("10", "1", 0), trade("12", "2", 60_000), trade("9", "3", 120_000), trade("11", "4", 300_000)];
    let small = candle::aggregate(&trades, 60_000);
    let big = candle::consolidate(&small, 300_000);
    assert_eq!(big.len(), 2);
    assert_eq!(view(&big[0]), (0, 299_999, "10".into(), "12".into(), "9".into(), "9".into(), "6".into(), 3));
    assert_eq!(view(&big[1]), (300_000, 599_999, "11".into(), "11".into(), "11".into(), "11".into(), "4".into(), 1));
    assert!(candle::try_consolidate(&small, 0).is_none());
}

// ---- decimals ----

#[test]
fn decimal_parts() {
    let d = dec("-1.2345678");
    assert_eq!(d.mantissa(), -12_345_678);
    assert_eq!(d.scale(), 7);
    assert!(Decimal::parse("abc").is_none());
    assert!(dec("0.000").is_zero());
    assert!(!dec("0.001").is_zero());
    assert!(Decimal::from_parts(1, 29).is_none());
    assert!(Decimal::from_parts(79_228_162_514_264_337_593_543_950_336, 0).is_none());
    assert_eq!(Decimal::zero().mantissa(), 0);
    assert!(dec("1.5").fits_to_add(&dec("2.25")));
    let big = Decimal::from_parts(79_228_162_514_264_337_593_543_950_335, 0).unwrap();
    assert!(!big.fits_to_add(&dec("1")));
    assert!(big.fits_to_add(&dec("-1")));
    assert!(big.fits_to_add(&dec("0.00")));
}

// ---- sorting ----

#[test]
fn sort_is_stable() {
    let mut trades = vec![trade("3", "1", 5), trade("1", "1", 2), trade("4", "1", 5), trade("2", "1", 2), trade("5", "1", 1)];
    hl_candles::sort::sort_by_time(&mut trades);
    let got: Vec<(u64, String)> = trades.iter().map(|t| (t.time_ms, rd(&t.price).to_string())).collect();
    assert_eq!(
        got,
        vec![(1, "5".into()), (2, "1".into()), (2, "2".into()), (5, "3".into()), (5, "4".into())]
    );
}

// ---- parsing ----

#[test]
fn fills_dedup_and_skip() {
    let fills = vec![
        fill("BTC", "100", "1", "B", 3, 7),
        fill("BTC", "100", "1", "A", 3, 7),
        fill("ETH", "5", "1", "B", 1, 8),
        fill("BTC", "101", "0", "B", 2, 9),
        fill("BTC", "102", "2", "A", 1, 0),
        fill("BTC", "103", "3", "A", 1, 10),
    ];
    let trades = parser::trades_from_fills(&fills, "BTC").unwrap();
    assert_eq!(trades.len(), 2);
    assert!(trades[0].is_buy);
    assert!(!trades[1].is_buy);
    let sorted = parser::sorted_trades_from_fills(&fills, "BTC").unwrap();
    assert_eq!(sorted[0].time_ms, 1);
    assert_eq!(rd(&sorted[0].price), rdec("103"));
}

#[test]
fn fills_errors() {
    assert_eq!(parser::trades_from_fills(&[fill("BTC", "x", "1", "B", 1, 1)], "BTC").unwrap_err(), ParseError::Price);
    assert_eq!(parser::trades_from_fills(&[fill("BTC", "1", "y", "B", 1, 1)], "BTC").unwrap_err(), ParseError::Size);
    // A bad price on another coin's fill or a repeated trade id is never read.
    assert!(parser::trades_from_fills(&[fill("ETH", "x", "1", "B", 1, 1)], "BTC").unwrap().is_empty());
    let fills = vec![fill("BTC", "1", "1", "B", 1, 1), fill("BTC", "x", "1", "B", 1, 1)];
    assert_eq!(parser::trades_from_fills(&fills, "BTC").unwrap().len(), 1);
    assert_eq!(parser::fill_trade(None, None, 0, "B").unwrap_err(), ParseError::Price);
    assert!(parser::fill_trade(Some(dec("1")), Some(dec("0.0")), 0, "B").unwrap().is_none());
}

#[test]
fn node_trades_parse() {
    let rec = |coin: &str, px: &str, sz: &str, time: &str, hash: &str| NodeTrade {
        coin: coin.to_string(),
        px: px.to_string(),
        sz: sz.to_string(),
        side: "B".to_string(),
        time: time.to_string(),
        hash: hash.to_string(),
    };
    let records = vec![
        rec("BTC", "82000.5", "0.01", "2025-03-31T23:59:59.962208772", "0x01"),
        rec("BTC", "82000.5", "0.01", "2025-03-31T23:59:59.962208772", "0x01"),
        rec("ETH", "1800", "1", "bad", "0x02"),
        rec("BTC", "82001", "0", "bad", "0x03"),
        rec("BTC", "81999", "0.02", "2025-03-31T23:00:00", "0x04"),
    ];
    let trades = parser::sorted_trades_from_node_trades(&records, "BTC").unwrap();
    assert_eq!(trades.len(), 2);
    assert_eq!(trades[0].time_ms, 1_743_462_000_000);
    assert_eq!(trades[1].time_ms, 1_743_465_599_962);
    let bad = vec![rec("BTC", "1", "1", "2025-13-01T00:00:00", "0x05")];
    assert_eq!(parser::trades_from_node_trades(&bad, "BTC").unwrap_err(), ParseError::Timestamp);
    assert_eq!(parser::parse_iso_to_epoch_ms("2025-03-31T23:59:59.962208772"), Some(1_743_465_599_962));
    assert_eq!(parser::parse_iso_to_epoch_ms("1970-01-01T00:00:00"), Some(0));
    assert_eq!(parser::parse_iso_to_epoch_ms("20250331"), None);
}

#[test]
fn node_trades_file() {
    let text = "{\"coin\":\"BTC\",\"side\":\"A\",\"time\":\"2025-04-01T00:00:01.5\",\"px\":\"82000\",\"sz\":\"0.1\",\"hash\":\"0x1\",\"trade_dir_override\":\"Na\",\"side_info\":[]}\n\n{\"coin\":\"ETH\",\"side\":\"A\",\"time\":\"2025-04-01T00:00:00\",\"px\":\"1800\",\"sz\":\"1\",\"hash\":\"0x2\",\"side_info\":[]}\r\n";
    let data = lz4_compress(text);
    let trades = parse_fills(&data, "BTC", DataSource::NodeTrades).unwrap();
    assert_eq!(trades.len(), 1);
    assert_eq!(trades[0].time_ms, 1_743_465_601_500);
    assert!(!trades[0].is_buy);
}

#[test]
fn node_fills_file() {
    let text = format!(
        "[\"0xa\",{}]\n[\"0xb\",{}]\n[\"0xc\",{}]",
        fill_json("BTC", "100", "1", "B", 5, 1),
        fill_json("BTC", "100", "1", "A", 5, 1),
        fill_json("SOL", "100", "1", "A", 5, 2)
    );
    let data = lz4_compress(&text);
    let trades = parse_fills(&data, "BTC", DataSource::NodeFills).unwrap();
    assert_eq!(trades.len(), 1);
}

#[test]
fn decompress_errors() {
    assert_eq!(parser::decompress(b"not lz4 at all").unwrap_err(), ParseError::Decompress);
    let bad_utf8 = {
        let mut encoder = lz4::EncoderBuilder::new().build(Vec::new()).unwrap();
        encoder.write_all(&[0xff, 0xfe, 0x00]).unwrap();
        let (out, result) = encoder.finish();
        result.unwrap();
        out
    };
    assert_eq!(parser::decompress(&bad_utf8).unwrap_err(), ParseError::Utf8);
    assert_eq!(parser::decompress(&lz4_compress("ok\n")).unwrap(), b"ok\n".to_vec());
}

#[test]
fn candidate_lines_select() {
    let text = b"{\"coin\":\"BTC\"}\r\n\n{\"coin\":\"BTCX\"}\nlast \"BTC\"";
    let lines = parser::candidate_lines(text, "BTC", DataSource::FillsByBlock);
    assert_eq!(lines, vec![(0, 14), (33, 43)]);
    let all = parser::candidate_lines(text, "BTC", DataSource::NodeTrades);
    assert_eq!(all, vec![(0, 14), (17, 32), (33, 43)]);
    assert_eq!(parser::coin_filter("BTC"), "\"BTC\"");
}

// ---- sources, cache, keys ----

#[test]
fn data_source_for_date() {
    assert_eq!(DataSource::for_date("20250322"), vec![DataSource::NodeTrades]);
    assert_eq!(DataSource::for_date("20250525"), vec![DataSource::NodeTrades, DataSource::NodeFills]);
    assert_eq!(DataSource::for_date("20250601"), vec![DataSource::NodeFills]);
    assert_eq!(DataSource::for_date("20250727"), vec![DataSource::NodeFills, DataSource::FillsByBlock]);
    assert_eq!(DataSource::for_date("20250801"), vec![DataSource::FillsByBlock]);
    assert_eq!(DataSource::for_date("2025"), vec![DataSource::NodeTrades]);
    assert_eq!(DataSource::FillsByBlock.s3_prefix(), "node_fills_by_block/hourly");
    assert_eq!(DataSource::NodeFills.s3_prefix(), "node_fills/hourly");
    assert_eq!(DataSource::NodeTrades.s3_prefix(), "node_trades/hourly");
    assert_eq!(Market::Perp.coin(), "BTC");
    assert_eq!(Market::Spot.coin(), "@142");
}

#[test]
fn cache_paths() {
    assert_eq!(
        cache::cache_path("data", "20250801", 5, DataSource::FillsByBlock),
        "data/s3/hl-mainnet-node-data/node_fills_by_block/hourly/20250801/5.lz4"
    );
    assert_eq!(
        cache::cache_path("/tmp/x/", "20250525", 23, DataSource::NodeTrades),
        "/tmp/x/s3/hl-mainnet-node-data/node_trades/hourly/20250525/23.lz4"
    );
    assert_eq!(cache::s3_key("20250801", 0, DataSource::NodeFills), "node_fills/hourly/20250801/0.lz4");
    assert_eq!(
        cache::get_cached("data", "20250801", 0, DataSource::FillsByBlock, true),
        Some("data/s3/hl-mainnet-node-data/node_fills_by_block/hourly/20250801/0.lz4".to_string())
    );
    assert_eq!(cache::get_cached("data", "20250801", 1, DataSource::FillsByBlock, false), None);
    assert_eq!(cache::join("a".to_string(), "/b"), "/b");
    assert_eq!(cache::join(String::new(), "b"), "b");
}

// ---- spot ----

fn meta() -> SpotMeta {
    SpotMeta {
        universe: vec![
            SpotPair { index: 0, tokens: [1, 0] },
            SpotPair { index: 142, tokens: [197, 0] },
            SpotPair { index: 151, tokens: [221, 0] },
        ],
        tokens: vec![
            Token { index: 0, name: "USDC".to_string() },
            Token { index: 1, name: "PURR".to_string() },
            Token { index: 197, name: "UBTC".to_string() },
            Token { index: 221, name: "UETH".to_string() },
        ],
    }
}

#[test]
fn spot_resolution() {
    let m = meta();
    assert_eq!(resolve_spot_coin(&m, "BTCUSDC").unwrap(), "@142");
    assert_eq!(resolve_spot_coin(&m, "btc/usdc").unwrap(), "@142");
    assert_eq!(resolve_spot_coin(&m, "UBTC-USDC").unwrap(), "@142");
    assert_eq!(resolve_spot_coin(&m, "eth_usdc").unwrap(), "@151");
    assert_eq!(resolve_spot_coin(&m, "purrusdc").unwrap(), "@0");
    assert_eq!(resolve_spot_coin(&m, "SOLUSDC").unwrap_err(), SpotError::UnknownPair);
    let pairs = list_spot_pairs(&m);
    assert_eq!(pairs[1], ("UBTCUSDC".to_string(), "@142".to_string()));
    assert_eq!(pairs.len(), 3);
}

// ---- days ----

#[test]
fn day_selection() {
    let day = BASE_MS;
    let hours = vec![trade("1", "1", day + 10), trade("2", "1", day - 1), trade("3", "1", day + 5)];
    let spill = vec![trade("4", "1", day + 86_399_999), trade("5", "1", day + 86_400_000)];
    let kept = hl_candles::day::select_day(hours, spill, day);
    let times: Vec<u64> = kept.iter().map(|t| t.time_ms).collect();
    assert_eq!(times, vec![day + 5, day + 10, day + 86_399_999]);
}

// ---- csv ----

#[test]
fn csv_roundtrip() {
    let trades = vec![trade("115724.0", "0.5", BASE_MS), trade("115925.5", "1.25", BASE_MS + 1000)];
    let candles = candle::aggregate(&trades, 3_600_000);
    let text = hl_candles::csv::format_candles_csv(&candles);
    assert_eq!(
        text,
        "open_time,close_time,open,high,low,close,volume,trades\n1754006400000,1754009999999,115724.0,115925.5,115724.0,115925.5,1.75,2\n"
    );
    let back = hl_candles::csv::parse_candles_csv(&text).unwrap();
    assert_eq!(back.iter().map(view).collect::<Vec<_>>(), candles.iter().map(view).collect::<Vec<_>>());
}

#[test]
fn csv_errors() {
    let h = "open_time,close_time,open,high,low,close,volume,trades\n";
    assert_eq!(parse_candles_csv(&format!("{h}1,2,3\n")).unwrap_err(), CsvError::FieldCount);
    assert_eq!(parse_candles_csv(&format!("{h}x,2,1,1,1,1,1,1\n")).unwrap_err(), CsvError::Number);
    assert_eq!(parse_candles_csv(&format!("{h}1,2,1,1,z,1,1,1\n")).unwrap_err(), CsvError::Decimal);
    assert!(parse_candles_csv(h).unwrap().is_empty());
    assert!(parse_candles_csv("").unwrap().is_empty());
    assert_eq!(parse_candles_csv(&format!("{h}\r\n1,2,1,1,1,1,1,1\r\n")).unwrap().len(), 1);
}

// ---- consolidation requests ----

#[test]
fn consolidation_requests() {
    assert_eq!(check_intervals(300_000, 60_000), Err(RequestError::TargetSmaller));
    assert_eq!(check_intervals(300_000, 400_000), Err(RequestError::NotMultiple));
    assert_eq!(check_intervals(300_000, 3_600_000), Ok(()));
    let dates = vec![1, 2, 3, 5, 8];
    assert_eq!(select_dates(&dates, Some(2), Some(5)), Ok(vec![2, 3, 5]));
    assert_eq!(select_dates(&dates, Some(3), None), Ok(vec![3]));
    assert_eq!(select_dates(&dates, Some(5), Some(2)), Err(RequestError::EndBeforeStart));
    assert_eq!(select_dates(&dates, None, Some(3)), Ok(vec![1, 2, 3]));
    assert_eq!(select_dates(&dates, None, None), Ok(dates.clone()));
}

// ---- laws on concrete values ----

#[test]
fn interval_reads_count_times_unit() {
    for n in [0u64, 1, 7, 30, 90, 1440, 123_456] {
        assert_eq!(candle::parse_interval(&format!("{n}m")), Some(n * 60_000));
        assert_eq!(candle::parse_interval(&format!("{n}h")), Some(n * 3_600_000));
        assert_eq!(candle::parse_interval(&format!("{n}d")), Some(n * 86_400_000));
    }
}

#[test]
fn sources_advance_with_date() {
    fn rank(s: DataSource) -> u8 {
        match s {
            DataSource::NodeTrades => 0,
            DataSource::NodeFills => 1,
            DataSource::FillsByBlock => 2,
        }
    }
    let dates = [
        "20250322", "20250524", "20250525", "20250526", "20250621", "20250726", "20250727", "20250728",
        "20250801", "20260101",
    ];
    for (i, a) in dates.iter().enumerate() {
        for b in &dates[i + 1..] {
            let newest_a = DataSource::for_date(a).into_iter().map(rank).max().unwrap();
            let oldest_b = DataSource::for_date(b).into_iter().map(rank).min().unwrap();
            assert!(newest_a <= oldest_b, "{a} then {b}");
        }
    }
}

#[test]
fn cache_path_mirrors_s3_key() {
    for (dir, date, hour, source) in [
        ("data", "20250801", 0u8, DataSource::FillsByBlock),
        ("/var/cache/", "20250525", 23, DataSource::NodeTrades),
        ("", "20250601", 12, DataSource::NodeFills),
    ] {
        let key = cache::s3_key(date, hour, source);
        let sep = if dir.is_empty() || dir.ends_with('/') { "" } else { "/" };
        assert_eq!(
            cache::cache_path(dir, date, hour, source),
            format!("{dir}{sep}s3/hl-mainnet-node-data/{key}")
        );
    }
}

#[test]
fn csv_roundtrip_extreme_decimals() {
    let d = |m: i128, s: u32| Decimal::from_parts(m, s).unwrap();
    let max = 79_228_162_514_264_337_593_543_950_335i128;
    let candles = vec![
        Candle {
            open_time: 0,
            close_time: u64::MAX,
            open: d(-1000, 7),
            high: d(max, 28),
            low: d(-max, 0),
            close: d(0, 3),
            volume: d(5, 1),
            trades: u64::MAX,
        },
        Candle {
            open_time: 60_000,
            close_time: 119_999,
            open: d(0, 0),
            high: d(1, 28),
            low: d(-1, 28),
            close: d(123_456_789, 4),
            volume: d(max, 14),
            trades: 1,
        },
    ];
    let text = hl_candles::csv::format_candles_csv(&candles);
    let back = parse_candles_csv(&text).unwrap();
    assert_eq!(back.len(), candles.len());
    for (a, b) in back.iter().zip(candles.iter()) {
        assert_eq!(view(a), view(b));
        for (x, y) in [(&a.open, &b.open), (&a.high, &b.high), (&a.low, &b.low), (&a.close, &b.close), (&a.volume, &b.volume)] {
            assert_eq!((x.mantissa(), x.scale()), (y.mantissa(), y.scale()));
        }
    }
}

// ---- hour plan, layout, candle sort ----

/// Runs the hour plan with lookups and downloads answering as given.
fn run_plan(cached: &[bool], fetched: &[bool]) -> (HourOutcome, Vec<HourStep>) {
    let n = cached.len();
    let mut steps = Vec::new();
    let mut step = first_step(n);
    loop {
        steps.push(step);
        step = match step {
            HourStep::LookInCache(i) => next_step(n, step, cached[i]),
            HourStep::Download(i) => next_step(n, step, fetched[i]),
            HourStep::Done(o) => return (o, steps),
        };
    }
}

#[test]
fn hour_plan_tries_sources_in_order() {
    let (o, steps) = run_plan(&[false, true], &[false, false]);
    assert_eq!(o, HourOutcome::Cached);
    assert_eq!(
        steps,
        vec![HourStep::LookInCache(0), HourStep::Download(0), HourStep::LookInCache(1), HourStep::Done(HourOutcome::Cached)]
    );
    let (o, steps) = run_plan(&[false, false], &[true, true]);
    assert_eq!(o, HourOutcome::Downloaded);
    assert_eq!(steps, vec![HourStep::LookInCache(0), HourStep::Download(0), HourStep::Done(HourOutcome::Downloaded)]);
    assert_eq!(run_plan(&[false, false], &[false, false]).0, HourOutcome::Missing);
    assert_eq!(run_plan(&[false], &[true]).0, HourOutcome::Downloaded);
    assert_eq!(run_plan(&[true], &[false]).0, HourOutcome::Cached);
    assert_eq!(run_plan(&[], &[]).0, HourOutcome::Missing);
    assert_eq!(next_step(1, HourStep::Done(HourOutcome::Cached), false), HourStep::Done(HourOutcome::Cached));
}

#[test]
fn candle_layout_paths() {
    assert_eq!(market_dir(Market::Perp), "perp");
    assert_eq!(market_dir(Market::Spot), "spot");
    let dir = candles_dir("data", Market::Perp, "BTC", "5m");
    assert_eq!(dir, "data/candles/perp/BTC/5m");
    assert_eq!(csv_path(&dir, "20250801"), "data/candles/perp/BTC/5m/20250801.csv");
    assert_eq!(consolidated_path("data", Market::Spot, "BTCUSDC", "1h"), "data/consolidated/spot/BTCUSDC/1h.csv");
    assert_eq!(candles_dir("/abs/", Market::Spot, "ETH", "1d"), "/abs/candles/spot/ETH/1d");
}

#[test]
fn candle_sort_is_stable() {
    let c = |open_time: u64, trades: u64| Candle {
        open_time,
        close_time: open_time + 59_999,
        open: dec("1"),
        high: dec("1"),
        low: dec("1"),
        close: dec("1"),
        volume: dec("1"),
        trades,
    };
    let mut v = vec![c(120_000, 1), c(0, 2), c(60_000, 3), c(0, 4), c(120_000, 5), c(60_000, 6)];
    hl_candles::sort::sort_by_open_time(&mut v);
    let got: Vec<(u64, u64)> = v.iter().map(|x| (x.open_time, x.trades)).collect();
    assert_eq!(got, vec![(0, 2), (0, 4), (60_000, 3), (60_000, 6), (120_000, 1), (120_000, 5)]);
}

#[test]
fn day_start_of_dates() {
    assert_eq!(day::day_start_ms("20250801"), Some(BASE_MS));
    assert_eq!(day::day_start_ms("19700101"), Some(0));
    assert_eq!(day::day_start_ms("20250802"), Some(BASE_MS + 86_400_000));
    assert_eq!(day::day_start_ms("20251301"), None);
    assert_eq!(day::day_start_ms("abc"), None);
}

#[test]
fn consolidated_file_matches_direct_build() {
    let mut trades = Vec::new();
    for i in 0..200u64 {
        let px = format!("1157{:02}.{}", i % 97, i % 7);
        let sz = format!("0.{:03}", 1 + i % 500);
        trades.push(trade(&px, &sz, BASE_MS + i * 37_000));
    }
    let five = candle::aggregate(&trades, 300_000);
    let text = hl_candles::csv::format_candles_csv(&five);
    let mut back = parse_candles_csv(&text).unwrap();
    hl_candles::sort::sort_by_open_time(&mut back);
    let consolidated = candle::consolidate(&back, 3_600_000);
    let direct = candle::aggregate(&trades, 3_600_000);
    assert_eq!(
        hl_candles::csv::format_candles_csv(&consolidated),
        hl_candles::csv::format_candles_csv(&direct)
    );
    assert_eq!(consolidated.len(), 3);
}

#[test]
fn first_error_in_file_order() {
    let good = fill_json("BTC", "100.5", "1", "B", BASE_MS, 1);
    let bad_price = fill_json("BTC", "oops", "1", "B", BASE_MS, 2);
    // A bad price on the first line is reported before the broken JSON of the second.
    let text = format!("[\"0xa\",{good}]\n[\"0xb\",{bad_price}]\n[\"0xc\",{{\"coin\":\"BTC\"\n");
    assert_eq!(parse_fills(&lz4_compress(&text), "BTC", DataSource::NodeFills).unwrap_err(), ParseError::Price);
    // Broken JSON before the bad price is reported first.
    let text = format!("[\"0xc\",{{\"coin\":\"BTC\"\n[\"0xb\",{bad_price}]\n");
    assert_eq!(parse_fills(&lz4_compress(&text), "BTC", DataSource::NodeFills).unwrap_err(), ParseError::Json);
    // The extractor itself: fills handed over one at a time.
    let mut ex = parser::FillTrades::new("BTC");
    ex.add(&fill("BTC", "2", "1", "A", 20, 7)).unwrap();
    ex.add(&fill("BTC", "2", "1", "B", 20, 7)).unwrap();
    ex.add(&fill("BTC", "1", "1", "B", 10, 8)).unwrap();
    let ts = ex.into_sorted_trades();
    assert_eq!(ts.iter().map(|t| (t.time_ms, t.is_buy)).collect::<Vec<_>>(), vec![(10, true), (20, false)]);
}

#[test]
fn aggregate_rounds_inexact_volume() {
    let tiny = Decimal::from_parts(79_228_162_514_264_337_593_543_950_335, 28).unwrap();
    let trades = vec![
        Trade { price: dec("1"), size: tiny, time_ms: 0, is_buy: true },
        Trade { price: dec("1"), size: dec("1"), time_ms: 1, is_buy: true },
    ];
    let candles = candle::try_aggregate(&trades, 60_000).expect("a rounded sum, as rust_decimal gives");
    assert_eq!(candles.len(), 1);
    let expected = rdec("7.9228162514264337593543950335") + rdec("1");
    assert_eq!(rd(&candles[0].volume), expected);
    assert_eq!(rd(&candles[0].volume).scale(), expected.scale());
    assert!(expected.scale() < 28);
    let merged = candle::consolidate(&[candles[0], candles[0]], 60_000);
    assert_eq!(rd(&merged[0].volume), expected + expected);
}

#[test]
fn aggregate_disjoint_runs_concatenate() {
    let a = vec![trade("1", "1", 0), trade("3", "2", 30_000), trade("2", "1", 61_000)];
    let b = vec![trade("5", "1", 125_000), trade("4", "1", 179_999), trade("6", "3", 240_000)];
    let mut ab = a.clone();
    ab.extend(b.iter().copied());
    let whole: Vec<_> = candle::aggregate(&ab, 60_000).iter().map(view).collect();
    let mut parts: Vec<_> = candle::aggregate(&a, 60_000).iter().map(view).collect();
    parts.extend(candle::aggregate(&b, 60_000).iter().map(view));
    assert_eq!(whole, parts);
    // Sharing a bucket across the boundary merges, so the law needs different buckets.
    let c = vec![trade("7", "1", 61_500)];
    let mut ac = a.clone();
    ac.extend(c.iter().copied());
    assert_eq!(candle::aggregate(&ac, 60_000).len(), 2);
}

#[test]
fn cache_paths_are_distinct() {
    let mut seen = std::collections::HashSet::new();
    for date in ["20250727", "20250728", "20251231"] {
        for hour in 0..24u8 {
            for source in [DataSource::FillsByBlock, DataSource::NodeFills, DataSource::NodeTrades] {
                let p = cache::cache_path("data", date, hour, source);
                assert!(p.starts_with("data/s3/hl-mainnet-node-data/"));
                assert!(seen.insert(p));
            }
        }
    }
    assert_eq!(seen.len(), 3 * 24 * 3);
}

#[test]
fn prefilter_keeps_lines_naming_coin() {
    let text = b"{\"coin\":\"BTC\"}\n{\"coin\":\"ETH\"}\n\n{\"x\":\"BTC\",\"coin\":\"SOL\"}\r\nBTC alone\n{\"coin\":\"BTC\"}";
    let all = parser::candidate_lines(text, "BTC", DataSource::NodeTrades);
    let kept = parser::candidate_lines(text, "BTC", DataSource::FillsByBlock);
    let expected: Vec<(usize, usize)> = all
        .iter()
        .copied()
        .filter(|&(a, b)| std::str::from_utf8(&text[a..b]).unwrap().contains("\"BTC\""))
        .collect();
    assert_eq!(kept, expected);
    assert_eq!(all.len(), 5);
    assert_eq!(kept.len(), 3);
}

#[test]
fn days_consolidate_to_direct_build() {
    let day = 86_400_000u64;
    let mut day_files_5m = Vec::new();
    let mut direct_1h_rows = String::new();
    for d in 0..3u64 {
        let start = BASE_MS + d * day;
        let trades: Vec<Trade> = (0..50u64)
            .map(|i| trade(&format!("11{:03}.{}", i % 1000, i % 10), &format!("0.{:02}", 1 + i % 90), start + i * 1_700_000))
            .collect();
        day_files_5m.push(hl_candles::csv::format_candles_csv(&candle::aggregate(&trades, 300_000)));
        let direct = hl_candles::csv::format_candles_csv(&candle::aggregate(&trades, 3_600_000));
        direct_1h_rows.push_str(direct.split_once('\n').unwrap().1);
    }
    let mut all = Vec::new();
    for text in &day_files_5m {
        all.extend(parse_candles_csv(text).unwrap());
    }
    let before: Vec<u64> = all.iter().map(|c| c.open_time).collect();
    hl_candles::sort::sort_by_open_time(&mut all);
    assert_eq!(all.iter().map(|c| c.open_time).collect::<Vec<_>>(), before);
    let consolidated = hl_candles::csv::format_candles_csv(&candle::consolidate(&all, 3_600_000));
    assert_eq!(consolidated.split_once('\n').unwrap().1, direct_1h_rows);
}

#[test]
fn btc_usdc_spellings_resolve() {
    let m = meta();
    for p in ["BTCUSDC", "btc/usdc", "BTC-USDC", "btc_usdc", "UBTCUSDC", "ubtc/usdc"] {
        assert_eq!(resolve_spot_coin(&m, p).unwrap(), "@142", "{p}");
    }
}

#[test]
fn date_range_checks() {
    assert_eq!(check_date_range(739_464, None), Ok(739_464));
    assert_eq!(check_date_range(739_464, Some(739_466)), Ok(739_466));
    assert_eq!(check_date_range(739_464, Some(739_464)), Ok(739_464));
    assert_eq!(check_date_range(739_464, Some(739_463)), Err(RequestError::EndBeforeStart));
}

#[test]
fn positive_sizes_give_positive_volumes() {
    let tiny = Decimal::from_parts(79_228_162_514_264_337_593_543_950_335, 28).unwrap();
    let trades = vec![
        Trade { price: dec("1"), size: tiny, time_ms: 0, is_buy: true },
        Trade { price: dec("1"), size: tiny, time_ms: 1, is_buy: true },
        Trade { price: dec("1"), size: dec("0.001"), time_ms: 70_000, is_buy: true },
    ];
    let candles = candle::aggregate(&trades, 60_000);
    assert_eq!(candles.len(), 2);
    assert!(candles.iter().all(|c| c.volume.mantissa() > 0));
    assert!(candles[0].volume.scale() < 28);
}

#[test]
fn extractor_records_ids_before_parsing() {
    let mut ex = parser::FillTrades::new("BTC");
    assert_eq!(ex.add(&fill("BTC", "bad", "1", "B", 1, 9)).unwrap_err(), ParseError::Price);
    let mut ex2 = parser::FillTrades::new("BTC");
    ex2.add(&fill("ETH", "bad", "1", "B", 1, 9)).unwrap();
    ex2.add(&fill("BTC", "1", "bad", "B", 1, 0)).unwrap();
    assert_eq!(ex2.add(&fill("BTC", "1", "bad", "B", 1, 3)).unwrap_err(), ParseError::Size);
}
