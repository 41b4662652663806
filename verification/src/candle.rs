//! OHLCV candles: aggregation of trades, re-bucketing of candles, and
//! interval strings.

use vstd::prelude::*;
use crate::decimal::{
    Decimal, value_lt, sum_value, add_fits, checked_sum, sum_of, lemma_value_lt_transitive, lemma_value_le_transitive,
    lemma_sum_associative, lemma_sum_nonnegative,
};
use vstd::arithmetic::div_mod::{lemma_fundamental_div_mod, lemma_fundamental_div_mod_converse};
use crate::parser::{Trade, TradeView, trades_view};
use crate::text::{parse_u64, parse_u64_spec, to_chars, decimal_chars, lemma_parse_decimal_chars};

verus! {

/// One OHLCV candle covering `[open_time, close_time]` (epoch milliseconds).
#[derive(Debug, Clone, Copy)]
pub struct Candle {
    pub open_time: u64,
    pub close_time: u64,
    pub open: Decimal,
    pub high: Decimal,
    pub low: Decimal,
    pub close: Decimal,
    pub volume: Decimal,
    pub trades: u64,
}

/// What a candle holds, with decimals taken as `(mantissa, scale)`.
pub struct CandleView {
    pub open_time: int,
    pub close_time: int,
    pub open: (int, nat),
    pub high: (int, nat),
    pub low: (int, nat),
    pub close: (int, nat),
    pub volume: (int, nat),
    pub trades: int,
}

impl View for Candle {
    type V = CandleView;

    open spec fn view(&self) -> CandleView {
        CandleView {
            open_time: self.open_time as int,
            close_time: self.close_time as int,
            open: self.open@,
            high: self.high@,
            low: self.low@,
            close: self.close@,
            volume: self.volume@,
            trades: self.trades as int,
        }
    }
}

/// The views of a sequence of candles.
pub open spec fn candles_view(cs: Seq<Candle>) -> Seq<CandleView> {
    cs.map_values(|c: Candle| c@)
}

/// Start of the interval-aligned bucket holding time `t`.
pub open spec fn bucket(t: int, interval: int) -> int {
    (t / interval) * interval
}

/// The higher of two prices; the first one on a tie.
pub open spec fn first_max(a: (int, nat), b: (int, nat)) -> (int, nat) {
    if value_lt(a, b) { b } else { a }
}

/// The lower of two prices; the first one on a tie.
pub open spec fn first_min(a: (int, nat), b: (int, nat)) -> (int, nat) {
    if value_lt(b, a) { b } else { a }
}

/// The candle opened by a single trade.
pub open spec fn open_candle(t: TradeView, interval: int) -> CandleView {
    let s = bucket(t.time_ms as int, interval);
    CandleView {
        open_time: s,
        close_time: s + interval - 1,
        open: t.price,
        high: t.price,
        low: t.price,
        close: t.price,
        volume: t.size,
        trades: 1,
    }
}

/// A candle with one more trade in it.
pub open spec fn add_trade(c: CandleView, t: TradeView) -> CandleView {
    CandleView {
        open_time: c.open_time,
        close_time: c.close_time,
        open: c.open,
        high: first_max(c.high, t.price),
        low: first_min(c.low, t.price),
        close: t.price,
        volume: sum_of(c.volume, t.size),
        trades: c.trades + 1,
    }
}

/// One step of the aggregation: the trade joins the last candle when it
/// falls in the same bucket, and opens a new candle otherwise.
pub open spec fn aggregate_step(cs: Seq<CandleView>, t: TradeView, interval: int) -> Seq<CandleView> {
    if cs.len() > 0 && cs.last().open_time == bucket(t.time_ms as int, interval) {
        cs.update(cs.len() - 1, add_trade(cs.last(), t))
    } else {
        cs.push(open_candle(t, interval))
    }
}

/// The candles of a sequence of trades, in the order the trades come.
pub open spec fn aggregate_spec(ts: Seq<TradeView>, interval: int) -> Seq<CandleView>
    decreases ts.len(),
{
    if ts.len() == 0 {
        seq![]
    } else {
        aggregate_step(aggregate_spec(ts.drop_last(), interval), ts.last(), interval)
    }
}

/// No step of the aggregation overflows: every bucket end fits in `u64`
/// and no volume addition overflows (where `+` would panic).
pub open spec fn aggregate_fits(ts: Seq<TradeView>, interval: int) -> bool
    decreases ts.len(),
{
    if ts.len() == 0 {
        true
    } else {
        let prev = aggregate_spec(ts.drop_last(), interval);
        let t = ts.last();
        &&& aggregate_fits(ts.drop_last(), interval)
        &&& bucket(t.time_ms as int, interval) + interval <= u64::MAX + 1
        &&& (prev.len() > 0 && prev.last().open_time == bucket(t.time_ms as int, interval)
            ==> checked_sum(prev.last().volume, t.size) is Some)
    }
}

/// The inputs on which `aggregate` runs without overflow.
pub open spec fn can_aggregate(ts: Seq<TradeView>, interval: int) -> bool {
    ts.len() == 0 || (interval > 0 && aggregate_fits(ts, interval))
}

proof fn lemma_aggregate_fits_prefix(ts: Seq<TradeView>, interval: int, k: int)
    requires
        0 <= k <= ts.len(),
        aggregate_fits(ts, interval),
    ensures
        aggregate_fits(ts.take(k), interval),
    decreases ts.len(),
{
    if k < ts.len() {
        assert(ts.drop_last().take(k) =~= ts.take(k));
        lemma_aggregate_fits_prefix(ts.drop_last(), interval, k);
    } else {
        assert(ts.take(k) =~= ts);
    }
}

/// The candle in progress followed by nothing, or by itself.
spec fn pending(current: Option<Candle>) -> Seq<CandleView> {
    match current {
        Some(c) => seq![c@],
        None => seq![],
    }
}

/// Aggregates trades into candles of `interval_ms` milliseconds, or
/// `None` on the inputs where `aggregate` would overflow.
pub fn try_aggregate(trades: &[Trade], interval_ms: u64) -> (r: Option<Vec<Candle>>)
    ensures
        r is Some <==> can_aggregate(trades_view(trades@), interval_ms as int),
        r matches Some(cs) ==> candles_view(cs@) == aggregate_spec(trades_view(trades@), interval_ms as int),
        sizes_positive(trades_view(trades@)) ==> (r matches Some(cs) ==> volumes_positive(candles_view(cs@))),
{
    let ghost tv = trades_view(trades@);
    let ghost iv = interval_ms as int;
    if trades.len() == 0 {
        let v: Vec<Candle> = Vec::new();
        assert(candles_view(v@) =~= seq![]);
        return Some(v);
    }
    if interval_ms == 0 {
        return None;
    }
    let mut candles: Vec<Candle> = Vec::new();
    let mut current: Option<Candle> = None;
    let n = trades.len();
    for i in 0..n
        invariant
            n == trades@.len(),
            tv == trades_view(trades@),
            iv == interval_ms as int,
            interval_ms > 0,
            candles_view(candles@) + pending(current) == aggregate_spec(tv.take(i as int), iv),
            aggregate_fits(tv.take(i as int), iv),
            current is Some <==> i > 0,
            current matches Some(c) ==> c.trades <= i,
            sizes_positive(tv) ==> volumes_positive(candles_view(candles@)),
            sizes_positive(tv) && current is Some ==> current->0.volume@.0 > 0,
    {
        let t = trades[i];
        proof {
            if sizes_positive(tv) {
                assert(tv[i as int] == t@);
            }
        }
        let ghost prefix = tv.take(i as int);
        let ghost next = tv.take(i + 1);
        proof {
            assert(next.drop_last() =~= prefix);
            assert(next.last() == t@);
        }
        let q = t.time_ms / interval_ms;
        assert(q * interval_ms <= t.time_ms) by (nonlinear_arith)
            requires
                q == t.time_ms / interval_ms,
                interval_ms > 0;
        let bucket_start = q * interval_ms;
        assert(bucket_start == bucket(t.time_ms as int, iv));
        if bucket_start > u64::MAX - (interval_ms - 1) {
            proof {
                if aggregate_fits(tv, iv) {
                    lemma_aggregate_fits_prefix(tv, iv, i + 1);
                }
            }
            return None;
        }
        let bucket_end = bucket_start + (interval_ms - 1);
        let ghost prev = aggregate_spec(prefix, iv);
        match current {
            Some(c) => {
                if c.open_time == bucket_start {
                    assert(prev.last() == c@);
                    let volume = match c.volume.checked_plus(&t.size) {
                        Some(v) => v,
                        None => {
                            proof {
                                if aggregate_fits(tv, iv) {
                                    lemma_aggregate_fits_prefix(tv, iv, i + 1);
                                }
                            }
                            return None;
                        },
                    };
                    proof {
                        if sizes_positive(tv) {
                            if add_fits(c.volume@, t.size@) {
                                lemma_sum_nonnegative(c.volume@, t.size@);
                            }
                        }
                    }
                    let high = if c.high.less_than(&t.price) { t.price } else { c.high };
                    let low = if t.price.less_than(&c.low) { t.price } else { c.low };
                    current = Some(Candle {
                        open_time: c.open_time,
                        close_time: c.close_time,
                        open: c.open,
                        high,
                        low,
                        close: t.price,
                        volume,
                        trades: c.trades + 1,
                    });
                    proof {
                        assert(candles_view(candles@) + pending(current)
                            =~= aggregate_step(prev, t@, iv));
                    }
                } else {
                    assert(prev.last() == c@);
                    let ghost before = candles@;
                    candles.push(c);
                    proof {
                        if sizes_positive(tv) {
                            assert(candles_view(candles@) =~= candles_view(before).push(c@));
                        }
                    }
                    current = Some(Candle {
                        open_time: bucket_start,
                        close_time: bucket_end,
                        open: t.price,
                        high: t.price,
                        low: t.price,
                        close: t.price,
                        volume: t.size,
                        trades: 1,
                    });
                    proof {
                        assert(candles_view(candles@) + pending(current)
                            =~= aggregate_step(prev, t@, iv));
                    }
                }
            }
            None => {
                current = Some(Candle {
                    open_time: bucket_start,
                    close_time: bucket_end,
                    open: t.price,
                    high: t.price,
                    low: t.price,
                    close: t.price,
                    volume: t.size,
                    trades: 1,
                });
                proof {
                    assert(candles_view(candles@) + pending(current)
                        =~= aggregate_step(prev, t@, iv));
                }
            }
        }
    }
    let ghost before = candles@;
    if let Some(c) = current {
        candles.push(c);
        proof {
            assert(candles_view(candles@) =~= candles_view(before).push(c@));
        }
    }
    proof {
        assert(tv.take(n as int) =~= tv);
        assert(candles_view(candles@) =~= aggregate_spec(tv, iv));
    }
    Some(candles)
}

/// Aggregates trades into candles of `interval_ms` milliseconds.
///
/// Consecutive trades whose times fall in the same interval-aligned
/// bucket form one candle: open is the first price, high and low the
/// extreme prices (the earliest on ties), close the last price, volume
/// the sum of sizes and `trades` their number. `close_time` is the last
/// millisecond of the bucket.
pub fn aggregate(trades: &[Trade], interval_ms: u64) -> (r: Vec<Candle>)
    requires
        can_aggregate(trades_view(trades@), interval_ms as int),
    ensures
        candles_view(r@) == aggregate_spec(trades_view(trades@), interval_ms as int),
        sizes_positive(trades_view(trades@)) ==> volumes_positive(candles_view(r@)),
{
    match try_aggregate(trades, interval_ms) {
        Some(cs) => cs,
        None => {
            assert(false);
            Vec::new()
        }
    }
}

/// The first candle of a group re-bucketed to `interval`.
pub open spec fn open_group(c: CandleView, interval: int) -> CandleView {
    let s = bucket(c.open_time, interval);
    CandleView {
        open_time: s,
        close_time: s + interval - 1,
        open: c.open,
        high: c.high,
        low: c.low,
        close: c.close,
        volume: c.volume,
        trades: c.trades,
    }
}

/// A group with one more candle in it.
pub open spec fn add_candle(acc: CandleView, c: CandleView) -> CandleView {
    CandleView {
        open_time: acc.open_time,
        close_time: acc.close_time,
        open: acc.open,
        high: first_max(acc.high, c.high),
        low: first_min(acc.low, c.low),
        close: c.close,
        volume: sum_of(acc.volume, c.volume),
        trades: acc.trades + c.trades,
    }
}

/// One step of consolidation: the candle joins the last group when its
/// open time falls in the same bucket, and opens a new group otherwise.
pub open spec fn consolidate_step(gs: Seq<CandleView>, c: CandleView, interval: int) -> Seq<CandleView> {
    if gs.len() > 0 && gs.last().open_time == bucket(c.open_time, interval) {
        gs.update(gs.len() - 1, add_candle(gs.last(), c))
    } else {
        gs.push(open_group(c, interval))
    }
}

/// The candles of `cs` re-bucketed to `interval`.
pub open spec fn consolidate_spec(cs: Seq<CandleView>, interval: int) -> Seq<CandleView>
    decreases cs.len(),
{
    if cs.len() == 0 {
        seq![]
    } else {
        consolidate_step(consolidate_spec(cs.drop_last(), interval), cs.last(), interval)
    }
}

/// No step of consolidation overflows.
pub open spec fn consolidate_fits(cs: Seq<CandleView>, interval: int) -> bool
    decreases cs.len(),
{
    if cs.len() == 0 {
        true
    } else {
        let prev = consolidate_spec(cs.drop_last(), interval);
        let c = cs.last();
        &&& consolidate_fits(cs.drop_last(), interval)
        &&& bucket(c.open_time, interval) + interval <= u64::MAX + 1
        &&& (prev.len() > 0 && prev.last().open_time == bucket(c.open_time, interval) ==> {
            &&& checked_sum(prev.last().volume, c.volume) is Some
            &&& prev.last().trades + c.trades <= u64::MAX
        })
    }
}

/// The inputs on which `consolidate` runs without overflow.
pub open spec fn can_consolidate(cs: Seq<CandleView>, interval: int) -> bool {
    cs.len() == 0 || (interval > 0 && consolidate_fits(cs, interval))
}

proof fn lemma_consolidate_fits_prefix(cs: Seq<CandleView>, interval: int, k: int)
    requires
        0 <= k <= cs.len(),
        consolidate_fits(cs, interval),
    ensures
        consolidate_fits(cs.take(k), interval),
    decreases cs.len(),
{
    if k < cs.len() {
        assert(cs.drop_last().take(k) =~= cs.take(k));
        lemma_consolidate_fits_prefix(cs.drop_last(), interval, k);
    } else {
        assert(cs.take(k) =~= cs);
    }
}

/// Re-buckets candles into candles of `interval_ms`, or `None` on the
/// inputs where `consolidate` would overflow.
pub fn try_consolidate(candles: &[Candle], interval_ms: u64) -> (r: Option<Vec<Candle>>)
    ensures
        r is Some <==> can_consolidate(candles_view(candles@), interval_ms as int),
        r matches Some(gs) ==> candles_view(gs@) == consolidate_spec(candles_view(candles@), interval_ms as int),
{
    let ghost cv = candles_view(candles@);
    let ghost iv = interval_ms as int;
    if candles.len() == 0 {
        let v: Vec<Candle> = Vec::new();
        assert(candles_view(v@) =~= seq![]);
        return Some(v);
    }
    if interval_ms == 0 {
        return None;
    }
    let mut groups: Vec<Candle> = Vec::new();
    let mut current: Option<Candle> = None;
    let n = candles.len();
    for i in 0..n
        invariant
            n == candles@.len(),
            cv == candles_view(candles@),
            iv == interval_ms as int,
            interval_ms > 0,
            candles_view(groups@) + pending(current) == consolidate_spec(cv.take(i as int), iv),
            consolidate_fits(cv.take(i as int), iv),
            current is Some <==> i > 0,
    {
        let c = candles[i];
        let ghost prefix = cv.take(i as int);
        let ghost next = cv.take(i + 1);
        proof {
            assert(next.drop_last() =~= prefix);
            assert(next.last() == c@);
        }
        let q = c.open_time / interval_ms;
        assert(q * interval_ms <= c.open_time) by (nonlinear_arith)
            requires
                q == c.open_time / interval_ms,
                interval_ms > 0;
        let bucket_start = q * interval_ms;
        assert(bucket_start == bucket(c.open_time as int, iv));
        if bucket_start > u64::MAX - (interval_ms - 1) {
            proof {
                if consolidate_fits(cv, iv) {
                    lemma_consolidate_fits_prefix(cv, iv, i + 1);
                }
            }
            return None;
        }
        let bucket_end = bucket_start + (interval_ms - 1);
        let ghost prev = consolidate_spec(prefix, iv);
        match current {
            Some(g) => {
                if g.open_time == bucket_start {
                    assert(prev.last() == g@);
                    let summed = g.volume.checked_plus(&c.volume);
                    if summed.is_none() || g.trades > u64::MAX - c.trades {
                        proof {
                            if consolidate_fits(cv, iv) {
                                lemma_consolidate_fits_prefix(cv, iv, i + 1);
                            }
                        }
                        return None;
                    }
                    let volume = summed.unwrap();
                    let high = if g.high.less_than(&c.high) { c.high } else { g.high };
                    let low = if c.low.less_than(&g.low) { c.low } else { g.low };
                    current = Some(Candle {
                        open_time: g.open_time,
                        close_time: g.close_time,
                        open: g.open,
                        high,
                        low,
                        close: c.close,
                        volume,
                        trades: g.trades + c.trades,
                    });
                    proof {
                        assert(candles_view(groups@) + pending(current)
                            =~= consolidate_step(prev, c@, iv));
                    }
                } else {
                    assert(prev.last() == g@);
                    groups.push(g);
                    current = Some(Candle {
                        open_time: bucket_start,
                        close_time: bucket_end,
                        open: c.open,
                        high: c.high,
                        low: c.low,
                        close: c.close,
                        volume: c.volume,
                        trades: c.trades,
                    });
                    proof {
                        assert(candles_view(groups@) + pending(current)
                            =~= consolidate_step(prev, c@, iv));
                    }
                }
            }
            None => {
                current = Some(Candle {
                    open_time: bucket_start,
                    close_time: bucket_end,
                    open: c.open,
                    high: c.high,
                    low: c.low,
                    close: c.close,
                    volume: c.volume,
                    trades: c.trades,
                });
                proof {
                    assert(candles_view(groups@) + pending(current)
                        =~= consolidate_step(prev, c@, iv));
                }
            }
        }
    }
    if let Some(g) = current {
        groups.push(g);
    }
    proof {
        assert(cv.take(n as int) =~= cv);
        assert(candles_view(groups@) =~= consolidate_spec(cv, iv));
    }
    Some(groups)
}

/// Re-buckets candles (ordered by open time) into candles of a larger
/// interval: consecutive candles whose open times fall in the same
/// `interval_ms` bucket merge into one, with the first open, the extreme
/// highs and lows (earliest on ties), the last close, and the summed
/// volume and trade count.
pub fn consolidate(candles: &[Candle], interval_ms: u64) -> (r: Vec<Candle>)
    requires
        can_consolidate(candles_view(candles@), interval_ms as int),
    ensures
        candles_view(r@) == consolidate_spec(candles_view(candles@), interval_ms as int),
{
    match try_consolidate(candles, interval_ms) {
        Some(gs) => gs,
        None => {
            assert(false);
            Vec::new()
        }
    }
}

/// Milliseconds per unit of an interval string: `m`, `h` or `d`; zero
/// for any other unit.
pub open spec fn unit_ms(c: char) -> int {
    if c == 'm' {
        60_000
    } else if c == 'h' {
        3_600_000
    } else if c == 'd' {
        86_400_000
    } else {
        0
    }
}

/// What `parse_interval` returns: the count before the unit, parsed as a
/// `u64`, times the unit's milliseconds; `None` for a bad count or unit.
pub open spec fn interval_spec(s: Seq<char>) -> Option<u64> {
    match parse_u64_spec(s.drop_last()) {
        Some(n) => if unit_ms(s.last()) > 0 {
            Some((n * unit_ms(s.last())) as u64)
        } else {
            None
        },
        None => None,
    }
}

/// The strings `parse_interval` accepts without panicking: non-empty,
/// ending in a one-byte (ASCII) character, and with a product that fits
/// in `u64`.
pub open spec fn interval_in_range(s: Seq<char>) -> bool {
    &&& s.len() > 0
    &&& (s.last() as u32) < 128
    &&& match parse_u64_spec(s.drop_last()) {
        Some(n) => unit_ms(s.last()) > 0 ==> n * unit_ms(s.last()) <= u64::MAX,
        None => true,
    }
}

/// Parses an interval string like "1m", "5m", "1h", "1d" into milliseconds.
pub fn parse_interval(s: &str) -> (r: Option<u64>)
    requires
        interval_in_range(s@),
    ensures
        r == interval_spec(s@),
{
    let cs = to_chars(s);
    let n = cs.len() - 1;
    assert(cs@.subrange(0, n as int) =~= s@.drop_last());
    let count = match parse_u64(&cs, 0, n) {
        Some(v) => v,
        None => return None,
    };
    let unit = cs[n];
    if unit == 'm' {
        Some(count * 60_000)
    } else if unit == 'h' {
        Some(count * 3_600_000)
    } else if unit == 'd' {
        Some(count * 86_400_000)
    } else {
        None
    }
}

/// Whether `parse_interval` accepts `s` (see `interval_in_range`).
pub fn interval_is_in_range(s: &str) -> (r: bool)
    ensures
        r == interval_in_range(s@),
{
    let cs = to_chars(s);
    if cs.len() == 0 {
        return false;
    }
    let n = cs.len() - 1;
    if (cs[n] as u32) >= 128 {
        return false;
    }
    assert(cs@.subrange(0, n as int) =~= s@.drop_last());
    let count = match parse_u64(&cs, 0, n) {
        Some(v) => v,
        None => return true,
    };
    let unit = cs[n];
    let per: u64 = if unit == 'm' {
        60_000
    } else if unit == 'h' {
        3_600_000
    } else if unit == 'd' {
        86_400_000
    } else {
        return true;
    };
    count <= u64::MAX / per
}

/// An interval written as a count in decimal followed by `m`, `h` or `d`
/// reads back as the count times the unit's milliseconds, whenever that
/// product fits in `u64`.
pub proof fn law_interval_reads_count_times_unit(n: u64, unit: char)
    requires
        unit == 'm' || unit == 'h' || unit == 'd',
        n * unit_ms(unit) <= u64::MAX,
    ensures
        interval_in_range(decimal_chars(n as nat).push(unit)),
        interval_spec(decimal_chars(n as nat).push(unit)) == Some((n * unit_ms(unit)) as u64),
{
    let ds = decimal_chars(n as nat);
    let s = ds.push(unit);
    lemma_parse_decimal_chars(n);
    assert(s.drop_last() =~= ds);
    assert(s.last() == unit);
}

/// The shape every aggregated candle has: prices within `[low, high]`,
/// at least one trade, and a bucket-aligned `[open_time, close_time]`
/// spanning exactly one interval.
pub open spec fn candle_well_formed(c: CandleView, interval: int) -> bool {
    &&& !value_lt(c.high, c.low)
    &&& !value_lt(c.high, c.open)
    &&& !value_lt(c.high, c.close)
    &&& !value_lt(c.open, c.low)
    &&& !value_lt(c.close, c.low)
    &&& c.trades >= 1
    &&& c.open_time == bucket(c.open_time, interval)
    &&& c.close_time == c.open_time + interval - 1
}

/// The number of trades over all candles.
pub open spec fn total_trades(cs: Seq<CandleView>) -> int
    decreases cs.len(),
{
    if cs.len() == 0 {
        0
    } else {
        total_trades(cs.drop_last()) + cs.last().trades
    }
}

/// Trades ordered by time.
pub open spec fn sorted_by_time(ts: Seq<TradeView>) -> bool {
    forall|i: int, j: int| 0 <= i <= j < ts.len() ==> ts[i].time_ms <= ts[j].time_ms
}

proof fn lemma_bucket_aligned(t: int, interval: int)
    requires
        t >= 0,
        interval > 0,
    ensures
        bucket(bucket(t, interval), interval) == bucket(t, interval),
        0 <= bucket(t, interval) <= t,
{
    let q = t / interval;
    lemma_fundamental_div_mod(t, interval);
    assert(q >= 0) by (nonlinear_arith)
        requires
            t == interval * q + t % interval,
            0 <= t % interval < interval,
            t >= 0,
            interval > 0;
    assert(q * interval >= 0) by (nonlinear_arith)
        requires
            q >= 0,
            interval > 0;
    lemma_fundamental_div_mod_converse(q * interval, interval, q, 0);
}

proof fn lemma_value_lt_asymmetric(a: (int, nat), b: (int, nat))
    ensures
        !(value_lt(a, b) && value_lt(b, a)),
        !value_lt(a, a),
{
}

proof fn lemma_add_trade_well_formed(c: CandleView, t: TradeView, interval: int)
    requires
        candle_well_formed(c, interval),
    ensures
        candle_well_formed(add_trade(c, t), interval),
{
    let p = t.price;
    let h = first_max(c.high, p);
    let l = first_min(c.low, p);
    lemma_value_lt_asymmetric(c.high, p);
    lemma_value_lt_asymmetric(p, c.low);
    // h is at least c.high and p; l is at most c.low and p.
    assert(!value_lt(h, c.high) && !value_lt(h, p));
    assert(!value_lt(c.low, l) && !value_lt(p, l));
    lemma_value_le_transitive(c.open, c.high, h);
    lemma_value_le_transitive(l, c.low, c.open);
    lemma_value_le_transitive(l, c.low, c.high);
    lemma_value_le_transitive(l, c.high, h);
}

/// Every candle `aggregate` builds is well formed (see
/// `candle_well_formed`), and the candles hold all the trades: their
/// trade counts add up to the number of trades.
pub proof fn law_aggregate_candles_well_formed(ts: Seq<TradeView>, interval: int)
    requires
        interval > 0,
    ensures
        forall|i: int| 0 <= i < aggregate_spec(ts, interval).len()
            ==> candle_well_formed(#[trigger] aggregate_spec(ts, interval)[i], interval),
        total_trades(aggregate_spec(ts, interval)) == ts.len(),
    decreases ts.len(),
{
    if ts.len() > 0 {
        let ts0 = ts.drop_last();
        let t = ts.last();
        law_aggregate_candles_well_formed(ts0, interval);
        let prev = aggregate_spec(ts0, interval);
        let cur = aggregate_spec(ts, interval);
        let b = bucket(t.time_ms as int, interval);
        lemma_bucket_aligned(t.time_ms as int, interval);
        if prev.len() > 0 && prev.last().open_time == b {
            lemma_add_trade_well_formed(prev.last(), t, interval);
            assert(cur.drop_last() =~= prev.drop_last());
            assert(total_trades(prev) == total_trades(prev.drop_last()) + prev.last().trades);
        } else {
            let oc = open_candle(t, interval);
            lemma_value_lt_asymmetric(t.price, t.price);
            assert(candle_well_formed(oc, interval));
            assert(cur.drop_last() =~= prev);
        }
        assert forall|i: int| 0 <= i < cur.len() implies candle_well_formed(#[trigger] cur[i], interval) by {
            if i < cur.len() - 1 {
                assert(cur[i] == prev[i]);
            }
        }
    }
}

/// Over time-ordered trades, candle open times strictly increase: each
/// bucket holds exactly one candle.
pub proof fn law_aggregate_sorted_open_times(ts: Seq<TradeView>, interval: int)
    requires
        interval > 0,
        sorted_by_time(ts),
    ensures
        forall|i: int, j: int| 0 <= i < j < aggregate_spec(ts, interval).len()
            ==> aggregate_spec(ts, interval)[i].open_time < aggregate_spec(ts, interval)[j].open_time,
        ts.len() > 0 ==> aggregate_spec(ts, interval).last().open_time == bucket(ts.last().time_ms as int, interval),
    decreases ts.len(),
{
    if ts.len() > 0 {
        let ts0 = ts.drop_last();
        let t = ts.last();
        assert(sorted_by_time(ts0)) by {
            assert forall|i: int, j: int| 0 <= i <= j < ts0.len() implies ts0[i].time_ms <= ts0[j].time_ms by {
                assert(ts0[i] == ts[i] && ts0[j] == ts[j]);
            }
        }
        law_aggregate_sorted_open_times(ts0, interval);
        let prev = aggregate_spec(ts0, interval);
        let cur = aggregate_spec(ts, interval);
        let b = bucket(t.time_ms as int, interval);
        if prev.len() > 0 && prev.last().open_time == b {
            assert forall|i: int, j: int| 0 <= i < j < cur.len() implies cur[i].open_time < cur[j].open_time by {
                assert(cur[i].open_time == prev[i].open_time);
                assert(cur[j].open_time == prev[j].open_time);
            }
        } else if prev.len() > 0 {
            let t0 = ts0.last();
            assert(t0.time_ms <= t.time_ms);
            assert(bucket(t0.time_ms as int, interval) <= bucket(t.time_ms as int, interval)) by (nonlinear_arith)
                requires
                    t0.time_ms <= t.time_ms,
                    interval > 0;
            assert forall|i: int, j: int| 0 <= i < j < cur.len() implies cur[i].open_time < cur[j].open_time by {
                if j < cur.len() - 1 {
                    assert(cur[i] == prev[i] && cur[j] == prev[j]);
                } else {
                    assert(cur[i] == prev[i]);
                    if i < prev.len() - 1 {
                        assert(prev[i].open_time < prev[prev.len() - 1].open_time);
                    }
                }
            }
        }
    }
}

/// Every trade size is positive.
pub open spec fn sizes_positive(ts: Seq<TradeView>) -> bool {
    forall|i: int| 0 <= i < ts.len() ==> #[trigger] ts[i].size.0 > 0
}

/// Every candle volume is positive.
pub open spec fn volumes_positive(cs: Seq<CandleView>) -> bool {
    forall|i: int| 0 <= i < cs.len() ==> #[trigger] cs[i].volume.0 > 0
}

/// Every trade size is non-negative.
pub open spec fn sizes_nonnegative(ts: Seq<TradeView>) -> bool {
    forall|i: int| 0 <= i < ts.len() ==> #[trigger] ts[i].size.0 >= 0
}

/// Every candle volume is non-negative.
pub open spec fn volumes_nonnegative(cs: Seq<CandleView>) -> bool {
    forall|i: int| 0 <= i < cs.len() ==> #[trigger] cs[i].volume.0 >= 0
}

proof fn lemma_first_max_associative(a: (int, nat), b: (int, nat), c: (int, nat))
    ensures
        first_max(a, first_max(b, c)) == first_max(first_max(a, b), c),
{
    if value_lt(b, c) {
        if value_lt(a, b) {
            lemma_value_lt_transitive(a, b, c);
        }
    } else {
        if !value_lt(a, b) {
            lemma_value_le_transitive(c, b, a);
        }
    }
}

proof fn lemma_first_min_associative(a: (int, nat), b: (int, nat), c: (int, nat))
    ensures
        first_min(a, first_min(b, c)) == first_min(first_min(a, b), c),
{
    if value_lt(c, b) {
        if value_lt(b, a) {
            lemma_value_lt_transitive(c, b, a);
        }
    } else {
        if !value_lt(b, a) {
            lemma_value_le_transitive(a, b, c);
        }
    }
}

/// Buckets nest: the `big` bucket of a `small` bucket start is the `big`
/// bucket of the time itself, when `big` is a multiple of `small`.
proof fn lemma_bucket_nested(t: int, small: int, big: int)
    requires
        t >= 0,
        small > 0,
        big > 0,
        big % small == 0,
    ensures
        bucket(bucket(t, small), big) == bucket(t, big),
{
    let k = big / small;
    lemma_fundamental_div_mod(big, small);
    assert(big == k * small);
    let q = t / big;
    let r = t % big;
    lemma_fundamental_div_mod(t, big);
    assert(0 <= r < big);
    let u = r / small;
    let v = r % small;
    lemma_fundamental_div_mod(r, small);
    assert(0 <= v < small);
    assert(r == small * u + v);
    assert(t == (q * k + u) * small + v) by (nonlinear_arith)
        requires
            t == big * q + r,
            big == k * small,
            r == small * u + v;
    lemma_fundamental_div_mod_converse(t, small, q * k + u, v);
    let bs = (q * k + u) * small;
    assert(bs == bucket(t, small));
    assert(u * small <= r) by (nonlinear_arith)
        requires
            r == small * u + v,
            v >= 0;
    assert(u >= 0) by (nonlinear_arith)
        requires
            r == small * u + v,
            0 <= r,
            v < small,
            small > 0;
    assert(bs == q * big + u * small) by (nonlinear_arith)
        requires
            bs == (q * k + u) * small,
            big == k * small;
    assert(u * small >= 0) by (nonlinear_arith)
        requires
            u >= 0,
            small > 0;
    lemma_fundamental_div_mod_converse(bs, big, q, u * small);
}

proof fn lemma_aggregate_last(ts: Seq<TradeView>, interval: int)
    requires
        ts.len() > 0,
    ensures
        aggregate_spec(ts, interval).len() > 0,
        aggregate_spec(ts, interval).last().open_time == bucket(ts.last().time_ms as int, interval),
{
}

proof fn lemma_consolidate_last(cs: Seq<CandleView>, interval: int)
    requires
        cs.len() > 0,
    ensures
        consolidate_spec(cs, interval).len() > 0,
        consolidate_spec(cs, interval).last().open_time == bucket(cs.last().open_time, interval),
{
}

/// Every volume addition of the aggregation is exact: no sum is rounded.
pub open spec fn aggregate_exact(ts: Seq<TradeView>, interval: int) -> bool
    decreases ts.len(),
{
    if ts.len() == 0 {
        true
    } else {
        let prev = aggregate_spec(ts.drop_last(), interval);
        let t = ts.last();
        &&& aggregate_exact(ts.drop_last(), interval)
        &&& (prev.len() > 0 && prev.last().open_time == bucket(t.time_ms as int, interval)
            ==> add_fits(prev.last().volume, t.size))
    }
}

/// Every volume addition of the consolidation is exact: no sum is rounded.
pub open spec fn consolidate_exact(cs: Seq<CandleView>, interval: int) -> bool
    decreases cs.len(),
{
    if cs.len() == 0 {
        true
    } else {
        let prev = consolidate_spec(cs.drop_last(), interval);
        let c = cs.last();
        &&& consolidate_exact(cs.drop_last(), interval)
        &&& (prev.len() > 0 && prev.last().open_time == bucket(c.open_time, interval)
            ==> add_fits(prev.last().volume, c.volume))
    }
}

proof fn lemma_aggregate_nonnegative(ts: Seq<TradeView>, interval: int)
    requires
        sizes_nonnegative(ts),
        aggregate_exact(ts, interval),
    ensures
        volumes_nonnegative(aggregate_spec(ts, interval)),
    decreases ts.len(),
{
    if ts.len() > 0 {
        let ts0 = ts.drop_last();
        assert(sizes_nonnegative(ts0)) by {
            assert forall|i: int| 0 <= i < ts0.len() implies #[trigger] ts0[i].size.0 >= 0 by {
                assert(ts0[i] == ts[i]);
            }
        }
        lemma_aggregate_nonnegative(ts0, interval);
        let prev = aggregate_spec(ts0, interval);
        let t = ts.last();
        assert(t.size.0 >= 0);
        if prev.len() > 0 && prev.last().open_time == bucket(t.time_ms as int, interval) {
            assert(prev.last().volume.0 >= 0);
            lemma_sum_nonnegative(prev.last().volume, t.size);
        }
    }
}

proof fn lemma_consolidate_nonnegative(cs: Seq<CandleView>, interval: int)
    requires
        volumes_nonnegative(cs),
        consolidate_exact(cs, interval),
    ensures
        volumes_nonnegative(consolidate_spec(cs, interval)),
    decreases cs.len(),
{
    if cs.len() > 0 {
        let cs0 = cs.drop_last();
        assert(volumes_nonnegative(cs0)) by {
            assert forall|i: int| 0 <= i < cs0.len() implies #[trigger] cs0[i].volume.0 >= 0 by {
                assert(cs0[i] == cs[i]);
            }
        }
        lemma_consolidate_nonnegative(cs0, interval);
        let prev = consolidate_spec(cs0, interval);
        let c = cs.last();
        assert(c.volume.0 >= 0);
        if prev.len() > 0 && prev.last().open_time == bucket(c.open_time, interval) {
            assert(prev.last().volume.0 >= 0);
            lemma_sum_nonnegative(prev.last().volume, c.volume);
        }
    }
}

/// Runs of trades aggregate independently: when the last trade of `a`
/// and the first trade of `b` fall in different buckets (as for two
/// time-ordered runs from disjoint time ranges), the candles of `a`
/// followed by `b` are the candles of `a` followed by those of `b`.
pub proof fn law_aggregate_concat(a: Seq<TradeView>, b: Seq<TradeView>, interval: int)
    requires
        a.len() == 0 || b.len() == 0
            || bucket(a.last().time_ms as int, interval) != bucket(b[0].time_ms as int, interval),
    ensures
        aggregate_spec(a + b, interval) == aggregate_spec(a, interval) + aggregate_spec(b, interval),
    decreases b.len(),
{
    if b.len() == 0 {
        assert(a + b =~= a);
        assert(aggregate_spec(a, interval) + aggregate_spec(b, interval) =~= aggregate_spec(a, interval));
    } else {
        let b0 = b.drop_last();
        let y = b.last();
        assert((a + b).drop_last() =~= a + b0);
        assert((a + b).last() == y);
        let pa = aggregate_spec(a, interval);
        if b0.len() == 0 {
            assert(a + b0 =~= a);
            assert(aggregate_spec(b0, interval) =~= Seq::<CandleView>::empty());
            if a.len() > 0 {
                lemma_aggregate_last(a, interval);
                assert(b[0] == y);
            }
            assert(aggregate_spec(a + b, interval) =~= pa + aggregate_spec(b, interval));
        } else {
            assert(b0[0] == b[0]);
            law_aggregate_concat(a, b0, interval);
            let pb = aggregate_spec(b0, interval);
            lemma_aggregate_last(b0, interval);
            assert((pa + pb).last() == pb.last());
            if pb.last().open_time == bucket(y.time_ms as int, interval) {
                assert((pa + pb).update((pa + pb).len() - 1, add_trade(pb.last(), y))
                    =~= pa + pb.update(pb.len() - 1, add_trade(pb.last(), y)));
            } else {
                assert((pa + pb).push(open_candle(y, interval)) =~= pa + pb.push(open_candle(y, interval)));
            }
        }
    }
}

/// Runs of candles consolidate independently: when the last candle of
/// `a` and the first candle of `b` fall in different buckets, the groups
/// of `a` followed by `b` are the groups of `a` followed by those of `b`.
pub proof fn law_consolidate_concat(a: Seq<CandleView>, b: Seq<CandleView>, interval: int)
    requires
        a.len() == 0 || b.len() == 0
            || bucket(a.last().open_time, interval) != bucket(b[0].open_time, interval),
    ensures
        consolidate_spec(a + b, interval) == consolidate_spec(a, interval) + consolidate_spec(b, interval),
    decreases b.len(),
{
    if b.len() == 0 {
        assert(a + b =~= a);
        assert(consolidate_spec(a, interval) + consolidate_spec(b, interval) =~= consolidate_spec(a, interval));
    } else {
        let b0 = b.drop_last();
        let y = b.last();
        assert((a + b).drop_last() =~= a + b0);
        assert((a + b).last() == y);
        let pa = consolidate_spec(a, interval);
        if b0.len() == 0 {
            assert(a + b0 =~= a);
            assert(consolidate_spec(b0, interval) =~= Seq::<CandleView>::empty());
            if a.len() > 0 {
                lemma_consolidate_last(a, interval);
                assert(b[0] == y);
            }
            assert(consolidate_spec(a + b, interval) =~= pa + consolidate_spec(b, interval));
        } else {
            assert(b0[0] == b[0]);
            law_consolidate_concat(a, b0, interval);
            let pb = consolidate_spec(b0, interval);
            lemma_consolidate_last(b0, interval);
            assert((pa + pb).last() == pb.last());
            if pb.last().open_time == bucket(y.open_time, interval) {
                assert((pa + pb).update((pa + pb).len() - 1, add_candle(pb.last(), y))
                    =~= pa + pb.update(pb.len() - 1, add_candle(pb.last(), y)));
            } else {
                assert((pa + pb).push(open_group(y, interval)) =~= pa + pb.push(open_group(y, interval)));
            }
        }
    }
}

/// The volume sums of building `ts` at `small` and at `big`, and of
/// consolidating every prefix's `small` candles to `big`, are all exact.
pub open spec fn sums_exact(ts: Seq<TradeView>, small: int, big: int) -> bool {
    &&& aggregate_exact(ts, small)
    &&& aggregate_exact(ts, big)
    &&& forall|k: int| 0 <= k <= ts.len() ==> #[trigger] consolidate_exact(aggregate_spec(ts.take(k), small), big)
}

/// Consolidating candles built at a small interval gives exactly the
/// candles built directly at a larger interval that is a multiple of it
/// (e.g. 5m candles consolidated to 1h are the 1h candles), for trades
/// of non-negative size whose volume sums are exact (`rust_decimal`
/// rounds a sum that does not fit, and rounding is not associative).
pub proof fn law_consolidate_matches_direct_build(ts: Seq<TradeView>, small: int, big: int)
    requires
        small > 0,
        big > 0,
        big % small == 0,
        sizes_nonnegative(ts),
        sums_exact(ts, small, big),
    ensures
        consolidate_spec(aggregate_spec(ts, small), big) == aggregate_spec(ts, big),
    decreases ts.len(),
{
    if ts.len() > 0 {
        let ts0 = ts.drop_last();
        let t = ts.last();
        assert(sizes_nonnegative(ts0)) by {
            assert forall|i: int| 0 <= i < ts0.len() implies #[trigger] ts0[i].size.0 >= 0 by {
                assert(ts0[i] == ts[i]);
            }
        }
        assert(t.size.0 >= 0);
        assert(ts.take(ts.len() as int) =~= ts);
        assert(ts.take(ts0.len() as int) =~= ts0);
        assert(consolidate_exact(aggregate_spec(ts.take(ts.len() as int), small), big));
        assert(consolidate_exact(aggregate_spec(ts.take(ts0.len() as int), small), big));
        assert(sums_exact(ts0, small, big)) by {
            assert forall|k: int| 0 <= k <= ts0.len() implies #[trigger] consolidate_exact(aggregate_spec(ts0.take(k), small), big) by {
                assert(ts0.take(k) =~= ts.take(k));
                assert(consolidate_exact(aggregate_spec(ts.take(k), small), big));
            }
        }
        law_consolidate_matches_direct_build(ts0, small, big);
        let a0 = aggregate_spec(ts0, small);
        let b0 = aggregate_spec(ts0, big);
        let bs = bucket(t.time_ms as int, small);
        let bb = bucket(t.time_ms as int, big);
        lemma_bucket_nested(t.time_ms as int, small, big);
        lemma_aggregate_nonnegative(ts0, small);
        if a0.len() > 0 && a0.last().open_time == bs {
            let x = a0.last();
            let a1 = a0.update(a0.len() - 1, add_trade(x, t));
            assert(aggregate_spec(ts, small) == a1);
            assert(a1.drop_last() =~= a0.drop_last());
            assert(a1.last() == add_trade(x, t));
            let p = consolidate_spec(a0.drop_last(), big);
            assert(a0.drop_last().push(x) =~= a0);
            assert(consolidate_spec(a0, big) == consolidate_step(p, x, big));
            assert(consolidate_spec(a1, big) == consolidate_step(p, add_trade(x, t), big));
            lemma_consolidate_last(a0, big);
            assert(b0.len() > 0 && b0.last().open_time == bb);
            if p.len() > 0 && p.last().open_time == bb {
                let y = p.last();
                assert(volumes_nonnegative(a0.drop_last())) by {
                    assert forall|i: int| 0 <= i < a0.drop_last().len()
                        implies #[trigger] a0.drop_last()[i].volume.0 >= 0 by {
                        assert(a0.drop_last()[i] == a0[i]);
                    }
                }
                lemma_consolidate_nonnegative(a0.drop_last(), big);
                assert(y.volume.0 >= 0);
                assert(x.volume.0 >= 0);
                lemma_first_max_associative(y.high, x.high, t.price);
                lemma_first_min_associative(y.low, x.low, t.price);
                lemma_sum_associative(y.volume, x.volume, t.size);
                assert(add_candle(y, add_trade(x, t)) == add_trade(add_candle(y, x), t));
                assert(consolidate_spec(a1, big) =~= aggregate_step(b0, t, big));
            } else {
                assert(open_group(add_trade(x, t), big) == add_trade(open_group(x, big), t));
                assert(consolidate_spec(a1, big) =~= aggregate_step(b0, t, big));
            }
        } else {
            let oc = open_candle(t, small);
            let a1 = a0.push(oc);
            assert(aggregate_spec(ts, small) == a1);
            assert(a1.drop_last() =~= a0);
            assert(consolidate_spec(a1, big) == consolidate_step(b0, oc, big));
            if b0.len() > 0 && b0.last().open_time == bb {
                assert(add_candle(b0.last(), oc) == add_trade(b0.last(), t));
            } else {
                assert(open_group(oc, big) == open_candle(t, big));
            }
            assert(consolidate_spec(a1, big) =~= aggregate_step(b0, t, big));
        }
    }
}

/// The candles of several days' trades, each day built on its own, in
/// day order.
pub open spec fn days_candles(days: Seq<Seq<TradeView>>, interval: int) -> Seq<CandleView>
    decreases days.len(),
{
    if days.len() == 0 {
        seq![]
    } else {
        days_candles(days.drop_last(), interval) + aggregate_spec(days.last(), interval)
    }
}

/// Days apart: each day has trades, and every trade of an earlier day
/// falls on an earlier calendar day (`time / day_len`) than every trade
/// of a later day.
pub open spec fn days_apart(days: Seq<Seq<TradeView>>, day_len: int) -> bool {
    &&& forall|d: int| 0 <= d < days.len() ==> #[trigger] days[d].len() > 0
    &&& forall|d: int, e: int, i: int, j: int|
        0 <= d < e < days.len() && 0 <= i < days[d].len() && 0 <= j < days[e].len()
            ==> #[trigger] (days[d][i].time_ms as int) / day_len < #[trigger] (days[e][j].time_ms as int) / day_len
}

proof fn lemma_aggregate_first(ts: Seq<TradeView>, interval: int)
    requires
        ts.len() > 0,
    ensures
        aggregate_spec(ts, interval).len() > 0,
        aggregate_spec(ts, interval)[0].open_time == bucket(ts[0].time_ms as int, interval),
    decreases ts.len(),
{
    let prev = aggregate_spec(ts.drop_last(), interval);
    let t = ts.last();
    if ts.len() > 1 {
        lemma_aggregate_first(ts.drop_last(), interval);
        assert(ts.drop_last()[0] == ts[0]);
        if prev.last().open_time == bucket(t.time_ms as int, interval) {
            let u = prev.update(prev.len() - 1, add_trade(prev.last(), t));
            assert(u[0].open_time == prev[0].open_time);
        } else {
            assert(prev.push(open_candle(t, interval))[0] == prev[0]);
        }
    } else {
        assert(prev =~= Seq::<CandleView>::empty());
        assert(t == ts[0]);
    }
}

/// Times on different calendar days fall in different buckets of an
/// interval that divides the day.
proof fn lemma_bucket_days_apart(x: int, y: int, big: int, day_len: int)
    requires
        0 <= x,
        0 <= y,
        big > 0,
        day_len > 0,
        day_len % big == 0,
        x / day_len < y / day_len,
    ensures
        bucket(x, big) < bucket(y, big),
{
    let dx = x / day_len;
    let dy = y / day_len;
    lemma_fundamental_div_mod(x, day_len);
    lemma_fundamental_div_mod(y, day_len);
    lemma_fundamental_div_mod(day_len, big);
    let k = day_len / big;
    assert(day_len == big * k);
    let m = dy * k;
    assert(x < dy * day_len) by (nonlinear_arith)
        requires
            x == day_len * dx + x % day_len,
            x % day_len < day_len,
            dx + 1 <= dy,
            day_len > 0;
    assert(m * big == dy * day_len) by (nonlinear_arith)
        requires
            m == dy * k,
            day_len == big * k;
    assert(dy * day_len <= y) by (nonlinear_arith)
        requires
            y == day_len * dy + y % day_len,
            0 <= y % day_len;
    lemma_fundamental_div_mod(y, big);
    let q = y / big;
    assert(m <= q) by (nonlinear_arith)
        requires
            m * big <= y,
            y == big * q + y % big,
            y % big < big,
            big > 0;
    assert(m * big <= q * big) by (nonlinear_arith)
        requires
            m <= q,
            big > 0;
    lemma_fundamental_div_mod(x, big);
    assert(bucket(x, big) <= x) by (nonlinear_arith)
        requires
            x == big * (x / big) + x % big,
            0 <= x % big;
}

/// Consolidating several days at once gives the days built directly:
/// days apart, built at a small interval, their candles concatenated in
/// day order and consolidated to a multiple of that interval that
/// divides the day, are the candles of each day built directly at that
/// multiple, in day order (for trades of non-negative size with exact
/// volume sums).
pub proof fn law_days_consolidate_to_direct_build(days: Seq<Seq<TradeView>>, small: int, big: int, day_len: int)
    requires
        small > 0,
        big > 0,
        big % small == 0,
        day_len > 0,
        day_len % big == 0,
        days_apart(days, day_len),
        forall|d: int| 0 <= d < days.len() ==> sizes_nonnegative(#[trigger] days[d]) && sums_exact(days[d], small, big),
    ensures
        consolidate_spec(days_candles(days, small), big) == days_candles(days, big),
    decreases days.len(),
{
    if days.len() > 0 {
        let pre = days.drop_last();
        let last = days.last();
        assert(days_apart(pre, day_len)) by {
            assert forall|d: int| 0 <= d < pre.len() implies #[trigger] pre[d].len() > 0 by {
                assert(pre[d] == days[d]);
            }
            assert forall|d: int, e: int, i: int, j: int|
                0 <= d < e < pre.len() && 0 <= i < pre[d].len() && 0 <= j < pre[e].len()
                implies #[trigger] (pre[d][i].time_ms as int) / day_len < #[trigger] (pre[e][j].time_ms as int) / day_len by {
                assert(pre[d] == days[d] && pre[e] == days[e]);
                assert((days[d][i].time_ms as int) / day_len < (days[e][j].time_ms as int) / day_len);
            }
        }
        assert forall|d: int| 0 <= d < pre.len() implies sizes_nonnegative(#[trigger] pre[d]) && sums_exact(pre[d], small, big) by {
            assert(pre[d] == days[d]);
            assert(sizes_nonnegative(days[d]) && sums_exact(days[d], small, big));
        }
        law_days_consolidate_to_direct_build(pre, small, big, day_len);
        let n = days.len() as int;
        assert(sizes_nonnegative(days[n - 1]) && sums_exact(days[n - 1], small, big));
        law_consolidate_matches_direct_build(last, small, big);
        let a = days_candles(pre, small);
        let b = aggregate_spec(last, small);
        assert(last.len() > 0) by {
            assert(days[n - 1].len() > 0);
        }
        lemma_aggregate_first(last, small);
        if pre.len() > 0 {
            let prev_day = pre.last();
            assert(prev_day == days[n - 2]);
            assert(prev_day.len() > 0) by {
                assert(days[n - 2].len() > 0);
            }
            lemma_aggregate_last(prev_day, small);
            assert(a == days_candles(pre.drop_last(), small) + aggregate_spec(prev_day, small));
            assert(a.last() == aggregate_spec(prev_day, small).last());
            let x = prev_day.last().time_ms as int;
            let y = last[0].time_ms as int;
            assert((days[n - 2][prev_day.len() - 1].time_ms as int) / day_len < (days[n - 1][0].time_ms as int) / day_len);
            lemma_bucket_days_apart(x, y, big, day_len);
            lemma_bucket_nested(x, small, big);
            lemma_bucket_nested(y, small, big);
        }
        law_consolidate_concat(a, b, big);
    }
}

/// Candles with strictly increasing open times.
pub open spec fn open_times_increasing(cs: Seq<CandleView>) -> bool {
    forall|i: int, j: int| 0 <= i < j < cs.len() ==> cs[i].open_time < cs[j].open_time
}

/// Days apart, each time-ordered, built at an interval that divides the
/// day: their candles in day order have strictly increasing open times.
pub proof fn law_days_candles_increasing(days: Seq<Seq<TradeView>>, interval: int, day_len: int)
    requires
        interval > 0,
        day_len > 0,
        day_len % interval == 0,
        days_apart(days, day_len),
        forall|d: int| 0 <= d < days.len() ==> sorted_by_time(#[trigger] days[d]),
    ensures
        open_times_increasing(days_candles(days, interval)),
    decreases days.len(),
{
    if days.len() > 0 {
        let pre = days.drop_last();
        let last = days.last();
        let n = days.len() as int;
        assert(days_apart(pre, day_len)) by {
            assert forall|d: int| 0 <= d < pre.len() implies #[trigger] pre[d].len() > 0 by {
                assert(pre[d] == days[d]);
            }
            assert forall|d: int, e: int, i: int, j: int|
                0 <= d < e < pre.len() && 0 <= i < pre[d].len() && 0 <= j < pre[e].len()
                implies #[trigger] (pre[d][i].time_ms as int) / day_len < #[trigger] (pre[e][j].time_ms as int) / day_len by {
                assert(pre[d] == days[d] && pre[e] == days[e]);
                assert((days[d][i].time_ms as int) / day_len < (days[e][j].time_ms as int) / day_len);
            }
        }
        assert forall|d: int| 0 <= d < pre.len() implies sorted_by_time(#[trigger] pre[d]) by {
            assert(pre[d] == days[d]);
        }
        law_days_candles_increasing(pre, interval, day_len);
        assert(sorted_by_time(days[n - 1]));
        law_aggregate_sorted_open_times(last, interval);
        let a = days_candles(pre, interval);
        let b = aggregate_spec(last, interval);
        assert(last.len() > 0) by {
            assert(days[n - 1].len() > 0);
        }
        lemma_aggregate_first(last, interval);
        if pre.len() > 0 {
            let prev_day = pre.last();
            assert(prev_day == days[n - 2]);
            assert(prev_day.len() > 0) by {
                assert(days[n - 2].len() > 0);
            }
            lemma_aggregate_last(prev_day, interval);
            assert(a == days_candles(pre.drop_last(), interval) + aggregate_spec(prev_day, interval));
            assert(a.last() == aggregate_spec(prev_day, interval).last());
            let x = prev_day.last().time_ms as int;
            let y = last[0].time_ms as int;
            assert((days[n - 2][prev_day.len() - 1].time_ms as int) / day_len < (days[n - 1][0].time_ms as int) / day_len);
            lemma_bucket_days_apart(x, y, interval, day_len);
            assert(a.last().open_time < b[0].open_time);
        }
        let c = a + b;
        assert(days_candles(days, interval) == c);
        assert forall|i: int, j: int| 0 <= i < j < c.len() implies c[i].open_time < c[j].open_time by {
            if j < a.len() {
                assert(c[i] == a[i] && c[j] == a[j]);
            } else if i >= a.len() {
                assert(c[i] == b[i - a.len()] && c[j] == b[j - a.len()]);
            } else {
                assert(c[i] == a[i] && c[j] == b[j - a.len()]);
                if i < a.len() - 1 {
                    assert(a[i].open_time < a[a.len() - 1].open_time);
                }
                if j - a.len() > 0 {
                    assert(b[0].open_time < b[j - a.len()].open_time);
                }
            }
        }
    }
}

} // verus!
