//! The trades of one UTC day.
//!
//! S3 files are partitioned by block time, not trade time: the next day's
//! hour-0 file may hold trades from the last seconds of the current day.
//! A day's trades are therefore its 24 hourly files plus the next day's
//! hour-0 file, cut to exactly `[day start, day start + 24h)`.

use vstd::prelude::*;
use crate::parser::{Trade, TradeView, trades_view, millis_u64};
use crate::sort::{sort_by_time, stably_sorted, law_stable_sort_unique};

verus! {

/// Milliseconds in a day.
pub open spec fn day_ms() -> int {
    86_400_000
}

/// What chrono gives for a `YYYYMMDD` date: `NaiveDate::parse_from_str(s,
/// "%Y%m%d")`, at midnight (`and_hms_opt(0, 0, 0)`), taken as UTC, in epoch
/// milliseconds (`timestamp_millis`); `None` where the date does not parse.
pub uninterp spec fn date_start_millis(s: Seq<char>) -> Option<i64>;

/// Calls chrono for the start of a `YYYYMMDD` date, in epoch milliseconds.
/// Claimed: the result is what the name `date_start_millis` gives for the
/// date (midnight always exists, so `and_hms_opt(0, 0, 0)` is `Some`).
#[verifier::external_body]
fn chrono_date_start(date: &str) -> (r: Option<i64>)
    ensures
        r == date_start_millis(date@),
{
    match chrono::NaiveDate::parse_from_str(date, "%Y%m%d") {
        Ok(d) => match d.and_hms_opt(0, 0, 0) {
            Some(t) => Some(t.and_utc().timestamp_millis()),
            None => None,
        },
        Err(_) => None,
    }
}

/// The epoch milliseconds at which a `YYYYMMDD` date starts (UTC), as a
/// `u64` (the `as` cast: dates before 1970 wrap); `None` for a string
/// that is not such a date.
pub fn day_start_ms(date: &str) -> (r: Option<u64>)
    ensures
        r == millis_u64(date_start_millis(date@)),
{
    match chrono_date_start(date) {
        Some(m) => Some(m as u64),
        None => None,
    }
}

/// The trade falls in the day starting at `day_start`.
pub open spec fn in_day(t: TradeView, day_start: int) -> bool {
    day_start <= t.time_ms < day_start + day_ms()
}

/// The trades of `s` that fall in the day, in order.
pub open spec fn within_day(s: Seq<TradeView>, day_start: int) -> Seq<TradeView>
    decreases s.len(),
{
    if s.len() == 0 {
        seq![]
    } else if in_day(s.last(), day_start) {
        within_day(s.drop_last(), day_start).push(s.last())
    } else {
        within_day(s.drop_last(), day_start)
    }
}

proof fn lemma_within_day_concat(a: Seq<TradeView>, b: Seq<TradeView>, d: int)
    ensures
        within_day(a + b, d) == within_day(a, d) + within_day(b, d),
    decreases b.len(),
{
    if b.len() == 0 {
        assert(a + b =~= a);
        assert(within_day(a, d) + within_day(b, d) =~= within_day(a, d));
    } else {
        assert((a + b).drop_last() =~= a + b.drop_last());
        lemma_within_day_concat(a, b.drop_last(), d);
        if in_day(b.last(), d) {
            assert(within_day(a, d) + within_day(b.drop_last(), d).push(b.last())
                =~= (within_day(a, d) + within_day(b.drop_last(), d)).push(b.last()));
        }
    }
}

/// The trades of a day: the day's own trades followed by those of the
/// next day's first hour (`spillover`), cut to the day and sorted by time
/// (equal times keep their order).
pub fn select_day(day_trades: Vec<Trade>, spillover: Vec<Trade>, day_start: u64) -> (r: Vec<Trade>)
    requires
        day_start + day_ms() <= u64::MAX,
    ensures
        stably_sorted(trades_view(r@), within_day(trades_view(day_trades@) + trades_view(spillover@), day_start as int)),
{
    let day_end = day_start + 86_400_000;
    let mut kept: Vec<Trade> = Vec::new();
    let ghost all = trades_view(day_trades@) + trades_view(spillover@);
    let n = day_trades.len();
    let m = spillover.len();
    let ghost dv = trades_view(day_trades@);
    let ghost sv = trades_view(spillover@);
    for i in 0..n
        invariant
            n == day_trades@.len(),
            day_end == day_start + day_ms(),
            dv == trades_view(day_trades@),
            trades_view(kept@) == within_day(dv.take(i as int), day_start as int),
    {
        let t = day_trades[i];
        assert(dv.take(i + 1).drop_last() =~= dv.take(i as int));
        if day_start <= t.time_ms && t.time_ms < day_end {
            let ghost before = kept@;
            kept.push(t);
            assert(trades_view(kept@) =~= trades_view(before).push(t@));
        }
    }
    assert(dv.take(n as int) =~= dv);
    let ghost first = trades_view(kept@);
    for i in 0..m
        invariant
            m == spillover@.len(),
            day_end == day_start + day_ms(),
            sv == trades_view(spillover@),
            trades_view(kept@) == first + within_day(sv.take(i as int), day_start as int),
    {
        let t = spillover[i];
        assert(sv.take(i + 1).drop_last() =~= sv.take(i as int));
        if day_start <= t.time_ms && t.time_ms < day_end {
            let ghost before = kept@;
            kept.push(t);
            assert(trades_view(kept@) =~= trades_view(before).push(t@));
        }
    }
    proof {
        assert(sv.take(m as int) =~= sv);
        lemma_within_day_concat(dv, sv, day_start as int);
        assert(trades_view(kept@) == within_day(all, day_start as int));
    }
    sort_by_time(&mut kept);
    kept
}

/// Days are self-contained: what a day keeps depends only on the trades
/// that fall in it. Adding trades from outside the day (from other days'
/// files, before or after) changes nothing.
pub proof fn law_day_is_self_contained(r1: Seq<TradeView>, r2: Seq<TradeView>, a: Seq<TradeView>,
    before: Seq<TradeView>, after: Seq<TradeView>, d: int)
    requires
        forall|i: int| 0 <= i < before.len() ==> !in_day(#[trigger] before[i], d),
        forall|i: int| 0 <= i < after.len() ==> !in_day(#[trigger] after[i], d),
        stably_sorted(r1, within_day(a, d)),
        stably_sorted(r2, within_day(before + a + after, d)),
    ensures
        r1 == r2,
{
    lemma_within_day_concat(before, a, d);
    lemma_within_day_concat(before + a, after, d);
    lemma_within_day_none(before, d);
    lemma_within_day_none(after, d);
    assert(within_day(before + a + after, d) =~= within_day(a, d));
    law_stable_sort_unique(r1, r2);
}

proof fn lemma_within_day_none(s: Seq<TradeView>, d: int)
    requires
        forall|i: int| 0 <= i < s.len() ==> !in_day(#[trigger] s[i], d),
    ensures
        within_day(s, d) == Seq::<TradeView>::empty(),
    decreases s.len(),
{
    if s.len() > 0 {
        let s0 = s.drop_last();
        assert forall|i: int| 0 <= i < s0.len() implies !in_day(#[trigger] s0[i], d) by {
            assert(s0[i] == s[i]);
        }
        lemma_within_day_none(s0, d);
        assert(!in_day(s[s.len() - 1], d));
    }
}

} // verus!
