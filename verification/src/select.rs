//! The rules of consolidation requests: which intervals may be
//! consolidated into which, and which source dates are read.

use vstd::prelude::*;

verus! {

/// Why a consolidation request is refused.
#[derive(Debug, Clone, Copy, PartialEq, Eq, Structural)]
pub enum RequestError {
    /// The target interval is smaller than the source interval.
    TargetSmaller,
    /// The target interval is not a multiple of the source interval.
    NotMultiple,
    /// The end date is before the start date.
    EndBeforeStart,
}

/// Candles of `from_ms` can be consolidated into candles of `to_ms` when
/// the target is at least the source and a multiple of it.
pub fn check_intervals(from_ms: u64, to_ms: u64) -> (r: Result<(), RequestError>)
    requires
        from_ms > 0,
    ensures
        to_ms < from_ms ==> r == Err::<(), RequestError>(RequestError::TargetSmaller),
        to_ms >= from_ms && to_ms % from_ms != 0 ==> r == Err::<(), RequestError>(RequestError::NotMultiple),
        to_ms >= from_ms && to_ms % from_ms == 0 ==> r == Ok::<(), RequestError>(()),
{
    if to_ms < from_ms {
        Err(RequestError::TargetSmaller)
    } else if to_ms % from_ms != 0 {
        Err(RequestError::NotMultiple)
    } else {
        Ok(())
    }
}

/// The last day of a requested range (day numbers): the end when given,
/// the start otherwise; an error when the end is before the start.
pub fn check_date_range(start: i32, end: Option<i32>) -> (r: Result<i32, RequestError>)
    ensures
        match end {
            Some(e) => if e < start {
                r == Err::<i32, RequestError>(RequestError::EndBeforeStart)
            } else {
                r == Ok::<i32, RequestError>(e)
            },
            None => r == Ok::<i32, RequestError>(start),
        },
{
    match end {
        Some(e) => if e < start {
            Err(RequestError::EndBeforeStart)
        } else {
            Ok(e)
        },
        None => Ok(start),
    }
}

/// The dates of `dates` within `[lo, hi]`, in order.
pub open spec fn dates_between(dates: Seq<i32>, lo: int, hi: int) -> Seq<i32>
    decreases dates.len(),
{
    if dates.len() == 0 {
        seq![]
    } else if lo <= dates.last() <= hi {
        dates_between(dates.drop_last(), lo, hi).push(dates.last())
    } else {
        dates_between(dates.drop_last(), lo, hi)
    }
}

/// The dates a consolidation reads: with a start, those from the start to
/// the end (the start itself when no end is given); without a start,
/// every date up to the end (every date when no end is given).
pub open spec fn selected_dates(dates: Seq<i32>, start: Option<i32>, end: Option<i32>) -> Result<Seq<i32>, RequestError> {
    match start {
        Some(s) => {
            let e = match end { Some(e) => e, None => s };
            if e < s {
                Err(RequestError::EndBeforeStart)
            } else {
                Ok(dates_between(dates, s as int, e as int))
            }
        },
        None => match end {
            Some(e) => Ok(dates_between(dates, i32::MIN as int, e as int)),
            None => Ok(dates_between(dates, i32::MIN as int, i32::MAX as int)),
        },
    }
}

fn between(dates: &[i32], lo: i32, hi: i32) -> (r: Vec<i32>)
    ensures
        r@ == dates_between(dates@, lo as int, hi as int),
{
    let mut r: Vec<i32> = Vec::new();
    for i in 0..dates.len()
        invariant
            r@ == dates_between(dates@.take(i as int), lo as int, hi as int),
    {
        assert(dates@.take(i + 1).drop_last() =~= dates@.take(i as int));
        if lo <= dates[i] && dates[i] <= hi {
            r.push(dates[i]);
        }
    }
    assert(dates@.take(dates@.len() as int) =~= dates@);
    r
}

/// Selects the source dates of a consolidation (dates as day numbers).
pub fn select_dates(dates: &[i32], start: Option<i32>, end: Option<i32>) -> (r: Result<Vec<i32>, RequestError>)
    ensures
        match selected_dates(dates@, start, end) {
            Ok(ds) => r matches Ok(v) && v@ == ds,
            Err(e) => r == Err::<Vec<i32>, RequestError>(e),
        },
{
    match start {
        Some(s) => {
            let e = match end {
                Some(e) => e,
                None => s,
            };
            if e < s {
                Err(RequestError::EndBeforeStart)
            } else {
                Ok(between(dates, s, e))
            }
        },
        None => match end {
            Some(e) => Ok(between(dates, i32::MIN, e)),
            None => Ok(between(dates, i32::MIN, i32::MAX)),
        },
    }
}

} // verus!
