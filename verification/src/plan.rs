//! How an hour's file is obtained when a date has several sources: each
//! source in turn is looked up in the local cache and, when missing,
//! downloaded; the first success ends the search.
//!
//! The caller performs each step (a cache lookup or a download) and hands
//! back whether it succeeded; `next_step` decides what comes next.

use vstd::prelude::*;

verus! {

/// How an hour's file was obtained.
#[derive(Debug, Clone, Copy, PartialEq, Eq, Structural)]
pub enum HourOutcome {
    /// A source's file was already in the cache.
    Cached,
    /// A source's file was downloaded.
    Downloaded,
    /// No source had the file.
    Missing,
}

/// What to do next for an hour.
#[derive(Debug, Clone, Copy, PartialEq, Eq, Structural)]
pub enum HourStep {
    /// Look for the file of source `i` in the cache.
    LookInCache(usize),
    /// Download the file of source `i`.
    Download(usize),
    /// The search is over.
    Done(HourOutcome),
}

/// A step that refers to one of `n` sources, or the end.
pub open spec fn step_in_range(n: nat, step: HourStep) -> bool {
    match step {
        HourStep::LookInCache(i) => i < n,
        HourStep::Download(i) => i < n,
        HourStep::Done(_) => true,
    }
}

/// The first step for an hour with `n` sources: the first source's cache
/// entry, or the end when there is no source.
pub open spec fn first_step_spec(n: nat) -> HourStep {
    if n == 0 { HourStep::Done(HourOutcome::Missing) } else { HourStep::LookInCache(0) }
}

/// The step after `step` succeeded (`ok`) or failed: a cache hit or a
/// download ends the search; a cache miss leads to the download of the
/// same source; a failed download moves on to the next source's cache
/// entry, or ends the search when it was the last source.
pub open spec fn next_step_spec(n: nat, step: HourStep, ok: bool) -> HourStep {
    match step {
        HourStep::LookInCache(i) => if ok { HourStep::Done(HourOutcome::Cached) } else { HourStep::Download(i) },
        HourStep::Download(i) => if ok {
            HourStep::Done(HourOutcome::Downloaded)
        } else if i + 1 < n {
            HourStep::LookInCache((i + 1) as usize)
        } else {
            HourStep::Done(HourOutcome::Missing)
        },
        HourStep::Done(o) => HourStep::Done(o),
    }
}

/// The first step for an hour with `n` sources.
pub fn first_step(n: usize) -> (r: HourStep)
    ensures
        r == first_step_spec(n as nat),
{
    if n == 0 { HourStep::Done(HourOutcome::Missing) } else { HourStep::LookInCache(0) }
}

/// The step after `step`, given whether it succeeded.
pub fn next_step(n: usize, step: HourStep, ok: bool) -> (r: HourStep)
    requires
        step_in_range(n as nat, step),
    ensures
        r == next_step_spec(n as nat, step, ok),
        step_in_range(n as nat, r),
{
    match step {
        HourStep::LookInCache(i) => if ok { HourStep::Done(HourOutcome::Cached) } else { HourStep::Download(i) },
        HourStep::Download(i) => if ok {
            HourStep::Done(HourOutcome::Downloaded)
        } else if i + 1 < n {
            HourStep::LookInCache(i + 1)
        } else {
            HourStep::Done(HourOutcome::Missing)
        },
        HourStep::Done(o) => HourStep::Done(o),
    }
}

/// What the search finds from source `i` on, given which sources are in
/// the cache and which downloads succeed.
pub open spec fn outcome_from(cached: Seq<bool>, fetched: Seq<bool>, i: int) -> HourOutcome
    decreases cached.len() - i,
{
    if i < 0 || i >= cached.len() {
        HourOutcome::Missing
    } else if cached[i] {
        HourOutcome::Cached
    } else if i < fetched.len() && fetched[i] {
        HourOutcome::Downloaded
    } else {
        outcome_from(cached, fetched, i + 1)
    }
}

/// The steps from `step` on when lookups and downloads answer as
/// `cached` and `fetched` say, until the search is over (for as many
/// sources as a `usize` can count).
pub open spec fn run(cached: Seq<bool>, fetched: Seq<bool>, step: HourStep) -> HourOutcome
    decreases (match step {
        HourStep::LookInCache(i) => 2 * (cached.len() - i) + 1,
        HourStep::Download(i) => 2 * (cached.len() - i),
        HourStep::Done(_) => 0,
    }),
{
    let n = cached.len();
    if n > usize::MAX {
        HourOutcome::Missing
    } else {
        match step {
            HourStep::LookInCache(i) => if i < n {
                run(cached, fetched, next_step_spec(n, step, cached[i as int]))
            } else {
                HourOutcome::Missing
            },
            HourStep::Download(i) => if i < n {
                run(cached, fetched, next_step_spec(n, step, i < fetched.len() && fetched[i as int]))
            } else {
                HourOutcome::Missing
            },
            HourStep::Done(o) => o,
        }
    }
}

proof fn lemma_run_from(cached: Seq<bool>, fetched: Seq<bool>, i: int)
    requires
        0 <= i < cached.len(),
        cached.len() <= usize::MAX,
    ensures
        run(cached, fetched, HourStep::LookInCache(i as usize)) == outcome_from(cached, fetched, i),
    decreases cached.len() - i,
{
    let n = cached.len();
    let look = HourStep::LookInCache(i as usize);
    if cached[i] {
        assert(run(cached, fetched, look) == run(cached, fetched, HourStep::Done(HourOutcome::Cached)));
    } else {
        let down = HourStep::Download(i as usize);
        assert(run(cached, fetched, look) == run(cached, fetched, down));
        if i < fetched.len() && fetched[i] {
            assert(run(cached, fetched, down) == run(cached, fetched, HourStep::Done(HourOutcome::Downloaded)));
        } else if i + 1 < n {
            lemma_run_from(cached, fetched, i + 1);
            assert(run(cached, fetched, down) == run(cached, fetched, HourStep::LookInCache((i + 1) as usize)));
        } else {
            assert(run(cached, fetched, down) == run(cached, fetched, HourStep::Done(HourOutcome::Missing)));
        }
    }
}

/// Following the steps finds the first source that is in the cache or
/// downloads, in source order, and it is `Missing` only when no source
/// is in the cache and no download succeeds.
pub proof fn law_steps_find_first_source(cached: Seq<bool>, fetched: Seq<bool>)
    requires
        cached.len() <= usize::MAX,
    ensures
        run(cached, fetched, first_step_spec(cached.len())) == outcome_from(cached, fetched, 0),
        outcome_from(cached, fetched, 0) == HourOutcome::Missing
            <==> forall|i: int| 0 <= i < cached.len() ==> !cached[i] && !(i < fetched.len() && fetched[i]),
{
    if cached.len() > 0 {
        lemma_run_from(cached, fetched, 0);
    }
    lemma_missing(cached, fetched, 0);
}

proof fn lemma_missing(cached: Seq<bool>, fetched: Seq<bool>, i: int)
    requires
        0 <= i,
    ensures
        outcome_from(cached, fetched, i) == HourOutcome::Missing
            <==> forall|j: int| i <= j < cached.len() ==> !cached[j] && !(j < fetched.len() && fetched[j]),
    decreases cached.len() - i,
{
    if i < cached.len() {
        lemma_missing(cached, fetched, i + 1);
    }
}

} // verus!
