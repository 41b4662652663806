//! Build OHLCV candle data from Hyperliquid's historical S3 fills.
//!
//! Hyperliquid publishes trade fills to `s3://hl-mainnet-node-data` in three
//! formats across different date ranges. This library handles all three and
//! selects the correct source based on date.

pub mod byte_set;
pub mod cache;
pub mod candle;
pub mod csv;
pub mod day;
pub mod decimal;
pub mod layout;
pub mod parser;
pub mod plan;
pub mod select;
pub mod sort;
pub mod spot;
pub mod text;

use vstd::prelude::*;
use crate::text::{chars_eq, chars_lt, lex_lt, to_chars, lemma_lex_lt_irreflexive, lemma_lex_lt_transitive};

verus! {

/// The requester-pays bucket holding the hourly fills.
pub const S3_BUCKET: &'static str = "hl-mainnet-node-data";

/// Perp or spot market. Perp coins use plain names (BTC, ETH).
/// Spot coins use `@{index}` identifiers resolved via the Hyperliquid API.
#[derive(Debug, Clone, Copy, PartialEq, Eq, Structural)]
pub enum Market {
    Perp,
    Spot,
}

impl Market {
    /// The coin identifier of BTC in this market: `BTC` on perp,
    /// `@142` (the UBTC/USDC pair) on spot.
    pub open spec fn spec_coin(self) -> Seq<char> {
        match self {
            Market::Perp => "BTC"@,
            Market::Spot => "@142"@,
        }
    }

    /// The coin identifier of BTC in this market.
    pub fn coin(&self) -> (r: &'static str)
        ensures
            r@ == self.spec_coin(),
    {
        match self {
            Market::Perp => "BTC",
            Market::Spot => "@142",
        }
    }
}

/// Which S3 prefix and data format to use for a given date.
///
/// | Source          | S3 prefix                        | Date range              |
/// |-----------------|----------------------------------|-------------------------|
/// | `NodeTrades`    | `node_trades/hourly/`            | 2025-03-22 → 2025-06-21 |
/// | `NodeFills`     | `node_fills/hourly/`             | 2025-05-25 → 2025-07-27 |
/// | `FillsByBlock`  | `node_fills_by_block/hourly/`    | 2025-07-27 → present    |
///
/// On the transition dates 2025-05-25 and 2025-07-27 both neighbouring
/// sources are tried per hour.
#[derive(Debug, Clone, Copy, PartialEq, Eq, Structural)]
pub enum DataSource {
    /// Each NDJSON line is a block with an `events` array of `[address, fill]` pairs.
    FillsByBlock,
    /// Each NDJSON line is a single `[address, fill]` pair.
    NodeFills,
    /// Each NDJSON line is a trade object with an ISO timestamp.
    NodeTrades,
}

/// The S3 prefix of each source.
pub open spec fn prefix_of(source: DataSource) -> Seq<char> {
    match source {
        DataSource::FillsByBlock => "node_fills_by_block/hourly"@,
        DataSource::NodeFills => "node_fills/hourly"@,
        DataSource::NodeTrades => "node_trades/hourly"@,
    }
}

/// The sources to try, in order, for a `YYYYMMDD` date.
pub open spec fn sources_for_date(date: Seq<char>) -> Seq<DataSource> {
    if date == "20250525"@ {
        seq![DataSource::NodeTrades, DataSource::NodeFills]
    } else if date == "20250727"@ {
        seq![DataSource::NodeFills, DataSource::FillsByBlock]
    } else if lex_lt(date, "20250525"@) {
        seq![DataSource::NodeTrades]
    } else if lex_lt(date, "20250727"@) {
        seq![DataSource::NodeFills]
    } else {
        seq![DataSource::FillsByBlock]
    }
}

/// The age of a source's format: `NodeTrades` is the oldest,
/// `FillsByBlock` the current one.
pub open spec fn source_rank(source: DataSource) -> int {
    match source {
        DataSource::NodeTrades => 0,
        DataSource::NodeFills => 1,
        DataSource::FillsByBlock => 2,
    }
}

/// Sources move forward with the date: every source tried for a date is
/// no newer than any source tried for a later date, so no date falls back
/// to an older format than one before it.
pub proof fn law_sources_advance_with_date(a: Seq<char>, b: Seq<char>)
    requires
        lex_lt(a, b),
    ensures
        forall|i: int, j: int|
            0 <= i < sources_for_date(a).len() && 0 <= j < sources_for_date(b).len()
                ==> source_rank(#[trigger] sources_for_date(a)[i]) <= source_rank(#[trigger] sources_for_date(b)[j]),
{
    let x = "20250525"@;
    let y = "20250727"@;
    reveal_strlit("20250525");
    reveal_strlit("20250727");
    assert(lex_lt(x, y)) by {
        reveal_with_fuel(lex_lt, 7);
    }
    lemma_lex_lt_irreflexive(x);
    lemma_lex_lt_irreflexive(y);
    lemma_lex_lt_irreflexive(a);
    if lex_lt(b, x) {
        lemma_lex_lt_transitive(a, b, x);
    }
    if lex_lt(b, y) {
        lemma_lex_lt_transitive(a, b, y);
    }
    if b == x || lex_lt(a, x) {
        lemma_lex_lt_transitive(a, x, y);
    }
    if lex_lt(y, x) {
        lemma_lex_lt_transitive(y, x, y);
    }
    let sa = sources_for_date(a);
    let sb = sources_for_date(b);
    let newest_a: int = if a == x { 1 } else if a == y { 2 } else if lex_lt(a, x) { 0 }
        else if lex_lt(a, y) { 1 } else { 2 };
    let oldest_b: int = if b == x { 0 } else if b == y { 1 } else if lex_lt(b, x) { 0 }
        else if lex_lt(b, y) { 1 } else { 2 };
    assert(newest_a <= oldest_b);
    assert forall|i: int| 0 <= i < sa.len() implies source_rank(#[trigger] sa[i]) <= newest_a by {}
    assert forall|j: int| 0 <= j < sb.len() implies oldest_b <= source_rank(#[trigger] sb[j]) by {}
}

impl DataSource {
    /// The S3 prefix under which this source's hourly files live.
    pub fn s3_prefix(&self) -> (r: &'static str)
        ensures
            r@ == prefix_of(*self),
    {
        match self {
            DataSource::FillsByBlock => "node_fills_by_block/hourly",
            DataSource::NodeFills => "node_fills/hourly",
            DataSource::NodeTrades => "node_trades/hourly",
        }
    }

    /// Returns the data source(s) to try for a given date (`YYYYMMDD`).
    ///
    /// On transition dates where one source ends and another begins mid-day,
    /// returns both sources; the caller tries each source per hour and uses
    /// the first one that succeeds.
    pub fn for_date(date: &str) -> (r: Vec<DataSource>)
        ensures
            r@ == sources_for_date(date@),
    {
        let d = to_chars(date);
        let first = to_chars("20250525");
        let second = to_chars("20250727");
        if chars_eq(&d, &first) {
            vec![DataSource::NodeTrades, DataSource::NodeFills]
        } else if chars_eq(&d, &second) {
            vec![DataSource::NodeFills, DataSource::FillsByBlock]
        } else if chars_lt(&d, &first) {
            vec![DataSource::NodeTrades]
        } else if chars_lt(&d, &second) {
            vec![DataSource::NodeFills]
        } else {
            vec![DataSource::FillsByBlock]
        }
    }
}

} // verus!
