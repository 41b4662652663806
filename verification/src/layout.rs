//! Where built and consolidated candle files are kept:
//! `{data_dir}/candles/{market}/{coin}/{interval}/{date}.csv` for candles
//! built from fills, and `{data_dir}/consolidated/{market}/{coin}/{interval}.csv`
//! for consolidated ones.

use vstd::prelude::*;
use crate::Market;
use crate::cache::{join, join_path};

verus! {

/// The directory name of a market.
pub open spec fn market_name(market: Market) -> Seq<char> {
    match market {
        Market::Perp => "perp"@,
        Market::Spot => "spot"@,
    }
}

/// The directory name of a market: `perp` or `spot`.
pub fn market_dir(market: Market) -> (r: &'static str)
    ensures
        r@ == market_name(market),
{
    match market {
        Market::Perp => "perp",
        Market::Spot => "spot",
    }
}

/// The directory of a coin's candles built at an interval.
pub open spec fn candles_dir_spec(data_dir: Seq<char>, market: Market, coin: Seq<char>, interval: Seq<char>) -> Seq<char> {
    join_path(join_path(join_path(join_path(data_dir, "candles"@), market_name(market)), coin), interval)
}

/// `{name}.csv`.
pub open spec fn csv_file(name: Seq<char>) -> Seq<char> {
    name + ".csv"@
}

/// The directory of a coin's candles built at an interval:
/// `{data_dir}/candles/{market}/{coin}/{interval}`.
pub fn candles_dir(data_dir: &str, market: Market, coin: &str, interval: &str) -> (r: String)
    ensures
        r@ == candles_dir_spec(data_dir@, market, coin@, interval@),
{
    let p = join(String::from_str(data_dir), "candles");
    proof {
        reveal_strlit("candles");
    }
    let p = join(p, market_dir(market));
    let p = join(p, coin);
    join(p, interval)
}

/// The file `{name}.csv` in `dir`.
pub fn csv_path(dir: &str, name: &str) -> (r: String)
    ensures
        r@ == join_path(dir@, csv_file(name@)),
{
    let mut file = String::from_str(name);
    file.append(".csv");
    join(String::from_str(dir), file.as_str())
}

/// The file of a coin's consolidated candles at an interval:
/// `{data_dir}/consolidated/{market}/{coin}/{interval}.csv`.
pub fn consolidated_path(data_dir: &str, market: Market, coin: &str, interval: &str) -> (r: String)
    ensures
        r@ == join_path(join_path(join_path(join_path(data_dir@, "consolidated"@), market_name(market)), coin@),
            csv_file(interval@)),
{
    let p = join(String::from_str(data_dir), "consolidated");
    proof {
        reveal_strlit("consolidated");
    }
    let p = join(p, market_dir(market));
    let p = join(p, coin);
    csv_path(p.as_str(), interval)
}

} // verus!
