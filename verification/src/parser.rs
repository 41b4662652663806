//! Trades extracted from Hyperliquid's hourly fills files.

use vstd::prelude::*;
use vstd::utf8::valid_utf8;
use vstd::string::StringSliceAdditionalSpecFns;
use std::io::Read;
use crate::decimal::Decimal;
use crate::DataSource;
use crate::decimal::decimal_from_str;
use crate::text::str_eq;
use std::collections::HashSet;
use crate::byte_set::ByteSet;
use crate::sort::{sort_by_time, stably_sorted};
use vstd::utf8::encode_utf8_decode_utf8;

verus! {

/// A normalized trade extracted from any of the three formats.
/// Prices and sizes are exact decimals.
#[derive(Debug, Clone, Copy)]
pub struct Trade {
    pub price: Decimal,
    pub size: Decimal,
    pub time_ms: u64,
    pub is_buy: bool,
}

/// What a trade holds, with decimals taken as `(mantissa, scale)`.
pub struct TradeView {
    pub price: (int, nat),
    pub size: (int, nat),
    pub time_ms: nat,
    pub is_buy: bool,
}

impl View for Trade {
    type V = TradeView;

    open spec fn view(&self) -> TradeView {
        TradeView { price: self.price@, size: self.size@, time_ms: self.time_ms as nat, is_buy: self.is_buy }
    }
}

/// The views of a sequence of trades.
pub open spec fn trades_view(ts: Seq<Trade>) -> Seq<TradeView> {
    ts.map_values(|t: Trade| t@)
}

/// Why an hourly file could not be turned into trades.
#[derive(Debug, Clone, Copy, PartialEq, Eq, Structural)]
pub enum ParseError {
    /// The LZ4 frame could not be decoded.
    Decompress,
    /// The decoded text is not UTF-8.
    Utf8,
    /// A line that may hold the coin is not valid JSON of the source's schema.
    Json,
    /// A price is not a decimal number.
    Price,
    /// A size is not a decimal number.
    Size,
    /// A timestamp is not an ISO 8601 date-time.
    Timestamp,
}

/// What `lz4::Decoder` reads to the end from a byte slice: the decoded
/// bytes, or `None` where it reports an error.
pub uninterp spec fn lz4_frame_decode(data: Seq<u8>) -> Option<Seq<u8>>;

/// Decodes an LZ4 frame with `lz4::Decoder::new` and `read_to_end`.
/// Claimed: the result is what the name `lz4_frame_decode` gives for the
/// input bytes.
#[verifier::external_body]
fn lz4_decode(data: &[u8]) -> (r: Option<Vec<u8>>)
    ensures
        r matches Some(v) ==> lz4_frame_decode(data@) == Some(v@),
        r is None ==> lz4_frame_decode(data@) is None,
{
    let mut decoder = lz4::Decoder::new(data).ok()?;
    let mut buf = Vec::new();
    decoder.read_to_end(&mut buf).ok()?;
    Some(buf)
}

/// Checks UTF-8 with `std::str::from_utf8`. Claimed, as std documents
/// it: the bytes are accepted exactly when they are valid UTF-8.
#[verifier::external_body]
fn is_utf8(bytes: &[u8]) -> (r: bool)
    ensures
        r == valid_utf8(bytes@),
{
    std::str::from_utf8(bytes).is_ok()
}

/// The text of a decoded frame: an error if decoding failed or the bytes
/// are not UTF-8, the bytes otherwise.
pub fn text_from_decoded(decoded: Option<Vec<u8>>) -> (r: Result<Vec<u8>, ParseError>)
    ensures
        match decoded {
            None => r == Err::<Vec<u8>, ParseError>(ParseError::Decompress),
            Some(b) => if valid_utf8(b@) {
                r matches Ok(t) && t@ == b@
            } else {
                r == Err::<Vec<u8>, ParseError>(ParseError::Utf8)
            },
        },
{
    match decoded {
        None => Err(ParseError::Decompress),
        Some(b) => if is_utf8(&b) {
            Ok(b)
        } else {
            Err(ParseError::Utf8)
        },
    }
}

/// The UTF-8 text of an LZ4-compressed hourly file.
pub fn decompress(lz4_data: &[u8]) -> (r: Result<Vec<u8>, ParseError>)
    ensures
        match lz4_frame_decode(lz4_data@) {
            None => r == Err::<Vec<u8>, ParseError>(ParseError::Decompress),
            Some(b) => if valid_utf8(b) {
                r matches Ok(t) && t@ == b
            } else {
                r == Err::<Vec<u8>, ParseError>(ParseError::Utf8)
            },
        },
{
    text_from_decoded(lz4_decode(lz4_data))
}

/// Index of the first `\n` at or after `i`, or the length of `t`.
pub open spec fn line_end(t: Seq<u8>, i: int) -> int
    decreases t.len() - i,
{
    if i >= t.len() {
        t.len() as int
    } else if t[i] == 10 {
        i
    } else {
        line_end(t, i + 1)
    }
}

/// End of the line starting at `i` once its terminator is removed, as
/// `str::lines` does: a `\n` ends a line, and a `\r` just before it is
/// dropped too; a last line without `\n` is kept as it is.
pub open spec fn line_stop(t: Seq<u8>, i: int) -> int {
    let e = line_end(t, i);
    if e < t.len() && e > i && t[e - 1] == 13 { e - 1 } else { e }
}

/// `pat` occurs in `t[lo..hi]`.
pub open spec fn occurs_in(t: Seq<u8>, lo: int, hi: int, pat: Seq<u8>) -> bool {
    exists|q: int| lo <= q && q + pat.len() <= hi && #[trigger] t.subrange(q, q + pat.len()) == pat
}

/// The `[start, stop)` ranges of the non-empty lines of `t` from position
/// `i` on that contain `pat` (every non-empty line when `pat` is `None`).
pub open spec fn candidate_ranges(t: Seq<u8>, i: int, pat: Option<Seq<u8>>) -> Seq<(int, int)>
    decreases t.len() - i,
{
    if i >= t.len() || i < 0 {
        seq![]
    } else {
        proof {
            lemma_line_end_bounds(t, i);
        }
        let stop = line_stop(t, i);
        let e = line_end(t, i);
        let rest = if e < t.len() { candidate_ranges(t, e + 1, pat) } else { seq![] };
        if stop > i && (pat matches Some(p) ==> occurs_in(t, i, stop, p)) {
            seq![(i, stop)] + rest
        } else {
            rest
        }
    }
}

pub proof fn lemma_line_end_bounds(t: Seq<u8>, i: int)
    requires
        0 <= i,
    ensures
        i <= line_end(t, i) || i > t.len(),
        line_end(t, i) <= t.len(),
        line_end(t, i) < t.len() ==> t[line_end(t, i)] == 10,
    decreases t.len() - i,
{
    if i < t.len() && t[i] != 10 {
        lemma_line_end_bounds(t, i + 1);
    }
}

/// The test of the pre-filter on a line range: it contains `pat`.
pub open spec fn contains_pattern(t: Seq<u8>, pat: Seq<u8>) -> spec_fn((int, int)) -> bool {
    |r: (int, int)| occurs_in(t, r.0, r.1, pat)
}

proof fn lemma_prefilter_from(t: Seq<u8>, pat: Seq<u8>, i: int)
    requires
        0 <= i,
    ensures
        candidate_ranges(t, i, Some(pat)) == candidate_ranges(t, i, None).filter(contains_pattern(t, pat)),
    decreases t.len() - i,
{
    let f = contains_pattern(t, pat);
    if i >= t.len() {
        reveal(Seq::filter);
        assert(candidate_ranges(t, i, None).filter(f) =~= Seq::<(int, int)>::empty());
    } else {
        lemma_line_end_bounds(t, i);
        let e = line_end(t, i);
        let stop = line_stop(t, i);
        let rest_u = if e < t.len() { candidate_ranges(t, e + 1, None) } else { seq![] };
        let rest_f = if e < t.len() { candidate_ranges(t, e + 1, Some(pat)) } else { seq![] };
        if e < t.len() {
            lemma_prefilter_from(t, pat, e + 1);
        } else {
            reveal(Seq::filter);
            assert(rest_u.filter(f) =~= Seq::<(int, int)>::empty());
        }
        assert(rest_f == rest_u.filter(f));
        if stop > i {
            let one = seq![(i, stop)];
            Seq::filter_distributes_over_add(one, rest_u, f);
            reveal_with_fuel(Seq::filter, 2);
            assert(one.drop_last() =~= Seq::<(int, int)>::empty());
            if occurs_in(t, i, stop, pat) {
                assert(one.filter(f) =~= one);
            } else {
                assert(one.filter(f) =~= Seq::<(int, int)>::empty());
                assert(Seq::<(int, int)>::empty() + rest_u.filter(f) =~= rest_u.filter(f));
            }
        }
    }
}

/// The quoted-coin pre-filter only skips lines that do not contain the
/// coin in double quotes: the lines kept with the filter are exactly the
/// non-empty lines kept without it that contain `"coin"`, in the same
/// order. So every line that names the coin as a JSON string written
/// without escapes is parsed.
pub proof fn law_prefilter_keeps_lines_naming_coin(t: Seq<u8>, coin: &str)
    ensures
        candidate_ranges(t, 0, Some(coin_pattern(coin)))
            == candidate_ranges(t, 0, None).filter(contains_pattern(t, coin_pattern(coin))),
{
    lemma_prefilter_from(t, coin_pattern(coin), 0);
}

/// Whether `pat` occurs in `t[lo..hi]`.
fn occurs(t: &[u8], lo: usize, hi: usize, pat: &Vec<u8>) -> (r: bool)
    requires
        lo <= hi <= t@.len(),
    ensures
        r == occurs_in(t@, lo as int, hi as int, pat@),
{
    let m = pat.len();
    if m > hi - lo {
        return false;
    }
    let mut q = lo;
    while q <= hi - m
        invariant
            lo <= q,
            m == pat@.len(),
            m <= hi - lo,
            hi <= t@.len(),
            forall|p: int| lo <= p < q ==> #[trigger] t@.subrange(p, p + m) != pat@,
        decreases hi - q,
    {
        let mut k: usize = 0;
        while k < m && t[q + k] == pat[k]
            invariant
                k <= m,
                q + m <= hi,
                hi <= t@.len(),
                m == pat@.len(),
                forall|x: int| 0 <= x < k ==> t@[q + x] == pat@[x],
            decreases m - k,
        {
            k = k + 1;
        }
        if k == m {
            assert(t@.subrange(q as int, q + m) =~= pat@);
            return true;
        }
        assert(t@.subrange(q as int, q + m)[k as int] != pat@[k as int]);
        q = q + 1;
    }
    proof {
        assert forall|p: int| lo <= p && p + m <= hi implies #[trigger] t@.subrange(p, p + m) != pat@ by {
            assert(p < q);
        }
    }
    false
}

/// The bytes `"coin"`, quotes included, as they appear in a JSON line
/// that names the coin.
pub open spec fn coin_pattern(coin: &str) -> Seq<u8> {
    seq![34u8] + coin.spec_bytes() + seq![34u8]
}

/// The `[start, stop)` byte ranges of the lines of `text` that are parsed
/// for `coin`: the non-empty lines, and for the fill formats only those
/// that contain `"coin"` (a quick filter; the others cannot name the coin).
pub fn candidate_lines(text: &[u8], coin: &str, source: DataSource) -> (r: Vec<(usize, usize)>)
    ensures
        r@.len() == candidate_ranges(text@, 0, pattern_for(coin, source)).len(),
        forall|i: int| 0 <= i < r@.len() ==> r@[i].0 == candidate_ranges(text@, 0, pattern_for(coin, source))[i].0
            && r@[i].1 == candidate_ranges(text@, 0, pattern_for(coin, source))[i].1,
{
    let ghost pat = pattern_for(coin, source);
    let mut pattern: Vec<u8> = Vec::new();
    pattern.push(34u8);
    let cb = coin.as_bytes();
    for x in 0..cb.len()
        invariant
            pattern@ == seq![34u8] + cb@.take(x as int),
    {
        pattern.push(cb[x]);
        assert(pattern@ =~= seq![34u8] + cb@.take(x + 1));
    }
    pattern.push(34u8);
    assert(cb@.take(cb@.len() as int) =~= cb@);
    assert(pattern@ =~= coin_pattern(coin));
    let filtered = match source {
        DataSource::NodeTrades => false,
        _ => true,
    };
    let n = text.len();
    let mut r: Vec<(usize, usize)> = Vec::new();
    let mut pos: usize = 0;
    while pos < n
        invariant
            n == text@.len(),
            pos <= n,
            filtered <==> pat is Some,
            pat matches Some(p) ==> p == pattern@,
            r@.len() + candidate_ranges(text@, pos as int, pat).len() == candidate_ranges(text@, 0, pat).len(),
            forall|i: int| 0 <= i < r@.len() ==> r@[i].0 == candidate_ranges(text@, 0, pat)[i].0
                && r@[i].1 == candidate_ranges(text@, 0, pat)[i].1,
            forall|i: int| 0 <= i < candidate_ranges(text@, pos as int, pat).len()
                ==> candidate_ranges(text@, pos as int, pat)[i] == candidate_ranges(text@, 0, pat)[r@.len() + i],
        decreases n - pos,
    {
        let mut e = pos;
        while e < n && text[e] != 10
            invariant
                pos <= e <= n,
                n == text@.len(),
                line_end(text@, pos as int) == line_end(text@, e as int),
            decreases n - e,
        {
            e = e + 1;
        }
        assert(e == line_end(text@, pos as int));
        let stop = if e < n && e > pos && text[e - 1] == 13 { e - 1 } else { e };
        let keep = stop > pos && (!filtered || occurs(text, pos, stop, &pattern));
        let ghost rest = if e < n { candidate_ranges(text@, e + 1, pat) } else { seq![] };
        let ghost here = candidate_ranges(text@, pos as int, pat);
        if keep {
            assert(here == seq![(pos as int, stop as int)] + rest);
            assert(here[0] == candidate_ranges(text@, 0, pat)[r@.len() as int]);
            r.push((pos, stop));
            assert forall|i: int| 0 <= i < rest.len()
                implies rest[i] == candidate_ranges(text@, 0, pat)[r@.len() + i] by {
                assert(rest[i] == here[i + 1]);
            }
        } else {
            assert(here == rest);
        }
        proof {
            if e == n {
                assert(candidate_ranges(text@, n as int, pat) == Seq::<(int, int)>::empty());
            }
        }
        pos = if e < n { e + 1 } else { n };
    }
    r
}

/// The pattern a line must contain to be parsed for `coin` from `source`.
pub open spec fn pattern_for(coin: &str, source: DataSource) -> Option<Seq<u8>> {
    match source {
        DataSource::NodeTrades => None,
        _ => Some(coin_pattern(coin)),
    }
}

/// The string a line must contain to possibly name `coin`: the coin in
/// double quotes.
pub fn coin_filter(coin: &str) -> (r: String)
    ensures
        r@ == seq!['"'] + coin@ + seq!['"'],
{
    let mut r = String::from_str("\"");
    r.append(coin);
    r.append("\"");
    proof {
        reveal_strlit("\"");
    }
    r
}

/// A fill of the FillsByBlock and NodeFills formats, with the fields the
/// parser reads.
#[derive(Debug)]
pub struct Fill {
    pub coin: String,
    pub px: String,
    pub sz: String,
    pub side: String,
    /// Epoch milliseconds.
    pub time: u64,
    /// Trade id, shared by the two counterparties' fills of one trade.
    pub tid: u64,
}

/// The fill at `i` is one to keep: it is for `coin`, has a trade id, and
/// no earlier fill for `coin` has the same trade id.
pub open spec fn first_fill(fills: Seq<Fill>, i: int, coin: Seq<char>) -> bool {
    &&& fills[i].coin@ == coin
    &&& fills[i].tid != 0
    &&& forall|j: int| 0 <= j < i ==> !(#[trigger] fills[j].coin@ == coin && fills[j].tid == fills[i].tid)
}

/// The trade of a kept fill, given its parsed price and size: an error
/// for a price or size that does not parse, nothing for a zero size.
pub open spec fn fill_trade_spec(price: Option<(int, nat)>, size: Option<(int, nat)>, time: u64, side: Seq<char>)
    -> Result<Option<TradeView>, ParseError>
{
    match price {
        None => Err(ParseError::Price),
        Some(p) => match size {
            None => Err(ParseError::Size),
            Some(s) => if s.0 == 0 {
                Ok(None)
            } else {
                Ok(Some(TradeView { price: p, size: s, time_ms: time as nat, is_buy: side == seq!['B'] }))
            },
        },
    }
}

/// The trades of the first `n` fills, in fill order, or the first error.
pub open spec fn fills_spec(fills: Seq<Fill>, coin: Seq<char>, n: int) -> Result<Seq<TradeView>, ParseError>
    decreases n,
{
    if n <= 0 {
        Ok(seq![])
    } else {
        match fills_spec(fills, coin, n - 1) {
            Err(e) => Err(e),
            Ok(ts) => if !first_fill(fills, n - 1, coin) {
                Ok(ts)
            } else {
                let f = fills[n - 1];
                match fill_trade_spec(decimal_from_str(f.px@), decimal_from_str(f.sz@), f.time, f.side@) {
                    Err(e) => Err(e),
                    Ok(None) => Ok(ts),
                    Ok(Some(t)) => Ok(ts.push(t)),
                }
            },
        }
    }
}

/// The view of an optional decimal.
pub open spec fn opt_view(d: Option<Decimal>) -> Option<(int, nat)> {
    match d {
        Some(x) => Some(x@),
        None => None,
    }
}

/// The trade of a kept fill from its parsed price and size.
pub fn fill_trade(price: Option<Decimal>, size: Option<Decimal>, time: u64, side: &str)
    -> (r: Result<Option<Trade>, ParseError>)
    ensures
        match r {
            Ok(Some(t)) => fill_trade_spec(opt_view(price), opt_view(size), time, side@) == Ok::<Option<TradeView>, ParseError>(Some(t@)),
            Ok(None) => fill_trade_spec(opt_view(price), opt_view(size), time, side@) == Ok::<Option<TradeView>, ParseError>(None),
            Err(e) => fill_trade_spec(opt_view(price), opt_view(size), time, side@) == Err::<Option<TradeView>, ParseError>(e),
        },
{
    let p = match price {
        Some(p) => p,
        None => return Err(ParseError::Price),
    };
    let s = match size {
        Some(s) => s,
        None => return Err(ParseError::Size),
    };
    if s.is_zero() {
        return Ok(None);
    }
    let buy = str_eq(side, "B");
    proof {
        reveal_strlit("B");
        assert("B"@ =~= seq!['B']);
    }
    Ok(Some(Trade { price: p, size: s, time_ms: time, is_buy: buy }))
}

/// A fill to keep given the trade ids seen so far: for `coin`, with a
/// trade id, and an id not seen before.
pub open spec fn fill_is_new(seen: Set<u64>, coin: Seq<char>, fill: Fill) -> bool {
    fill.coin@ == coin && fill.tid != 0 && !seen.contains(fill.tid)
}

/// Trades extracted from fills as they are read, one fill at a time (see
/// `trades_from_fills`), so that a caller reading a file line by line
/// stops at the first error in file order.
pub struct FillTrades {
    coin: String,
    seen: HashSet<u64>,
    trades: Vec<Trade>,
    fills: Ghost<Seq<Fill>>,
}

impl FillTrades {
    /// The fills added so far.
    pub closed spec fn added(&self) -> Seq<Fill> {
        self.fills@
    }

    /// The coin whose trades are extracted.
    pub closed spec fn coin_name(&self) -> Seq<char> {
        self.coin@
    }

    /// The trade ids recorded so far.
    pub closed spec fn seen_tids(&self) -> Set<u64> {
        self.seen@
    }

    /// The trades extracted so far.
    pub closed spec fn kept(&self) -> Seq<TradeView> {
        trades_view(self.trades@)
    }

    /// The trades so far are those of the fills added so far, and the
    /// trade ids seen are those of the added fills for the coin.
    pub closed spec fn well_formed(&self) -> bool {
        &&& fills_spec(self.fills@, self.coin@, self.fills@.len() as int)
            == Ok::<Seq<TradeView>, ParseError>(trades_view(self.trades@))
        &&& forall|tid: u64| self.seen@.contains(tid) <==> exists|j: int| 0 <= j < self.fills@.len()
            && #[trigger] self.fills@[j].tid == tid && self.fills@[j].coin@ == self.coin@ && tid != 0
    }

    /// No fill added yet.
    pub fn new(coin: &str) -> (r: FillTrades)
        ensures
            r.well_formed(),
            r.added() == Seq::<Fill>::empty(),
            r.coin_name() == coin@,
            r.seen_tids() == Set::<u64>::empty(),
            r.kept() == Seq::<TradeView>::empty(),
    {
        let r = FillTrades {
            coin: String::from_str(coin),
            seen: HashSet::new(),
            trades: Vec::new(),
            fills: Ghost(Seq::empty()),
        };
        assert(trades_view(r.trades@) =~= seq![]);
        r
    }

    /// Adds one fill: an error where its price or size does not parse
    /// and it is a fill to keep (see `fills_spec`).
    pub fn add(&mut self, fill: &Fill) -> (r: Result<(), ParseError>)
        requires
            old(self).well_formed(),
        ensures
            final(self).added() == old(self).added().push(*fill),
            final(self).coin_name() == old(self).coin_name(),
            final(self).seen_tids() == if fill.coin@ == old(self).coin_name() && fill.tid != 0 {
                old(self).seen_tids().insert(fill.tid)
            } else {
                old(self).seen_tids()
            },
            match fills_spec(old(self).added().push(*fill), old(self).coin_name(), old(self).added().len() as int + 1) {
                Ok(_) => r is Ok && final(self).well_formed(),
                Err(e) => r == Err::<(), ParseError>(e) && final(self).kept() == old(self).kept(),
            },
            r is Err <==> fill_is_new(old(self).seen_tids(), old(self).coin_name(), *fill)
                && (decimal_from_str(fill.px@) is None || decimal_from_str(fill.sz@) is None),
            r is Ok ==> final(self).kept() == match fill_trade_spec(decimal_from_str(fill.px@),
                decimal_from_str(fill.sz@), fill.time, fill.side@) {
                Ok(Some(t)) => if fill_is_new(old(self).seen_tids(), old(self).coin_name(), *fill) {
                    old(self).kept().push(t)
                } else {
                    old(self).kept()
                },
                _ => old(self).kept(),
            },
    {
        broadcast use vstd::std_specs::hash::group_hash_axioms;
        let ghost before = self.seen@;
        let ghost old_fills = self.fills@;
        let ghost n = old_fills.len() as int;
        let ghost coin = self.coin@;
        let ghost all = old_fills.push(*fill);
        proof {
            self.fills = Ghost(all);
            lemma_fills_spec_prefix(old_fills, *fill, coin, n);
            assert(all[n] == *fill);
        }
        let is_coin = str_eq(fill.coin.as_str(), self.coin.as_str());
        let fresh = if is_coin && fill.tid != 0 { self.seen.insert(fill.tid) } else { false };
        proof {
            assert forall|tid: u64| self.seen@.contains(tid) <==> exists|j: int| 0 <= j < all.len()
                && #[trigger] all[j].tid == tid && all[j].coin@ == coin && tid != 0 by {
                if is_coin && fill.tid != 0 && tid == fill.tid {
                    assert(all[n].tid == tid);
                } else if exists|j: int| 0 <= j < all.len() && #[trigger] all[j].tid == tid && all[j].coin@ == coin && tid != 0 {
                    let j = choose|j: int| 0 <= j < all.len() && #[trigger] all[j].tid == tid && all[j].coin@ == coin && tid != 0;
                    assert(j < n);
                    assert(all[j] == old_fills[j]);
                }
                if exists|j: int| 0 <= j < old_fills.len() && #[trigger] old_fills[j].tid == tid && old_fills[j].coin@ == coin && tid != 0 {
                    let j = choose|j: int| 0 <= j < old_fills.len() && #[trigger] old_fills[j].tid == tid && old_fills[j].coin@ == coin && tid != 0;
                    assert(all[j] == old_fills[j]);
                }
            }
            if fresh {
                assert forall|j: int| 0 <= j < n implies !(#[trigger] all[j].coin@ == coin && all[j].tid == all[n].tid) by {
                    assert(all[j] == old_fills[j]);
                    if all[j].coin@ == coin && all[j].tid == all[n].tid {
                        assert(before.contains(fill.tid));
                    }
                }
                assert(first_fill(all, n, coin));
            } else if is_coin && fill.tid != 0 {
                let j = choose|j: int| 0 <= j < old_fills.len() && #[trigger] old_fills[j].tid == fill.tid
                    && old_fills[j].coin@ == coin && fill.tid != 0;
                assert(all[j] == old_fills[j]);
                assert(all[j].coin@ == coin && all[j].tid == all[n].tid);
                assert(!first_fill(all, n, coin));
            } else {
                assert(!first_fill(all, n, coin));
            }
        }
        if fresh {
            let price = Decimal::parse(fill.px.as_str());
            let size = Decimal::parse(fill.sz.as_str());
            match fill_trade(price, size, fill.time, fill.side.as_str()) {
                Err(e) => {
                    return Err(e);
                },
                Ok(None) => {},
                Ok(Some(t)) => {
                    let ghost old_trades = self.trades@;
                    self.trades.push(t);
                    assert(trades_view(self.trades@) =~= trades_view(old_trades).push(t@));
                },
            }
        }
        Ok(())
    }

    /// The trades of the fills added, in order.
    pub fn into_trades(self) -> (r: Vec<Trade>)
        requires
            self.well_formed(),
        ensures
            fills_spec(self.added(), self.coin_name(), self.added().len() as int)
                == Ok::<Seq<TradeView>, ParseError>(trades_view(r@)),
    {
        self.trades
    }

    /// The trades of the fills added, sorted by time with equal times
    /// kept in fill order.
    pub fn into_sorted_trades(self) -> (r: Vec<Trade>)
        requires
            self.well_formed(),
        ensures
            fills_spec(self.added(), self.coin_name(), self.added().len() as int) matches Ok(u)
                && stably_sorted(trades_view(r@), u),
    {
        let mut trades = self.trades;
        sort_by_time(&mut trades);
        trades
    }
}

/// Extracts trades for `coin` from fills, in order: fills for other coins
/// and fills without a trade id are skipped, each trade id is kept once
/// (every trade appears once per counterparty), zero sizes are skipped,
/// and a price or size that does not parse is an error.
pub fn trades_from_fills(fills: &[Fill], coin: &str) -> (r: Result<Vec<Trade>, ParseError>)
    ensures
        match r {
            Ok(ts) => fills_spec(fills@, coin@, fills@.len() as int) == Ok::<Seq<TradeView>, ParseError>(trades_view(ts@)),
            Err(e) => fills_spec(fills@, coin@, fills@.len() as int) == Err::<Seq<TradeView>, ParseError>(e),
        },
{
    let mut ex = FillTrades::new(coin);
    let n = fills.len();
    for i in 0..n
        invariant
            n == fills@.len(),
            ex.well_formed(),
            ex.added() == fills@.take(i as int),
            ex.coin_name() == coin@,
    {
        let ghost before = ex.added();
        let r = ex.add(&fills[i]);
        proof {
            assert(fills@.take(i + 1) =~= before.push(fills@[i as int]));
        }
        if let Err(e) = r {
            proof {
                lemma_fills_spec_take(fills@, coin@, i + 1, i + 1);
                lemma_fills_spec_error_sticks(fills@, coin@, i + 1, n as int);
            }
            return Err(e);
        }
    }
    proof {
        assert(fills@.take(n as int) =~= fills@);
    }
    Ok(ex.into_trades())
}

proof fn lemma_fills_spec_take(fills: Seq<Fill>, coin: Seq<char>, m: int, k: int)
    requires
        0 <= k <= m <= fills.len(),
    ensures
        fills_spec(fills.take(m), coin, k) == fills_spec(fills, coin, k),
    decreases fills.len() - m,
{
    if m < fills.len() {
        lemma_fills_spec_take(fills, coin, m + 1, k);
        assert(fills.take(m + 1) =~= fills.take(m).push(fills[m]));
        lemma_fills_spec_prefix(fills.take(m), fills[m], coin, k);
    } else {
        assert(fills.take(m) =~= fills);
    }
}

proof fn lemma_fills_spec_error_sticks(fills: Seq<Fill>, coin: Seq<char>, i: int, n: int)
    requires
        0 < i <= n,
        fills_spec(fills, coin, i) is Err,
    ensures
        fills_spec(fills, coin, n) == fills_spec(fills, coin, i),
    decreases n - i,
{
    if n > i {
        lemma_fills_spec_error_sticks(fills, coin, i, n - 1);
    }
}

/// A trade of the NodeTrades format, with the fields the parser reads.
#[derive(Debug)]
pub struct NodeTrade {
    pub coin: String,
    pub px: String,
    pub sz: String,
    pub side: String,
    /// ISO 8601, e.g. "2025-03-31T23:59:59.962208772".
    pub time: String,
    /// Transaction hash; there is no trade id in this format.
    pub hash: String,
}

/// The chrono format of NodeTrades timestamps.
pub open spec fn iso_format() -> Seq<char> {
    "%Y-%m-%dT%H:%M:%S%.f"@
}

/// What `chrono::NaiveDateTime::parse_from_str(s, fmt)` followed by
/// `and_utc().timestamp_millis()` yields, or `None` where parsing fails.
pub uninterp spec fn datetime_millis(s: Seq<char>, fmt: Seq<char>) -> Option<i64>;

/// Parses a date-time with chrono and takes its epoch milliseconds (as UTC).
/// Claimed: the result is what the name `datetime_millis` gives.
#[verifier::external_body]
fn chrono_millis(s: &str, fmt: &str) -> (r: Option<i64>)
    ensures
        r == datetime_millis(s@, fmt@),
{
    match chrono::NaiveDateTime::parse_from_str(s, fmt) {
        Ok(dt) => Some(dt.and_utc().timestamp_millis()),
        Err(_) => None,
    }
}

/// Milliseconds as a `u64` (the `as` cast: times before 1970 wrap).
pub open spec fn millis_u64(ms: Option<i64>) -> Option<u64> {
    match ms {
        Some(m) => Some(m as u64),
        None => None,
    }
}

/// Parses an ISO 8601 timestamp (`%Y-%m-%dT%H:%M:%S%.f`, taken as UTC)
/// into epoch milliseconds.
pub fn parse_iso_to_epoch_ms(s: &str) -> (r: Option<u64>)
    ensures
        r == millis_u64(datetime_millis(s@, iso_format())),
{
    let fmt = "%Y-%m-%dT%H:%M:%S%.f";
    let ms = chrono_millis(s, fmt);
    match ms {
        Some(m) => Some(m as u64),
        None => None,
    }
}

/// The trade of a kept NodeTrades record, given its parsed price, size
/// and time: errors for what does not parse (price first, then size, then
/// time), nothing for a zero size (whose time is not read).
pub open spec fn node_trade_spec(price: Option<(int, nat)>, size: Option<(int, nat)>, millis: Option<u64>,
    side: Seq<char>) -> Result<Option<TradeView>, ParseError>
{
    match price {
        None => Err(ParseError::Price),
        Some(p) => match size {
            None => Err(ParseError::Size),
            Some(s) => if s.0 == 0 {
                Ok(None)
            } else {
                match millis {
                    None => Err(ParseError::Timestamp),
                    Some(t) => Ok(Some(TradeView { price: p, size: s, time_ms: t as nat, is_buy: side == seq!['B'] })),
                }
            },
        },
    }
}

/// The record at `i` is one to keep: it is for `coin` and no earlier
/// record for `coin` has the same hash.
pub open spec fn first_node_trade(records: Seq<NodeTrade>, i: int, coin: Seq<char>) -> bool {
    &&& records[i].coin@ == coin
    &&& forall|j: int| 0 <= j < i ==> !(#[trigger] records[j].coin@ == coin && records[j].hash@ == records[i].hash@)
}

/// The trades of the first `n` records, in order, or the first error.
pub open spec fn node_trades_spec(records: Seq<NodeTrade>, coin: Seq<char>, n: int) -> Result<Seq<TradeView>, ParseError>
    decreases n,
{
    if n <= 0 {
        Ok(seq![])
    } else {
        match node_trades_spec(records, coin, n - 1) {
            Err(e) => Err(e),
            Ok(ts) => if !first_node_trade(records, n - 1, coin) {
                Ok(ts)
            } else {
                let r = records[n - 1];
                match node_trade_spec(decimal_from_str(r.px@), decimal_from_str(r.sz@),
                    millis_u64(datetime_millis(r.time@, iso_format())), r.side@) {
                    Err(e) => Err(e),
                    Ok(None) => Ok(ts),
                    Ok(Some(t)) => Ok(ts.push(t)),
                }
            },
        }
    }
}

/// The trade of a kept NodeTrades record from its parsed price, size and time.
pub fn node_trade(price: Option<Decimal>, size: Option<Decimal>, millis: Option<u64>, side: &str)
    -> (r: Result<Option<Trade>, ParseError>)
    ensures
        match r {
            Ok(Some(t)) => node_trade_spec(opt_view(price), opt_view(size), millis, side@) == Ok::<Option<TradeView>, ParseError>(Some(t@)),
            Ok(None) => node_trade_spec(opt_view(price), opt_view(size), millis, side@) == Ok::<Option<TradeView>, ParseError>(None),
            Err(e) => node_trade_spec(opt_view(price), opt_view(size), millis, side@) == Err::<Option<TradeView>, ParseError>(e),
        },
{
    let p = match price {
        Some(p) => p,
        None => return Err(ParseError::Price),
    };
    let s = match size {
        Some(s) => s,
        None => return Err(ParseError::Size),
    };
    if s.is_zero() {
        return Ok(None);
    }
    let t = match millis {
        Some(t) => t,
        None => return Err(ParseError::Timestamp),
    };
    let buy = str_eq(side, "B");
    proof {
        reveal_strlit("B");
        assert("B"@ =~= seq!['B']);
    }
    Ok(Some(Trade { price: p, size: s, time_ms: t, is_buy: buy }))
}

proof fn lemma_node_trades_spec_error_sticks(records: Seq<NodeTrade>, coin: Seq<char>, i: int, n: int)
    requires
        0 < i <= n,
        node_trades_spec(records, coin, i) is Err,
    ensures
        node_trades_spec(records, coin, n) == node_trades_spec(records, coin, i),
    decreases n - i,
{
    if n > i {
        lemma_node_trades_spec_error_sticks(records, coin, i, n - 1);
    }
}

/// A record to keep given the hashes seen so far: for `coin`, with a
/// hash not seen before.
pub open spec fn record_is_new(seen: Set<Seq<u8>>, coin: Seq<char>, rec: NodeTrade) -> bool {
    rec.coin@ == coin && !seen.contains(vstd::utf8::encode_utf8(rec.hash@))
}

/// Trades extracted from NodeTrades records as they are read, one record
/// at a time (see `trades_from_node_trades`), so that a caller reading a
/// file line by line stops at the first error in file order.
pub struct NodeTradeTrades {
    coin: String,
    seen: ByteSet,
    trades: Vec<Trade>,
    records: Ghost<Seq<NodeTrade>>,
}

impl NodeTradeTrades {
    /// The records added so far.
    pub closed spec fn added(&self) -> Seq<NodeTrade> {
        self.records@
    }

    /// The coin whose trades are extracted.
    pub closed spec fn coin_name(&self) -> Seq<char> {
        self.coin@
    }

    /// The hashes (as UTF-8 bytes) recorded so far.
    pub closed spec fn seen_hashes(&self) -> Set<Seq<u8>> {
        self.seen@
    }

    /// The trades extracted so far.
    pub closed spec fn kept(&self) -> Seq<TradeView> {
        trades_view(self.trades@)
    }

    /// The trades so far are those of the records added so far, and the
    /// hashes seen are those of the added records for the coin.
    pub closed spec fn well_formed(&self) -> bool {
        &&& self.seen.well_formed()
        &&& node_trades_spec(self.records@, self.coin@, self.records@.len() as int)
            == Ok::<Seq<TradeView>, ParseError>(trades_view(self.trades@))
        &&& forall|h: Seq<u8>| self.seen@.contains(h) <==> exists|j: int| 0 <= j < self.records@.len()
            && #[trigger] vstd::utf8::encode_utf8(self.records@[j].hash@) == h && self.records@[j].coin@ == self.coin@
    }

    /// No record added yet.
    pub fn new(coin: &str) -> (r: NodeTradeTrades)
        ensures
            r.well_formed(),
            r.added() == Seq::<NodeTrade>::empty(),
            r.coin_name() == coin@,
            r.seen_hashes() == Set::<Seq<u8>>::empty(),
            r.kept() == Seq::<TradeView>::empty(),
    {
        let r = NodeTradeTrades {
            coin: String::from_str(coin),
            seen: ByteSet::new(),
            trades: Vec::new(),
            records: Ghost(Seq::empty()),
        };
        assert(trades_view(r.trades@) =~= seq![]);
        r
    }

    /// Adds one record: an error where its price, size or (for a trade
    /// to keep) time does not parse (see `node_trades_spec`).
    pub fn add(&mut self, rec: &NodeTrade) -> (r: Result<(), ParseError>)
        requires
            old(self).well_formed(),
        ensures
            final(self).added() == old(self).added().push(*rec),
            final(self).coin_name() == old(self).coin_name(),
            final(self).seen_hashes() == if rec.coin@ == old(self).coin_name() {
                old(self).seen_hashes().insert(vstd::utf8::encode_utf8(rec.hash@))
            } else {
                old(self).seen_hashes()
            },
            match node_trades_spec(old(self).added().push(*rec), old(self).coin_name(), old(self).added().len() as int + 1) {
                Ok(_) => r is Ok && final(self).well_formed(),
                Err(e) => r == Err::<(), ParseError>(e) && final(self).kept() == old(self).kept(),
            },
            r is Err <==> record_is_new(old(self).seen_hashes(), old(self).coin_name(), *rec)
                && node_trade_spec(decimal_from_str(rec.px@), decimal_from_str(rec.sz@),
                    millis_u64(datetime_millis(rec.time@, iso_format())), rec.side@) is Err,
            r is Ok ==> final(self).kept() == match node_trade_spec(decimal_from_str(rec.px@),
                decimal_from_str(rec.sz@), millis_u64(datetime_millis(rec.time@, iso_format())), rec.side@) {
                Ok(Some(t)) => if record_is_new(old(self).seen_hashes(), old(self).coin_name(), *rec) {
                    old(self).kept().push(t)
                } else {
                    old(self).kept()
                },
                _ => old(self).kept(),
            },
    {
        let ghost before = self.seen@;
        let ghost old_records = self.records@;
        let ghost n = old_records.len() as int;
        let ghost coin = self.coin@;
        let ghost all = old_records.push(*rec);
        proof {
            self.records = Ghost(all);
            lemma_node_trades_spec_prefix(old_records, *rec, coin, n);
            assert(all[n] == *rec);
        }
        let key = rec.hash.as_str().as_bytes();
        assert(key@ == vstd::utf8::encode_utf8(rec.hash@));
        let is_coin = str_eq(rec.coin.as_str(), self.coin.as_str());
        let fresh = if is_coin { self.seen.insert(key) } else { false };
        proof {
            assert forall|h: Seq<u8>| self.seen@.contains(h) <==> exists|j: int| 0 <= j < all.len()
                && #[trigger] vstd::utf8::encode_utf8(all[j].hash@) == h && all[j].coin@ == coin by {
                if is_coin && h == key@ {
                    assert(vstd::utf8::encode_utf8(all[n].hash@) == h);
                } else if exists|j: int| 0 <= j < all.len() && #[trigger] vstd::utf8::encode_utf8(all[j].hash@) == h && all[j].coin@ == coin {
                    let j = choose|j: int| 0 <= j < all.len() && #[trigger] vstd::utf8::encode_utf8(all[j].hash@) == h && all[j].coin@ == coin;
                    assert(j < n);
                    assert(all[j] == old_records[j]);
                }
                if exists|j: int| 0 <= j < old_records.len() && #[trigger] vstd::utf8::encode_utf8(old_records[j].hash@) == h && old_records[j].coin@ == coin {
                    let j = choose|j: int| 0 <= j < old_records.len() && #[trigger] vstd::utf8::encode_utf8(old_records[j].hash@) == h && old_records[j].coin@ == coin;
                    assert(all[j] == old_records[j]);
                }
            }
            if fresh {
                assert forall|j: int| 0 <= j < n implies !(#[trigger] all[j].coin@ == coin && all[j].hash@ == all[n].hash@) by {
                    assert(all[j] == old_records[j]);
                    if all[j].coin@ == coin && all[j].hash@ == all[n].hash@ {
                        assert(before.contains(vstd::utf8::encode_utf8(old_records[j].hash@)));
                    }
                }
                assert(first_node_trade(all, n, coin));
            } else if is_coin {
                let j = choose|j: int| 0 <= j < old_records.len()
                    && #[trigger] vstd::utf8::encode_utf8(old_records[j].hash@) == key@ && old_records[j].coin@ == coin;
                encode_utf8_decode_utf8(old_records[j].hash@);
                encode_utf8_decode_utf8(rec.hash@);
                assert(all[j] == old_records[j]);
                assert(all[j].hash@ == all[n].hash@);
                assert(!first_node_trade(all, n, coin));
            } else {
                assert(!first_node_trade(all, n, coin));
            }
        }
        if fresh {
            let price = Decimal::parse(rec.px.as_str());
            let size = Decimal::parse(rec.sz.as_str());
            let needs_time = match (&price, &size) {
                (Some(_), Some(s)) => !s.is_zero(),
                _ => false,
            };
            let millis = if needs_time { parse_iso_to_epoch_ms(rec.time.as_str()) } else { None };
            match node_trade(price, size, millis, rec.side.as_str()) {
                Err(e) => {
                    return Err(e);
                },
                Ok(None) => {},
                Ok(Some(t)) => {
                    let ghost old_trades = self.trades@;
                    self.trades.push(t);
                    assert(trades_view(self.trades@) =~= trades_view(old_trades).push(t@));
                },
            }
        }
        Ok(())
    }

    /// The trades of the records added, in order.
    pub fn into_trades(self) -> (r: Vec<Trade>)
        requires
            self.well_formed(),
        ensures
            node_trades_spec(self.added(), self.coin_name(), self.added().len() as int)
                == Ok::<Seq<TradeView>, ParseError>(trades_view(r@)),
    {
        self.trades
    }

    /// The trades of the records added, sorted by time with equal times
    /// kept in record order.
    pub fn into_sorted_trades(self) -> (r: Vec<Trade>)
        requires
            self.well_formed(),
        ensures
            node_trades_spec(self.added(), self.coin_name(), self.added().len() as int) matches Ok(u)
                && stably_sorted(trades_view(r@), u),
    {
        let mut trades = self.trades;
        sort_by_time(&mut trades);
        trades
    }
}

proof fn lemma_node_trades_spec_prefix(records: Seq<NodeTrade>, g: NodeTrade, coin: Seq<char>, n: int)
    requires
        0 <= n <= records.len(),
    ensures
        node_trades_spec(records.push(g), coin, n) == node_trades_spec(records, coin, n),
    decreases n,
{
    if n > 0 {
        lemma_node_trades_spec_prefix(records, g, coin, n - 1);
        let r2 = records.push(g);
        assert(r2[n - 1] == records[n - 1]);
        if first_node_trade(records, n - 1, coin) {
            assert forall|j: int| 0 <= j < n - 1 implies !(#[trigger] r2[j].coin@ == coin && r2[j].hash@ == r2[n - 1].hash@) by {
                assert(r2[j] == records[j]);
            }
        }
        if first_node_trade(r2, n - 1, coin) {
            assert forall|j: int| 0 <= j < n - 1 implies !(#[trigger] records[j].coin@ == coin && records[j].hash@ == records[n - 1].hash@) by {
                assert(r2[j] == records[j]);
            }
        }
        assert(first_node_trade(r2, n - 1, coin) == first_node_trade(records, n - 1, coin));
    }
}

proof fn lemma_node_trades_spec_take(records: Seq<NodeTrade>, coin: Seq<char>, m: int, k: int)
    requires
        0 <= k <= m <= records.len(),
    ensures
        node_trades_spec(records.take(m), coin, k) == node_trades_spec(records, coin, k),
    decreases records.len() - m,
{
    if m < records.len() {
        lemma_node_trades_spec_take(records, coin, m + 1, k);
        assert(records.take(m + 1) =~= records.take(m).push(records[m]));
        lemma_node_trades_spec_prefix(records.take(m), records[m], coin, k);
    } else {
        assert(records.take(m) =~= records);
    }
}

/// Extracts trades for `coin` from NodeTrades records, in order: records
/// for other coins are skipped, each hash is kept once, zero sizes are
/// skipped, and a price, size or (for a kept trade) time that does not
/// parse is an error.
pub fn trades_from_node_trades(records: &[NodeTrade], coin: &str) -> (r: Result<Vec<Trade>, ParseError>)
    ensures
        match r {
            Ok(ts) => node_trades_spec(records@, coin@, records@.len() as int) == Ok::<Seq<TradeView>, ParseError>(trades_view(ts@)),
            Err(e) => node_trades_spec(records@, coin@, records@.len() as int) == Err::<Seq<TradeView>, ParseError>(e),
        },
{
    let mut ex = NodeTradeTrades::new(coin);
    let n = records.len();
    for i in 0..n
        invariant
            n == records@.len(),
            ex.well_formed(),
            ex.added() == records@.take(i as int),
            ex.coin_name() == coin@,
    {
        let ghost before = ex.added();
        let r = ex.add(&records[i]);
        proof {
            assert(records@.take(i + 1) =~= before.push(records@[i as int]));
        }
        if let Err(e) = r {
            proof {
                lemma_node_trades_spec_take(records@, coin@, i + 1, i + 1);
                lemma_node_trades_spec_error_sticks(records@, coin@, i + 1, n as int);
            }
            return Err(e);
        }
    }
    proof {
        assert(records@.take(n as int) =~= records@);
    }
    Ok(ex.into_trades())
}

/// The trades of fills for `coin` (see `trades_from_fills`), sorted by
/// time with equal times kept in file order.
pub fn sorted_trades_from_fills(fills: &[Fill], coin: &str) -> (r: Result<Vec<Trade>, ParseError>)
    ensures
        match fills_spec(fills@, coin@, fills@.len() as int) {
            Ok(u) => r matches Ok(ts) && stably_sorted(trades_view(ts@), u),
            Err(e) => r == Err::<Vec<Trade>, ParseError>(e),
        },
{
    let mut trades = trades_from_fills(fills, coin)?;
    sort_by_time(&mut trades);
    Ok(trades)
}

/// The trades of NodeTrades records for `coin` (see
/// `trades_from_node_trades`), sorted by time with equal times kept in
/// file order.
pub fn sorted_trades_from_node_trades(records: &[NodeTrade], coin: &str) -> (r: Result<Vec<Trade>, ParseError>)
    ensures
        match node_trades_spec(records@, coin@, records@.len() as int) {
            Ok(u) => r matches Ok(ts) && stably_sorted(trades_view(ts@), u),
            Err(e) => r == Err::<Vec<Trade>, ParseError>(e),
        },
{
    let mut trades = trades_from_node_trades(records, coin)?;
    sort_by_time(&mut trades);
    Ok(trades)
}

proof fn lemma_fills_spec_prefix(fills: Seq<Fill>, g: Fill, coin: Seq<char>, n: int)
    requires
        0 <= n <= fills.len(),
    ensures
        fills_spec(fills.push(g), coin, n) == fills_spec(fills, coin, n),
    decreases n,
{
    if n > 0 {
        lemma_fills_spec_prefix(fills, g, coin, n - 1);
        let f2 = fills.push(g);
        assert(f2[n - 1] == fills[n - 1]);
        if first_fill(fills, n - 1, coin) {
            assert forall|j: int| 0 <= j < n - 1 implies !(#[trigger] f2[j].coin@ == coin && f2[j].tid == f2[n - 1].tid) by {
                assert(f2[j] == fills[j]);
            }
        }
        if first_fill(f2, n - 1, coin) {
            assert forall|j: int| 0 <= j < n - 1 implies !(#[trigger] fills[j].coin@ == coin && fills[j].tid == fills[n - 1].tid) by {
                assert(f2[j] == fills[j]);
            }
        }
        assert(first_fill(f2, n - 1, coin) == first_fill(fills, n - 1, coin));
    }
}

/// Every trade is in the file once per counterparty: a further fill with
/// the trade id of an earlier fill for the coin adds no trade (nor does a
/// fill for another coin, or one without a trade id), so volumes are not
/// counted twice.
pub proof fn law_repeated_fill_adds_nothing(fills: Seq<Fill>, coin: Seq<char>, g: Fill)
    requires
        g.coin@ != coin || g.tid == 0 || exists|j: int| 0 <= j < fills.len()
            && #[trigger] fills[j].coin@ == coin && fills[j].tid == g.tid,
    ensures
        fills_spec(fills.push(g), coin, fills.len() as int + 1) == fills_spec(fills, coin, fills.len() as int),
{
    let f2 = fills.push(g);
    let n = fills.len() as int;
    lemma_fills_spec_prefix(fills, g, coin, n);
    assert(f2[n] == g);
    if g.coin@ == coin && g.tid != 0 {
        let j = choose|j: int| 0 <= j < fills.len() && #[trigger] fills[j].coin@ == coin && fills[j].tid == g.tid;
        assert(f2[j] == fills[j]);
        assert(!first_fill(f2, n, coin));
    }
}

/// Extracted trades all have a non-zero size.
pub proof fn law_fill_trades_have_size(fills: Seq<Fill>, coin: Seq<char>, n: int)
    requires
        0 <= n <= fills.len(),
    ensures
        fills_spec(fills, coin, n) matches Ok(ts) ==> forall|i: int| 0 <= i < ts.len() ==> (#[trigger] ts[i]).size.0 != 0,
    decreases n,
{
    if n > 0 {
        law_fill_trades_have_size(fills, coin, n - 1);
    }
}

/// `t` is the trade of record `r` for `coin`: the record is for the
/// coin, the price is its `px`, the size its `sz` and not zero, the time
/// its ISO time in epoch milliseconds, and a buy exactly for side `B`.
pub open spec fn is_record_trade(r: NodeTrade, coin: Seq<char>, t: TradeView) -> bool {
    &&& r.coin@ == coin
    &&& decimal_from_str(r.px@) == Some(t.price)
    &&& decimal_from_str(r.sz@) == Some(t.size)
    &&& t.size.0 != 0
    &&& millis_u64(datetime_millis(r.time@, iso_format())) matches Some(m) && m as nat == t.time_ms
    &&& t.is_buy == (r.side@ == seq!['B'])
}

/// `t` is the trade of fill `f` for `coin`: the fill is for the coin and
/// has a trade id, the price is its `px`, the size its `sz` and not zero,
/// the time its time, and a buy exactly for side `B`.
pub open spec fn is_fill_trade(f: Fill, coin: Seq<char>, t: TradeView) -> bool {
    &&& f.coin@ == coin
    &&& f.tid != 0
    &&& decimal_from_str(f.px@) == Some(t.price)
    &&& decimal_from_str(f.sz@) == Some(t.size)
    &&& t.size.0 != 0
    &&& t.time_ms == f.time as nat
    &&& t.is_buy == (f.side@ == seq!['B'])
}

/// `t` is the trade of one of the first `n` records for `coin`.
pub open spec fn from_some_record(records: Seq<NodeTrade>, coin: Seq<char>, n: int, t: TradeView) -> bool {
    exists|j: int| 0 <= j < n && #[trigger] is_record_trade(records[j], coin, t)
}

/// `t` is the trade of one of the first `n` fills for `coin`.
pub open spec fn from_some_fill(fills: Seq<Fill>, coin: Seq<char>, n: int, t: TradeView) -> bool {
    exists|j: int| 0 <= j < n && #[trigger] is_fill_trade(fills[j], coin, t)
}

/// Every extracted NodeTrades trade comes from a record for the coin:
/// its price is the record's `px`, its size the record's `sz` (never
/// zero), its time the record's ISO time in epoch milliseconds, and it is
/// a buy exactly when the record's side is `B`.
pub proof fn law_node_trades_come_from_records(records: Seq<NodeTrade>, coin: Seq<char>, n: int)
    requires
        0 <= n <= records.len(),
    ensures
        node_trades_spec(records, coin, n) matches Ok(ts) ==> forall|i: int| 0 <= i < ts.len()
            ==> #[trigger] from_some_record(records, coin, n, ts[i]),
    decreases n,
{
    if n > 0 {
        law_node_trades_come_from_records(records, coin, n - 1);
        let r = records[n - 1];
        if node_trades_spec(records, coin, n) is Ok {
            let ts = node_trades_spec(records, coin, n)->Ok_0;
            assert(node_trades_spec(records, coin, n - 1) is Ok);
            let prev = node_trades_spec(records, coin, n - 1)->Ok_0;
            assert forall|i: int| 0 <= i < ts.len() implies #[trigger] from_some_record(records, coin, n, ts[i]) by {
                if i < prev.len() {
                    assert(ts[i] == prev[i]);
                    assert(from_some_record(records, coin, n - 1, prev[i]));
                    let j = choose|j: int| 0 <= j < n - 1 && #[trigger] is_record_trade(records[j], coin, prev[i]);
                    assert(is_record_trade(records[j], coin, ts[i]));
                } else {
                    assert(first_node_trade(records, n - 1, coin));
                    let pr = decimal_from_str(r.px@);
                    let sz = decimal_from_str(r.sz@);
                    let ms = millis_u64(datetime_millis(r.time@, iso_format()));
                    let t = TradeView { price: pr->Some_0, size: sz->Some_0, time_ms: ms->Some_0 as nat, is_buy: r.side@ == seq!['B'] };
                    assert(ts == prev.push(t));
                    assert(ts[i] == t);
                    assert(is_record_trade(records[n - 1], coin, ts[i]));
                }
            }
        }
    }
}

/// Every extracted fill trade comes from a fill for the coin: its price
/// is the fill's `px`, its size the fill's `sz` (never zero), its time the
/// fill's time, and it is a buy exactly when the fill's side is `B`.
pub proof fn law_fill_trades_come_from_fills(fills: Seq<Fill>, coin: Seq<char>, n: int)
    requires
        0 <= n <= fills.len(),
    ensures
        fills_spec(fills, coin, n) matches Ok(ts) ==> forall|i: int| 0 <= i < ts.len()
            ==> #[trigger] from_some_fill(fills, coin, n, ts[i]),
    decreases n,
{
    if n > 0 {
        law_fill_trades_come_from_fills(fills, coin, n - 1);
        let g = fills[n - 1];
        if fills_spec(fills, coin, n) is Ok {
            let ts = fills_spec(fills, coin, n)->Ok_0;
            assert(fills_spec(fills, coin, n - 1) is Ok);
            let prev = fills_spec(fills, coin, n - 1)->Ok_0;
            assert forall|i: int| 0 <= i < ts.len() implies #[trigger] from_some_fill(fills, coin, n, ts[i]) by {
                if i < prev.len() {
                    assert(ts[i] == prev[i]);
                    assert(from_some_fill(fills, coin, n - 1, prev[i]));
                    let j = choose|j: int| 0 <= j < n - 1 && #[trigger] is_fill_trade(fills[j], coin, prev[i]);
                    assert(is_fill_trade(fills[j], coin, ts[i]));
                } else {
                    assert(first_fill(fills, n - 1, coin));
                    let pr = decimal_from_str(g.px@);
                    let sz = decimal_from_str(g.sz@);
                    let t = TradeView { price: pr->Some_0, size: sz->Some_0, time_ms: g.time as nat, is_buy: g.side@ == seq!['B'] };
                    assert(ts == prev.push(t));
                    assert(ts[i] == t);
                    assert(is_fill_trade(fills[n - 1], coin, ts[i]));
                }
            }
        }
    }
}

/// A line that contains the quoted coin anywhere is parsed: if a non-empty
/// line of the text (a range kept without the filter) has `"coin"` at any
/// position within it, the filtered lines keep that line too.
pub proof fn law_line_containing_coin_is_kept(t: Seq<u8>, coin: &str, k: int, q: int)
    requires
        0 <= k < candidate_ranges(t, 0, None).len(),
        candidate_ranges(t, 0, None)[k].0 <= q,
        q + coin_pattern(coin).len() <= candidate_ranges(t, 0, None)[k].1,
        t.subrange(q, q + coin_pattern(coin).len()) == coin_pattern(coin),
    ensures
        candidate_ranges(t, 0, Some(coin_pattern(coin))).contains(candidate_ranges(t, 0, None)[k]),
{
    let pat = coin_pattern(coin);
    let all = candidate_ranges(t, 0, None);
    let r = all[k];
    lemma_prefilter_from(t, pat, 0);
    assert(occurs_in(t, r.0, r.1, pat));
    assert(contains_pattern(t, pat)(all[k]));
    all.lemma_filter_contains(contains_pattern(t, pat), k);
}

} // verus!
