//! Candle CSV files: `open_time,close_time,open,high,low,close,volume,trades`.

use vstd::prelude::*;
use crate::candle::{
    Candle, CandleView, candles_view, aggregate_spec, consolidate_spec, sizes_nonnegative, sorted_by_time, sums_exact,
    law_aggregate_sorted_open_times, law_consolidate_matches_direct_build, days_candles, days_apart,
    open_times_increasing, law_days_candles_increasing, law_days_consolidate_to_direct_build,
};
use crate::day::day_ms;
use vstd::arithmetic::div_mod::{lemma_mod_multiples_basic, lemma_fundamental_div_mod};
use crate::parser::TradeView;
use crate::decimal::{Decimal, decimal_display, decimal_from_str, display_char, lemma_display_chars};
use crate::text::{
    decimal_chars, push_decimal, parse_u64, parse_u64_spec, to_chars, chars_to_string, lemma_decimal_chars,
    lemma_parse_decimal_chars,
};

verus! {

/// The header line of a candle CSV file.
pub open spec fn csv_header() -> Seq<char> {
    "open_time,close_time,open,high,low,close,volume,trades\n"@
}

/// One candle as a CSV line, decimals written as `rust_decimal` displays them.
pub open spec fn csv_line(c: CandleView) -> Seq<char> {
    decimal_chars(c.open_time as nat) + seq![','] + decimal_chars(c.close_time as nat) + seq![',']
        + decimal_display(c.open) + seq![','] + decimal_display(c.high) + seq![',']
        + decimal_display(c.low) + seq![','] + decimal_display(c.close) + seq![',']
        + decimal_display(c.volume) + seq![','] + decimal_chars(c.trades as nat) + seq!['\n']
}

/// The lines of the candles, in order.
pub open spec fn csv_lines(cs: Seq<CandleView>) -> Seq<char>
    decreases cs.len(),
{
    if cs.len() == 0 {
        seq![]
    } else {
        csv_lines(cs.drop_last()) + csv_line(cs.last())
    }
}

/// A candle CSV file: the header, then one line per candle.
pub open spec fn csv_text(cs: Seq<CandleView>) -> Seq<char> {
    csv_header() + csv_lines(cs)
}

fn push_field_sep(r: &mut String)
    ensures
        final(r)@ == old(r)@ + seq![','],
{
    r.append(",");
    proof {
        reveal_strlit(",");
        assert(","@ =~= seq![',']);
    }
}

fn push_decimal_field(r: &mut String, d: &Decimal)
    ensures
        final(r)@ == old(r)@ + decimal_display(d@) + seq![','],
        decimal_writes_back(d@),
{
    let text = d.display();
    r.append(text.as_str());
    push_field_sep(r);
    assert(final(r)@ =~= old(r)@ + decimal_display(d@) + seq![',']) by {
        assert(r@ == old(r)@ + decimal_display(d@) + seq![',']);
    }
}

/// One candle as a CSV line.
fn csv_line_string(c: &Candle) -> (r: String)
    ensures
        r@ == csv_line(c@),
        line_writes_back(c@),
{
    let mut r = String::new();
    push_decimal(&mut r, c.open_time);
    push_field_sep(&mut r);
    push_decimal(&mut r, c.close_time);
    push_field_sep(&mut r);
    let ghost times = r@;
    assert(times =~= decimal_chars(c.open_time as nat) + seq![','] + decimal_chars(c.close_time as nat) + seq![',']);
    push_decimal_field(&mut r, &c.open);
    push_decimal_field(&mut r, &c.high);
    push_decimal_field(&mut r, &c.low);
    push_decimal_field(&mut r, &c.close);
    push_decimal_field(&mut r, &c.volume);
    let ghost prices = r@;
    assert(prices =~= times + decimal_display(c.open@) + seq![','] + decimal_display(c.high@) + seq![',']
        + decimal_display(c.low@) + seq![','] + decimal_display(c.close@) + seq![',']
        + decimal_display(c.volume@) + seq![',']);
    push_decimal(&mut r, c.trades);
    r.append("\n");
    proof {
        reveal_strlit("\n");
        assert("\n"@ =~= seq!['\n']);
        assert(r@ =~= csv_line(c@));
    }
    r
}

/// Writes candles as a CSV file's text; `parse_candles_csv` reads the
/// text back as the same candles.
pub fn format_candles_csv(candles: &[Candle]) -> (r: String)
    ensures
        r@ == csv_text(candles_view(candles@)),
        csv_records(r@) == Ok::<Seq<CandleView>, CsvError>(candles_view(candles@)),
{
    let mut r = String::from_str("open_time,close_time,open,high,low,close,volume,trades\n");
    let ghost cv = candles_view(candles@);
    for i in 0..candles.len()
        invariant
            cv == candles_view(candles@),
            r@ == "open_time,close_time,open,high,low,close,volume,trades\n"@ + csv_lines(cv.take(i as int)),
            forall|k: int| 0 <= k < i ==> line_writes_back(#[trigger] cv[k]),
    {
        let c = &candles[i];
        let ghost before = r@;
        let line = csv_line_string(c);
        r.append(line.as_str());
        proof {
            assert(cv.take(i + 1).drop_last() =~= cv.take(i as int));
            assert(cv.take(i + 1).last() == c@);
            assert(r@ =~= before + csv_line(c@));
        }
    }
    assert(cv.take(candles@.len() as int) =~= cv);
    proof {
        law_csv_round_trip(cv);
    }
    r
}

/// Why a candle CSV file could not be read.
#[derive(Debug, Clone, Copy, PartialEq, Eq, Structural)]
pub enum CsvError {
    /// A line does not have exactly eight fields.
    FieldCount,
    /// A time or trade count is not a `u64`.
    Number,
    /// A price or volume is not a decimal.
    Decimal,
}

/// Index of the first `c` at or after `i` in `t`, or the length of `t`.
pub open spec fn next_index_of(t: Seq<char>, c: char, i: int) -> int
    decreases t.len() - i,
{
    if i >= t.len() {
        t.len() as int
    } else if t[i] == c {
        i
    } else {
        next_index_of(t, c, i + 1)
    }
}

pub proof fn lemma_next_index_of_bounds(t: Seq<char>, c: char, i: int)
    requires
        0 <= i,
    ensures
        i <= next_index_of(t, c, i) || i > t.len(),
        next_index_of(t, c, i) <= t.len(),
        next_index_of(t, c, i) < t.len() ==> t[next_index_of(t, c, i)] == c,
        forall|j: int| i <= j < next_index_of(t, c, i) ==> t[j] != c,
    decreases t.len() - i,
{
    if i < t.len() && t[i] != c {
        lemma_next_index_of_bounds(t, c, i + 1);
    }
}

/// The comma-separated fields of `t[lo..hi]`, from position `i` on.
pub open spec fn fields_from(t: Seq<char>, i: int, hi: int) -> Seq<Seq<char>>
    decreases hi - i + 1,
{
    if i < 0 || i > hi || hi > t.len() {
        seq![]
    } else {
        let j = next_index_of(t.subrange(0, hi), ',', i);
        if j >= hi {
            seq![t.subrange(i, hi)]
        } else {
            proof {
                lemma_next_index_of_bounds(t.subrange(0, hi), ',', i);
            }
            seq![t.subrange(i, j)] + fields_from(t, j + 1, hi)
        }
    }
}

/// A decimal field as a candle field.
pub open spec fn decimal_field(f: Seq<char>) -> Option<(int, nat)> {
    decimal_from_str(f)
}

/// The candle of a CSV line's eight fields.
pub open spec fn candle_of_fields(f: Seq<Seq<char>>) -> Result<CandleView, CsvError> {
    if f.len() != 8 {
        Err(CsvError::FieldCount)
    } else if parse_u64_spec(f[0]) is None || parse_u64_spec(f[1]) is None || parse_u64_spec(f[7]) is None {
        Err(CsvError::Number)
    } else if decimal_field(f[2]) is None || decimal_field(f[3]) is None || decimal_field(f[4]) is None
        || decimal_field(f[5]) is None || decimal_field(f[6]) is None {
        Err(CsvError::Decimal)
    } else {
        Ok(CandleView {
            open_time: parse_u64_spec(f[0])->0 as int,
            close_time: parse_u64_spec(f[1])->0 as int,
            open: decimal_field(f[2])->0,
            high: decimal_field(f[3])->0,
            low: decimal_field(f[4])->0,
            close: decimal_field(f[5])->0,
            volume: decimal_field(f[6])->0,
            trades: parse_u64_spec(f[7])->0 as int,
        })
    }
}

/// End of the line starting at `i` without its terminator (`\n`, or
/// `\r\n`), as `str::lines` cuts lines.
pub open spec fn text_line_stop(t: Seq<char>, i: int) -> int {
    let e = next_index_of(t, '\n', i);
    if e < t.len() && e > i && t[e - 1] == '\r' { e - 1 } else { e }
}

/// The candles of the lines of `t` from position `i` on; empty lines are
/// skipped and the first bad line is the error.
#[verifier::opaque]
pub open spec fn csv_from(t: Seq<char>, i: int) -> Result<Seq<CandleView>, CsvError>
    decreases t.len() + 1 - i,
{
    if i < 0 || i >= t.len() {
        Ok(seq![])
    } else {
        proof {
            lemma_next_index_of_bounds(t, '\n', i);
        }
        let e = next_index_of(t, '\n', i);
        let stop = text_line_stop(t, i);
        let rest = if e < t.len() { csv_from(t, e + 1) } else { Ok(seq![]) };
        if stop <= i {
            rest
        } else {
            match candle_of_fields(fields_from(t, i, stop)) {
                Err(err) => Err(err),
                Ok(c) => match rest {
                    Err(err) => Err(err),
                    Ok(cs) => Ok(seq![c] + cs),
                },
            }
        }
    }
}

/// The candles of a CSV file's text: every line after the header line.
pub open spec fn csv_records(t: Seq<char>) -> Result<Seq<CandleView>, CsvError> {
    let e = next_index_of(t, '\n', 0);
    if e < t.len() { csv_from(t, e + 1) } else { Ok(seq![]) }
}

/// One line's step of `csv_from`.
pub proof fn lemma_csv_from_step(t: Seq<char>, i: int)
    requires
        0 <= i < t.len(),
    ensures
        ({
            let e = next_index_of(t, '\n', i);
            let stop = text_line_stop(t, i);
            let rest = if e < t.len() { csv_from(t, e + 1) } else { Ok(seq![]) };
            csv_from(t, i) == if stop <= i {
                rest
            } else {
                match candle_of_fields(fields_from(t, i, stop)) {
                    Err(err) => Err(err),
                    Ok(c) => match rest {
                        Err(err) => Err(err),
                        Ok(cs) => Ok(seq![c] + cs),
                    },
                }
            }
        }),
{
    reveal(csv_from);
}

/// Past the end of the text there are no candles.
pub proof fn lemma_csv_from_end(t: Seq<char>, i: int)
    requires
        i >= t.len(),
    ensures
        csv_from(t, i) == Ok::<Seq<CandleView>, CsvError>(seq![]),
{
    reveal(csv_from);
}

/// Fields joined by commas: the inverse of `fields_from` for fields
/// without commas.
pub open spec fn join_fields(fs: Seq<Seq<char>>) -> Seq<char>
    decreases fs.len(),
{
    if fs.len() == 0 {
        seq![]
    } else if fs.len() == 1 {
        fs[0]
    } else {
        fs[0] + seq![','] + join_fields(fs.drop_first())
    }
}

/// `c` does not occur in `f`.
pub open spec fn lacks(f: Seq<char>, c: char) -> bool {
    forall|k: int| 0 <= k < f.len() ==> f[k] != c
}

proof fn lemma_next_index_at(t: Seq<char>, c: char, i: int, j: int)
    requires
        0 <= i <= j <= t.len(),
        forall|k: int| i <= k < j ==> t[k] != c,
        j < t.len() ==> t[j] == c,
    ensures
        next_index_of(t, c, i) == j,
    decreases j - i,
{
    if i < j {
        lemma_next_index_at(t, c, i + 1, j);
    }
}

proof fn lemma_join_lacks(fs: Seq<Seq<char>>, c: char)
    requires
        c != ',',
        forall|k: int| 0 <= k < fs.len() ==> lacks(#[trigger] fs[k], c),
    ensures
        lacks(join_fields(fs), c),
    decreases fs.len(),
{
    if fs.len() > 1 {
        let rest = fs.drop_first();
        assert forall|k: int| 0 <= k < rest.len() implies lacks(#[trigger] rest[k], c) by {
            assert(rest[k] == fs[k + 1]);
        }
        lemma_join_lacks(rest, c);
        let j = join_fields(fs);
        let f0 = fs[0];
        assert(lacks(f0, c));
        assert forall|k: int| 0 <= k < j.len() implies j[k] != c by {
            if k < f0.len() {
                assert(j[k] == f0[k]);
            } else if k > f0.len() {
                assert(j[k] == join_fields(rest)[k - f0.len() - 1]);
            }
        }
    } else if fs.len() == 1 {
        assert(lacks(fs[0], c));
    }
}

proof fn lemma_fields_of_join(t: Seq<char>, i: int, hi: int, fs: Seq<Seq<char>>)
    requires
        0 <= i <= hi <= t.len(),
        fs.len() >= 1,
        t.subrange(i, hi) == join_fields(fs),
        forall|k: int| 0 <= k < fs.len() ==> lacks(#[trigger] fs[k], ','),
    ensures
        fields_from(t, i, hi) == fs,
    decreases fs.len(),
{
    let u = t.subrange(0, hi);
    let f0 = fs[0];
    assert(lacks(f0, ','));
    if fs.len() == 1 {
        assert forall|k: int| i <= k < hi implies u[k] != ',' by {
            assert(u[k] == t.subrange(i, hi)[k - i]);
        }
        lemma_next_index_at(u, ',', i, hi);
        assert(fs =~= seq![t.subrange(i, hi)]);
    } else {
        let rest = fs.drop_first();
        let j = i + f0.len();
        let whole = join_fields(fs);
        assert(whole == f0 + seq![','] + join_fields(rest));
        assert forall|k: int| i <= k < j implies u[k] != ',' by {
            assert(u[k] == whole[k - i]);
            assert(whole[k - i] == f0[k - i]);
        }
        assert(u[j] == whole[f0.len() as int]);
        lemma_next_index_at(u, ',', i, j);
        assert(t.subrange(j + 1, hi) =~= join_fields(rest)) by {
            assert forall|k: int| 0 <= k < hi - (j + 1) implies t.subrange(j + 1, hi)[k] == join_fields(rest)[k] by {
                assert(t.subrange(j + 1, hi)[k] == whole[f0.len() + 1 + k]);
            }
        }
        assert forall|k: int| 0 <= k < rest.len() implies lacks(#[trigger] rest[k], ',') by {
            assert(rest[k] == fs[k + 1]);
        }
        lemma_fields_of_join(t, j + 1, hi, rest);
        assert(t.subrange(i, j) =~= f0) by {
            assert forall|k: int| 0 <= k < j - i implies t.subrange(i, j)[k] == f0[k] by {
                assert(t.subrange(i, j)[k] == whole[k]);
            }
        }
        assert(fs =~= seq![f0] + rest);
    }
}

/// The eight fields of a candle's CSV line.
pub open spec fn candle_fields(c: CandleView) -> Seq<Seq<char>> {
    seq![
        decimal_chars(c.open_time as nat),
        decimal_chars(c.close_time as nat),
        decimal_display(c.open),
        decimal_display(c.high),
        decimal_display(c.low),
        decimal_display(c.close),
        decimal_display(c.volume),
        decimal_chars(c.trades as nat),
    ]
}

/// `Decimal::from_str` reads the text `Display` writes for `v` back as `v`.
pub open spec fn decimal_writes_back(v: (int, nat)) -> bool {
    decimal_from_str(decimal_display(v)) == Some(v)
}

/// A candle whose CSV line reads back as itself: times and trade count
/// are `u64` values and its decimals write back.
pub open spec fn line_writes_back(c: CandleView) -> bool {
    &&& 0 <= c.open_time <= u64::MAX
    &&& 0 <= c.close_time <= u64::MAX
    &&& 0 <= c.trades <= u64::MAX
    &&& decimal_writes_back(c.open)
    &&& decimal_writes_back(c.high)
    &&& decimal_writes_back(c.low)
    &&& decimal_writes_back(c.close)
    &&& decimal_writes_back(c.volume)
}

proof fn lemma_join_step(fs: Seq<Seq<char>>, k: int)
    requires
        0 <= k < fs.len() - 1,
    ensures
        join_fields(fs.subrange(k, fs.len() as int))
            == fs[k] + seq![','] + join_fields(fs.subrange(k + 1, fs.len() as int)),
{
    assert(fs.subrange(k, fs.len() as int).drop_first() =~= fs.subrange(k + 1, fs.len() as int));
}

proof fn lemma_regroup(p: Seq<char>, f: Seq<char>, j: Seq<char>)
    ensures
        p + seq![','] + f + seq![','] + j == p + seq![','] + (f + seq![','] + j),
{
    assert(p + seq![','] + f + seq![','] + j =~= p + seq![','] + (f + seq![','] + j));
}

proof fn lemma_csv_line_joins(c: CandleView)
    ensures
        csv_line(c) == join_fields(candle_fields(c)) + seq!['\n'],
{
    let fs = candle_fields(c);
    let sep = seq![','];
    let j7 = join_fields(fs.subrange(7, 8));
    assert(j7 == fs[7]) by {
        assert(fs.subrange(7, 8).len() == 1);
    }
    lemma_join_step(fs, 6);
    lemma_join_step(fs, 5);
    lemma_join_step(fs, 4);
    lemma_join_step(fs, 3);
    lemma_join_step(fs, 2);
    lemma_join_step(fs, 1);
    lemma_join_step(fs, 0);
    let j6 = join_fields(fs.subrange(6, 8));
    let j5 = join_fields(fs.subrange(5, 8));
    let j4 = join_fields(fs.subrange(4, 8));
    let j3 = join_fields(fs.subrange(3, 8));
    let j2 = join_fields(fs.subrange(2, 8));
    let j1 = join_fields(fs.subrange(1, 8));
    let j0 = join_fields(fs.subrange(0, 8));
    let p0 = fs[0];
    let p1 = p0 + sep + fs[1];
    let p2 = p1 + sep + fs[2];
    let p3 = p2 + sep + fs[3];
    let p4 = p3 + sep + fs[4];
    let p5 = p4 + sep + fs[5];
    let p6 = p5 + sep + fs[6];
    let p7 = p6 + sep + fs[7];
    lemma_regroup(p5, fs[6], j7);
    lemma_regroup(p4, fs[5], j6);
    lemma_regroup(p3, fs[4], j5);
    lemma_regroup(p2, fs[3], j4);
    lemma_regroup(p1, fs[2], j3);
    lemma_regroup(p0, fs[1], j2);
    assert(p7 == p0 + sep + j1);
    assert(p7 == j0);
    assert(fs.subrange(0, 8) =~= fs);
    assert(csv_line(c) == p7 + seq!['\n']);
}

proof fn lemma_fields_lack(c: CandleView, ch: char)
    requires
        !display_char(ch),
    ensures
        forall|k: int| 0 <= k < candle_fields(c).len() ==> lacks(#[trigger] candle_fields(c)[k], ch),
{
    let fs = candle_fields(c);
    lemma_decimal_chars(c.open_time as nat);
    lemma_decimal_chars(c.close_time as nat);
    lemma_decimal_chars(c.trades as nat);
    lemma_display_chars(c.open);
    lemma_display_chars(c.high);
    lemma_display_chars(c.low);
    lemma_display_chars(c.close);
    lemma_display_chars(c.volume);
    assert forall|k: int| 0 <= k < fs.len() implies lacks(#[trigger] fs[k], ch) by {
        assert forall|m: int| 0 <= m < fs[k].len() implies fs[k][m] != ch by {
            if k == 0 || k == 1 || k == 7 {
                assert(display_char(fs[k][m]));
            } else {
                assert(display_char(fs[k][m]));
            }
        }
    }
}

/// A candle's line, found at `i` in `t`, reads back as the candle.
proof fn lemma_line_reads_back(t: Seq<char>, i: int, c: CandleView)
    requires
        0 <= i,
        i + csv_line(c).len() <= t.len(),
        t.subrange(i, i + csv_line(c).len()) == csv_line(c),
        line_writes_back(c),
    ensures
        next_index_of(t, '\n', i) == i + csv_line(c).len() - 1,
        text_line_stop(t, i) == i + csv_line(c).len() - 1,
        i < text_line_stop(t, i),
        candle_of_fields(fields_from(t, i, text_line_stop(t, i))) == Ok::<CandleView, CsvError>(c),
{
    let fs = candle_fields(c);
    let j = join_fields(fs);
    let line = csv_line(c);
    lemma_csv_line_joins(c);
    let e = i + j.len();
    lemma_fields_lack(c, ',');
    lemma_fields_lack(c, '\n');
    lemma_fields_lack(c, '\r');
    lemma_join_lacks(fs, '\n');
    lemma_join_lacks(fs, '\r');
    lemma_decimal_chars(c.open_time as nat);
    assert(j.len() >= fs[0].len());
    assert forall|k: int| i <= k < e implies t[k] != '\n' by {
        assert(t[k] == line[k - i]);
        assert(line[k - i] == j[k - i]);
    }
    assert(t[e] == line[j.len() as int]);
    lemma_next_index_at(t, '\n', i, e);
    assert(j.len() >= 1);
    assert(t[e - 1] == line[j.len() - 1]);
    assert(line[j.len() - 1] == j[j.len() - 1]);
    assert(t.subrange(i, e) =~= j) by {
        assert forall|k: int| 0 <= k < e - i implies t.subrange(i, e)[k] == j[k] by {
            assert(t.subrange(i, e)[k] == line[k]);
        }
    }
    lemma_fields_of_join(t, i, e, fs);
    lemma_parse_decimal_chars(c.open_time as u64);
    lemma_parse_decimal_chars(c.close_time as u64);
    lemma_parse_decimal_chars(c.trades as u64);
}

proof fn lemma_csv_lines_append(a: Seq<CandleView>, b: Seq<CandleView>)
    ensures
        csv_lines(a + b) == csv_lines(a) + csv_lines(b),
    decreases b.len(),
{
    if b.len() == 0 {
        assert(a + b =~= a);
        assert(csv_lines(a) + csv_lines(b) =~= csv_lines(a));
    } else {
        lemma_csv_lines_append(a, b.drop_last());
        assert((a + b).drop_last() =~= a + b.drop_last());
        assert((a + b).last() == b.last());
        assert(csv_lines(a + b) =~= csv_lines(a) + csv_lines(b));
    }
}

/// One step of reading: a candle's line at `i` gives that candle, then
/// whatever follows the line.
proof fn lemma_csv_from_line(t: Seq<char>, i: int, c: CandleView)
    requires
        0 <= i,
        i + csv_line(c).len() <= t.len(),
        t.subrange(i, i + csv_line(c).len()) == csv_line(c),
        line_writes_back(c),
    ensures
        csv_from(t, i) == match csv_from(t, i + csv_line(c).len()) {
            Ok(cs) => Ok::<Seq<CandleView>, CsvError>(seq![c] + cs),
            Err(err) => Err(err),
        },
{
    lemma_line_reads_back(t, i, c);
    lemma_csv_from_step(t, i);
    if i + csv_line(c).len() == t.len() {
        lemma_csv_from_end(t, t.len() as int);
    }
}

proof fn lemma_csv_from_lines(p: Seq<char>, cs: Seq<CandleView>)
    requires
        forall|k: int| 0 <= k < cs.len() ==> line_writes_back(#[trigger] cs[k]),
    ensures
        csv_from(p + csv_lines(cs), p.len() as int) == Ok::<Seq<CandleView>, CsvError>(cs),
    decreases cs.len(),
{
    let t = p + csv_lines(cs);
    if cs.len() == 0 {
        assert(t =~= p);
        lemma_csv_from_end(t, p.len() as int);
        assert(cs =~= seq![]);
    } else {
        let c0 = cs[0];
        let rest = cs.drop_first();
        let line = csv_line(c0);
        let one = seq![c0];
        assert(cs =~= one + rest);
        lemma_csv_lines_append(one, rest);
        assert(one.drop_last() =~= Seq::<CandleView>::empty());
        assert(csv_lines(one.drop_last()) =~= Seq::<char>::empty());
        assert(one.last() == c0);
        assert(csv_lines(one) =~= line);
        let p2 = p + line;
        assert(t =~= p2 + csv_lines(rest));
        assert forall|k: int| 0 <= k < rest.len() implies line_writes_back(#[trigger] rest[k]) by {
            assert(rest[k] == cs[k + 1]);
        }
        lemma_csv_from_lines(p2, rest);
        let i = p.len() as int;
        assert(t.subrange(i, i + line.len()) =~= line);
        assert(line_writes_back(c0));
        lemma_csv_from_line(t, i, c0);
    }
}

/// Candle CSV text reads back as the candles it was written from, in
/// order, when every candle's decimals write back (which `Display` and
/// `Decimal::from_str` guarantee for every decimal the library holds).
pub proof fn law_csv_round_trip(cs: Seq<CandleView>)
    requires
        forall|k: int| 0 <= k < cs.len() ==> line_writes_back(#[trigger] cs[k]),
    ensures
        csv_records(csv_text(cs)) == Ok::<Seq<CandleView>, CsvError>(cs),
{
    let h = csv_header();
    let t = csv_text(cs);
    reveal_strlit("open_time,close_time,open,high,low,close,volume,trades\n");
    assert(t =~= h + csv_lines(cs));
    assert forall|k: int| 0 <= k < h.len() - 1 implies t[k] != '\n' by {
        assert(t[k] == h[k]);
    }
    lemma_next_index_at(t, '\n', 0, h.len() - 1);
    lemma_csv_from_lines(h, cs);
}

/// Consolidated files match direct builds: time-ordered trades built
/// into candles at a small interval, written as CSV and read back, come
/// back in strictly increasing open time, and consolidate to exactly the
/// candles built directly at a multiple of that interval (for trades of
/// non-negative size with exact volume sums, whose candles' decimals
/// write back).
pub proof fn law_consolidated_file_matches_direct_build(ts: Seq<TradeView>, small: int, big: int)
    requires
        small > 0,
        big > 0,
        big % small == 0,
        sizes_nonnegative(ts),
        sums_exact(ts, small, big),
        sorted_by_time(ts),
        forall|k: int| 0 <= k < aggregate_spec(ts, small).len()
            ==> line_writes_back(#[trigger] aggregate_spec(ts, small)[k]),
    ensures
        csv_records(csv_text(aggregate_spec(ts, small))) matches Ok(cs)
            && (forall|i: int, j: int| 0 <= i < j < cs.len() ==> cs[i].open_time < cs[j].open_time)
            && consolidate_spec(cs, big) == aggregate_spec(ts, big),
{
    law_csv_round_trip(aggregate_spec(ts, small));
    law_aggregate_sorted_open_times(ts, small);
    law_consolidate_matches_direct_build(ts, small, big);
}

/// `p` is a range of `t` below `hi` holding `f`.
pub open spec fn range_holds(t: Seq<char>, p: (usize, usize), f: Seq<char>, hi: usize) -> bool {
    p.0 <= p.1 <= hi && t.subrange(p.0 as int, p.1 as int) == f
}

fn line_fields(t: &Vec<char>, lo: usize, hi: usize) -> (r: Vec<(usize, usize)>)
    requires
        lo <= hi <= t@.len(),
    ensures
        r@.len() == fields_from(t@, lo as int, hi as int).len(),
        forall|k: int| 0 <= k < r@.len() ==> range_holds(t@, #[trigger] r@[k], fields_from(t@, lo as int, hi as int)[k], hi),
{
    let ghost whole = fields_from(t@, lo as int, hi as int);
    let ghost th = t@.subrange(0, hi as int);
    let mut r: Vec<(usize, usize)> = Vec::new();
    let mut i = lo;
    loop
        invariant
            lo <= i <= hi <= t@.len(),
            th == t@.subrange(0, hi as int),
            whole == fields_from(t@, lo as int, hi as int),
            r@.len() + fields_from(t@, i as int, hi as int).len() == whole.len(),
            forall|k: int| 0 <= k < r@.len() ==> range_holds(t@, #[trigger] r@[k], whole[k], hi),
            forall|k: int| 0 <= k < fields_from(t@, i as int, hi as int).len()
                ==> fields_from(t@, i as int, hi as int)[k] == whole[r@.len() + k],
        decreases hi - i,
    {
        let mut j = i;
        while j < hi && t[j] != ','
            invariant
                i <= j <= hi <= t@.len(),
                th == t@.subrange(0, hi as int),
                next_index_of(th, ',', i as int) == next_index_of(th, ',', j as int),
            decreases hi - j,
        {
            j = j + 1;
        }
        assert(j == next_index_of(th, ',', i as int));
        let ghost here = fields_from(t@, i as int, hi as int);
        if j >= hi {
            assert(here == seq![t@.subrange(i as int, hi as int)]);
            assert(here[0] == whole[r@.len() as int]);
            let ghost old_r = r@;
            r.push((i, hi));
            assert forall|k: int| 0 <= k < r@.len() implies range_holds(t@, #[trigger] r@[k], whole[k], hi) by {
                if k < old_r.len() {
                    assert(r@[k] == old_r[k]);
                } else {
                    assert(k == old_r.len());
                    assert(r@[k] == (i, hi));
                    assert(t@.subrange(i as int, hi as int) == here[0]);
                }
            }
            return r;
        }
        proof {
            lemma_next_index_of_bounds(th, ',', i as int);
        }
        assert(here == seq![t@.subrange(i as int, j as int)] + fields_from(t@, j + 1, hi as int));
        assert(here[0] == whole[r@.len() as int]);
        let ghost old_r = r@;
        r.push((i, j));
        assert forall|k: int| 0 <= k < r@.len() implies range_holds(t@, #[trigger] r@[k], whole[k], hi) by {
            if k < old_r.len() {
                assert(r@[k] == old_r[k]);
            } else {
                assert(k == old_r.len());
                assert(r@[k] == (i, j));
                assert(t@.subrange(i as int, j as int) == here[0]);
            }
        }
        let ghost nxt = fields_from(t@, j + 1, hi as int);
        assert forall|k: int| 0 <= k < nxt.len()
            implies #[trigger] nxt[k] == whole[r@.len() + k] by {
            assert(nxt[k] == here[k + 1]);
        }
        i = j + 1;
    }
}

fn decimal_of(t: &Vec<char>, lo: usize, hi: usize) -> (r: Option<Decimal>)
    requires
        lo <= hi <= t@.len(),
    ensures
        match r {
            Some(d) => decimal_field(t@.subrange(lo as int, hi as int)) == Some(d@),
            None => decimal_field(t@.subrange(lo as int, hi as int)) is None,
        },
{
    let text = chars_to_string(vstd::slice::slice_subrange(t.as_slice(), lo, hi));
    Decimal::parse(text.as_str())
}

fn candle_of_line(t: &Vec<char>, lo: usize, hi: usize) -> (r: Result<Candle, CsvError>)
    requires
        lo <= hi <= t@.len(),
    ensures
        match candle_of_fields(fields_from(t@, lo as int, hi as int)) {
            Ok(c) => r matches Ok(x) && x@ == c,
            Err(e) => r == Err::<Candle, CsvError>(e),
        },
{
    let f = line_fields(t, lo, hi);
    let ghost fs = fields_from(t@, lo as int, hi as int);
    if f.len() != 8 {
        return Err(CsvError::FieldCount);
    }
    assert(range_holds(t@, f@[0], fs[0], hi));
    assert(range_holds(t@, f@[1], fs[1], hi));
    assert(range_holds(t@, f@[2], fs[2], hi));
    assert(range_holds(t@, f@[3], fs[3], hi));
    assert(range_holds(t@, f@[4], fs[4], hi));
    assert(range_holds(t@, f@[5], fs[5], hi));
    assert(range_holds(t@, f@[6], fs[6], hi));
    assert(range_holds(t@, f@[7], fs[7], hi));
    let open_time = parse_u64(t, f[0].0, f[0].1);
    let close_time = parse_u64(t, f[1].0, f[1].1);
    let trades = parse_u64(t, f[7].0, f[7].1);
    let (open_time, close_time, trades) = match (open_time, close_time, trades) {
        (Some(a), Some(b), Some(c)) => (a, b, c),
        _ => return Err(CsvError::Number),
    };
    let open = decimal_of(t, f[2].0, f[2].1);
    let high = decimal_of(t, f[3].0, f[3].1);
    let low = decimal_of(t, f[4].0, f[4].1);
    let close = decimal_of(t, f[5].0, f[5].1);
    let volume = decimal_of(t, f[6].0, f[6].1);
    match (open, high, low, close, volume) {
        (Some(open), Some(high), Some(low), Some(close), Some(volume)) => Ok(Candle {
            open_time,
            close_time,
            open,
            high,
            low,
            close,
            volume,
            trades,
        }),
        _ => Err(CsvError::Decimal),
    }
}

/// Reads the candles of a CSV file's text (see `csv_records`).
pub fn parse_candles_csv(text: &str) -> (r: Result<Vec<Candle>, CsvError>)
    ensures
        match csv_records(text@) {
            Ok(cs) => r matches Ok(v) && candles_view(v@) == cs,
            Err(e) => r == Err::<Vec<Candle>, CsvError>(e),
        },
{
    let t = to_chars(text);
    let n = t.len();
    let mut h: usize = 0;
    while h < n && t[h] != '\n'
        invariant
            h <= n,
            n == t@.len(),
            next_index_of(t@, '\n', 0) == next_index_of(t@, '\n', h as int),
        decreases n - h,
    {
        h = h + 1;
    }
    if h >= n {
        let v: Vec<Candle> = Vec::new();
        assert(candles_view(v@) =~= seq![]);
        return Ok(v);
    }
    let ghost start = h + 1;
    let mut out: Vec<Candle> = Vec::new();
    let mut pos: usize = h + 1;
    while pos < n
        invariant
            n == t@.len(),
            pos <= n,
            t@ == text@,
            csv_records(t@) == csv_from(t@, start),
            csv_from(t@, start) == match csv_from(t@, pos as int) {
                Ok(rest) => Ok::<Seq<CandleView>, CsvError>(candles_view(out@) + rest),
                Err(e) => Err(e),
            },
        decreases n - pos,
    {
        let mut e = pos;
        while e < n && t[e] != '\n'
            invariant
                pos <= e <= n,
                n == t@.len(),
                next_index_of(t@, '\n', pos as int) == next_index_of(t@, '\n', e as int),
            decreases n - e,
        {
            e = e + 1;
        }
        assert(e == next_index_of(t@, '\n', pos as int));
        let stop = if e < n && e > pos && t[e - 1] == '\r' { e - 1 } else { e };
        let ghost rest = if e < n { csv_from(t@, e + 1) } else { Ok(seq![]) };
        proof {
            lemma_csv_from_step(t@, pos as int);
            if e == n {
                lemma_csv_from_end(t@, n as int);
            }
        }
        if stop > pos {
            match candle_of_line(&t, pos, stop) {
                Err(err) => return Err(err),
                Ok(c) => {
                    let ghost before = out@;
                    out.push(c);
                    proof {
                        assert(candles_view(out@) =~= candles_view(before).push(c@));
                        match rest {
                            Ok(cs) => {
                                assert(candles_view(before) + (seq![c@] + cs) =~= candles_view(out@) + cs);
                            },
                            Err(_) => {},
                        }
                    }
                },
            }
        }
        pos = if e < n { e + 1 } else { n };
    }
    proof {
        lemma_csv_from_end(t@, pos as int);
        assert(candles_view(out@) + seq![] =~= candles_view(out@));
    }
    Ok(out)
}

/// The data rows of several days' candle files, in day order.
pub open spec fn days_rows(days: Seq<Seq<TradeView>>, interval: int) -> Seq<char>
    decreases days.len(),
{
    if days.len() == 0 {
        seq![]
    } else {
        days_rows(days.drop_last(), interval) + csv_lines(aggregate_spec(days.last(), interval))
    }
}

proof fn lemma_days_rows(days: Seq<Seq<TradeView>>, interval: int)
    ensures
        csv_lines(days_candles(days, interval)) == days_rows(days, interval),
    decreases days.len(),
{
    if days.len() > 0 {
        lemma_days_rows(days.drop_last(), interval);
        lemma_csv_lines_append(days_candles(days.drop_last(), interval), aggregate_spec(days.last(), interval));
    }
}

/// A consolidated file over several days matches the days' direct
/// builds: for days apart (each time-ordered, with trades of
/// non-negative size and exact volume sums), each day's file built at a
/// small interval reads back as that day's candles; those candles in
/// date order have strictly increasing open times, so sorting them
/// leaves them as they are; consolidated to a multiple of the small
/// interval that divides the day they are the candles built directly at
/// that multiple, and the consolidated file's data rows are the rows of
/// the directly built day files, in date order.
pub proof fn law_consolidated_days_file_matches_direct_build(days: Seq<Seq<TradeView>>, small: int, big: int)
    requires
        small > 0,
        big > 0,
        big % small == 0,
        day_ms() % big == 0,
        days_apart(days, day_ms()),
        forall|d: int| 0 <= d < days.len() ==> {
            &&& sorted_by_time(#[trigger] days[d])
            &&& sizes_nonnegative(days[d])
            &&& sums_exact(days[d], small, big)
        },
        forall|d: int, k: int| 0 <= d < days.len() && 0 <= k < aggregate_spec(days[d], small).len()
            ==> line_writes_back(#[trigger] aggregate_spec(days[d], small)[k]),
    ensures
        forall|d: int| 0 <= d < days.len() ==> csv_records(csv_text(#[trigger] aggregate_spec(days[d], small)))
            == Ok::<Seq<CandleView>, CsvError>(aggregate_spec(days[d], small)),
        open_times_increasing(days_candles(days, small)),
        consolidate_spec(days_candles(days, small), big) == days_candles(days, big),
        csv_lines(consolidate_spec(days_candles(days, small), big)) == days_rows(days, big),
{
    assert forall|d: int| 0 <= d < days.len() implies csv_records(csv_text(#[trigger] aggregate_spec(days[d], small)))
        == Ok::<Seq<CandleView>, CsvError>(aggregate_spec(days[d], small)) by {
        let cs = aggregate_spec(days[d], small);
        assert forall|k: int| 0 <= k < cs.len() implies line_writes_back(#[trigger] cs[k]) by {
            assert(line_writes_back(aggregate_spec(days[d], small)[k]));
        }
        law_csv_round_trip(cs);
    }
    let k = day_ms() / big;
    let m = big / small;
    lemma_fundamental_div_mod(day_ms(), big);
    lemma_fundamental_div_mod(big, small);
    assert(day_ms() == (k * m) * small) by (nonlinear_arith)
        requires
            day_ms() == big * k + day_ms() % big,
            day_ms() % big == 0,
            big == small * m + big % small,
            big % small == 0;
    lemma_mod_multiples_basic(k * m, small);
    assert(day_ms() % small == 0);
    law_days_candles_increasing(days, small, day_ms());
    law_days_consolidate_to_direct_build(days, small, big, day_ms());
    lemma_days_rows(days, big);
}

/// The header names the eight columns, in order: `open_time`,
/// `close_time`, `open`, `high`, `low`, `close`, `volume`, `trades`.
pub proof fn law_csv_header_columns()
    ensures
        csv_header().last() == '\n',
        fields_from(csv_header(), 0, csv_header().len() - 1) == seq![
            "open_time"@, "close_time"@, "open"@, "high"@, "low"@, "close"@, "volume"@, "trades"@,
        ],
{
    reveal_strlit("open_time,close_time,open,high,low,close,volume,trades\n");
    reveal_strlit("open_time");
    reveal_strlit("close_time");
    reveal_strlit("open");
    reveal_strlit("high");
    reveal_strlit("low");
    reveal_strlit("close");
    reveal_strlit("volume");
    reveal_strlit("trades");
    let names = seq!["open_time"@, "close_time"@, "open"@, "high"@, "low"@, "close"@, "volume"@, "trades"@];
    let h = csv_header();
    let hi = h.len() - 1;
    reveal_with_fuel(join_fields, 9);
    assert(h.subrange(0, hi) =~= join_fields(names));
    assert forall|k: int| 0 <= k < names.len() implies lacks(#[trigger] names[k], ',') by {
        assert forall|m: int| 0 <= m < names[k].len() implies names[k][m] != ',' by {
            if k == 0 {} else if k == 1 {} else if k == 2 {} else if k == 3 {} else if k == 4 {}
            else if k == 5 {} else if k == 6 {} else {}
        }
    }
    lemma_fields_of_join(h, 0, hi, names);
}

/// Every value is written under the header column that names it: the
/// fields of a candle's line are, in order, its open time, close time,
/// open, high, low, close, volume and trade count (see
/// `law_csv_header_columns`), and the line ends with a newline.
pub proof fn law_csv_line_columns(c: CandleView)
    ensures
        csv_line(c).last() == '\n',
        fields_from(csv_line(c), 0, csv_line(c).len() - 1) == seq![
            decimal_chars(c.open_time as nat),
            decimal_chars(c.close_time as nat),
            decimal_display(c.open),
            decimal_display(c.high),
            decimal_display(c.low),
            decimal_display(c.close),
            decimal_display(c.volume),
            decimal_chars(c.trades as nat),
        ],
{
    let fs = candle_fields(c);
    lemma_csv_line_joins(c);
    lemma_fields_lack(c, ',');
    let t = csv_line(c);
    let hi = t.len() - 1;
    assert(t.subrange(0, hi) =~= join_fields(fs));
    lemma_fields_of_join(t, 0, hi, fs);
}

/// Every value is read from the header column that names it: a data
/// line whose eight fields parse gives the candle whose open time, close
/// time, open, high, low, close, volume and trade count are the values of
/// fields 0 to 7 (see `law_csv_header_columns`).
pub proof fn law_csv_reads_columns(f: Seq<Seq<char>>)
    requires
        f.len() == 8,
        parse_u64_spec(f[0]) is Some,
        parse_u64_spec(f[1]) is Some,
        parse_u64_spec(f[7]) is Some,
        decimal_from_str(f[2]) is Some,
        decimal_from_str(f[3]) is Some,
        decimal_from_str(f[4]) is Some,
        decimal_from_str(f[5]) is Some,
        decimal_from_str(f[6]) is Some,
    ensures
        candle_of_fields(f) matches Ok(c) && {
            &&& c.open_time == parse_u64_spec(f[0])->0
            &&& c.close_time == parse_u64_spec(f[1])->0
            &&& c.open == decimal_from_str(f[2])->0
            &&& c.high == decimal_from_str(f[3])->0
            &&& c.low == decimal_from_str(f[4])->0
            &&& c.close == decimal_from_str(f[5])->0
            &&& c.volume == decimal_from_str(f[6])->0
            &&& c.trades == parse_u64_spec(f[7])->0
        },
{
}

} // verus!
